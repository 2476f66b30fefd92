use vstd::prelude::*;

use crate::text::{char_views, split_on};

verus! {

/// The character classes that the password rules look for.
#[derive(Clone, Copy)]
pub enum CharClass {
    /// `a e i o u` in either case.
    Vowel,
    /// `0`..`9`.
    AsciiDigit,
    /// `a`..`z`.
    AsciiLower,
    /// `A`..`Z`.
    AsciiUpper,
}

pub open spec fn in_class(k: CharClass, c: char) -> bool {
    match k {
        CharClass::Vowel => c == 'a' || c == 'e' || c == 'i' || c == 'o' || c == 'u' || c == 'A'
            || c == 'E' || c == 'I' || c == 'O' || c == 'U',
        CharClass::AsciiDigit => '0' <= c && c <= '9',
        CharClass::AsciiLower => 'a' <= c && c <= 'z',
        CharClass::AsciiUpper => 'A' <= c && c <= 'Z',
    }
}

pub fn class_contains(k: CharClass, c: char) -> (res: bool)
    ensures
        res == in_class(k, c),
{
    match k {
        CharClass::Vowel => c == 'a' || c == 'e' || c == 'i' || c == 'o' || c == 'u' || c == 'A'
            || c == 'E' || c == 'I' || c == 'O' || c == 'U',
        CharClass::AsciiDigit => '0' <= c && c <= '9',
        CharClass::AsciiLower => 'a' <= c && c <= 'z',
        CharClass::AsciiUpper => 'A' <= c && c <= 'Z',
    }
}

/// How many characters of `s` are in class `k`.
pub open spec fn count_in(s: Seq<char>, k: CharClass) -> nat
    decreases s.len(),
{
    if s.len() == 0 {
        0
    } else {
        count_in(s.drop_last(), k) + if in_class(k, s.last()) { 1nat } else { 0nat }
    }
}

/// Some character of `s` is in class `k`.
pub open spec fn any_in(s: Seq<char>, k: CharClass) -> bool {
    exists|i: int| 0 <= i < s.len() && in_class(k, #[trigger] s[i])
}

/// Some line of `s` (a piece between newlines) holds at least `n` characters
/// of class `k`: what `(.*[class].*){n,}` finds, as `.` stops at a newline.
pub open spec fn some_line_counts(s: Seq<char>, k: CharClass, n: nat) -> bool {
    let lines = split_on(s, '\n');
    exists|j: int| 0 <= j < lines.len() && count_in(#[trigger] lines[j], k) >= n
}

pub fn count_class(v: &Vec<char>, k: CharClass) -> (res: usize)
    ensures
        res == count_in(v@, k),
{
    let mut n: usize = 0;
    let mut i: usize = 0;
    while i < v.len()
        invariant
            i <= v.len(),
            n == count_in(v@.take(i as int), k),
            n <= i,
        decreases v.len() - i,
    {
        assert(v@.take(i + 1).drop_last() =~= v@.take(i as int));
        if class_contains(k, v[i]) {
            n = n + 1;
        }
        i = i + 1;
    }
    assert(v@.take(v.len() as int) =~= v@);
    n
}

pub fn any_class(v: &Vec<char>, k: CharClass) -> (res: bool)
    ensures
        res == any_in(v@, k),
{
    let mut i: usize = 0;
    while i < v.len()
        invariant
            i <= v.len(),
            forall|j: int| 0 <= j < i ==> !in_class(k, #[trigger] v@[j]),
        decreases v.len() - i,
    {
        if class_contains(k, v[i]) {
            return true;
        }
        i = i + 1;
    }
    false
}

/// Whether one of `lines` holds at least `n` characters of class `k`.
pub fn some_line_counts_exec(lines: &Vec<Vec<char>>, k: CharClass, n: usize) -> (res: bool)
    ensures
        res == exists|j: int|
            0 <= j < lines@.len() && count_in(#[trigger] char_views(lines@)[j], k) >= n,
{
    let mut j: usize = 0;
    while j < lines.len()
        invariant
            j <= lines.len(),
            forall|l: int| 0 <= l < j ==> count_in(#[trigger] char_views(lines@)[l], k) < n,
        decreases lines.len() - j,
    {
        if count_class(&lines[j], k) >= n {
            assert(char_views(lines@)[j as int] == lines@[j as int]@);
            return true;
        }
        j = j + 1;
    }
    false
}

/// `pos` lists, in increasing order, positions of `t` that spell out `p`.
pub open spec fn embedding(p: Seq<char>, t: Seq<char>, pos: Seq<int>) -> bool {
    &&& pos.len() == p.len()
    &&& forall|i: int| 0 <= i < pos.len() ==> 0 <= #[trigger] pos[i] < t.len() && t[pos[i]] == p[i]
    &&& forall|i: int, j: int| 0 <= i < j < pos.len() ==> #[trigger] pos[i] < #[trigger] pos[j]
}

/// `p` occurs in `t` as a subsequence: its characters appear in `t` in order,
/// with anything in between.
pub open spec fn is_subsequence(p: Seq<char>, t: Seq<char>) -> bool {
    exists|pos: Seq<int>| embedding(p, t, pos)
}

/// Whether `p` occurs in `t` as a subsequence, by matching greedily.
pub fn subsequence_exec(p: &Vec<char>, t: &Vec<char>) -> (res: bool)
    ensures
        res == is_subsequence(p@, t@),
{
    let mut k: usize = 0;
    let mut i: usize = 0;
    let ghost mut w: Seq<int> = Seq::empty();
    assert(embedding(p@.take(0), t@.take(0), w));
    assert forall|m: int, pos: Seq<int>|
        0 <= m <= p.len() && #[trigger] embedding(p@.take(m), t@.take(0), pos) implies m <= 0 by {
        if m > 0 {
            assert(0 <= pos[0] < t@.take(0).len());
        }
    }
    while i < t.len()
        invariant
            i <= t.len(),
            k <= p.len(),
            embedding(p@.take(k as int), t@.take(i as int), w),
            forall|m: int, pos: Seq<int>|
                0 <= m <= p.len() && #[trigger] embedding(p@.take(m), t@.take(i as int), pos)
                    ==> m <= k,
        decreases t.len() - i,
    {
        let ghost old_k = k;
        let ghost old_w = w;
        if k < p.len() && t[i] == p[k] {
            proof {
                w = w.push(i as int);
                assert(embedding(p@.take(k + 1), t@.take(i + 1), w)) by {
                    assert forall|a: int| 0 <= a < w.len() implies 0 <= #[trigger] w[a] < t@.take(
                        i + 1,
                    ).len() && t@.take(i + 1)[w[a]] == p@.take(k + 1)[a] by {
                        if a < old_w.len() {
                            assert(old_w[a] < i);
                        }
                    }
                    assert forall|a: int, b: int| 0 <= a < b < w.len() implies #[trigger] w[a]
                        < #[trigger] w[b] by {
                        if b < old_w.len() {
                        } else {
                            assert(old_w[a] < i);
                        }
                    }
                }
            }
            k = k + 1;
        } else {
            proof {
                assert(embedding(p@.take(k as int), t@.take(i + 1), w)) by {
                    assert forall|a: int| 0 <= a < w.len() implies 0 <= #[trigger] w[a] < t@.take(
                        i + 1,
                    ).len() && t@.take(i + 1)[w[a]] == p@.take(k as int)[a] by {
                        assert(w[a] < i);
                    }
                }
            }
        }
        proof {
            assert forall|m: int, pos: Seq<int>|
                0 <= m <= p.len() && #[trigger] embedding(p@.take(m), t@.take(i + 1), pos)
                implies m <= k by {
                if m > 0 {
                    let last = pos[m - 1];
                    if last < i {
                        assert(embedding(p@.take(m), t@.take(i as int), pos)) by {
                            assert forall|a: int| 0 <= a < pos.len() implies 0 <= #[trigger] pos[a]
                                < t@.take(i as int).len() && t@.take(i as int)[pos[a]] == p@.take(
                                m,
                            )[a] by {
                                if a < m - 1 {
                                    assert(pos[a] < pos[m - 1]);
                                }
                            }
                        }
                    } else {
                        let prev = pos.drop_last();
                        assert(embedding(p@.take(m - 1), t@.take(i as int), prev)) by {
                            assert forall|a: int| 0 <= a < prev.len() implies 0 <= #[trigger] prev[a]
                                < t@.take(i as int).len() && t@.take(i as int)[prev[a]] == p@.take(
                                m - 1,
                            )[a] by {
                                assert(pos[a] < pos[m - 1]);
                                assert(prev[a] == pos[a]);
                            }
                            assert forall|a: int, b: int| 0 <= a < b < prev.len() implies #[trigger] prev[a]
                                < #[trigger] prev[b] by {
                                assert(prev[a] == pos[a]);
                                assert(prev[b] == pos[b]);
                            }
                        }
                        assert(m - 1 <= old_k);
                        if m - 1 == old_k {
                            assert(t@[i as int] == p@[old_k as int]);
                        }
                    }
                }
            }
        }
        i = i + 1;
    }
    proof {
        assert(t@.take(t.len() as int) =~= t@);
        assert(p@.take(p.len() as int) =~= p@);
        if is_subsequence(p@, t@) {
            let pos = choose|pos: Seq<int>| embedding(p@, t@, pos);
            assert(embedding(p@.take(p.len() as int), t@.take(i as int), pos));
        }
        if k == p.len() {
            assert(embedding(p@, t@, w));
        }
    }
    k == p.len()
}

/// The maximal runs of consecutive marked characters among the first `n`
/// characters of `s`, in order; `m[i]` marks `s[i]`.
pub open spec fn marked_runs(s: Seq<char>, m: Seq<bool>, n: int) -> Seq<Seq<char>>
    decreases n,
{
    if n <= 0 {
        Seq::empty()
    } else {
        let r = marked_runs(s, m, n - 1);
        if !m[n - 1] {
            r
        } else if n >= 2 && m[n - 2] {
            r.update(r.len() - 1, r.last().push(s[n - 1]))
        } else {
            r.push(seq![s[n - 1]])
        }
    }
}

proof fn lemma_marked_runs_nonempty(s: Seq<char>, m: Seq<bool>, n: int)
    requires
        n >= 1,
        m[n - 1],
    ensures
        marked_runs(s, m, n).len() >= 1,
    decreases n,
{
    if n >= 2 && m[n - 2] {
        lemma_marked_runs_nonempty(s, m, n - 1);
    }
}

/// The maximal runs of marked characters of `s`.
pub fn runs_of_marked(s: &Vec<char>, m: &Vec<bool>) -> (res: Vec<Vec<char>>)
    requires
        s.len() == m.len(),
    ensures
        char_views(res@) == marked_runs(s@, m@, s.len() as int),
{
    let mut runs: Vec<Vec<char>> = Vec::new();
    let mut cur: Vec<char> = Vec::new();
    let mut in_run = false;
    let mut i: usize = 0;
    assert(char_views(runs@) =~= marked_runs(s@, m@, 0));
    while i < s.len()
        invariant
            i <= s.len(),
            s.len() == m.len(),
            in_run == (i > 0 && m@[i - 1]),
            in_run ==> char_views(runs@).push(cur@) =~= marked_runs(s@, m@, i as int),
            !in_run ==> char_views(runs@) =~= marked_runs(s@, m@, i as int),
        decreases s.len() - i,
    {
        let c = s[i];
        let ghost old_runs = char_views(runs@);
        let ghost old_cur = cur@;
        if m[i] {
            if in_run {
                cur.push(c);
                proof {
                    lemma_marked_runs_nonempty(s@, m@, i as int);
                }
            } else {
                cur = Vec::new();
                cur.push(c);
                in_run = true;
                assert(cur@ =~= seq![c]);
            }
        } else if in_run {
            let done = cur;
            runs.push(done);
            cur = Vec::new();
            in_run = false;
            assert(char_views(runs@) =~= old_runs.push(old_cur));
        }
        i = i + 1;
    }
    if in_run {
        let ghost old_runs = char_views(runs@);
        let ghost old_cur = cur@;
        runs.push(cur);
        assert(char_views(runs@) =~= old_runs.push(old_cur));
    }
    runs
}

/// `c` is an ASCII letter.
pub open spec fn is_ascii_letter(c: char) -> bool {
    ('a' <= c && c <= 'z') || ('A' <= c && c <= 'Z')
}

/// The ASCII letters of `s`, in order.
pub open spec fn ascii_letters(s: Seq<char>) -> Seq<char>
    decreases s.len(),
{
    if s.len() == 0 {
        Seq::empty()
    } else if is_ascii_letter(s.last()) {
        ascii_letters(s.drop_last()).push(s.last())
    } else {
        ascii_letters(s.drop_last())
    }
}

pub fn ascii_letters_exec(s: &Vec<char>) -> (res: Vec<char>)
    ensures
        res@ == ascii_letters(s@),
{
    let mut res: Vec<char> = Vec::new();
    let mut i: usize = 0;
    while i < s.len()
        invariant
            i <= s.len(),
            res@ == ascii_letters(s@.take(i as int)),
        decreases s.len() - i,
    {
        assert(s@.take(i + 1).drop_last() =~= s@.take(i as int));
        let c = s[i];
        if ('a' <= c && c <= 'z') || ('A' <= c && c <= 'Z') {
            res.push(c);
        }
        i = i + 1;
    }
    assert(s@.take(s.len() as int) =~= s@);
    res
}

/// What the search for `([a-zA-Z]){2}` visits: scanning from the left, each
/// pair of adjacent ASCII letters is taken as a match and the scan resumes
/// after it; the result tells whether one of those pairs is a doubled letter.
pub open spec fn doubled_pair_scan(s: Seq<char>) -> bool
    decreases s.len(),
{
    if s.len() < 2 {
        false
    } else if is_ascii_letter(s[0]) && is_ascii_letter(s[1]) {
        s[0] == s[1] || doubled_pair_scan(s.skip(2))
    } else {
        doubled_pair_scan(s.skip(1))
    }
}

pub fn doubled_pair_scan_exec(s: &Vec<char>) -> (res: bool)
    ensures
        res == doubled_pair_scan(s@),
{
    let mut i: usize = 0;
    assert(s@.skip(0) =~= s@);
    while s.len() - i >= 2
        invariant
            i <= s.len(),
            doubled_pair_scan(s@) == doubled_pair_scan(s@.skip(i as int)),
        decreases s.len() - i,
    {
        let a = s[i];
        let b = s[i + 1];
        let ghost rest = s@.skip(i as int);
        assert(rest[0] == a && rest[1] == b);
        if (('a' <= a && a <= 'z') || ('A' <= a && a <= 'Z')) && (('a' <= b && b <= 'z') || (
        'A' <= b && b <= 'Z')) {
            if a == b {
                return true;
            }
            assert(rest.skip(2) =~= s@.skip(i + 2));
            i = i + 2;
        } else {
            assert(rest.skip(1) =~= s@.skip(i + 1));
            i = i + 1;
        }
    }
    false
}

} // verus!
