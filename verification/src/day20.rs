use vstd::prelude::*;

verus! {

// ---------------------------------------------------------------------------
// Archive statistics.
// ---------------------------------------------------------------------------

/// What walking the entries of a tar archive with the `tar` crate yields:
/// `Some(size)` for each entry that it reads, `None` for a read error.
pub uninterp spec fn spec_tar_entries(archive: Seq<u8>) -> Seq<Option<u64>>;

/// Walks `tar::Archive::new(..).entries()` over the archive bytes, keeping the
/// size of each entry and `None` for each error. The contract claims only
/// that the result is the named walk.
#[verifier::external_body]
fn tar_entry_sizes(archive: &[u8]) -> (res: Vec<Option<u64>>)
    ensures
        res@ == spec_tar_entries(archive@),
{
    let mut sizes = Vec::new();
    for entry in tar::Archive::new(std::io::Cursor::new(archive)).entries().expect(
        "Could not Parse Archive",
    ) {
        sizes.push(entry.ok().map(|e| e.size()));
    }
    sizes
}

/// The total size of the entries that were read, as a `u64` sum wraps.
pub open spec fn entries_size(entries: Seq<Option<u64>>) -> nat
    decreases entries.len(),
{
    if entries.len() == 0 {
        0
    } else {
        entries_size(entries.drop_last()) + match entries.last() {
            Some(s) => s as nat,
            None => 0,
        }
    }
}

/// How many entries (and read errors) the archive yields.
pub fn get_archive_files(archive: &[u8]) -> (res: usize)
    ensures
        res == spec_tar_entries(archive@).len(),
{
    tar_entry_sizes(archive).len()
}

/// The total size of the entries of the archive, modulo 2^64.
pub fn get_archive_files_size(archive: &[u8]) -> (res: u64)
    ensures
        res == entries_size(spec_tar_entries(archive@)) % 0x1_0000_0000_0000_0000,
{
    let sizes = tar_entry_sizes(archive);
    let mut total: u64 = 0;
    let mut i: usize = 0;
    while i < sizes.len()
        invariant
            i <= sizes@.len(),
            total == entries_size(sizes@.take(i as int)) % 0x1_0000_0000_0000_0000,
        decreases sizes@.len() - i,
    {
        assert(sizes@.take(i + 1).drop_last() =~= sizes@.take(i as int));
        match sizes[i] {
            Some(s) => {
                total = ((total as u128 + s as u128) % 0x1_0000_0000_0000_0000) as u64;
            },
            None => {},
        }
        i = i + 1;
    }
    assert(sizes@.take(sizes@.len() as int) =~= sizes@);
    total
}

// ---------------------------------------------------------------------------
// Finding the cookie in a commit history.
// ---------------------------------------------------------------------------

/// One commit: whether one of its `santa.txt` files mentions the cookie, and
/// the positions of its parents in the graph.
pub struct CommitNode {
    pub has_cookie: bool,
    pub parents: Vec<usize>,
}

/// A commit history, each commit listed before its parents.
pub struct CommitGraph {
    pub nodes: Vec<CommitNode>,
}

/// The graph as plain values.
pub open spec fn graph_view(g: &CommitGraph) -> Seq<(bool, Seq<usize>)> {
    Seq::new(g.nodes@.len(), |i: int| (g.nodes@[i].has_cookie, g.nodes@[i].parents@))
}

/// Every parent is listed after its child.
pub open spec fn parents_after(g: Seq<(bool, Seq<usize>)>) -> bool {
    forall|i: int, k: int|
        0 <= i < g.len() && 0 <= k < g[i].1.len() ==> i < #[trigger] g[i].1[k] < g.len()
}

/// The search from commit `c`, reached `count` steps from the start: the commit
/// itself if it has the cookie; otherwise, among its parents, the first result
/// with the least count; a commit without parents gives `(0, None)`.
pub open spec fn find_cookie(g: Seq<(bool, Seq<usize>)>, count: nat, c: int) -> (nat, Option<usize>)
    decreases g.len() - c, 1int, 0int,
{
    if !(0 <= c < g.len()) {
        (0, None)
    } else if g[c].0 {
        (count, Some(c as usize))
    } else if g[c].1.len() == 0 {
        (0, None)
    } else {
        best_of_parents(g, count, c, g[c].1.len() as int)
    }
}

/// The first result with the least count among the searches from the first
/// `k` parents of `c`.
pub open spec fn best_of_parents(g: Seq<(bool, Seq<usize>)>, count: nat, c: int, k: int) -> (nat, Option<usize>)
    decreases g.len() - c, 0int, k,
{
    if !(0 <= c < g.len()) || k <= 0 || k > g[c].1.len() {
        (0, None)
    } else {
        let p = g[c].1[k - 1] as int;
        let r = if c < p < g.len() { find_cookie(g, count + 1, p) } else { (0, None) };
        if k == 1 {
            r
        } else {
            let best = best_of_parents(g, count, c, k - 1);
            if r.0 < best.0 { r } else { best }
        }
    }
}

/// Searches the history from commit `c` for the commit that brought the cookie.
pub fn cookiefinder(g: &CommitGraph, count: u32, c: usize) -> (res: (u32, Option<usize>))
    requires
        parents_after(graph_view(g)),
        c < g.nodes@.len(),
        count + g.nodes@.len() - c <= u32::MAX,
    ensures
        (res.0 as nat, res.1) == find_cookie(graph_view(g), count as nat, c as int),
    decreases g.nodes@.len() - c,
{
    let ghost gv = graph_view(g);
    let node = &g.nodes[c];
    assert(gv[c as int] == (node.has_cookie, node.parents@));
    if node.has_cookie {
        return (count, Some(c));
    }
    let parents = &node.parents;
    if parents.len() == 0 {
        return (0, None);
    }
    assert(c < gv[c as int].1[0] < gv.len());
    let mut best = cookiefinder(g, count + 1, parents[0]);
    let mut k: usize = 1;
    while k < parents.len()
        invariant
            1 <= k <= parents@.len(),
            gv == graph_view(g),
            parents_after(gv),
            c < gv.len(),
            gv[c as int] == (node.has_cookie, parents@),
            count + g.nodes@.len() - c <= u32::MAX,
            (best.0 as nat, best.1) == best_of_parents(gv, count as nat, c as int, k as int),
        decreases parents@.len() - k,
    {
        assert(c < gv[c as int].1[k as int] < gv.len());
        let r = cookiefinder(g, count + 1, parents[k]);
        if r.0 < best.0 {
            best = r;
        }
        k = k + 1;
    }
    best
}

/// The commit, found from the start of the history (position 0), that brought
/// the cookie, if the search finds one.
pub fn cookie_commit(g: &CommitGraph) -> (res: Option<usize>)
    requires
        parents_after(graph_view(g)),
        0 < g.nodes@.len() < u32::MAX,
    ensures
        res == find_cookie(graph_view(g), 0, 0).1,
{
    cookiefinder(g, 0, 0).1
}

/// Whether every parent in the graph is listed after its child.
pub fn parents_listed_after(g: &CommitGraph) -> (res: bool)
    ensures
        res == parents_after(graph_view(g)),
{
    let ghost gv = graph_view(g);
    let n = g.nodes.len();
    let mut i: usize = 0;
    while i < n
        invariant
            i <= n,
            n == gv.len(),
            gv == graph_view(g),
            forall|a: int, k: int| 0 <= a < i && 0 <= k < gv[a].1.len() ==> a < #[trigger] gv[a].1[k] < gv.len(),
        decreases n - i,
    {
        let ps = &g.nodes[i].parents;
        assert(gv[i as int].1 == ps@);
        let mut k: usize = 0;
        while k < ps.len()
            invariant
                i < n,
                k <= ps@.len(),
                n == gv.len(),
                gv == graph_view(g),
                gv[i as int].1 == ps@,
                forall|m: int| 0 <= m < k ==> i < #[trigger] ps@[m] < n,
            decreases ps@.len() - k,
        {
            let p = ps[k];
            if !(i < p && p < n) {
                assert(!parents_after(gv)) by {
                    assert(gv[i as int].1[k as int] == p);
                }
                return false;
            }
            k = k + 1;
        }
        assert forall|a: int, k: int| 0 <= a < i + 1 && 0 <= k < gv[a].1.len() implies a < #[trigger] gv[a].1[k]
            < gv.len() by {
            if a == i {
                assert(gv[a].1[k] == ps@[k]);
            }
        }
        i = i + 1;
    }
    true
}

/// The commit that brought the cookie, searched from position 0, when the
/// graph lists every parent after its child and has fewer than `u32::MAX`
/// commits; `None` when it does not.
pub fn find_cookie_commit(g: &CommitGraph) -> (res: Option<Option<usize>>)
    ensures
        match res {
            Some(r) => parents_after(graph_view(g)) && 0 < g.nodes@.len() < u32::MAX && r == find_cookie(
                graph_view(g),
                0,
                0,
            ).1,
            None => !(parents_after(graph_view(g)) && 0 < g.nodes@.len() < u32::MAX),
        },
{
    if g.nodes.len() == 0 || g.nodes.len() >= 0xffff_ffff || !parents_listed_after(g) {
        None
    } else {
        Some(cookie_commit(g))
    }
}

/// The bytes of `COOKIE`.
pub open spec fn cookie_word() -> Seq<u8> {
    seq![67u8, 79u8, 79u8, 75u8, 73u8, 69u8]
}

/// `bytes` contain `COOKIE`.
pub open spec fn mentions_cookie(bytes: Seq<u8>) -> bool {
    exists|i: int| 0 <= i && i + 6 <= bytes.len() && #[trigger] bytes.subrange(i, i + 6) == cookie_word()
}

/// One of the files is text (valid UTF-8) that contains `COOKIE`.
pub open spec fn files_mention_cookie(files: Seq<Seq<u8>>) -> bool {
    exists|i: int| 0 <= i < files.len() && vstd::utf8::valid_utf8(#[trigger] files[i]) && mentions_cookie(files[i])
}

/// Checks bytes with std's `std::str::from_utf8`. The contract claims what
/// std documents: it succeeds exactly on valid UTF-8.
#[verifier::external_body]
fn is_utf8(bytes: &[u8]) -> (res: bool)
    ensures
        res == vstd::utf8::valid_utf8(bytes@),
{
    std::str::from_utf8(bytes).is_ok()
}

fn mentions_cookie_exec(bytes: &Vec<u8>) -> (res: bool)
    ensures
        res == mentions_cookie(bytes@),
{
    let word: [u8; 6] = [67u8, 79u8, 79u8, 75u8, 73u8, 69u8];
    assert(word@ =~= cookie_word());
    let mut i: usize = 0;
    while bytes.len() >= 6 && i <= bytes.len() - 6
        invariant
            forall|j: int| 0 <= j < i && j + 6 <= bytes@.len() ==> #[trigger] bytes@.subrange(j, j + 6) != cookie_word(),
            word@ == cookie_word(),
            i <= bytes@.len(),
        decreases bytes@.len() - i,
    {
        let mut same = true;
        let mut k: usize = 0;
        while k < 6
            invariant
                k <= 6,
                i + 6 <= bytes.len(),
                word@ == cookie_word(),
                same == forall|m: int| 0 <= m < k ==> bytes@[i + m] == word@[m],
            decreases 6 - k,
        {
            let at = i + k;
            if bytes[at] != word[k] {
                same = false;
            }
            k = k + 1;
        }
        if same {
            assert(bytes@.subrange(i as int, i + 6) =~= cookie_word());
            return true;
        }
        assert(bytes@.subrange(i as int, i + 6) != cookie_word()) by {
            let m = choose|m: int| 0 <= m < 6 && bytes@[i + m] != word@[m];
            assert(bytes@.subrange(i as int, i + 6)[m] != cookie_word()[m]);
        }
        i = i + 1;
    }
    false
}

/// Whether one of the `santa.txt` files of a commit mentions the cookie.
pub fn santa_has_cookie(files: &Vec<Vec<u8>>) -> (res: bool)
    ensures
        res == files_mention_cookie(Seq::new(files@.len(), |i: int| files@[i]@)),
{
    let ghost fs = Seq::new(files@.len(), |i: int| files@[i]@);
    let mut i: usize = 0;
    while i < files.len()
        invariant
            i <= files@.len(),
            fs == Seq::new(files@.len(), |i: int| files@[i]@),
            forall|j: int| 0 <= j < i ==> !(vstd::utf8::valid_utf8(#[trigger] fs[j]) && mentions_cookie(fs[j])),
        decreases files@.len() - i,
    {
        assert(fs[i as int] == files@[i as int]@);
        if is_utf8(files[i].as_slice()) && mentions_cookie_exec(&files[i]) {
            return true;
        }
        i = i + 1;
    }
    false
}

/// A commit has the cookie exactly when one of its `santa.txt` files, in any
/// position, is valid UTF-8 and holds the bytes of `COOKIE` somewhere.
pub proof fn lemma_cookie_in_any_file(files: Seq<Seq<u8>>)
    ensures
        files_mention_cookie(files) <==> exists|i: int, k: int|
            0 <= i < files.len() && 0 <= k && k + 6 <= files[i].len() && vstd::utf8::valid_utf8(files[i])
                && #[trigger] files[i].subrange(k, k + 6) == seq![67u8, 79u8, 79u8, 75u8, 73u8, 69u8],
{
    let word = seq![67u8, 79u8, 79u8, 75u8, 73u8, 69u8];
    assert(cookie_word() == word);
    if files_mention_cookie(files) {
        let i = choose|i: int| 0 <= i < files.len() && vstd::utf8::valid_utf8(#[trigger] files[i]) && mentions_cookie(files[i]);
        let k = choose|k: int| 0 <= k && k + 6 <= files[i].len() && #[trigger] files[i].subrange(k, k + 6) == cookie_word();
        assert(files[i].subrange(k, k + 6) == word);
    }
    if exists|i: int, k: int|
        0 <= i < files.len() && 0 <= k && k + 6 <= files[i].len() && vstd::utf8::valid_utf8(files[i])
            && #[trigger] files[i].subrange(k, k + 6) == word {
        let (i, k) = choose|i: int, k: int|
            0 <= i < files.len() && 0 <= k && k + 6 <= files[i].len() && vstd::utf8::valid_utf8(files[i])
                && #[trigger] files[i].subrange(k, k + 6) == word;
        assert(mentions_cookie(files[i]));
    }
}

} // verus!
