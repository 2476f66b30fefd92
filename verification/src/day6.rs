use vstd::prelude::*;

verus! {

broadcast use vstd::string::group_string_axioms;

/// How often the elves and their shelves occur in a text.
pub struct Occurence {
    pub elf: usize,
    pub elf_on_a_shelf: usize,
    pub shelf_with_no_elf: usize,
}

/// The bytes of `elf`.
pub open spec fn elf_word() -> Seq<u8> {
    seq![101u8, 108u8, 102u8]
}

/// The bytes of `shelf`.
pub open spec fn shelf_word() -> Seq<u8> {
    seq![115u8, 104u8, 101u8, 108u8, 102u8]
}

/// The bytes of `elf on a shelf`.
pub open spec fn elf_on_a_shelf_phrase() -> Seq<u8> {
    seq![101u8, 108u8, 102u8, 32u8, 111u8, 110u8, 32u8, 97u8, 32u8, 115u8, 104u8, 101u8, 108u8, 102u8]
}

/// `p` occurs in `b` ending just before position `n`.
pub open spec fn ends_at(b: Seq<u8>, p: Seq<u8>, n: int) -> bool {
    p.len() <= n <= b.len() && b.subrange(n - p.len(), n) == p
}

/// How many occurrences of `p` end within the first `n` bytes of `b`
/// (overlapping occurrences all count).
pub open spec fn occurrences_upto(b: Seq<u8>, p: Seq<u8>, n: int) -> nat
    decreases n,
{
    if n <= 0 {
        0
    } else {
        occurrences_upto(b, p, n - 1) + if ends_at(b, p, n) { 1nat } else { 0nat }
    }
}

/// How many times `p` occurs in `b`.
pub open spec fn occurrences(b: Seq<u8>, p: Seq<u8>) -> nat {
    occurrences_upto(b, p, b.len() as int)
}

/// How many occurrences of `shelf` end within the first `n` bytes without
/// `elf on a ` right before them.
pub open spec fn lonely_shelves_upto(b: Seq<u8>, n: int) -> nat
    decreases n,
{
    if n <= 0 {
        0
    } else {
        lonely_shelves_upto(b, n - 1) + if ends_at(b, shelf_word(), n) && !ends_at(
            b,
            elf_on_a_shelf_phrase(),
            n,
        ) {
            1nat
        } else {
            0nat
        }
    }
}

/// Every `elf on a shelf` ends with a `shelf`; so there are at least as many
/// shelves as elves on shelves, and the shelves without an elf on them are
/// exactly the difference.
pub proof fn lemma_shelves_cover_elves(b: Seq<u8>, n: int)
    requires
        0 <= n <= b.len(),
    ensures
        occurrences_upto(b, elf_on_a_shelf_phrase(), n) <= occurrences_upto(b, shelf_word(), n),
        lonely_shelves_upto(b, n) == occurrences_upto(b, shelf_word(), n) - occurrences_upto(
            b,
            elf_on_a_shelf_phrase(),
            n,
        ),
    decreases n,
{
    if n > 0 {
        lemma_shelves_cover_elves(b, n - 1);
        if ends_at(b, elf_on_a_shelf_phrase(), n) {
            let phrase = b.subrange(n - 14, n);
            assert(b.subrange(n - 5, n) =~= phrase.subrange(9, 14));
            assert(phrase.subrange(9, 14) =~= shelf_word());
        }
    }
}

fn ends_at_exec(b: &[u8], p: &[u8], n: usize) -> (res: bool)
    requires
        n <= b@.len(),
    ensures
        res == ends_at(b@, p@, n as int),
{
    if p.len() > n {
        return false;
    }
    let start = n - p.len();
    let mut k: usize = 0;
    while k < p.len()
        invariant
            k <= p@.len(),
            start + p@.len() == n,
            n <= b@.len(),
            forall|m: int| 0 <= m < k ==> b@[start + m] == p@[m],
        decreases p@.len() - k,
    {
        if b[start + k] != p[k] {
            assert(b@.subrange(start as int, n as int)[k as int] != p@[k as int]);
            return false;
        }
        k = k + 1;
    }
    assert(b@.subrange(start as int, n as int) =~= p@);
    true
}

/// Counts `elf`, `elf on a shelf`, and `shelf` without an elf on it.
pub open spec fn count_elfs_spec(b: Seq<u8>) -> (nat, nat, nat) {
    (
        occurrences(b, elf_word()),
        occurrences(b, elf_on_a_shelf_phrase()),
        (occurrences(b, shelf_word()) - occurrences(b, elf_on_a_shelf_phrase())) as nat,
    )
}

/// Counts the elves of a text. As `elf` and `shelf` cannot overlap
/// themselves, their occurrences are also what std's `str::matches` counts.
pub fn count_elfs(data: &str) -> (res: Occurence)
    ensures
        (res.elf as nat, res.elf_on_a_shelf as nat, res.shelf_with_no_elf as nat) == count_elfs_spec(
            vstd::utf8::encode_utf8(data@),
        ),
{
    let b = data.as_bytes();
    let elf: [u8; 3] = [101u8, 108u8, 102u8];
    let shelf: [u8; 5] = [115u8, 104u8, 101u8, 108u8, 102u8];
    let phrase: [u8; 14] = [101u8, 108u8, 102u8, 32u8, 111u8, 110u8, 32u8, 97u8, 32u8, 115u8, 104u8, 101u8, 108u8, 102u8];
    assert(elf@ =~= elf_word());
    assert(shelf@ =~= shelf_word());
    assert(phrase@ =~= elf_on_a_shelf_phrase());
    let mut n_elf: usize = 0;
    let mut n_shelf: usize = 0;
    let mut n_phrase: usize = 0;
    let mut n: usize = 0;
    while n < b.len()
        invariant
            n <= b@.len(),
            elf@ == elf_word(),
            shelf@ == shelf_word(),
            phrase@ == elf_on_a_shelf_phrase(),
            n_elf == occurrences_upto(b@, elf_word(), n as int),
            n_shelf == occurrences_upto(b@, shelf_word(), n as int),
            n_phrase == occurrences_upto(b@, elf_on_a_shelf_phrase(), n as int),
            n_elf <= n && n_shelf <= n && n_phrase <= n,
        decreases b@.len() - n,
    {
        n = n + 1;
        if ends_at_exec(b, elf.as_slice(), n) {
            n_elf = n_elf + 1;
        }
        if ends_at_exec(b, shelf.as_slice(), n) {
            n_shelf = n_shelf + 1;
        }
        if ends_at_exec(b, phrase.as_slice(), n) {
            n_phrase = n_phrase + 1;
        }
    }
    proof {
        lemma_shelves_cover_elves(b@, b@.len() as int);
    }
    Occurence { elf: n_elf, elf_on_a_shelf: n_phrase, shelf_with_no_elf: n_shelf - n_phrase }
}

} // verus!
