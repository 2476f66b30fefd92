use vstd::prelude::*;

use crate::numbers::{decimal, decimal_string};
use vstd::string::StringExecFns;

verus! {

broadcast use vstd::string::group_string_axioms;

/// What the contest reads of a reindeer (its speed, a float, is compared by
/// the caller).
pub struct ReindeerStats {
    pub name: String,
    pub strength: u32,
    pub height: u32,
    pub antler_width: u32,
    pub snow_magic_power: u32,
    pub favorite_food: String,
    pub candies_eaten_yesterday: u32,
}

/// The sum of the values, modulo 2^32 as a `u32` sum wraps.
pub open spec fn sum_u32(v: Seq<u32>) -> nat
    decreases v.len(),
{
    if v.len() == 0 {
        0
    } else {
        sum_u32(v.drop_last()) + v.last() as nat
    }
}

/// The strengths of the herd.
pub open spec fn strengths(herd: Seq<ReindeerStats>) -> Seq<u32> {
    Seq::new(herd.len(), |i: int| herd[i].strength)
}

/// The combined strength of the herd.
pub fn calculate_strength(herd: &Vec<ReindeerStats>) -> (res: u32)
    ensures
        res == sum_u32(strengths(herd@)) % 0x1_0000_0000,
{
    let ghost v = strengths(herd@);
    let mut total: u32 = 0;
    let mut i: usize = 0;
    while i < herd.len()
        invariant
            i <= herd@.len(),
            v == strengths(herd@),
            total == sum_u32(v.take(i as int)) % 0x1_0000_0000,
        decreases herd@.len() - i,
    {
        assert(v.take(i + 1).drop_last() =~= v.take(i as int));
        assert(v.take(i + 1).last() == herd@[i as int].strength);
        total = ((total as u64 + herd[i].strength as u64) % 0x1_0000_0000) as u32;
        i = i + 1;
    }
    assert(v.take(herd@.len() as int) =~= v);
    total
}

/// `v[i]` leads: it is positive, no earlier value reaches it, and no value
/// exceeds it. (A later reindeer replaces the leader only when strictly
/// greater, and the empty default has 0.)
pub open spec fn is_leader(v: Seq<u32>, i: int) -> bool {
    &&& 0 <= i < v.len()
    &&& v[i] > 0
    &&& forall|j: int| 0 <= j < i ==> #[trigger] v[j] < v[i]
    &&& forall|j: int| 0 <= j < v.len() ==> #[trigger] v[j] <= v[i]
}

/// The first reindeer with the greatest value, if that value is positive.
pub fn leader_index(v: &Vec<u32>) -> (res: Option<usize>)
    ensures
        match res {
            Some(i) => is_leader(v@, i as int),
            None => forall|j: int| 0 <= j < v@.len() ==> #[trigger] v@[j] == 0,
        },
{
    let mut best: Option<usize> = None;
    let mut i: usize = 0;
    while i < v.len()
        invariant
            i <= v@.len(),
            match best {
                Some(b) => is_leader(v@.take(i as int), b as int),
                None => forall|j: int| 0 <= j < i ==> #[trigger] v@[j] == 0,
            },
        decreases v@.len() - i,
    {
        let current: u32 = match best {
            Some(b) => v[b],
            None => 0,
        };
        if v[i] > current {
            proof {
                assert forall|j: int| 0 <= j < i + 1 implies #[trigger] v@.take(i + 1)[j] <= v@[i as int] by {
                    if j < i {
                        match best {
                            Some(b) => {
                                assert(v@.take(i as int)[j] <= v@.take(i as int)[b as int]);
                            },
                            None => {},
                        }
                    }
                }
                assert forall|j: int| 0 <= j < i implies #[trigger] v@.take(i + 1)[j] < v@.take(i + 1)[i as int] by {
                    match best {
                        Some(b) => {
                            assert(v@.take(i as int)[j] <= v@.take(i as int)[b as int]);
                        },
                        None => {},
                    }
                }
            }
            best = Some(i);
        } else {
            proof {
                match best {
                    Some(b) => {
                        let t = v@.take(i + 1);
                        assert forall|j: int| 0 <= j < b implies #[trigger] t[j] < t[b as int] by {
                            assert(v@.take(i as int)[j] < v@.take(i as int)[b as int]);
                        }
                        assert forall|j: int| 0 <= j < t.len() implies #[trigger] t[j] <= t[b as int] by {
                            if j < i {
                                assert(v@.take(i as int)[j] <= v@.take(i as int)[b as int]);
                            }
                        }
                    },
                    None => {},
                }
            }
        }
        i = i + 1;
    }
    assert(v@.take(v@.len() as int) =~= v@);
    best
}

/// The four sentences of the contest result.
pub struct ContestResult {
    pub fastest: String,
    pub tallest: String,
    pub magician: String,
    pub consumer: String,
}

/// A reindeer's numbers and texts as plain values: name, strength, antler
/// width, magic power, favorite food. The empty default stands in when no
/// reindeer wins.
pub open spec fn winner_fields(herd: Seq<ReindeerStats>, w: Option<usize>) -> (Seq<char>, nat, nat, nat, Seq<char>) {
    match w {
        Some(i) => (
            herd[i as int].name@,
            herd[i as int].strength as nat,
            herd[i as int].antler_width as nat,
            herd[i as int].snow_magic_power as nat,
            herd[i as int].favorite_food@,
        ),
        None => (Seq::empty(), 0, 0, 0, Seq::empty()),
    }
}

pub open spec fn fastest_sentence(f: (Seq<char>, nat, nat, nat, Seq<char>)) -> Seq<char> {
    "Speeding past the finish line with a strength of "@ + decimal(f.1) + " is "@ + f.0
}

pub open spec fn tallest_sentence(f: (Seq<char>, nat, nat, nat, Seq<char>)) -> Seq<char> {
    f.0 + " is standing tall with his "@ + decimal(f.2) + " cm wide antlers"@
}

pub open spec fn magician_sentence(f: (Seq<char>, nat, nat, nat, Seq<char>)) -> Seq<char> {
    f.0 + " could blast you away with a snow magic power of "@ + decimal(f.3)
}

pub open spec fn consumer_sentence(f: (Seq<char>, nat, nat, nat, Seq<char>)) -> Seq<char> {
    f.0 + " ate lots of candies, but also some "@ + f.4
}

/// The fields of the winner, or of the empty default.
fn winner(herd: &Vec<ReindeerStats>, w: Option<usize>) -> (res: (String, u32, u32, u32, String))
    requires
        w matches Some(i) ==> i < herd@.len(),
    ensures
        (res.0@, res.1 as nat, res.2 as nat, res.3 as nat, res.4@) == winner_fields(herd@, w),
{
    match w {
        Some(i) => {
            let r = &herd[i];
            (r.name.clone(), r.strength, r.antler_width, r.snow_magic_power, r.favorite_food.clone())
        },
        None => (String::new(), 0, 0, 0, String::new()),
    }
}

/// The values of one field over the herd.
pub open spec fn heights(herd: Seq<ReindeerStats>) -> Seq<u32> {
    Seq::new(herd.len(), |i: int| herd[i].height)
}

pub open spec fn magic_powers(herd: Seq<ReindeerStats>) -> Seq<u32> {
    Seq::new(herd.len(), |i: int| herd[i].snow_magic_power)
}

pub open spec fn candies(herd: Seq<ReindeerStats>) -> Seq<u32> {
    Seq::new(herd.len(), |i: int| herd[i].candies_eaten_yesterday)
}

/// The winner of one field: the leader if there is one.
pub open spec fn field_winner(v: Seq<u32>, w: Option<usize>) -> bool {
    match w {
        Some(i) => is_leader(v, i as int),
        None => forall|j: int| 0 <= j < v.len() ==> #[trigger] v[j] == 0,
    }
}

fn field_values(herd: &Vec<ReindeerStats>, which: u8) -> (res: Vec<u32>)
    ensures
        which == 0 ==> res@ == heights(herd@),
        which == 1 ==> res@ == magic_powers(herd@),
        which != 0 && which != 1 ==> res@ == candies(herd@),
{
    let mut v: Vec<u32> = Vec::new();
    let mut i: usize = 0;
    while i < herd.len()
        invariant
            i <= herd@.len(),
            which == 0 ==> v@ =~= heights(herd@).take(i as int),
            which == 1 ==> v@ =~= magic_powers(herd@).take(i as int),
            which != 0 && which != 1 ==> v@ =~= candies(herd@).take(i as int),
        decreases herd@.len() - i,
    {
        let r = &herd[i];
        let x = if which == 0 {
            r.height
        } else if which == 1 {
            r.snow_magic_power
        } else {
            r.candies_eaten_yesterday
        };
        v.push(x);
        i = i + 1;
    }
    v
}

/// Picks the tallest, the best magician and the greatest consumer of the
/// herd, and writes the four sentences; `fastest` is the reindeer that won
/// on speed, if any.
pub fn compare_reindeer(herd: &Vec<ReindeerStats>, fastest: Option<usize>) -> (res: ContestResult)
    requires
        fastest matches Some(i) ==> i < herd@.len(),
    ensures
        res.fastest@ == fastest_sentence(winner_fields(herd@, fastest)),
        exists|t: Option<usize>|
            field_winner(heights(herd@), t) && res.tallest@ == tallest_sentence(
                #[trigger] winner_fields(herd@, t),
            ),
        exists|m: Option<usize>|
            field_winner(magic_powers(herd@), m) && res.magician@ == magician_sentence(
                #[trigger] winner_fields(herd@, m),
            ),
        exists|c: Option<usize>|
            field_winner(candies(herd@), c) && res.consumer@ == consumer_sentence(
                #[trigger] winner_fields(herd@, c),
            ),
{
    let tall = leader_index(&field_values(herd, 0));
    let magic = leader_index(&field_values(herd, 1));
    let eater = leader_index(&field_values(herd, 2));

    let f = winner(herd, fastest);
    let mut fastest_text = "Speeding past the finish line with a strength of ".to_owned();
    fastest_text.append(decimal_string(f.1 as u64).as_str());
    fastest_text.append(" is ");
    fastest_text.append(f.0.as_str());

    let t = winner(herd, tall);
    let mut tallest_text = t.0.clone();
    tallest_text.append(" is standing tall with his ");
    tallest_text.append(decimal_string(t.2 as u64).as_str());
    tallest_text.append(" cm wide antlers");

    let m = winner(herd, magic);
    let mut magician_text = m.0.clone();
    magician_text.append(" could blast you away with a snow magic power of ");
    magician_text.append(decimal_string(m.3 as u64).as_str());

    let c = winner(herd, eater);
    let mut consumer_text = c.0.clone();
    consumer_text.append(" ate lots of candies, but also some ");
    consumer_text.append(c.4.as_str());

    proof {
        assert(field_winner(heights(herd@), tall));
        assert(field_winner(magic_powers(herd@), magic));
        assert(field_winner(candies(herd@), eater));
    }
    ContestResult {
        fastest: fastest_text,
        tallest: tallest_text,
        magician: magician_text,
        consumer: consumer_text,
    }
}

/// The tallest reindeer is the first one of greatest height, and only a
/// positive height wins: every reindeer before it is strictly shorter, no
/// reindeer is taller, and when every height is 0 nobody wins. The sentence
/// names the winner and gives its antler width.
pub proof fn lemma_tallest_is_highest(herd: Seq<ReindeerStats>, t: Option<usize>)
    requires
        field_winner(heights(herd), t),
    ensures
        match t {
            Some(i) => {
                &&& i < herd.len()
                &&& herd[i as int].height > 0
                &&& forall|j: int| 0 <= j < herd.len() ==> #[trigger] herd[j].height <= herd[i as int].height
                &&& forall|j: int| 0 <= j < i ==> #[trigger] herd[j].height < herd[i as int].height
                &&& tallest_sentence(winner_fields(herd, t)) == herd[i as int].name@
                    + " is standing tall with his "@ + decimal(herd[i as int].antler_width as nat)
                    + " cm wide antlers"@
            },
            None => forall|j: int| 0 <= j < herd.len() ==> #[trigger] herd[j].height == 0,
        },
{
    match t {
        Some(i) => {
            assert forall|j: int| 0 <= j < herd.len() implies #[trigger] herd[j].height <= herd[i as int].height by {
                assert(heights(herd)[j] <= heights(herd)[i as int]);
            }
            assert forall|j: int| 0 <= j < i implies #[trigger] herd[j].height < herd[i as int].height by {
                assert(heights(herd)[j] < heights(herd)[i as int]);
            }
        },
        None => {
            assert forall|j: int| 0 <= j < herd.len() implies #[trigger] herd[j].height == 0 by {
                assert(heights(herd)[j] == 0);
            }
        },
    }
}

/// The best magician is the first one of greatest snow magic power (a
/// positive one), and the sentence gives that power.
pub proof fn lemma_magician_has_most_magic(herd: Seq<ReindeerStats>, m: Option<usize>)
    requires
        field_winner(magic_powers(herd), m),
    ensures
        match m {
            Some(i) => {
                &&& i < herd.len()
                &&& herd[i as int].snow_magic_power > 0
                &&& forall|j: int| 0 <= j < herd.len() ==> #[trigger] herd[j].snow_magic_power
                    <= herd[i as int].snow_magic_power
                &&& forall|j: int| 0 <= j < i ==> #[trigger] herd[j].snow_magic_power
                    < herd[i as int].snow_magic_power
                &&& magician_sentence(winner_fields(herd, m)) == herd[i as int].name@
                    + " could blast you away with a snow magic power of "@ + decimal(
                    herd[i as int].snow_magic_power as nat,
                )
            },
            None => forall|j: int| 0 <= j < herd.len() ==> #[trigger] herd[j].snow_magic_power == 0,
        },
{
    match m {
        Some(i) => {
            assert forall|j: int| 0 <= j < herd.len() implies #[trigger] herd[j].snow_magic_power
                <= herd[i as int].snow_magic_power by {
                assert(magic_powers(herd)[j] <= magic_powers(herd)[i as int]);
            }
            assert forall|j: int| 0 <= j < i implies #[trigger] herd[j].snow_magic_power
                < herd[i as int].snow_magic_power by {
                assert(magic_powers(herd)[j] < magic_powers(herd)[i as int]);
            }
        },
        None => {
            assert forall|j: int| 0 <= j < herd.len() implies #[trigger] herd[j].snow_magic_power == 0 by {
                assert(magic_powers(herd)[j] == 0);
            }
        },
    }
}

/// The greatest consumer is the first one that ate the most candies
/// yesterday (a positive number), and the sentence gives its favorite food.
pub proof fn lemma_consumer_ate_most(herd: Seq<ReindeerStats>, c: Option<usize>)
    requires
        field_winner(candies(herd), c),
    ensures
        match c {
            Some(i) => {
                &&& i < herd.len()
                &&& herd[i as int].candies_eaten_yesterday > 0
                &&& forall|j: int| 0 <= j < herd.len() ==> #[trigger] herd[j].candies_eaten_yesterday
                    <= herd[i as int].candies_eaten_yesterday
                &&& forall|j: int| 0 <= j < i ==> #[trigger] herd[j].candies_eaten_yesterday
                    < herd[i as int].candies_eaten_yesterday
                &&& consumer_sentence(winner_fields(herd, c)) == herd[i as int].name@
                    + " ate lots of candies, but also some "@ + herd[i as int].favorite_food@
            },
            None => forall|j: int| 0 <= j < herd.len() ==> #[trigger] herd[j].candies_eaten_yesterday == 0,
        },
{
    match c {
        Some(i) => {
            assert forall|j: int| 0 <= j < herd.len() implies #[trigger] herd[j].candies_eaten_yesterday
                <= herd[i as int].candies_eaten_yesterday by {
                assert(candies(herd)[j] <= candies(herd)[i as int]);
            }
            assert forall|j: int| 0 <= j < i implies #[trigger] herd[j].candies_eaten_yesterday
                < herd[i as int].candies_eaten_yesterday by {
                assert(candies(herd)[j] < candies(herd)[i as int]);
            }
        },
        None => {
            assert forall|j: int| 0 <= j < herd.len() implies #[trigger] herd[j].candies_eaten_yesterday == 0 by {
                assert(candies(herd)[j] == 0);
            }
        },
    }
}

/// The fastest sentence names the given reindeer and gives its strength.
pub proof fn lemma_fastest_sentence(herd: Seq<ReindeerStats>, i: usize)
    requires
        i < herd.len(),
    ensures
        fastest_sentence(winner_fields(herd, Some(i)))
            == "Speeding past the finish line with a strength of "@ + decimal(herd[i as int].strength as nat)
            + " is "@ + herd[i as int].name@,
{
}

/// A herd's combined strength grows by exactly the strength of each reindeer
/// that joins it, and an empty herd has strength 0.
pub proof fn lemma_strength_adds_up(herd: Seq<ReindeerStats>, r: ReindeerStats)
    ensures
        sum_u32(strengths(Seq::empty())) == 0,
        sum_u32(strengths(herd.push(r))) == sum_u32(strengths(herd)) + r.strength,
{
    assert(strengths(herd.push(r)).drop_last() =~= strengths(herd));
    assert(strengths(herd.push(r)).last() == r.strength);
}

} // verus!
