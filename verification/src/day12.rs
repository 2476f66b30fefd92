use vstd::prelude::*;

use crate::error::MyError;
use chrono::Datelike;

verus! {

broadcast use vstd::string::group_string_axioms;

// ---------------------------------------------------------------------------
// Saving and loading strings.
// ---------------------------------------------------------------------------

/// Nanoseconds in a second.
pub const NANOS_PER_SEC: u128 = 1_000_000_000;

/// One more than the latest time, in nanoseconds since the epoch, that a
/// `Duration` can hold.
pub open spec fn time_limit() -> nat {
    0x1_0000_0000_0000_0000 * 1_000_000_000
}

/// When each saved string was last saved, in nanoseconds since the Unix epoch.
pub struct PacketStore {
    entries: Vec<(String, u128)>,
}

/// No name occurs twice among the entries.
pub open spec fn distinct_keys(s: Seq<(String, u128)>) -> bool {
    forall|i: int, j: int| 0 <= i < j < s.len() ==> #[trigger] s[i].0@ != #[trigger] s[j].0@
}

/// The entries as a map from name to time.
pub open spec fn store_map(s: Seq<(String, u128)>) -> Map<Seq<char>, u128> {
    Map::new(
        |k: Seq<char>| exists|i: int| 0 <= i < s.len() && #[trigger] s[i].0@ == k,
        |k: Seq<char>| s[choose|i: int| 0 <= i < s.len() && #[trigger] s[i].0@ == k].1,
    )
}

proof fn lemma_store_map_at(s: Seq<(String, u128)>, i: int)
    requires
        distinct_keys(s),
        0 <= i < s.len(),
    ensures
        store_map(s).contains_key(s[i].0@),
        store_map(s)[s[i].0@] == s[i].1,
{
    let k = s[i].0@;
    assert(store_map(s).contains_key(k));
    let j = choose|j: int| 0 <= j < s.len() && #[trigger] s[j].0@ == k;
    if j != i {
        if i < j {
            assert(s[i].0@ != s[j].0@);
        } else {
            assert(s[j].0@ != s[i].0@);
        }
    }
}

impl View for PacketStore {
    type V = Map<Seq<char>, u128>;

    closed spec fn view(&self) -> Map<Seq<char>, u128> {
        store_map(self.entries@)
    }
}

/// The whole seconds from the time `key` was saved to `now`; `None` when
/// `key` was never saved.
pub open spec fn load_spec(store: Map<Seq<char>, u128>, key: Seq<char>, now: u128) -> Option<nat> {
    if store.contains_key(key) {
        Some(((now - store[key]) / 1_000_000_000) as nat)
    } else {
        None
    }
}

fn position_in(entries: &Vec<(String, u128)>, key: &str) -> (res: Option<usize>)
    ensures
        match res {
            Some(i) => i < entries@.len() && entries@[i as int].0@ == key@,
            None => !store_map(entries@).contains_key(key@),
        },
{
    let mut i: usize = 0;
    while i < entries.len()
        invariant
            i <= entries@.len(),
            forall|j: int| 0 <= j < i ==> #[trigger] entries@[j].0@ != key@,
        decreases entries@.len() - i,
    {
        if crate::text::str_eq(entries[i].0.as_str(), key) {
            return Some(i);
        }
        i = i + 1;
    }
    None
}

impl PacketStore {
    #[verifier::type_invariant]
    spec fn keys_distinct(self) -> bool {
        distinct_keys(self.entries@)
    }

    /// An empty store.
    pub fn new() -> (store: PacketStore)
        ensures
            store@ == Map::<Seq<char>, u128>::empty(),
    {
        let store = PacketStore { entries: Vec::new() };
        assert(store@ =~= Map::<Seq<char>, u128>::empty());
        store
    }

    /// Records that `key` was saved at time `now`.
    pub fn save_string(&mut self, key: &str, now: u128)
        ensures
            final(self)@ == old(self)@.insert(key@, now),
    {
        proof {
            use_type_invariant(&*self);
        }
        let mut entries: Vec<(String, u128)> = Vec::new();
        std::mem::swap(&mut entries, &mut self.entries);
        let ghost before = entries@;
        let ghost old_view = store_map(before);
        match position_in(&entries, key) {
            Some(i) => {
                let name = entries[i].0.clone();
                entries.set(i, (name, now));
            },
            None => {
                entries.push((key.to_owned(), now));
            },
        }
        let ghost after = entries@;
        assert(distinct_keys(after)) by {
            assert forall|a: int, b: int| 0 <= a < b < after.len() implies #[trigger] after[a].0@
                != #[trigger] after[b].0@ by {
                if b < before.len() {
                    assert(before[a].0@ != before[b].0@);
                } else {
                    assert(old_view.contains_key(before[a].0@));
                }
            }
        }
        assert(store_map(after) =~= old_view.insert(key@, now)) by {
            assert forall|k: Seq<char>| #[trigger] store_map(after).contains_key(k)
                <==> old_view.insert(key@, now).contains_key(k) by {
                if store_map(after).contains_key(k) {
                    let j = choose|j: int| 0 <= j < after.len() && #[trigger] after[j].0@ == k;
                    if j < before.len() && k != key@ {
                        assert(before[j].0@ == k);
                    }
                }
                if old_view.contains_key(k) {
                    let j = choose|j: int| 0 <= j < before.len() && #[trigger] before[j].0@ == k;
                    assert(after[j].0@ == k);
                }
                if k == key@ {
                    let j = if after.len() > before.len() { before.len() as int } else {
                        choose|j: int| 0 <= j < after.len() && #[trigger] after[j].0@ == key@ && after[j].1 == now
                    };
                    assert(after[j].0@ == k);
                }
            }
            assert forall|k: Seq<char>| #[trigger] store_map(after).contains_key(k) implies store_map(
                after,
            )[k] == old_view.insert(key@, now)[k] by {
                let j = choose|j: int| 0 <= j < after.len() && #[trigger] after[j].0@ == k;
                lemma_store_map_at(after, j);
                if k != key@ {
                    assert(before[j] == after[j]);
                    lemma_store_map_at(before, j);
                }
            }
        }
        self.entries = entries;
    }

    /// When `key` was last saved, if it was.
    pub fn saved_at(&self, key: &str) -> (res: Option<u128>)
        ensures
            res == (if self@.contains_key(key@) { Some(self@[key@]) } else { None::<u128> }),
    {
        proof {
            use_type_invariant(&*self);
        }
        match position_in(&self.entries, key) {
            Some(i) => {
                proof {
                    lemma_store_map_at(self.entries@, i as int);
                }
                Some(self.entries[i].1)
            },
            None => None,
        }
    }

    /// The whole seconds since `key` was last saved, when `now` is the current
    /// time; an error when it was never saved.
    pub fn load_string(&self, key: &str, now: u128) -> (res: Result<u64, MyError>)
        requires
            now < time_limit(),
            self@.contains_key(key@) ==> self@[key@] <= now,
        ensures
            match res {
                Ok(secs) => load_spec(self@, key@, now) == Some(secs as nat),
                Err(e) => load_spec(self@, key@, now) is None && e is CustomError
                    && crate::error::error_message(e) == "Given String was not saved"@,
            },
    {
        proof {
            use_type_invariant(&*self);
        }
        match position_in(&self.entries, key) {
            Some(i) => {
                proof {
                    lemma_store_map_at(self.entries@, i as int);
                }
                let then = self.entries[i].1;
                Ok(((now - then) / NANOS_PER_SEC) as u64)
            },
            None => Err(MyError::CustomError("Given String was not saved".to_owned())),
        }
    }
}

/// Saving a string and loading it later gives the whole seconds in between,
/// a load at a still later time gives no fewer seconds (loading changes
/// nothing, as `load_string` only reads the store), and what loading any
/// other string gives is unchanged.
pub proof fn lemma_load_after_save(
    store: Map<Seq<char>, u128>,
    key: Seq<char>,
    other: Seq<char>,
    then: u128,
    now: u128,
    later: u128,
)
    requires
        then <= now <= later,
        other != key,
    ensures
        load_spec(store.insert(key, then), key, now) == Some(((now - then) / 1_000_000_000) as nat),
        load_spec(store.insert(key, then), key, now).unwrap() <= load_spec(
            store.insert(key, then),
            key,
            later,
        ).unwrap(),
        load_spec(store.insert(key, then), other, now) == load_spec(store, other, now),
{
    let a = (now - then) as int;
    let b = (later - then) as int;
    vstd::arithmetic::div_mod::lemma_div_is_ordered(a, b, 1_000_000_000);
}

// ---------------------------------------------------------------------------
// ULIDs.
// ---------------------------------------------------------------------------

/// The value of a byte in the Crockford base-32 alphabet of ULIDs
/// (`0123456789ABCDEFGHJKMNPQRSTVWXYZ`, letters in either case).
pub open spec fn crockford_digit(b: u8) -> Option<nat> {
    let u: u8 = if 'a' as u8 <= b && b <= 'z' as u8 { (b - 32) as u8 } else { b };
    if '0' as u8 <= b && b <= '9' as u8 {
        Some((b - '0' as u8) as nat)
    } else if 'A' as u8 <= u && u <= 'H' as u8 {
        Some((u - 'A' as u8 + 10) as nat)
    } else if u == 'J' as u8 || u == 'K' as u8 {
        Some((u - 'J' as u8 + 18) as nat)
    } else if u == 'M' as u8 || u == 'N' as u8 {
        Some((u - 'M' as u8 + 20) as nat)
    } else if 'P' as u8 <= u && u <= 'T' as u8 {
        Some((u - 'P' as u8 + 22) as nat)
    } else if 'V' as u8 <= u && u <= 'Z' as u8 {
        Some((u - 'V' as u8 + 27) as nat)
    } else {
        None
    }
}

/// Every byte is in the alphabet.
pub open spec fn crockford_valid(s: Seq<u8>) -> bool {
    forall|i: int| 0 <= i < s.len() ==> (#[trigger] crockford_digit(s[i])) is Some
}

/// The number that the base-32 digits denote.
pub open spec fn crockford_value(s: Seq<u8>) -> nat
    decreases s.len(),
{
    if s.len() == 0 {
        0
    } else {
        crockford_value(s.drop_last()) * 32 + crockford_digit(s.last()).unwrap()
    }
}

/// 2 to the 128.
pub open spec fn two_to_128() -> nat {
    0x1_0000_0000_0000_0000nat * 0x1_0000_0000_0000_0000nat
}

/// What the `ulid` crate decodes from the bytes of a string: exactly 26 bytes
/// from the alphabet, their value kept to its low 128 bits.
pub open spec fn ulid_decode(bytes: Seq<u8>) -> Option<u128> {
    if bytes.len() == 26 && crockford_valid(bytes) {
        Some((crockford_value(bytes) % two_to_128()) as u128)
    } else {
        None
    }
}

/// The lowercase hex digit of a value below sixteen.
pub open spec fn hex_char(d: nat) -> char {
    if d < 10 {
        ((d + '0' as nat) as u8) as char
    } else {
        ((d - 10 + 'a' as nat) as u8) as char
    }
}

/// The `k`-th of the 32 hex digits of `v`, most significant first.
pub open spec fn hex_digit_at(v: u128, k: int) -> nat {
    ((v as nat) / vstd::arithmetic::power2::pow2((4 * (31 - k)) as nat)) % 16
}

/// How many hyphens come before position `i` of a hyphenated UUID.
pub open spec fn hyphens_before(i: int) -> int {
    (if i > 8 { 1int } else { 0int }) + (if i > 13 { 1int } else { 0int }) + (if i > 18 { 1int } else { 0int }) + (
    if i > 23 { 1int } else { 0int })
}

/// The hyphenated lowercase text of the UUID with value `v`: 32 hex digits,
/// most significant first, grouped 8-4-4-4-12.
pub open spec fn uuid_hyphenated(v: u128) -> Seq<char> {
    Seq::new(
        36,
        |i: int|
            if i == 8 || i == 13 || i == 18 || i == 23 {
                '-'
            } else {
                hex_char(hex_digit_at(v, i - hyphens_before(i)))
            },
    )
}

/// Calls `ulid::Ulid::from_string` and keeps the ULID's value. The contract
/// claims the crate's decoding, which its source shows: the input must be
/// 26 bytes from the alphabet (case-insensitive), and the digits are shifted
/// in five bits at a time into a `u128`, so that bits beyond 128 drop out.
#[verifier::external_body]
fn parse_ulid(text: &str) -> (res: Option<u128>)
    ensures
        res == ulid_decode(vstd::utf8::encode_utf8(text@)),
{
    ulid::Ulid::from_string(text).ok().map(|u| u.0)
}

/// Formats a UUID with `uuid::Uuid::from_u128` and its `Display` impl. The
/// contract claims the hyphenated lowercase form, which the crate's source
/// shows its `Display` writes.
#[verifier::external_body]
fn uuid_text(v: u128) -> (res: String)
    ensures
        res@ == uuid_hyphenated(v),
{
    uuid::Uuid::from_u128(v).to_string()
}

/// The ULID that each string denotes.
pub open spec fn ulids_decode_all(ulids: Seq<String>) -> bool {
    forall|i: int| 0 <= i < ulids.len() ==> (#[trigger] ulid_decode(vstd::utf8::encode_utf8(ulids[i]@))) is Some
}

/// The value of the `i`-th ULID string.
pub open spec fn ulid_value(ulids: Seq<String>, i: int) -> u128 {
    ulid_decode(vstd::utf8::encode_utf8(ulids[i]@)).unwrap()
}

/// Parses every string as a ULID; `None` when one of them is not a ULID.
pub fn parse_ulids(ulids: &Vec<String>) -> (res: Option<Vec<u128>>)
    ensures
        match res {
            Some(v) => ulids_decode_all(ulids@) && v@.len() == ulids@.len()
                && forall|i: int| 0 <= i < v@.len() ==> #[trigger] v@[i] == ulid_value(ulids@, i),
            None => !ulids_decode_all(ulids@),
        },
{
    let mut out: Vec<u128> = Vec::new();
    let mut i: usize = 0;
    while i < ulids.len()
        invariant
            i <= ulids@.len(),
            out@.len() == i,
            forall|j: int| 0 <= j < i ==> (#[trigger] ulid_decode(vstd::utf8::encode_utf8(ulids@[j]@))) is Some,
            forall|j: int| 0 <= j < i ==> #[trigger] out@[j] == ulid_value(ulids@, j),
        decreases ulids@.len() - i,
    {
        match parse_ulid(ulids[i].as_str()) {
            Some(v) => {
                out.push(v);
            },
            None => {
                return None;
            },
        }
        i = i + 1;
    }
    Some(out)
}

/// Turns ULIDs into UUIDs with the same 128 bits, last ULID first; `None`
/// when one of the strings is not a ULID.
pub fn convert_ulids_to_uuids(ulids: &Vec<String>) -> (res: Option<Vec<String>>)
    ensures
        match res {
            Some(out) => ulids_decode_all(ulids@) && out@.len() == ulids@.len()
                && forall|i: int| 0 <= i < out@.len() ==> #[trigger] out@[i]@ == uuid_hyphenated(
                    ulid_value(ulids@, ulids@.len() - 1 - i),
                ),
            None => !ulids_decode_all(ulids@),
        },
{
    let values = match parse_ulids(ulids) {
        Some(v) => v,
        None => {
            return None;
        },
    };
    let n = values.len();
    let mut out: Vec<String> = Vec::new();
    let mut i: usize = 0;
    while i < n
        invariant
            i <= n,
            n == values@.len(),
            n == ulids@.len(),
            out@.len() == i,
            forall|j: int| 0 <= j < n ==> #[trigger] values@[j] == ulid_value(ulids@, j),
            forall|j: int| 0 <= j < i ==> #[trigger] out@[j]@ == uuid_hyphenated(ulid_value(ulids@, n - 1 - j)),
        decreases n - i,
    {
        let v = values[n - 1 - i];
        out.push(uuid_text(v));
        i = i + 1;
    }
    Some(out)
}

/// Milliseconds in a day.
pub open spec fn millis_per_day() -> int {
    86_400_000
}

/// The weekday of the day `days` after 1970-01-01 (a Thursday), numbered from
/// Monday as 1.
pub open spec fn weekday_from_monday(days: int) -> int {
    (days + 3) % 7 + 1
}

/// The month and day of month of the day `days` (at least 0) after
/// 1970-01-01 in the proleptic Gregorian calendar: the day is counted from
/// 0000-03-01, split into 400-year eras of 146097 days, years of the era and
/// days of a year that starts in March.
pub open spec fn month_and_day(days: int) -> (int, int) {
    let z = days + 719_468;
    let era = z / 146_097;
    let doe = z - era * 146_097;
    let yoe = (doe - doe / 1460 + doe / 36_524 - doe / 146_096) / 365;
    let doy = doe - (365 * yoe + yoe / 4 - yoe / 100);
    let mp = (5 * doy + 2) / 153;
    let d = doy - (153 * mp + 2) / 5 + 1;
    let m = if mp < 10 { mp + 3 } else { mp - 9 };
    (m, d)
}

/// The calendar date, in UTC, of an instant given in milliseconds since the
/// Unix epoch: (month, day of month, weekday numbered from Monday as 1).
pub open spec fn utc_calendar_of(millis: u64) -> (u32, u32, u32) {
    let days = millis as int / millis_per_day();
    let md = month_and_day(days);
    (md.0 as u32, md.1 as u32, weekday_from_monday(days) as u32)
}

/// Converts `UNIX_EPOCH + millis` into a `chrono::DateTime<Utc>` and reads
/// its month, day and weekday. The contract claims that chrono's date is the
/// proleptic Gregorian date of that instant in UTC, which its documentation
/// states; instants within 48 bits of milliseconds are in the range that
/// chrono converts without panicking.
#[verifier::external_body]
fn utc_calendar(millis: u64) -> (res: (u32, u32, u32))
    requires
        millis < 0x1_0000_0000_0000,
    ensures
        res == utc_calendar_of(millis),
{
    let date: chrono::DateTime<chrono::Utc> = (std::time::UNIX_EPOCH + std::time::Duration::from_millis(
        millis,
    )).into();
    (date.month(), date.day(), date.weekday().number_from_monday())
}

/// Reads the clock with `chrono::Utc::now().timestamp_millis()`. The result
/// depends on the time of the call; the contract claims only that it is not
/// before the Unix epoch, as chrono's `Utc::now` stops with a panic on a clock
/// set before 1970 rather than return such a time.
#[verifier::external_body]
fn now_millis() -> (res: i64)
    ensures
        res >= 0,
{
    chrono::Utc::now().timestamp_millis()
}

/// The timestamp of a ULID: its top 48 bits, in milliseconds since the epoch.
pub open spec fn ulid_millis(v: u128) -> u64 {
    ((v as nat) / 0x1_0000_0000_0000_0000_0000nat) as u64
}

pub open spec fn on_christmas_eve(v: u128) -> bool {
    let date = utc_calendar_of(ulid_millis(v));
    date.0 == 12 && date.1 == 24
}

pub open spec fn on_weekday(v: u128, given_week_day: u32) -> bool {
    utc_calendar_of(ulid_millis(v)).2 as int == given_week_day as int + 1
}

pub open spec fn in_the_future(v: u128, now_millis: i64) -> bool {
    ulid_millis(v) as int > now_millis as int
}

pub open spec fn lowest_bit_set(v: u128) -> bool {
    v % 2 == 1
}

/// How many of the values satisfy `p`.
pub open spec fn count_values(values: Seq<u128>, p: spec_fn(u128) -> bool) -> nat
    decreases values.len(),
{
    if values.len() == 0 {
        0
    } else {
        count_values(values.drop_last(), p) + if p(values.last()) { 1nat } else { 0nat }
    }
}

/// How many of the values lie later than `now`.
pub open spec fn future_count(values: Seq<u128>, now: i64) -> nat {
    count_values(values, |v: u128| in_the_future(v, now))
}

/// A count never exceeds the number of values, and a predicate that holds of
/// no value counts none.
proof fn lemma_count_bounds(values: Seq<u128>, p: spec_fn(u128) -> bool)
    ensures
        count_values(values, p) <= values.len(),
        (forall|v: u128| !#[trigger] p(v)) ==> count_values(values, p) == 0,
    decreases values.len(),
{
    if values.len() > 0 {
        lemma_count_bounds(values.drop_last(), p);
    }
}

/// Every instant falls on a weekday numbered from 1 to 7.
pub proof fn lemma_weekday_in_week(millis: u64)
    ensures
        1 <= utc_calendar_of(millis).2 <= 7,
{
}

/// Each count over a list of ULIDs is at most the number of ULIDs, and a
/// weekday argument of 7 or more (past Sunday) counts none.
pub proof fn lemma_ulid_counts_bounded(values: Seq<u128>, given_week_day: u32, now_millis: i64)
    ensures
        count_values(values, |v: u128| on_christmas_eve(v)) <= values.len(),
        count_values(values, |v: u128| on_weekday(v, given_week_day)) <= values.len(),
        count_values(values, |v: u128| in_the_future(v, now_millis)) <= values.len(),
        count_values(values, |v: u128| lowest_bit_set(v)) <= values.len(),
        given_week_day >= 7 ==> count_values(values, |v: u128| on_weekday(v, given_week_day)) == 0,
{
    lemma_count_bounds(values, |v: u128| on_christmas_eve(v));
    lemma_count_bounds(values, |v: u128| in_the_future(v, now_millis));
    lemma_count_bounds(values, |v: u128| lowest_bit_set(v));
    let p = |v: u128| on_weekday(v, given_week_day);
    if given_week_day >= 7 {
        assert forall|v: u128| !#[trigger] p(v) by {
            lemma_weekday_in_week(ulid_millis(v));
        }
    }
    lemma_count_bounds(values, p);
}

/// Adding one ULID `v` to a list raises each count by one exactly when `v`
/// qualifies, judged from its own bits: its timestamp (the top 48 bits, in
/// milliseconds) falls on 24 December in UTC; on the given weekday (0 for
/// Monday); later than `now_millis`; its lowest bit is 1. A ULID dated on the
/// 24th of another month does not count as Christmas Eve.
pub proof fn lemma_ulid_counts_step(values: Seq<u128>, v: u128, given_week_day: u32, now_millis: i64)
    ensures
        ({
            let millis = ((v as nat) / 0x1_0000_0000_0000_0000_0000nat) as u64;
            let date = utc_calendar_of(millis);
            &&& count_values(values.push(v), |x: u128| on_christmas_eve(x)) == count_values(
                values,
                |x: u128| on_christmas_eve(x),
            ) + if date.0 == 12 && date.1 == 24 { 1nat } else { 0nat }
            &&& count_values(values.push(v), |x: u128| on_weekday(x, given_week_day)) == count_values(
                values,
                |x: u128| on_weekday(x, given_week_day),
            ) + if date.2 as int == given_week_day as int + 1 { 1nat } else { 0nat }
            &&& count_values(values.push(v), |x: u128| in_the_future(x, now_millis)) == count_values(
                values,
                |x: u128| in_the_future(x, now_millis),
            ) + if millis as int > now_millis as int { 1nat } else { 0nat }
            &&& count_values(values.push(v), |x: u128| lowest_bit_set(x)) == count_values(
                values,
                |x: u128| lowest_bit_set(x),
            ) + if v % 2 == 1 { 1nat } else { 0nat }
        }),
{
    assert(values.push(v).drop_last() =~= values);
    assert(values.push(v).last() == v);
}

/// Counts over a list of ULIDs.
pub struct UlidStats {
    pub christmas_eve: u64,
    pub weekday: u64,
    pub in_the_future: u64,
    pub lsb_is_1: u64,
}

/// Counts the ULIDs made on a Christmas Eve, on the given weekday (0 for
/// Monday), later than `now_millis`, and with the lowest bit set.
pub fn ulid_stats(given_week_day: u32, values: &Vec<u128>, now_millis: i64) -> (res: UlidStats)
    ensures
        res.christmas_eve == count_values(values@, |v: u128| on_christmas_eve(v)),
        res.weekday == count_values(values@, |v: u128| on_weekday(v, given_week_day)),
        res.in_the_future == count_values(values@, |v: u128| in_the_future(v, now_millis)),
        res.lsb_is_1 == count_values(values@, |v: u128| lowest_bit_set(v)),
{
    let ghost p_eve = |v: u128| on_christmas_eve(v);
    let ghost p_day = |v: u128| on_weekday(v, given_week_day);
    let ghost p_future = |v: u128| in_the_future(v, now_millis);
    let ghost p_lsb = |v: u128| lowest_bit_set(v);
    let mut eve: u64 = 0;
    let mut day: u64 = 0;
    let mut future: u64 = 0;
    let mut lsb: u64 = 0;
    let mut i: usize = 0;
    while i < values.len()
        invariant
            i <= values@.len(),
            eve == count_values(values@.take(i as int), p_eve),
            day == count_values(values@.take(i as int), p_day),
            future == count_values(values@.take(i as int), p_future),
            lsb == count_values(values@.take(i as int), p_lsb),
            p_eve == (|v: u128| on_christmas_eve(v)),
            p_day == (|v: u128| on_weekday(v, given_week_day)),
            p_future == (|v: u128| in_the_future(v, now_millis)),
            p_lsb == (|v: u128| lowest_bit_set(v)),
            eve <= i && day <= i && future <= i && lsb <= i,
        decreases values@.len() - i,
    {
        let v = values[i];
        assert(values@.take(i + 1).drop_last() =~= values@.take(i as int));
        assert(values@.take(i + 1).last() == v);
        let shifted = v >> 80;
        assert(v >> 80 == v / 0x1_0000_0000_0000_0000_0000u128) by (bit_vector);
        assert(v >> 80 < 0x1_0000_0000_0000u128) by (bit_vector);
        let millis = shifted as u64;
        assert(millis == ulid_millis(v));
        let date = utc_calendar(millis);
        assert(date == utc_calendar_of(ulid_millis(v)));
        assert(p_eve(v) == (date.0 == 12 && date.1 == 24));
        assert(p_day(v) == (date.2 as int == given_week_day as int + 1));
        if date.0 == 12 && date.1 == 24 {
            eve = eve + 1;
        }
        if date.2 as u64 == given_week_day as u64 + 1 {
            day = day + 1;
        }
        if millis as i128 > now_millis as i128 {
            future = future + 1;
        }
        if v % 2 == 1 {
            lsb = lsb + 1;
        }
        i = i + 1;
    }
    assert(values@.take(values@.len() as int) =~= values@);
    UlidStats { christmas_eve: eve, weekday: day, in_the_future: future, lsb_is_1: lsb }
}

/// Parses the strings as ULIDs and counts them against the current time;
/// `None` when one of the strings is not a ULID.
pub fn get_ulids(given_week_day: u32, ulids: &Vec<String>) -> (res: Option<UlidStats>)
    ensures
        match res {
            Some(st) => {
                let values = Seq::new(ulids@.len(), |i: int| ulid_value(ulids@, i));
                &&& ulids_decode_all(ulids@)
                &&& st.christmas_eve == count_values(values, |v: u128| on_christmas_eve(v))
                &&& st.weekday == count_values(values, |v: u128| on_weekday(v, given_week_day))
                &&& st.lsb_is_1 == count_values(values, |v: u128| lowest_bit_set(v))
                &&& exists|now: i64| now >= 0 && st.in_the_future == #[trigger] future_count(values, now)
            },
            None => !ulids_decode_all(ulids@),
        },
{
    match parse_ulids(ulids) {
        Some(values) => {
            assert(values@ =~= Seq::new(ulids@.len(), |i: int| ulid_value(ulids@, i)));
            let now = now_millis();
            let st = ulid_stats(given_week_day, &values, now);
            assert(st.in_the_future == future_count(values@, now));
            Some(st)
        },
        None => None,
    }
}

} // verus!
