use cch23::day12::{convert_ulids_to_uuids, get_ulids, ulid_stats, PacketStore};
use cch23::error::MyError;

const SEC: u128 = 1_000_000_000;

#[test]
fn saved_at_reports_the_last_save() {
    let mut store = PacketStore::new();
    assert_eq!(store.saved_at("a"), None);
    store.save_string("a", 7);
    store.save_string("a", 9);
    assert_eq!(store.saved_at("a"), Some(9));
    assert_eq!(store.saved_at("b"), None);
}

#[test]
fn load_after_save_gives_whole_seconds() {
    let mut store = PacketStore::new();
    store.save_string("packet20231212", 100 * SEC);
    assert!(matches!(store.load_string("packet20231212", 102 * SEC + SEC / 2), Ok(2)));
    assert!(matches!(store.load_string("packet20231212", 100 * SEC), Ok(0)));
    assert!(matches!(store.load_string("packet20231212", 107 * SEC), Ok(7)));
    assert_eq!(store.saved_at("packet20231212"), Some(100 * SEC));
}

#[test]
fn save_again_restarts_the_clock() {
    let mut store = PacketStore::new();
    store.save_string("a", 10 * SEC);
    store.save_string("b", 20 * SEC);
    store.save_string("a", 30 * SEC);
    assert!(matches!(store.load_string("a", 35 * SEC), Ok(5)));
    assert!(matches!(store.load_string("b", 35 * SEC), Ok(15)));
}

#[test]
fn load_unsaved_string_fails() {
    let mut store = PacketStore::new();
    store.save_string("a", 0);
    match store.load_string("other", 5 * SEC) {
        Err(MyError::CustomError(msg)) => assert_eq!(msg, "Given String was not saved"),
        _ => panic!("expected an error"),
    }
}

fn strings(v: &[&str]) -> Vec<String> {
    v.iter().map(|s| s.to_string()).collect()
}

#[test]
fn ulids_become_uuids_in_reverse_order() {
    let ulids = strings(&[
        "01BJQ0E1C3Z56ABCD0E11HYX4M",
        "01BJQ0E1C3Z56ABCD0E11HYX5N",
        "01BJQ0E1C3Z56ABCD0E11HYX6Q",
        "01BJQ0E1C3Z56ABCD0E11HYX7R",
        "01BJQ0E1C3Z56ABCD0E11HYX8P",
    ]);
    let uuids = convert_ulids_to_uuids(&ulids).unwrap();
    assert_eq!(
        uuids,
        strings(&[
            "015cae07-0583-f94c-a5b1-a070431f7516",
            "015cae07-0583-f94c-a5b1-a070431f74f8",
            "015cae07-0583-f94c-a5b1-a070431f74d7",
            "015cae07-0583-f94c-a5b1-a070431f74b5",
            "015cae07-0583-f94c-a5b1-a070431f7494",
        ])
    );
}

#[test]
fn lowercase_ulids_are_accepted() {
    let uuids = convert_ulids_to_uuids(&strings(&["01bjq0e1c3z56abcd0e11hyx4m"])).unwrap();
    assert_eq!(uuids, strings(&["015cae07-0583-f94c-a5b1-a070431f7494"]));
}

#[test]
fn top_bits_of_a_ulid_drop_out() {
    let uuids = convert_ulids_to_uuids(&strings(&["ZZZZZZZZZZZZZZZZZZZZZZZZZZ"])).unwrap();
    assert_eq!(uuids, strings(&["ffffffff-ffff-ffff-ffff-ffffffffffff"]));
}

#[test]
fn invalid_ulids_are_refused() {
    assert!(convert_ulids_to_uuids(&strings(&["01BJQ0E1C3Z56ABCD0E11HYX4"])).is_none());
    assert!(convert_ulids_to_uuids(&strings(&["01BJQ0E1C3Z56ABCD0E11HYX4U"])).is_none());
    assert!(get_ulids(0, &strings(&["not a ulid"])).is_none());
    assert_eq!(convert_ulids_to_uuids(&vec![]).unwrap().len(), 0);
}

#[test]
fn ulid_counts() {
    let ulids = strings(&[
        "00WEGGF0G0J5HEYXS3D7RWZGV8",
        "76EP4G39R8JD1N8AQNYDVJBRCF",
        "018CJ7KMG0051CDCS3B7BFJ3AK",
        "00Y986KPG0AMGB78RD45E9109K",
        "010451HTG0NYWMPWCEXG6AJ8F2",
        "01HH9SJEG0KY16H81S3N1BMXM4",
        "01HH9SJEG0P9M22Z9VGHH9C8CX",
        "017F8YY0G0NQA16HHC2QT5JD6X",
        "03QCPC7P003V1NND3B3QJW72QJ",
    ]);
    let st = get_ulids(5, &ulids).unwrap();
    assert_eq!(st.christmas_eve, 3);
    assert_eq!(st.weekday, 1);
    assert_eq!(st.in_the_future, 2);
    assert_eq!(st.lsb_is_1, 5);
}

#[test]
fn ulid_counts_at_a_given_time() {
    // 2023-12-24T00:00:00Z, a Sunday, in milliseconds.
    let ms: u128 = 1_703_376_000_000;
    let v = (ms << 80) | 1;
    let st = ulid_stats(6, &vec![v, v - 1], 0);
    assert_eq!((st.christmas_eve, st.weekday, st.in_the_future, st.lsb_is_1), (2, 2, 2, 1));
    let st = ulid_stats(0, &vec![v], 1_703_376_000_000);
    assert_eq!((st.christmas_eve, st.weekday, st.in_the_future, st.lsb_is_1), (1, 0, 0, 1));
}

#[test]
fn weekday_past_sunday_counts_none() {
    let ms: u128 = 1_703_376_000_000;
    let values: Vec<u128> = (0..7u128).map(|d| (ms + d * 86_400_000) << 80).collect();
    for w in 0..7u32 {
        assert_eq!(ulid_stats(w, &values, 0).weekday, 1);
    }
    assert_eq!(ulid_stats(7, &values, 0).weekday, 0);
    assert_eq!(ulid_stats(u32::MAX, &values, 0).weekday, 0);
}

#[test]
fn calendar_across_leap_days() {
    // 2000-02-29 and 2100-03-01 (2100 is no leap year), both at noon UTC.
    let leap: u128 = 951_825_600_000;
    let st = ulid_stats(1, &vec![leap << 80], 0);
    assert_eq!(st.weekday, 1);
    let later: u128 = 4_107_585_600_000;
    let st = ulid_stats(0, &vec![later << 80], 0);
    assert_eq!(st.weekday, 1);
    // 2029-12-24 at 23:59:59.999 UTC is still Christmas Eve.
    let eve: u128 = 1_892_851_199_999;
    assert_eq!(ulid_stats(0, &vec![eve << 80, (eve + 1) << 80], 0).christmas_eve, 1);
}
