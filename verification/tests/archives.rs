use cch23::day20::{cookie_commit, cookiefinder, find_cookie_commit, get_archive_files, get_archive_files_size, parents_listed_after, santa_has_cookie, CommitGraph, CommitNode};

fn archive(files: &[(&str, &[u8])]) -> Vec<u8> {
    let mut builder = tar::Builder::new(Vec::new());
    for (name, data) in files {
        let mut header = tar::Header::new_gnu();
        header.set_size(data.len() as u64);
        header.set_mode(0o644);
        header.set_cksum();
        builder.append_data(&mut header, name, *data).unwrap();
    }
    builder.into_inner().unwrap()
}

#[test]
fn archive_entries_counted() {
    let bytes = archive(&[("a.txt", b"abc"), ("b.txt", b"hello")]);
    assert_eq!(get_archive_files(&bytes), 2);
    assert_eq!(get_archive_files_size(&bytes), 8);
}

#[test]
fn empty_archive() {
    let bytes = archive(&[]);
    assert_eq!(get_archive_files(&bytes), 0);
    assert_eq!(get_archive_files_size(&bytes), 0);
}

#[test]
fn truncated_archive_yields_an_error_entry() {
    let mut bytes = archive(&[("a.txt", b"abc")]);
    bytes.truncate(100);
    assert_eq!(get_archive_files(&bytes), 1);
    assert_eq!(get_archive_files_size(&bytes), 0);
}

fn node(has_cookie: bool, parents: Vec<usize>) -> CommitNode {
    CommitNode { has_cookie, parents }
}

#[test]
fn cookie_at_the_tip() {
    let g = CommitGraph { nodes: vec![node(true, vec![1]), node(true, vec![])] };
    assert_eq!(cookie_commit(&g), Some(0));
}

#[test]
fn cookie_found_in_ancestor() {
    let g = CommitGraph { nodes: vec![node(false, vec![1]), node(false, vec![2]), node(true, vec![3]), node(false, vec![])] };
    assert_eq!(cookie_commit(&g), Some(2));
    assert_eq!(cookiefinder(&g, 0, 0), (2, Some(2)));
}

#[test]
fn nearest_cookie_wins() {
    // 0 has parents 1 and 2; 1 -> 3 (cookie), 2 has the cookie itself.
    let g = CommitGraph {
        nodes: vec![node(false, vec![1, 2]), node(false, vec![3]), node(true, vec![4]), node(true, vec![4]), node(false, vec![])],
    };
    assert_eq!(cookiefinder(&g, 0, 0), (1, Some(2)));
}

#[test]
fn dead_end_branch_hides_the_cookie() {
    // A parent without ancestors gives (0, None), which is the least count.
    let g = CommitGraph { nodes: vec![node(false, vec![1, 2]), node(true, vec![]), node(false, vec![])] };
    assert_eq!(cookiefinder(&g, 0, 0), (0, None));
    let g = CommitGraph { nodes: vec![node(false, vec![1, 2]), node(false, vec![3]), node(false, vec![]), node(true, vec![])] };
    assert_eq!(cookiefinder(&g, 0, 0), (0, None));
    assert_eq!(cookie_commit(&g), None);
}

#[test]
fn santa_files() {
    assert!(santa_has_cookie(&vec![b"no".to_vec(), b"a COOKIE here".to_vec()]));
    assert!(!santa_has_cookie(&vec![b"cookie".to_vec()]));
    assert!(!santa_has_cookie(&vec![vec![0xff, b'C', b'O', b'O', b'K', b'I', b'E']]));
    assert!(!santa_has_cookie(&vec![]));
}

#[test]
fn parent_order_is_checked() {
    let good = CommitGraph { nodes: vec![node(false, vec![1, 2]), node(false, vec![2]), node(true, vec![])] };
    assert!(parents_listed_after(&good));
    assert_eq!(find_cookie_commit(&good), Some(Some(2)));
    let backwards = CommitGraph { nodes: vec![node(false, vec![1]), node(true, vec![0])] };
    assert!(!parents_listed_after(&backwards));
    assert_eq!(find_cookie_commit(&backwards), None);
    let dangling = CommitGraph { nodes: vec![node(false, vec![5])] };
    assert_eq!(find_cookie_commit(&dangling), None);
    assert_eq!(find_cookie_commit(&CommitGraph { nodes: vec![] }), None);
}
