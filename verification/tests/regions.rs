use cch23::day18::top_list_query;

#[test]
fn top_list_query_limits_gifts() {
    let q = top_list_query(3);
    assert!(q.contains("            LIMIT 3\n        ) o ON TRUE\n"));
    assert!(q.starts_with("\n    SELECT \n        r.name as region,\n"));
    assert!(q.ends_with("ORDER BY r.name ASC\n        "));
}

#[test]
fn top_list_query_with_zero_and_large_numbers() {
    assert!(top_list_query(0).contains("LIMIT 0\n"));
    assert!(top_list_query(4294967295).contains("LIMIT 4294967295\n"));
}
