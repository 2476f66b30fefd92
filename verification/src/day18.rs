use vstd::prelude::*;

use crate::numbers::{decimal, decimal_string};

verus! {

broadcast use vstd::string::group_string_axioms;

/// The query text up to the number of gifts listed per region.
pub open spec fn top_list_head() -> Seq<char> {
    "\n    SELECT \n        r.name as region,\n        ARRAY_REMOVE(ARRAY_AGG(o.gift_name),NULL) as top_gifts\n        FROM regions r\n        LEFT JOIN LATERAL (\n            SELECT o.gift_name,\n            SUM(o.quantity) AS total_quantity\n            FROM orders o\n            WHERE o.region_id = r.id\n            GROUP BY o.gift_name\n            ORDER BY total_quantity DESC, o.gift_name ASC\n            LIMIT "@
}

/// The query text after the number of gifts listed per region.
pub open spec fn top_list_tail() -> Seq<char> {
    "\n        ) o ON TRUE\n        GROUP BY r.name\n        ORDER BY r.name ASC\n        "@
}

/// The query that lists, for every region in name order, its `number` most
/// ordered gifts (ties broken by gift name).
pub fn top_list_query(number: u32) -> (res: String)
    ensures
        res@ == top_list_head() + decimal(number as nat) + top_list_tail(),
{
    let mut q = "\n    SELECT \n        r.name as region,\n        ARRAY_REMOVE(ARRAY_AGG(o.gift_name),NULL) as top_gifts\n        FROM regions r\n        LEFT JOIN LATERAL (\n            SELECT o.gift_name,\n            SUM(o.quantity) AS total_quantity\n            FROM orders o\n            WHERE o.region_id = r.id\n            GROUP BY o.gift_name\n            ORDER BY total_quantity DESC, o.gift_name ASC\n            LIMIT ".to_owned();
    q.append(decimal_string(number as u64).as_str());
    q.append("\n        ) o ON TRUE\n        GROUP BY r.name\n        ORDER BY r.name ASC\n        ");
    q
}

} // verus!
