use vstd::prelude::*;

use crate::error::MyError;
use base64::Engine;

verus! {

broadcast use vstd::string::group_string_axioms;

// ---------------------------------------------------------------------------
// Decoding the recipe cookie.
// ---------------------------------------------------------------------------

/// What the `base64` crate's `STANDARD` engine decodes from `input`, or `None`
/// where it reports an error.
pub uninterp spec fn spec_base64_standard_decode(input: Seq<u8>) -> Option<Seq<u8>>;

/// The string that std's `String::from_utf8_lossy` makes of `bytes`.
pub uninterp spec fn spec_utf8_lossy(bytes: Seq<u8>) -> Seq<char>;

/// The character of the standard base64 alphabet for a six-bit value:
/// `A`-`Z`, `a`-`z`, `0`-`9`, `+`, `/`.
pub open spec fn base64_char(v: nat) -> u8 {
    if v < 26 {
        (65 + v) as u8
    } else if v < 52 {
        (97 + v - 26) as u8
    } else if v < 62 {
        (48 + v - 52) as u8
    } else if v == 62 {
        43u8
    } else {
        47u8
    }
}

/// The standard base64 encoding of `b` with `=` padding (RFC 4648): each
/// group of three bytes becomes four characters, a last group of one or two
/// bytes becomes two or three characters and padding.
pub open spec fn base64_encode(b: Seq<u8>) -> Seq<u8>
    decreases b.len(),
{
    if b.len() == 0 {
        Seq::empty()
    } else if b.len() == 1 {
        let n = b[0] as nat;
        seq![base64_char(n / 4), base64_char((n % 4) * 16), 61u8, 61u8]
    } else if b.len() == 2 {
        let n = b[0] as nat * 256 + b[1] as nat;
        seq![base64_char(n / 1024), base64_char((n / 16) % 64), base64_char((n % 16) * 4), 61u8]
    } else {
        let n = b[0] as nat * 65536 + b[1] as nat * 256 + b[2] as nat;
        seq![base64_char(n / 262144), base64_char((n / 4096) % 64), base64_char((n / 64) % 64), base64_char(n % 64)]
            + base64_encode(b.skip(3))
    }
}

/// Calls `base64::engine::general_purpose::STANDARD.decode`. The contract
/// claims that the outcome is the named decoding of the input bytes, and that
/// the standard padded encoding of any bytes decodes to those bytes, as the
/// crate's `STANDARD` engine (standard alphabet, canonical padding) does.
#[verifier::external_body]
fn base64_standard_decode(input: &[u8]) -> (res: Option<Vec<u8>>)
    ensures
        match res {
            Some(v) => spec_base64_standard_decode(input@) == Some(v@),
            None => spec_base64_standard_decode(input@) is None,
        },
        forall|b: Seq<u8>| #[trigger] base64_encode(b) == input@ ==> res is Some && res.unwrap()@ == b,
{
    base64::engine::general_purpose::STANDARD.decode(input).ok()
}

/// Calls std's `String::from_utf8_lossy`. The contract claims that the result
/// is the named conversion, and, as std documents, that valid UTF-8 is
/// decoded unchanged.
#[verifier::external_body]
fn utf8_lossy(bytes: &[u8]) -> (res: String)
    ensures
        res@ == spec_utf8_lossy(bytes@),
        vstd::utf8::valid_utf8(bytes@) ==> res@ == vstd::utf8::decode_utf8(bytes@),
{
    String::from_utf8_lossy(bytes).into_owned()
}

/// The length of `recipe=`, the prefix that the cookie value starts with.
pub const RECIPE_PREFIX_LEN: usize = 7;

/// A cookie header value that the service can slice: ASCII (as a header value
/// that reads as text is) and at least as long as the prefix.
pub open spec fn cookie_sliceable(cookie: Seq<char>) -> bool {
    vstd::utf8::is_ascii_chars(cookie) && cookie.len() >= RECIPE_PREFIX_LEN
}

/// The characters of the cookie header, if there is one.
pub open spec fn cookie_view(cookie: Option<&str>) -> Option<Seq<char>> {
    match cookie {
        Some(c) => Some(c@),
        None => None,
    }
}

/// The recipe bytes carried by a cookie header: what follows the prefix,
/// decoded from base64.
pub open spec fn recipe_bytes_spec(cookie: Option<Seq<char>>) -> Result<Seq<u8>, MyError> {
    match cookie {
        None => Err(MyError::CookieNotProvided),
        Some(c) => match spec_base64_standard_decode(
            vstd::utf8::encode_utf8(c.skip(RECIPE_PREFIX_LEN as int)),
        ) {
            Some(b) => Ok(b),
            None => Err(MyError::InvalidBase64),
        },
    }
}

/// Decodes the recipe carried by the cookie header, if there is one.
pub fn recipe_bytes(cookie: Option<&str>) -> (res: Result<Vec<u8>, MyError>)
    requires
        cookie matches Some(c) ==> cookie_sliceable(c@),
    ensures
        match (res, recipe_bytes_spec(cookie_view(cookie))) {
            (Ok(v), Ok(w)) => v@ == w,
            (Err(MyError::CookieNotProvided), Err(MyError::CookieNotProvided)) => true,
            (Err(MyError::InvalidBase64), Err(MyError::InvalidBase64)) => true,
            _ => false,
        },
        forall|b: Seq<u8>|
            cookie matches Some(c) && #[trigger] base64_encode(b) == vstd::utf8::encode_utf8(
                c@.skip(RECIPE_PREFIX_LEN as int),
            ) ==> (res matches Ok(v) && v@ == b),
{
    match cookie {
        None => Err(MyError::CookieNotProvided),
        Some(c) => {
            let encoded = c.substring_ascii(RECIPE_PREFIX_LEN, c.unicode_len());
            match base64_standard_decode(encoded.as_bytes()) {
                Some(b) => Ok(b),
                None => Err(MyError::InvalidBase64),
            }
        },
    }
}

/// The decoded recipe, with invalid UTF-8 replaced.
pub fn cookie_recipe(cookie: Option<&str>) -> (res: Result<String, MyError>)
    requires
        cookie matches Some(c) ==> cookie_sliceable(c@),
    ensures
        match (res, recipe_bytes_spec(cookie_view(cookie))) {
            (Ok(s), Ok(w)) => s@ == spec_utf8_lossy(w) && (vstd::utf8::valid_utf8(w) ==> s@
                == vstd::utf8::decode_utf8(w)),
            (Err(MyError::CookieNotProvided), Err(MyError::CookieNotProvided)) => true,
            (Err(MyError::InvalidBase64), Err(MyError::InvalidBase64)) => true,
            _ => false,
        },
        forall|t: Seq<char>|
            cookie matches Some(c) && #[trigger] base64_encode(vstd::utf8::encode_utf8(t))
                == vstd::utf8::encode_utf8(c@.skip(RECIPE_PREFIX_LEN as int)) ==> (res matches Ok(s) && s@
                == t),
{
    proof {
        broadcast use vstd::utf8::encode_utf8_valid_utf8, vstd::utf8::encode_utf8_decode_utf8;
    }
    match recipe_bytes(cookie) {
        Ok(b) => Ok(utf8_lossy(b.as_slice())),
        Err(e) => Err(e),
    }
}

// ---------------------------------------------------------------------------
// Baking with any recipe.
// ---------------------------------------------------------------------------

/// A recipe (ingredient and amount per cookie) and a pantry (ingredient and
/// amount in stock). Within each list no ingredient occurs twice.
pub struct AnyRecipe {
    pub recipe: Vec<(String, u32)>,
    pub pantry: Vec<(String, u32)>,
}

/// How many cookies were baked and what is left in the pantry.
pub struct AnyCookie {
    pub cookies: u32,
    pub pantry: Vec<(String, u32)>,
}

/// The ingredient lists as sequences of names and amounts.
pub open spec fn pairs_view(p: Seq<(String, u32)>) -> Seq<(Seq<char>, u32)> {
    Seq::new(p.len(), |i: int| (p[i].0@, p[i].1))
}

/// No ingredient occurs twice.
pub open spec fn names_distinct(p: Seq<(Seq<char>, u32)>) -> bool {
    forall|i: int, j: int| 0 <= i < j < p.len() ==> #[trigger] p[i].0 != #[trigger] p[j].0
}

/// The amount listed for ingredient `k`, if it is listed.
pub open spec fn lookup(p: Seq<(Seq<char>, u32)>, k: Seq<char>) -> Option<u32>
    decreases p.len(),
{
    if p.len() == 0 {
        None
    } else if p.last().0 == k {
        Some(p.last().1)
    } else {
        lookup(p.drop_last(), k)
    }
}

/// How many cookies the stock of one ingredient allows: none when the pantry
/// lacks it.
pub open spec fn cookies_for(pantry: Seq<(Seq<char>, u32)>, need: (Seq<char>, u32)) -> nat {
    match lookup(pantry, need.0) {
        Some(have) => (have / need.1) as nat,
        None => 0,
    }
}

/// The least of `cookies_for` over the first `n` recipe entries.
pub open spec fn min_cookies(recipe: Seq<(Seq<char>, u32)>, pantry: Seq<(Seq<char>, u32)>, n: int) -> nat
    decreases n,
{
    if n <= 1 {
        cookies_for(pantry, recipe[0])
    } else {
        let m = min_cookies(recipe, pantry, n - 1);
        let c = cookies_for(pantry, recipe[n - 1]);
        if c < m { c } else { m }
    }
}

/// A recipe that the service can bake from without failing: it lists at
/// least one ingredient, and no ingredient that the pantry holds needs zero.
pub open spec fn bakeable(recipe: Seq<(Seq<char>, u32)>, pantry: Seq<(Seq<char>, u32)>) -> bool {
    &&& recipe.len() > 0
    &&& names_distinct(recipe)
    &&& names_distinct(pantry)
    &&& forall|i: int| 0 <= i < recipe.len() && (lookup(pantry, #[trigger] recipe[i].0) is Some)
        ==> recipe[i].1 > 0
}

/// The number of cookies: the least number over the recipe's ingredients.
pub open spec fn baked_cookies(recipe: Seq<(Seq<char>, u32)>, pantry: Seq<(Seq<char>, u32)>) -> nat {
    min_cookies(recipe, pantry, recipe.len() as int)
}

/// The pantry after baking `cookies` cookies.
pub open spec fn pantry_after(
    recipe: Seq<(Seq<char>, u32)>,
    pantry: Seq<(Seq<char>, u32)>,
    cookies: nat,
) -> Seq<(Seq<char>, u32)> {
    Seq::new(
        pantry.len(),
        |j: int|
            (
                pantry[j].0,
                match lookup(recipe, pantry[j].0) {
                    Some(need) => (pantry[j].1 - need * cookies) as u32,
                    None => pantry[j].1,
                },
            ),
    )
}

proof fn lemma_lookup_found(p: Seq<(Seq<char>, u32)>, i: int)
    requires
        names_distinct(p),
        0 <= i < p.len(),
    ensures
        lookup(p, p[i].0) == Some(p[i].1),
    decreases p.len(),
{
    if i < p.len() - 1 {
        let q = p.drop_last();
        assert(p[i].0 != p[p.len() - 1].0);
        assert(names_distinct(q)) by {
            assert forall|a: int, b: int| 0 <= a < b < q.len() implies #[trigger] q[a].0 != #[trigger] q[b].0 by {
                assert(q[a] == p[a] && q[b] == p[b]);
            }
        }
        assert(q[i] == p[i]);
        lemma_lookup_found(q, i);
    }
}

proof fn lemma_lookup_some(p: Seq<(Seq<char>, u32)>, k: Seq<char>)
    requires
        lookup(p, k) is Some,
    ensures
        exists|i: int| 0 <= i < p.len() && #[trigger] p[i].0 == k && p[i].1 == lookup(p, k).unwrap(),
    decreases p.len(),
{
    if p.last().0 != k {
        lemma_lookup_some(p.drop_last(), k);
        let i = choose|i: int| 0 <= i < p.drop_last().len() && #[trigger] p.drop_last()[i].0 == k
            && p.drop_last()[i].1 == lookup(p.drop_last(), k).unwrap();
        assert(p[i] == p.drop_last()[i]);
    } else {
        assert(p[p.len() - 1].0 == k);
    }
}

proof fn lemma_min_cookies(recipe: Seq<(Seq<char>, u32)>, pantry: Seq<(Seq<char>, u32)>, n: int)
    requires
        1 <= n <= recipe.len(),
    ensures
        forall|i: int| 0 <= i < n ==> min_cookies(recipe, pantry, n) <= #[trigger] cookies_for(pantry, recipe[i]),
        exists|i: int| 0 <= i < n && min_cookies(recipe, pantry, n) == #[trigger] cookies_for(pantry, recipe[i]),
    decreases n,
{
    if n > 1 {
        lemma_min_cookies(recipe, pantry, n - 1);
        let m = min_cookies(recipe, pantry, n - 1);
        let c = cookies_for(pantry, recipe[n - 1]);
        if c >= m {
            let i = choose|i: int| 0 <= i < n - 1 && m == #[trigger] cookies_for(pantry, recipe[i]);
            assert(0 <= i < n && min_cookies(recipe, pantry, n) == cookies_for(pantry, recipe[i]));
        }
    } else {
        assert(min_cookies(recipe, pantry, n) == cookies_for(pantry, recipe[0]));
    }
}

/// Baking uses up exactly the recipe's amounts for each cookie, and the
/// number of cookies is the most that the pantry allows: every ingredient
/// suffices for that many, and some ingredient does not suffice for one more.
pub proof fn lemma_bake_is_maximal(recipe: Seq<(Seq<char>, u32)>, pantry: Seq<(Seq<char>, u32)>)
    requires
        bakeable(recipe, pantry),
    ensures
        forall|i: int| 0 <= i < recipe.len() ==> match lookup(pantry, #[trigger] recipe[i].0) {
            Some(have) => recipe[i].1 * baked_cookies(recipe, pantry) <= have,
            None => baked_cookies(recipe, pantry) == 0,
        },
        exists|i: int| 0 <= i < recipe.len() && match lookup(pantry, #[trigger] recipe[i].0) {
            Some(have) => have < recipe[i].1 * (baked_cookies(recipe, pantry) + 1),
            None => true,
        },
{
    let c = baked_cookies(recipe, pantry);
    lemma_min_cookies(recipe, pantry, recipe.len() as int);
    assert forall|i: int| 0 <= i < recipe.len() implies match lookup(pantry, #[trigger] recipe[i].0) {
        Some(have) => recipe[i].1 * c <= have,
        None => c == 0,
    } by {
        assert(c <= cookies_for(pantry, recipe[i]));
        match lookup(pantry, recipe[i].0) {
            Some(have) => {
                let need = recipe[i].1;
                assert(need > 0);
                assert(need * c <= have) by (nonlinear_arith)
                    requires need > 0, c <= have / need, have >= 0;
            },
            None => {},
        }
    }
    let k = choose|i: int| 0 <= i < recipe.len() && c == #[trigger] cookies_for(pantry, recipe[i]);
    match lookup(pantry, recipe[k].0) {
        Some(have) => {
            let need = recipe[k].1;
            assert(need > 0);
            assert(have < need * (c + 1)) by (nonlinear_arith)
                requires need > 0, c == have / need, have >= 0;
        },
        None => {},
    }
}

fn lookup_exec(p: &Vec<(String, u32)>, k: &str) -> (res: Option<u32>)
    ensures
        res == lookup(pairs_view(p@), k@),
{
    let ghost v = pairs_view(p@);
    let mut i: usize = p.len();
    assert(v.take(i as int) =~= v);
    while i > 0
        invariant
            i <= p.len(),
            v == pairs_view(p@),
            lookup(v, k@) == lookup(v.take(i as int), k@),
        decreases i,
    {
        let ghost t = v.take(i as int);
        assert(t.drop_last() =~= v.take(i - 1));
        assert(t.last() == (p@[i - 1].0@, p@[i - 1].1));
        if crate::text::str_eq(p[i - 1].0.as_str(), k) {
            return Some(p[i - 1].1);
        }
        i = i - 1;
    }
    None
}

fn cookies_for_exec(pantry: &Vec<(String, u32)>, need: &(String, u32)) -> (res: u32)
    requires
        lookup(pairs_view(pantry@), need.0@) is Some ==> need.1 > 0,
    ensures
        res == cookies_for(pairs_view(pantry@), (need.0@, need.1)),
{
    match lookup_exec(pantry, need.0.as_str()) {
        Some(have) => have / need.1,
        None => 0,
    }
}

/// Bakes as many cookies as the pantry allows and takes the ingredients out.
pub fn bake_any(order: &AnyRecipe) -> (res: AnyCookie)
    requires
        bakeable(pairs_view(order.recipe@), pairs_view(order.pantry@)),
    ensures
        res.cookies == baked_cookies(pairs_view(order.recipe@), pairs_view(order.pantry@)),
        pairs_view(res.pantry@) == pantry_after(
            pairs_view(order.recipe@),
            pairs_view(order.pantry@),
            res.cookies as nat,
        ),
{
    let ghost r = pairs_view(order.recipe@);
    let ghost p = pairs_view(order.pantry@);
    let recipe = &order.recipe;
    let pantry = &order.pantry;
    assert(r[0] == (recipe@[0].0@, recipe@[0].1));
    assert(lookup(p, r[0].0) is Some ==> r[0].1 > 0);
    let mut cookies = cookies_for_exec(pantry, &recipe[0]);
    let mut i: usize = 1;
    while i < recipe.len()
        invariant
            1 <= i <= recipe.len(),
            r == pairs_view(recipe@),
            p == pairs_view(pantry@),
            bakeable(r, p),
            cookies == min_cookies(r, p, i as int),
        decreases recipe.len() - i,
    {
        assert(r[i as int] == (recipe@[i as int].0@, recipe@[i as int].1));
        assert(lookup(p, r[i as int].0) is Some ==> r[i as int].1 > 0);
        let c = cookies_for_exec(pantry, &recipe[i]);
        if c < cookies {
            cookies = c;
        }
        i = i + 1;
    }
    proof {
        lemma_bake_is_maximal(r, p);
    }
    let mut left: Vec<(String, u32)> = Vec::new();
    let mut j: usize = 0;
    while j < pantry.len()
        invariant
            j <= pantry.len(),
            r == pairs_view(recipe@),
            p == pairs_view(pantry@),
            bakeable(r, p),
            cookies == baked_cookies(r, p),
            forall|i: int| 0 <= i < r.len() ==> match lookup(p, #[trigger] r[i].0) {
                Some(have) => r[i].1 * cookies <= have,
                None => cookies == 0,
            },
            pairs_view(left@) =~= pantry_after(r, p, cookies as nat).take(j as int),
        decreases pantry.len() - j,
    {
        let name = &pantry[j].0;
        let have = pantry[j].1;
        assert(p[j as int] == (name@, have));
        let amount = match lookup_exec(recipe, name.as_str()) {
            Some(need) => {
                proof {
                    lemma_lookup_some(r, name@);
                    let i = choose|i: int| 0 <= i < r.len() && #[trigger] r[i].0 == name@ && r[i].1 == need;
                    lemma_lookup_found(p, j as int);
                    assert(lookup(p, r[i].0) == Some(have));
                    assert(need * cookies <= have);
                }
                have - need * cookies
            },
            None => have,
        };
        let ghost expected = pantry_after(r, p, cookies as nat);
        assert(expected[j as int] == (name@, amount));
        let ghost before = pairs_view(left@);
        left.push((name.clone(), amount));
        assert(pairs_view(left@) =~= before.push((name@, amount)));
        assert(expected.take(j + 1) =~= expected.take(j as int).push(expected[j as int]));
        j = j + 1;
    }
    AnyCookie { cookies, pantry: left }
}

} // verus!
