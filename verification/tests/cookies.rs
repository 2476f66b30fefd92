use base64::Engine;
use cch23::day7::{bake_any, cookie_recipe, recipe_bytes, AnyRecipe};
use cch23::error::MyError;

fn pairs(v: &[(&str, u32)]) -> Vec<(String, u32)> {
    v.iter().map(|(k, n)| (k.to_string(), *n)).collect()
}

#[test]
fn recipe_is_decoded() {
    let res = cookie_recipe(Some("recipe=eyJmbG91ciI6MTAwLCJjaG9jb2xhdGUgY2hpcHMiOjIwfQ=="));
    assert_eq!(res.unwrap(), "{\"flour\":100,\"chocolate chips\":20}");
}

#[test]
fn recipe_prefix_is_skipped_whatever_it_says() {
    let res = cookie_recipe(Some("xxxxxxxaGVsbG8="));
    assert_eq!(res.unwrap(), "hello");
}

#[test]
fn invalid_utf8_is_replaced() {
    // base64 of the bytes 0x66 0xff 0x6f
    let res = cookie_recipe(Some("recipe=Zv9v"));
    assert_eq!(res.unwrap(), "f\u{fffd}o");
}

#[test]
fn missing_cookie() {
    assert!(matches!(cookie_recipe(None), Err(MyError::CookieNotProvided)));
    assert!(matches!(recipe_bytes(None), Err(MyError::CookieNotProvided)));
}

#[test]
fn invalid_base64() {
    assert!(matches!(cookie_recipe(Some("recipe=not base64!")), Err(MyError::InvalidBase64)));
    assert!(matches!(recipe_bytes(Some("recipe=aGVsbG8")), Err(MyError::InvalidBase64)));
}

#[test]
fn bake_as_many_as_possible() {
    let order = AnyRecipe {
        recipe: pairs(&[("flour", 95), ("sugar", 50), ("butter", 30), ("baking powder", 10), ("chocolate chips", 50)]),
        pantry: pairs(&[("flour", 385), ("sugar", 507), ("butter", 2122), ("baking powder", 865), ("chocolate chips", 457)]),
    };
    let res = bake_any(&order);
    assert_eq!(res.cookies, 4);
    assert_eq!(
        res.pantry,
        pairs(&[("flour", 5), ("sugar", 307), ("butter", 2002), ("baking powder", 825), ("chocolate chips", 257)])
    );
}

#[test]
fn bake_one_more_would_not_fit() {
    let order = AnyRecipe {
        recipe: pairs(&[("flour", 3), ("egg", 2)]),
        pantry: pairs(&[("flour", 10), ("egg", 7), ("salt", 4)]),
    };
    let res = bake_any(&order);
    assert_eq!(res.cookies, 3);
    assert_eq!(res.pantry, pairs(&[("flour", 1), ("egg", 1), ("salt", 4)]));
}

#[test]
fn bake_missing_ingredient_bakes_nothing() {
    let order = AnyRecipe {
        recipe: pairs(&[("cocoa bean", 1), ("chicken", 0)]),
        pantry: pairs(&[("cocoa bean", 5), ("corn", 5), ("cucumber", 0)]),
    };
    let res = bake_any(&order);
    assert_eq!(res.cookies, 0);
    assert_eq!(res.pantry, pairs(&[("cocoa bean", 5), ("corn", 5), ("cucumber", 0)]));
}

#[test]
fn decoding_undoes_standard_encoding() {
    for text in ["", "a", "ab", "abc", "{\"recipe\":{\"flour\":95}}", "n\u{e4}hkeks \u{1F36A}"] {
        let cookie = format!("recipe={}", base64::engine::general_purpose::STANDARD.encode(text.as_bytes()));
        assert_eq!(cookie_recipe(Some(&cookie)).ok().as_deref(), Some(text));
    }
}

#[test]
fn undecodable_utf8_in_encoded_recipe_is_replaced() {
    let cookie = format!("recipe={}", base64::engine::general_purpose::STANDARD.encode([0x66u8, 0xff, 0x6f]));
    assert_eq!(cookie_recipe(Some(&cookie)).ok().as_deref(), Some("f\u{fffd}o"));
}
