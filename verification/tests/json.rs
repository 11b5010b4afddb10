use codex_companion_relay::json::{
    integer, object, parse_json, render_json, text, unsigned, Json, JsonFault,
};
use codex_companion_relay::names::{holds_name, name_less, place_name, position_of};
use codex_companion_relay::tally::Tally;
use codex_companion_relay::text::{
    decimal, hexadecimal, join, lowered, pad_zeros, respaced, signed_decimal, split, split_once,
    strip_prefix, trimmed,
};

fn json(text: &str) -> Json {
    parse_json(text.as_bytes()).expect("json")
}

#[test]
fn json_is_read_and_written() {
    let source = r#"{"b":[1,-2,null,true,"x\n"],"a":{"z":18446744073709551615}}"#;
    assert_eq!(
        render_json(&json(source)),
        r#"{"a":{"z":18446744073709551615},"b":[1,-2,null,true,"x\n"]}"#
    );
    let written = render_json(&json(source));
    assert_eq!(render_json(&json(&written)), written);
    assert_eq!(render_json(&json("0.1")), "0.1");
    assert_eq!(render_json(&json("1e300")), "1e+300");
}

#[test]
fn faults_of_json_are_told_apart() {
    assert!(matches!(parse_json(b"{\"a\":"), Err(JsonFault::Incomplete)));
    assert!(matches!(parse_json(b"{a}"), Err(JsonFault::Malformed)));
    assert!(matches!(parse_json(b"\"\xff\""), Err(JsonFault::Malformed)));
}

#[test]
fn deep_json_is_read_back_up_to_a_limit() {
    let nested = |levels: usize| format!("{}{}", "[".repeat(levels), "]".repeat(levels));
    assert_eq!(render_json(&json(&nested(127))), nested(127));
    assert!(parse_json(nested(128).as_bytes()).is_err());
}

#[test]
fn fields_are_set_and_removed() {
    let value = object().entry("a", unsigned(1)).entry("b", text("two"));
    let value = value.with("a", integer(-1)).with("c", Json::Null);
    assert_eq!(value.get("a").and_then(|field| field.as_i64()), Some(-1));
    assert_eq!(value.get_text("b"), Some("two"));
    assert!(value.get("c").is_some_and(|field| field.is_null()));
    let value = value.without("a");
    assert!(value.get("a").is_none());
    assert_eq!(value.get_text("b"), Some("two"));
    assert_eq!(json(r#"{"a":1,"a":2}"#).get("a").and_then(|field| field.as_u64()), Some(2));
}

#[test]
fn texts_are_cut_and_joined() {
    assert_eq!(trimmed("\u{3000} a b \n"), "a b");
    assert_eq!(lowered("ÄBC"), "Äbc");
    assert_eq!(split("a,b;c", &[',', ';']), vec!["a", "b", "c"]);
    assert_eq!(join(&vec!["a".to_string(), "b".to_string()], "-"), "a-b");
    assert_eq!(
        split_once("key=a=b", '='),
        Some(("key".to_string(), "a=b".to_string()))
    );
    assert_eq!(strip_prefix("data: x", "data:").as_deref(), Some(" x"));
    assert_eq!(respaced("\u{85}a\u{2003}b"), "a b");
    assert_eq!(decimal(u64::MAX), "18446744073709551615");
    assert_eq!(signed_decimal(i64::MIN), "-9223372036854775808");
    assert_eq!(hexadecimal(u128::MAX), "f".repeat(32));
    assert_eq!(pad_zeros("ab", 4), "00ab");
    assert_eq!(pad_zeros("abcde", 4), "abcde");
}

#[test]
fn names_are_kept_in_order() {
    let mut names = Vec::new();
    for name in ["b", "a", "é", "b", "aa"] {
        place_name(&mut names, name);
    }
    assert_eq!(names, vec!["a", "aa", "b", "é"]);
    assert!(holds_name(&names, "aa"));
    assert_eq!(position_of(&names, "b"), Some(2));
    assert!(name_less("a", "aa"));
    assert!(!name_less("a", "a"));
    assert!(name_less("z", "é"));
}

#[test]
fn counts_go_up_and_down() {
    let mut tally = Tally::new();
    tally.add_one("a");
    tally.add_one("b");
    tally.add_one("a");
    assert_eq!((tally.count("a"), tally.count("b")), (2, 1));
    tally.take_one("a");
    tally.take_one("a");
    tally.take_one("a");
    assert_eq!((tally.count("a"), tally.count("b")), (0, 1));
}
