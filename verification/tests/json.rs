use lean_to::json::{parse, Json, Num};
use serde_json::Number;

fn shown(j: &Json) -> String {
    String::from_utf8(j.to_bytes()).unwrap()
}

#[test]
fn documents_are_read_and_written() {
    let text = r#"{"a":[1,-2,2.5,true,false,null,"x\né"],"b":{"c":18446744073709551615}}"#;
    let j = parse(text.as_bytes()).unwrap();
    let expected = "{\"a\":[1,-2,2.5,true,false,null,\"x\\n\u{e9}\"],\"b\":{\"c\":18446744073709551615}}";
    assert_eq!(shown(&j), expected);
    assert_eq!(shown(&j.copy()), expected);
    assert_eq!(parse(&j.to_bytes()).unwrap(), j);
}

#[test]
fn what_is_no_document_is_refused() {
    for bad in ["", "{", "[1,]", "nul", "\"a", "{\"a\" 1}", "1 2"] {
        assert!(parse(bad.as_bytes()).is_none(), "{bad}");
    }
    assert!(parse(&[0xff, 0xfe]).is_none());
}

#[test]
fn numbers_are_told_apart() {
    let j = parse(b"[0, 1, -1, 9223372036854775808, 1.0, 1e3]").unwrap();
    let items = j.as_array().unwrap();
    assert_eq!(items[0].as_u64(), Some(0));
    assert_eq!(items[1].as_i64(), Some(1));
    assert_eq!(items[2].as_u64(), None);
    assert_eq!(items[2].as_i64(), Some(-1));
    assert_eq!(items[3].as_u64(), Some(9223372036854775808));
    assert_eq!(items[3].as_i64(), None);
    assert_eq!(items[4].as_u64(), None);
    assert_eq!(items[4].as_i64(), None);
    assert_eq!(items[5].as_u64(), None);
    assert_eq!(Json::Num(Num::Signed(5)).as_u64(), Some(5));
    assert_eq!(shown(&Json::signed(5)), "5");
    assert_eq!(shown(&Json::signed(-5)), "-5");
}

#[test]
fn a_number_that_is_carried_along_is_read_by_its_value() {
    let carried = |n: Number| Json::Num(Num::Other(n));
    let five = carried(Number::from(5u64));
    assert_eq!(five.as_u64(), Some(5));
    assert_eq!(five.as_i64(), Some(5));
    assert_eq!(five.copy().as_u64(), Some(5));
    assert_eq!(shown(&five), "5");
    assert_eq!(parse(&five.to_bytes()).unwrap(), Json::number(5));
    let below = carried(Number::from(-5i64));
    assert_eq!(below.as_u64(), None);
    assert_eq!(below.as_i64(), Some(-5));
    assert_eq!(shown(&below), "-5");
    let large = carried(Number::from(u64::MAX));
    assert_eq!(large.as_u64(), Some(u64::MAX));
    assert_eq!(large.as_i64(), None);
    let broken = carried(Number::from_f64(2.5).unwrap());
    assert_eq!(broken.as_u64(), None);
    assert_eq!(broken.as_i64(), None);
    assert_eq!(shown(&broken), "2.5");
}

#[test]
fn members_are_found_by_their_keys() {
    let j = parse(br#"{"a":{"b":{"c":7}},"n":null,"s":"t","f":true}"#).unwrap();
    assert_eq!(j.get3("a", "b", "c").unwrap().as_u64(), Some(7));
    assert!(j.get2("a", "x").is_none());
    assert!(j.get3("a", "x", "c").is_none());
    assert!(j.get("n").unwrap().is_null());
    assert_eq!(j.get("s").unwrap().as_str(), Some("t"));
    assert_eq!(j.get("f").unwrap().as_bool(), Some(true));
    assert!(j.get("s").unwrap().get("t").is_none());
    assert!(j.is_object());
    assert!(j.as_array().is_none());
}

#[test]
fn the_last_of_several_entries_counts() {
    let j = parse(br#"{"a":1,"a":2}"#).unwrap();
    assert_eq!(shown(&j), r#"{"a":2}"#);
    let built = Json::Object(vec![
        ("a".to_string(), Json::number(1)),
        ("a".to_string(), Json::number(2)),
    ]);
    assert_eq!(built.get("a").unwrap().as_u64(), Some(2));
    assert_eq!(shown(&built), r#"{"a":2}"#);
}

#[test]
fn members_are_set() {
    let j = Json::object().with("b", Json::number(1)).with("a", Json::text("x"));
    assert_eq!(shown(&j), r#"{"a":"x","b":1}"#);
    let k = j.with("b", Json::array());
    assert_eq!(shown(&k), r#"{"a":"x","b":[]}"#);
    assert_eq!(shown(&Json::number(3).with("a", Json::Null)), "3");
}
