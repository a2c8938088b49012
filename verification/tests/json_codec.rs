use star::json::{encode, Json};
use star::parse::json_decode;

fn enc(j: Json) -> String {
    encode(&j)
}

#[test]
fn encodes_scalars() {
    assert_eq!(enc(Json::Null), "null");
    assert_eq!(enc(Json::Bool(true)), "true");
    assert_eq!(enc(Json::Bool(false)), "false");
    assert_eq!(enc(Json::Int(0)), "0");
    assert_eq!(enc(Json::Int(42)), "42");
    assert_eq!(enc(Json::Int(-42)), "-42");
    assert_eq!(enc(Json::Int(i64::MAX)), "9223372036854775807");
    assert_eq!(enc(Json::Int(i64::MIN)), "-9223372036854775808");
}

#[test]
fn encodes_strings_with_escapes() {
    assert_eq!(enc(Json::Str(String::new())), "\"\"");
    assert_eq!(enc(Json::Str("plain".to_owned())), "\"plain\"");
    assert_eq!(
        enc(Json::Str("a\"b\\c\nd\te\rf".to_owned())),
        "\"a\\\"b\\\\c\\nd\\te\\rf\""
    );
    assert_eq!(enc(Json::Str("\u{8}\u{c}".to_owned())), "\"\\b\\f\"");
}

#[test]
fn encodes_composites() {
    let arr = Json::Arr(vec![Json::Null, Json::Bool(true), Json::Int(7)]);
    assert_eq!(enc(arr), "[null,true,7]");
    let obj = Json::Obj(vec![
        ("a".to_owned(), Json::Int(1)),
        ("b".to_owned(), Json::Str("x".to_owned())),
    ]);
    assert_eq!(enc(obj), "{\"a\":1,\"b\":\"x\"}");
    assert_eq!(enc(Json::Arr(Vec::new())), "[]");
    assert_eq!(enc(Json::Obj(Vec::new())), "{}");
}

#[test]
fn decodes_scalars() {
    assert!(matches!(json_decode("null"), Ok(Json::Null)));
    assert!(matches!(json_decode("true"), Ok(Json::Bool(true))));
    assert!(matches!(json_decode("false"), Ok(Json::Bool(false))));
    assert!(matches!(json_decode("42"), Ok(Json::Int(42))));
    assert!(matches!(json_decode("-42"), Ok(Json::Int(-42))));
    assert!(matches!(json_decode("  7  "), Ok(Json::Int(7))));
}

#[test]
fn decodes_number_limits() {
    assert!(matches!(
        json_decode("9223372036854775807"),
        Ok(Json::Int(i64::MAX))
    ));
    assert!(matches!(
        json_decode("-9223372036854775808"),
        Ok(Json::Int(i64::MIN))
    ));
    assert!(json_decode("9223372036854775808").is_err());
    assert!(json_decode("-9223372036854775809").is_err());
}

#[test]
fn decodes_strings() {
    match json_decode("\"hello\"") {
        Ok(Json::Str(s)) => assert_eq!(s, "hello"),
        other => panic!("unexpected: {:?}", other.is_ok()),
    }
    match json_decode("\"a\\nb\\\"c\\\\d\\/e\"") {
        Ok(Json::Str(s)) => assert_eq!(s, "a\nb\"c\\d/e"),
        other => panic!("unexpected: {:?}", other.is_ok()),
    }
    // A unicode escape is outside the accepted grammar.
    assert!(json_decode("\"\\u0041\"").is_err());
    // A raw control character is not accepted inside a literal.
    assert!(json_decode("\"a\nb\"").is_err());
}

#[test]
fn decodes_composites() {
    match json_decode("[1, 2, 3]") {
        Ok(Json::Arr(items)) => {
            assert_eq!(items.len(), 3);
            assert!(matches!(items[0], Json::Int(1)));
            assert!(matches!(items[2], Json::Int(3)));
        }
        _ => panic!("expected an array"),
    }
    match json_decode("{ \"a\" : [true, null] , \"b\" : {\"c\": -1} }") {
        Ok(Json::Obj(pairs)) => {
            assert_eq!(pairs.len(), 2);
            assert_eq!(pairs[0].0, "a");
            assert_eq!(pairs[1].0, "b");
        }
        _ => panic!("expected an object"),
    }
    assert!(matches!(json_decode("[]"), Ok(Json::Arr(v)) if v.is_empty()));
    assert!(matches!(json_decode("{}"), Ok(Json::Obj(v)) if v.is_empty()));
}

#[test]
fn round_trips_through_the_encoder() {
    let value = Json::Obj(vec![
        ("id".to_owned(), Json::Str("C".to_owned())),
        (
            "list".to_owned(),
            Json::Arr(vec![Json::Int(-5), Json::Null, Json::Str("x\"y".to_owned())]),
        ),
        ("flag".to_owned(), Json::Bool(false)),
    ]);
    let text = encode(&value);
    let back = json_decode(&text).expect("canonical text must decode");
    assert_eq!(encode(&back), text);
}

#[test]
fn rejects_malformed_text_with_an_offset() {
    let e = json_decode("{").unwrap_err();
    assert_eq!(e.message(), "malformed JSON at offset 1");
    let e = json_decode("nul").unwrap_err();
    assert_eq!(e.message(), "malformed JSON at offset 0");
    assert!(json_decode("").is_err());
    assert!(json_decode("   ").is_err());
    assert!(json_decode("12.5").is_err());
    assert!(json_decode("[1,]").is_err());
    assert!(json_decode("{\"a\":}").is_err());
    assert!(json_decode("\"open").is_err());
    assert!(json_decode("true false").is_err());
}
