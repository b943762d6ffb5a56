use appoptr::json::{add_field, no_fields, Json};

#[test]
fn documents_are_read() {
    let v = Json::parse(r#"{"a": [1, -2, 2.5, null, true, "x"], "a2": {}}"#).unwrap();
    assert!(v.is_object());
    let items = v.get("a").unwrap().as_list().unwrap();
    assert_eq!(items.len(), 6);
    assert_eq!(items[0].as_u64(), Some(1));
    assert_eq!(items[0].as_i64(), Some(1));
    assert_eq!(items[1].as_u64(), None);
    assert_eq!(items[1].as_i64(), Some(-2));
    assert_eq!(items[2].as_u64(), None);
    assert_eq!(items[2].as_i64(), None);
    assert!(items[3].is_null());
    assert_eq!(items[4].as_bool(), Some(true));
    assert_eq!(items[5].as_str(), Some("x"));
    assert!(v.get("b").is_none());
    assert!(items[5].get("b").is_none());
}

#[test]
fn broken_documents_are_refused() {
    assert_eq!(
        Json::parse("{").err(),
        Some("EOF while parsing an object at line 1 column 1".to_string())
    );
    assert!(Json::from_slice(b"{").is_none());
    assert!(Json::from_slice(b"\xff").is_none());
    assert_eq!(Json::from_slice(b" 7 ").unwrap().as_u64(), Some(7));
}

#[test]
fn a_later_field_replaces_an_earlier_one() {
    let v = Json::parse(r#"{"a": 1, "a": 2}"#).unwrap();
    assert_eq!(v.get("a").unwrap().as_u64(), Some(2));
    let mut fields = no_fields();
    add_field(&mut fields, "a", Json::Unsigned(1));
    add_field(&mut fields, "a", Json::Unsigned(2));
    assert_eq!(Json::Object(fields).text(), r#"{"a":2}"#);
}

#[test]
fn documents_are_written() {
    let mut fields = no_fields();
    add_field(&mut fields, "b", Json::of_option(&None));
    add_field(&mut fields, "a", Json::of_texts(&vec!["x\"y".to_string()]));
    add_field(&mut fields, "c", Json::Signed(-3));
    let v = Json::Object(fields);
    assert_eq!(v.text(), "{\"a\":[\"x\\\"y\"],\"b\":null,\"c\":-3}");
    assert_eq!(
        v.pretty().unwrap(),
        "{\n  \"a\": [\n    \"x\\\"y\"\n  ],\n  \"b\": null,\n  \"c\": -3\n}"
    );
    assert_eq!(Json::parse(&v.text()).unwrap().get("c").unwrap().as_i64(), Some(-3));
}
