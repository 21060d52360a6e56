use meetily::json::{json_of, parse_json, Json};

#[test]
fn parses_every_kind_of_value() {
    assert!(matches!(parse_json("null"), Some(Json::Null)));
    assert!(matches!(parse_json("true"), Some(Json::Bool(true))));
    assert!(matches!(parse_json(" -1.5e3 "), Some(Json::Number)));
    match parse_json("\"a\\nb\\u00e9\"") {
        Some(Json::Text(s)) => assert_eq!(s, "a\nb\u{e9}"),
        other => panic!("{:?}", other),
    }
    match parse_json("[1, \"x\", []]") {
        Some(Json::List(items)) => {
            assert_eq!(items.len(), 3);
            assert!(matches!(items[0], Json::Number));
            assert!(matches!(&items[1], Json::Text(s) if s == "x"));
            assert!(matches!(&items[2], Json::List(l) if l.is_empty()));
        },
        other => panic!("{:?}", other),
    }
    match parse_json("{\"b\": {\"c\": false}, \"a\": null}") {
        Some(Json::Object(members)) => {
            let names: Vec<&str> = members.iter().map(|m| m.0.as_str()).collect();
            assert_eq!(members.len(), 2);
            assert!(names.contains(&"a") && names.contains(&"b"));
            for (name, value) in &members {
                if name == "b" {
                    assert!(matches!(value, Json::Object(m) if m.len() == 1 && matches!(m[0].1, Json::Bool(false))));
                } else {
                    assert!(matches!(value, Json::Null));
                }
            }
        },
        other => panic!("{:?}", other),
    }
}

#[test]
fn what_is_not_json_does_not_parse() {
    assert!(parse_json("").is_none());
    assert!(parse_json("{").is_none());
    assert!(parse_json("{} {}").is_none());
    assert!(parse_json("plain words").is_none());
}

#[test]
fn reads_the_text_of_a_member() {
    let value = parse_json("{\"action\": \"read\", \"n\": 3}").unwrap();
    assert_eq!(value.text_of("action").map(|s| s.as_str()), Some("read"));
    assert_eq!(value.text_of("n"), None);
    assert_eq!(value.text_of("missing"), None);
    assert_eq!(parse_json("[\"action\"]").unwrap().text_of("action"), None);
}

#[test]
fn converts_a_value_with_its_members_in_their_order() {
    let value: serde_json::Value = serde_json::from_str("{\"z\": [true], \"a\": \"t\"}").unwrap();
    let order: Vec<String> = value.as_object().unwrap().keys().cloned().collect();
    match json_of(&value) {
        Json::Object(members) => {
            assert_eq!(members.iter().map(|m| m.0.clone()).collect::<Vec<_>>(), order);
        },
        other => panic!("{:?}", other),
    }
}
