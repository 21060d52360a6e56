use meetily::chat::summary::{flatten_json, flatten_summary, walk_summary};
use meetily::json::{parse_json, Json};

#[test]
fn headings_come_first() {
    let stored = "{\"blocks\": [\"one\", {\"content\": \"two\", \"heading\": \"H\"}], \"name\": \"N\", \"title\": \"T\"}";
    assert_eq!(flatten_summary(stored), "T\nN\none\nH\ntwo");
}

#[test]
fn other_values_leave_no_line() {
    assert_eq!(flatten_summary("{\"a\": null, \"b\": 3, \"c\": [true, \"x\"]}"), "x");
    assert_eq!(flatten_summary("[]"), "");
    assert_eq!(flatten_summary("\" padded \""), "padded");
}

#[test]
fn a_heading_that_is_no_text_is_passed_over() {
    assert_eq!(flatten_summary("{\"title\": [\"inside\"], \"z\": \"kept\"}"), "kept");
    assert_eq!(flatten_summary("{\"title\": \"  \", \"z\": \"kept\"}"), "kept");
}

#[test]
fn lines_are_clean_and_stand_once() {
    let flat = flatten_summary("{\"title\": \" Same \", \"a\": \"Same\", \"b\": [\"\\tother\\n\", \" \", \"other\"]}");
    assert_eq!(flat, "Same\nother");
    let lines: Vec<&str> = flat.split('\n').collect();
    assert!(lines.iter().all(|l| !l.is_empty() && l.trim() == *l));
}

#[test]
fn what_is_not_json_stays_as_it_is() {
    assert_eq!(flatten_summary(" plain\n words "), " plain\n words ");
    assert_eq!(flatten_summary("{\"a\": "), "{\"a\": ");
    assert_eq!(flatten_summary(" \n\t"), "");
    assert_eq!(flatten_summary(""), "");
}

#[test]
fn walking_adds_to_what_is_there() {
    let mut out = vec!["before".to_string()];
    walk_summary(&parse_json("[\"x\", [\"y\"]]").unwrap(), &mut out);
    assert_eq!(out, vec!["before".to_string(), "x".to_string(), "y".to_string()]);
    let value = Json::Object(vec![
        ("b".to_string(), Json::Text("second".to_string())),
        ("a".to_string(), Json::Text("third".to_string())),
        ("heading".to_string(), Json::Text("first".to_string())),
    ]);
    assert_eq!(flatten_json(&value), "first\nsecond\nthird");
}
