use versions_le::document::{parse_json, Tree};

#[test]
fn a_json_document_becomes_a_tree() {
    let tree = parse_json(r#"{ "a": "x", "b": [true, 7, null, 1.5], "c": { "d": "e" } }"#)
        .expect("valid JSON");
    assert_eq!(tree.get("a").and_then(|t| t.as_text()).map(|s| s.as_str()), Some("x"));
    let list = tree.get("b").and_then(|t| t.as_list()).expect("a list");
    assert_eq!(list.len(), 4);
    assert_eq!(list[0].as_bool(), Some(true));
    assert_eq!(list[1].as_unsigned(), Some(7));
    assert!(matches!(list[2], Tree::Null));
    assert!(matches!(list[3], Tree::Other));
    let inner = tree.get("c").expect("a table");
    assert_eq!(inner.get("d").and_then(|t| t.as_text()).map(|s| s.as_str()), Some("e"));
    assert!(tree.get("missing").is_none());
}

#[test]
fn a_table_lists_its_keys_in_the_order_serde_json_keeps_them() {
    let tree = parse_json(r#"{ "z": "1", "a": "2", "m": "3" }"#).expect("valid JSON");
    let keys: Vec<&str> =
        tree.as_table().expect("a table").iter().map(|(k, _)| k.as_str()).collect();
    assert_eq!(keys, ["a", "m", "z"]);
}

#[test]
fn text_that_is_not_json_is_no_tree() {
    assert!(parse_json("{ not json").is_none());
    assert!(parse_json("").is_none());
}

#[test]
fn a_value_that_is_not_a_table_has_no_keys() {
    let tree = parse_json(r#"["a"]"#).expect("valid JSON");
    assert!(tree.get("a").is_none());
    assert!(tree.as_table().is_none());
    assert!(tree.as_text().is_none());
}
