use jsonprop::node::{JsonNode, NodeErrorKind};
use jsonprop::parser::JsonParser;

#[test]
fn slice_tests() {
    assert_eq!("1", JsonNode::new(&JsonParser::process(" 1")).slice());
    assert_eq!(
        r##""hoge""##,
        JsonNode::new(&JsonParser::process(r##" "hoge" "##)).slice()
    );
    assert_eq!(
        "[1, 2, 3]",
        JsonNode::new(&JsonParser::process(" [1, 2, 3]")).slice()
    );
    assert_eq!(
        r##"{"key": true}"##,
        JsonNode::new(&JsonParser::process(r##" {"key": true}"##)).slice()
    );
}

#[test]
fn node_tests() {
    {
        let parser = JsonParser::process("[1, 2, 3]");
        let array = JsonNode::new(&parser);

        assert_eq!(Some(3), array.array_len());
        assert_eq!(Some(1), array.get(0).unwrap().get_int());
        assert_eq!(Some(2), array.get(1).unwrap().get_int());
        assert_eq!(Some(3), array.get(2).unwrap().get_int());
    }

    {
        let parser = JsonParser::process(r##"{ "key": true }"##);
        let obj = JsonNode::new(&parser);
        assert_eq!("true", obj.key("key").unwrap().slice());
    }

    {
        let parser = JsonParser::process(r##"{ "key": {"key2": true }}"##);
        let obj = JsonNode::new(&parser);
        assert_eq!("true", obj.key("key").unwrap().key("key2").unwrap().slice());
    }
}

#[test]
fn nested_field_lookup_renders_true() {
    let parser = JsonParser::process(r##"{"key": {"key2": true}}"##);
    let root = JsonNode::new(&parser);
    let inner = root.key("key").unwrap().key("key2").unwrap();
    assert_eq!("true", inner.slice());
    assert_eq!(Some(true), inner.get_bool());
}

#[test]
fn index_access_reads_each_integer() {
    let parser = JsonParser::process("[1, 2, 3]");
    let root = JsonNode::new(&parser);
    assert_eq!(Some(1), root.get(0).unwrap().get_int());
    assert_eq!(Some(2), root.get(1).unwrap().get_int());
    assert_eq!(Some(3), root.get(2).unwrap().get_int());
    assert_eq!("1", root.get(0).unwrap().slice());
}

#[test]
fn missing_key_is_a_navigation_error() {
    let parser = JsonParser::tokenize(r##"{"key": true}"##).unwrap();
    let root = JsonNode::new(&parser);
    let err = root.key("missing").unwrap_err();
    assert_eq!(NodeErrorKind::NotFound, err.kind);
}

#[test]
fn index_past_the_end_is_out_of_range() {
    let parser = JsonParser::process("[1, 2, 3]");
    let root = JsonNode::new(&parser);
    assert_eq!(NodeErrorKind::OutOfRange, root.get(3).unwrap_err().kind);
    let empty = JsonParser::process("[]");
    assert_eq!(NodeErrorKind::OutOfRange, JsonNode::new(&empty).get(0).unwrap_err().kind);
}

#[test]
fn structural_access_on_wrong_kind_fails() {
    let parser = JsonParser::process(r##"{"a": [true]}"##);
    let root = JsonNode::new(&parser);
    assert_eq!(NodeErrorKind::NotArray, root.get(0).unwrap_err().kind);
    let array = root.key("a").unwrap();
    assert_eq!(NodeErrorKind::NotObject, array.key("a").unwrap_err().kind);
    assert_eq!(Some(1), array.array_len());
    assert_eq!(None, array.object_len());
    assert_eq!(Some(1), root.object_len());
    assert_eq!(None, root.array_len());
}

#[test]
fn scalar_access_on_wrong_kind_is_none() {
    let parser = JsonParser::process(r##"["s", 7, null, false]"##);
    let root = JsonNode::new(&parser);
    let s = root.get(0).unwrap();
    assert_eq!(Some("s"), s.get_string());
    assert_eq!(None, s.get_int());
    assert_eq!(None, s.get_bool());
    let n = root.get(1).unwrap();
    assert_eq!(None, n.get_string());
    assert_eq!(Some(7), n.get_int());
    assert_eq!(None, root.get(2).unwrap().get_bool());
    assert_eq!(Some(false), root.get(3).unwrap().get_bool());
    assert_eq!("null", root.get(2).unwrap().slice());
}

#[test]
fn integers_follow_decimal_rules() {
    let parser = JsonParser::process("[-42, 1.5, 99999999999999999999, 9223372036854775807, 1e3]");
    let root = JsonNode::new(&parser);
    assert_eq!(Some(-42), root.get(0).unwrap().get_int());
    assert_eq!(None, root.get(1).unwrap().get_int());
    assert_eq!(None, root.get(2).unwrap().get_int());
    assert_eq!(Some(i64::MAX), root.get(3).unwrap().get_int());
    assert_eq!(None, root.get(4).unwrap().get_int());
    assert_eq!("1.5", root.get(1).unwrap().slice());
    assert_eq!("1e3", root.get(4).unwrap().slice());
}

#[test]
fn first_matching_key_wins() {
    let parser = JsonParser::process(r##"{"a": 1, "b": 2, "a": 3}"##);
    let root = JsonNode::new(&parser);
    assert_eq!(Some(1), root.key("a").unwrap().get_int());
    assert_eq!(Some(2), root.key("b").unwrap().get_int());
}

#[test]
fn key_skips_nested_containers() {
    let parser = JsonParser::process(r##"{"a": {"b": [1, {"c": 2}]}, "c": 5}"##);
    let root = JsonNode::new(&parser);
    assert_eq!(Some(5), root.key("c").unwrap().get_int());
    let b = root.key("a").unwrap().key("b").unwrap();
    assert_eq!(r##"[1, {"c": 2}]"##, b.slice());
    assert_eq!(Some(2), b.get(1).unwrap().key("c").unwrap().get_int());
}

#[test]
fn object_entries_in_document_order() {
    let parser = JsonParser::process(r##"{"x": 1, "y": [2, 3], "z": "w"}"##);
    let root = JsonNode::new(&parser);
    let mut it = root.object_iter();
    let (k, v) = it.next().unwrap();
    assert_eq!("x", k);
    assert_eq!("1", v.slice());
    let (k, v) = it.next().unwrap();
    assert_eq!("y", k);
    assert_eq!("[2, 3]", v.slice());
    let (k, v) = it.next().unwrap();
    assert_eq!("z", k);
    assert_eq!(Some("w"), v.get_string());
    assert!(it.next().is_none());
    assert!(it.next().is_none());
}

#[test]
fn object_entries_of_non_object_are_empty() {
    let parser = JsonParser::process("[1]");
    let root = JsonNode::new(&parser);
    assert!(root.object_iter().next().is_none());
    let parser = JsonParser::process("{}");
    assert!(JsonNode::new(&parser).object_iter().next().is_none());
}

#[test]
fn array_elements_in_document_order() {
    let parser = JsonParser::process(r##"[1, {"a": [2]}, "s"]"##);
    let root = JsonNode::new(&parser);
    let mut it = root.array_iter();
    assert_eq!("1", it.next().unwrap().slice());
    assert_eq!(r##"{"a": [2]}"##, it.next().unwrap().slice());
    assert_eq!(r##""s""##, it.next().unwrap().slice());
    assert!(it.next().is_none());
    assert!(JsonNode::new(&parser).get(0).unwrap().array_iter().next().is_none());
}

#[test]
fn from_index_views_any_token() {
    let parser = JsonParser::process("[10, 20]");
    let node = JsonNode::from_index(&parser, 2);
    assert_eq!(Some(20), node.get_int());
    assert_eq!("]", JsonNode::from_index(&parser, 3).slice());
}
