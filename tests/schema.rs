use jsonprop::node::{JsonNode, NodeErrorKind};
use jsonprop::parser::JsonParser;
use jsonprop::schema::{JsonSchema, JsonSchemaParser};

#[test]
fn schema_reads_descriptive_fields() {
    let text = r##"{"$schema": "x", "title": "Node", "description": "A node", "type": "object", "other": [1]}"##;
    let s = JsonSchemaParser::from_str(text);
    assert_eq!("Node", s.root.title);
    assert_eq!("A node", s.root.description);
    assert_eq!("object", s.root.json_type);
}

#[test]
fn schema_ignores_non_string_values() {
    let s = JsonSchemaParser::from_str(r##"{"title": 3, "type": "array"}"##);
    assert_eq!("", s.root.title);
    assert_eq!("array", s.root.json_type);
    let s = JsonSchemaParser::from_str("[1]");
    assert_eq!("", s.root.description);
}

#[test]
fn schema_new_is_empty() {
    let s = JsonSchema::new();
    assert_eq!("", s.title);
    assert_eq!("", s.description);
    assert_eq!("", s.json_type);
}

#[test]
fn allof_reference_is_found() {
    let p = JsonParser::process(r##"[{"$ref": "glTFProperty.schema.json"}]"##);
    let s = JsonSchema::new();
    let r = s.set_allof(JsonNode::new(&p)).unwrap();
    assert_eq!(Some("glTFProperty.schema.json"), r.get_string());
}

#[test]
fn allof_other_shapes_are_not_found() {
    let s = JsonSchema::new();
    for text in [r##"[{"$ref": 1}]"##, r##"[{"ref": "a"}]"##, r##"[{"$ref": "a"}, {}]"##, "{}"] {
        let p = JsonParser::process(text);
        let e = s.set_allof(JsonNode::new(&p)).unwrap_err();
        assert_eq!(NodeErrorKind::NotFound, e.kind);
    }
}
