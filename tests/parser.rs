use jsonprop::node::JsonNode;
use jsonprop::parser::{JsonParser, JsonTokenData, JsonValue, ParseError};

fn close_kind_matches(open: &JsonTokenData, close: &JsonTokenData) -> bool {
    match (open, close) {
        (JsonTokenData::Value(JsonValue::ArrayOpen(_)), JsonTokenData::ArrayClose(_)) => true,
        (JsonTokenData::Value(JsonValue::ObjectOpen(_)), JsonTokenData::ObjectClose(_)) => true,
        _ => false,
    }
}

#[test]
fn trailing_comma_is_rejected_at_the_bracket() {
    let err = JsonParser::tokenize("[1, 2,]").err().unwrap();
    assert_eq!(ParseError::Unknown(6, ']'), err);
}

#[test]
fn unterminated_object_is_eof() {
    let err = JsonParser::tokenize(r##"{"a":1"##).err().unwrap();
    assert_eq!(ParseError::Eof(), err);
}

#[test]
fn missing_separator_is_a_value_error() {
    let err = JsonParser::tokenize("[1 2]").err().unwrap();
    assert_eq!(ParseError::Value(3, JsonValue::Number(1)), err);
}

#[test]
fn bad_literal_and_stray_characters() {
    assert_eq!(ParseError::Unknown(2, 'x'), JsonParser::tokenize("nux").err().unwrap());
    assert_eq!(ParseError::Eof(), JsonParser::tokenize("tru").err().unwrap());
    assert_eq!(ParseError::Unknown(0, 'é'), JsonParser::tokenize("é").err().unwrap());
    assert_eq!(ParseError::Unknown(1, ']'), JsonParser::tokenize(" ]").err().unwrap());
    assert_eq!(ParseError::Unknown(5, ':'), JsonParser::tokenize("[true:]").err().unwrap());
    assert_eq!(ParseError::Unknown(1, '}'), JsonParser::tokenize("[}").err().unwrap());
    assert_eq!(ParseError::Eof(), JsonParser::tokenize("   ").err().unwrap());
    assert_eq!(ParseError::Eof(), JsonParser::tokenize(r##""abc"##).err().unwrap());
    assert_eq!(
        ParseError::Value(5, JsonValue::True()),
        JsonParser::tokenize(r##"{"a" true}"##).err().unwrap()
    );
}

#[test]
fn scalar_spans_render_their_source() {
    let p = JsonParser::process(" 1");
    assert_eq!("1", JsonNode::new(&p).slice());
    let p = JsonParser::process(r##" "hoge" "##);
    assert_eq!(r##""hoge""##, JsonNode::new(&p).slice());
    let p = JsonParser::process("\t-12.5e+3\n");
    assert_eq!("-12.5e+3", JsonNode::new(&p).slice());
    let p = JsonParser::process(r##""héllo""##);
    assert_eq!(r##""héllo""##, JsonNode::new(&p).slice());
    assert_eq!(Some("héllo"), JsonNode::new(&p).get_string());
    let p = JsonParser::process("false");
    assert_eq!("false", JsonNode::new(&p).slice());
}

#[test]
fn exponent_sign_is_optional() {
    let p = JsonParser::process("[1e5, 2E-1]");
    let root = JsonNode::new(&p);
    assert_eq!("1e5", root.get(0).unwrap().slice());
    assert_eq!("2E-1", root.get(1).unwrap().slice());
}

#[test]
fn tokens_record_offsets_and_counts() {
    let p = JsonParser::process(r##"[1, "ab", {"k": null}]"##);
    let t = &p.tokens;
    assert_eq!(8, t.len());
    assert_eq!(JsonTokenData::Value(JsonValue::ArrayOpen(7)), t[0].data);
    assert_eq!(JsonTokenData::Value(JsonValue::Number(1)), t[1].data);
    assert_eq!(1, t[1].start);
    assert_eq!(JsonTokenData::Value(JsonValue::String(4)), t[2].data);
    assert_eq!(4, t[2].start);
    assert_eq!(JsonTokenData::Value(JsonValue::ObjectOpen(6)), t[3].data);
    assert_eq!(JsonTokenData::Value(JsonValue::Null()), t[5].data);
    assert_eq!(JsonTokenData::ObjectClose(1), t[6].data);
    assert_eq!(JsonTokenData::ArrayClose(3), t[7].data);
    assert_eq!(21, t[7].start);
}

#[test]
fn every_open_token_closes_with_its_kind() {
    let p = JsonParser::process(r##"{"a": [1, [2, {}], []], "b": {"c": [true]}}"##);
    let t = &p.tokens;
    for (i, tok) in t.iter().enumerate() {
        let close = match tok.data {
            JsonTokenData::Value(JsonValue::ArrayOpen(c)) => c,
            JsonTokenData::Value(JsonValue::ObjectOpen(c)) => c,
            _ => continue,
        };
        assert!(close > i);
        assert!(close_kind_matches(&tok.data, &t[close].data));
    }
}

#[test]
fn sibling_steps_land_on_the_close_token() {
    let p = JsonParser::process(r##"[[1, 2], {"a": [3]}, 4, "x", []]"##);
    let t = &p.tokens;
    for (i, tok) in t.iter().enumerate() {
        if let JsonTokenData::Value(JsonValue::ArrayOpen(c)) = tok.data {
            let n = match t[c].data {
                JsonTokenData::ArrayClose(n) => n,
                _ => panic!("array without its close token"),
            };
            let mut cur = i + 1;
            for _ in 0..n {
                assert!(cur < c);
                cur = p.next_sibling_index(cur);
            }
            assert_eq!(c, cur);
        }
    }
}

#[test]
fn parser_scalar_reads() {
    let p = JsonParser::process(r##"[true, "q", 5]"##);
    assert_eq!(Some(true), p.get_bool(1));
    assert_eq!(None, p.get_bool(2));
    assert_eq!(Some("q"), p.get_string(2));
    assert_eq!(Some(5), p.get_int(3));
    assert_eq!(r##""q""##, p.get_slice(2));
    assert_eq!(5, p.next_sibling_index(0));
}

#[test]
fn trailing_text_after_the_root_is_ignored() {
    let p = JsonParser::tokenize("1 ]").unwrap();
    assert_eq!(1, p.tokens.len());
}

#[test]
fn unicode_white_space_is_skipped() {
    let p = JsonParser::process("\u{a0}[1,\u{3000}2\u{2028}]\u{85}");
    let root = JsonNode::new(&p);
    assert_eq!(Some(2), root.get(1).unwrap().get_int());
    assert_eq!(2, p.tokens[0].start);
    assert_eq!(ParseError::Eof(), JsonParser::tokenize("\u{2029}\u{1680}").err().unwrap());
    assert_eq!(ParseError::Unknown(1, '\u{2030}'), JsonParser::tokenize("[\u{2030}]").err().unwrap());
}

#[test]
fn numbers_need_digits_in_every_run() {
    assert_eq!(ParseError::Unknown(2, ']'), JsonParser::tokenize("[-]").err().unwrap());
    assert_eq!(ParseError::Unknown(3, ']'), JsonParser::tokenize("[1.]").err().unwrap());
    assert_eq!(ParseError::Unknown(3, ']'), JsonParser::tokenize("[1e]").err().unwrap());
    assert_eq!(ParseError::Unknown(4, ']'), JsonParser::tokenize("[1e+]").err().unwrap());
    assert_eq!(ParseError::Unknown(1, 'x'), JsonParser::tokenize("-x").err().unwrap());
    assert_eq!(ParseError::Eof(), JsonParser::tokenize("-").err().unwrap());
    assert_eq!(ParseError::Eof(), JsonParser::tokenize("1e").err().unwrap());
    assert_eq!(ParseError::Eof(), JsonParser::tokenize("2.").err().unwrap());
    let p = JsonParser::process("[-0, 10.25, 3E+2]");
    let root = JsonNode::new(&p);
    assert_eq!("-0", root.get(0).unwrap().slice());
    assert_eq!("10.25", root.get(1).unwrap().slice());
    assert_eq!("3E+2", root.get(2).unwrap().slice());
}

#[test]
fn empty_or_blank_text_is_eof() {
    assert_eq!(ParseError::Eof(), JsonParser::tokenize("").err().unwrap());
    assert_eq!(ParseError::Eof(), JsonParser::tokenize(" \n\t ").err().unwrap());
}
