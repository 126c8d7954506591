//! A flat record of a JSON Schema document's descriptive fields, read from
//! its root object.
use vstd::prelude::*;
use vstd::utf8::encode_utf8;
use crate::node::{
    array_count, entry_key, entry_value, key_is, object_count, JsonNode, JsonNodeError,
    NodeErrorKind,
};
use crate::parser::{tokenize_spec, JsonParser, JsonToken};
use crate::structure::{iterate, next_sib, string_contents};
use crate::text::{bytes_of, same_bytes};

verus! {

/// The descriptive fields of a schema.
#[derive(Debug)]
pub struct JsonSchema {
    pub title: String,
    pub description: String,
    pub json_type: String,
}

/// Reads a schema from a text.
#[derive(Debug)]
pub struct JsonSchemaParser {
    pub root: JsonSchema,
}

/// The value of field `name` after reading root entries `k..n` of `t`,
/// starting from `cur`: each string-valued entry named `name` replaces it,
/// and reading stops at a key that is not a string.
pub open spec fn schema_field(
    b: Seq<u8>,
    t: Seq<JsonToken>,
    name: Seq<u8>,
    k: nat,
    n: nat,
    cur: Seq<u8>,
) -> Seq<u8>
    decreases n - k,
{
    if k >= n {
        cur
    } else {
        match string_contents(b, t[entry_key(t, 0, k)]) {
            None => cur,
            Some(key) => {
                let next = if key == name {
                    match string_contents(b, t[entry_value(t, 0, k)]) {
                        Some(v) => v,
                        None => cur,
                    }
                } else {
                    cur
                };
                schema_field(b, t, name, k + 1, n, next)
            },
        }
    }
}

/// The number of entries of the root object of `t`; none if it is no object.
pub open spec fn root_entries(t: Seq<JsonToken>) -> nat {
    match object_count(t, 0) {
        Some(n) => n as nat,
        None => 0,
    }
}

/// The value of field `name` read from the tokenized text `b`.
pub open spec fn schema_text(b: Seq<u8>, name: Seq<u8>) -> Seq<u8> {
    let t = tokenize_spec(b)->Ok_0;
    schema_field(b, t, name, 0, root_entries(t), Seq::empty())
}

/// The value of a `[ { "$ref": "..." } ]` shape at `i`: an array of one
/// object whose one entry has the key `$ref` and a string value.
pub open spec fn allof_ref(b: Seq<u8>, t: Seq<JsonToken>, i: int) -> Option<int> {
    let o = iterate(t, i + 1, 0);
    if array_count(t, i) == Some(1usize) && object_count(t, o) == Some(1usize) && key_is(
        b,
        t,
        entry_key(t, o, 0),
        bytes_of("$ref"),
    ) && string_contents(b, t[entry_value(t, o, 0)]) is Some {
        Some(entry_value(t, o, 0))
    } else {
        None
    }
}

impl JsonSchema {
    /// A record with every field empty.
    pub fn new() -> (r: JsonSchema)
        ensures
            r.title@ == Seq::<char>::empty(),
            r.description@ == Seq::<char>::empty(),
            r.json_type@ == Seq::<char>::empty(),
    {
        JsonSchema { title: String::new(), description: String::new(), json_type: String::new() }
    }

    /// The `$ref` string of an `allOf` value of the shape
    /// `[ { "$ref": "..." } ]`.
    pub fn set_allof<'a>(&self, v: JsonNode<'a>) -> (r: Result<JsonNode<'a>, JsonNodeError>)
        requires
            v.wf(),
        ensures
            match r {
                Ok(node) => allof_ref(v.text(), v.tokens(), v.at()) == Some(node.at())
                    && v.same_doc(&node),
                Err(e) => allof_ref(v.text(), v.tokens(), v.at()) is None && e.kind
                    == NodeErrorKind::NotFound,
            },
    {
        if let Some(len) = v.array_len() {
            if len == 1 {
                if let Ok(node) = v.get(0) {
                    if let Some(entries) = node.object_len() {
                        if entries == 1 {
                            let value = match node.key("$ref") {
                                Ok(value) => value,
                                Err(e) => {
                                    return Err(e);
                                },
                            };
                            proof {
                                assert(entry_value(v.tokens(), node.at(), 0) == value.at());
                            }
                            if let Some(_text) = value.get_string() {
                                return Ok(value);
                            }
                        }
                    }
                }
            }
        }
        Err(JsonNodeError { kind: NodeErrorKind::NotFound })
    }
}

impl JsonSchemaParser {
    /// Reads the `title`, `description` and `type` strings of the root
    /// object of a text that tokenizes; other entries are ignored.
    pub fn from_str(text: &str) -> (r: JsonSchemaParser)
        requires
            tokenize_spec(bytes_of(text)) is Ok,
        ensures
            encode_utf8(r.root.title@) == schema_text(bytes_of(text), bytes_of("title")),
            encode_utf8(r.root.description@) == schema_text(
                bytes_of(text),
                bytes_of("description"),
            ),
            encode_utf8(r.root.json_type@) == schema_text(bytes_of(text), bytes_of("type")),
    {
        let parser = JsonParser::process(text);
        let root = JsonNode::new(&parser);
        let mut schema = JsonSchema::new();
        let ghost b = bytes_of(text);
        let ghost t = parser.tokens@;
        let ghost n = root_entries(t);
        let ghost title = bytes_of("title");
        let ghost description = bytes_of("description");
        let ghost json_type = bytes_of("type");
        let mut entries = root.object_iter();
        let ghost mut j: nat = 0;
        assert(encode_utf8(Seq::<char>::empty()) =~= Seq::<u8>::empty());
        loop
            invariant_except_break
                title == bytes_of("title"),
                description == bytes_of("description"),
                json_type == bytes_of("type"),
                entries.wf(),
                entries.tokens() == t,
                entries.text() == b,
                j + entries.remaining() == n,
                entries.position() == entry_key(t, 0, j),
                schema_field(b, t, title, 0, n, Seq::empty()) == schema_field(
                    b,
                    t,
                    title,
                    j,
                    n,
                    encode_utf8(schema.title@),
                ),
                schema_field(b, t, description, 0, n, Seq::empty()) == schema_field(
                    b,
                    t,
                    description,
                    j,
                    n,
                    encode_utf8(schema.description@),
                ),
                schema_field(b, t, json_type, 0, n, Seq::empty()) == schema_field(
                    b,
                    t,
                    json_type,
                    j,
                    n,
                    encode_utf8(schema.json_type@),
                ),
            ensures
                encode_utf8(schema.title@) == schema_field(b, t, title, 0, n, Seq::empty()),
                encode_utf8(schema.description@) == schema_field(
                    b,
                    t,
                    description,
                    0,
                    n,
                    Seq::empty(),
                ),
                encode_utf8(schema.json_type@) == schema_field(
                    b,
                    t,
                    json_type,
                    0,
                    n,
                    Seq::empty(),
                ),
            decreases entries.remaining(),
        {
            let ghost k = entries.position();
            match entries.next() {
                None => {
                    break;
                },
                Some((key, v)) => {
                    proof {
                        assert(entry_value(t, 0, j) == next_sib(t, k));
                        assert(entry_key(t, 0, j + 1) == entries.position()) by {
                            assert(2 * (j + 1) == 2 * j + 2);
                        }
                    }
                    if same_bytes(key, "title") {
                        if let Some(s) = v.get_string() {
                            schema.title = s.to_owned();
                        }
                    }
                    if same_bytes(key, "description") {
                        if let Some(s) = v.get_string() {
                            schema.description = s.to_owned();
                        }
                    }
                    if same_bytes(key, "type") {
                        if let Some(s) = v.get_string() {
                            schema.json_type = s.to_owned();
                        }
                    }
                    proof {
                        j = j + 1;
                    }
                },
            }
        }
        JsonSchemaParser { root: schema }
    }
}

} // verus!
