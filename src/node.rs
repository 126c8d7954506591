//! Navigation views: a cursor on one token of a tokenized text, with access
//! to scalars, array elements by position and object values by key.
use vstd::prelude::*;
use crate::parser::{JsonParser, JsonToken, JsonTokenData, JsonValue};
use crate::structure::{
    doc_ok, iterate, lemma_doc_value, lemma_iterate, lemma_nesting, lemma_wf_seq_count,
    lemma_wf_value_next, next_sib, string_contents, token_end, wf_seq,
};
use crate::text::{bytes_of, decimal_i64, same_bytes};

verus! {

/// The kind of a navigation failure.
#[derive(Debug, Clone, Copy, PartialEq, Eq)]
pub enum NodeErrorKind {
    /// An element was asked of a value that is not an array.
    NotArray,
    /// A key was asked of a value that is not an object.
    NotObject,
    /// The object has no entry with that key.
    NotFound,
    /// The array has no element at that position.
    OutOfRange,
}

/// A path that does not exist in the document.
#[derive(Debug, Clone, Copy, PartialEq, Eq)]
pub struct JsonNodeError {
    pub kind: NodeErrorKind,
}

/// The element count of an array whose open token is at `i`.
pub open spec fn array_count(t: Seq<JsonToken>, i: int) -> Option<usize> {
    match t[i].data {
        JsonTokenData::Value(JsonValue::ArrayOpen(c)) => match t[c as int].data {
            JsonTokenData::ArrayClose(n) => Some(n),
            _ => None,
        },
        _ => None,
    }
}

/// The entry count of an object whose open token is at `i`.
pub open spec fn object_count(t: Seq<JsonToken>, i: int) -> Option<usize> {
    match t[i].data {
        JsonTokenData::Value(JsonValue::ObjectOpen(c)) => match t[c as int].data {
            JsonTokenData::ObjectClose(n) => Some(n),
            _ => None,
        },
        _ => None,
    }
}

/// The index of the key of entry `k` of the object at `i`.
pub open spec fn entry_key(t: Seq<JsonToken>, i: int, k: nat) -> int {
    iterate(t, i + 1, 2 * k)
}

/// The index of the value of entry `k` of the object at `i`.
pub open spec fn entry_value(t: Seq<JsonToken>, i: int, k: nat) -> int {
    iterate(t, i + 1, 2 * k + 1)
}

/// The token at `ki` is a string whose text between the quotes is `key`.
pub open spec fn key_is(b: Seq<u8>, t: Seq<JsonToken>, ki: int, key: Seq<u8>) -> bool {
    string_contents(b, t[ki]) == Some(key)
}

/// The entries of an object, key text and value view, in document order.
pub struct JsonObjectIter<'a> {
    parser: &'a JsonParser<'a>,
    current: usize,
    end: usize,
    left: Ghost<nat>,
}

/// The elements of an array, in document order.
pub struct JsonArrayIter<'a> {
    parser: &'a JsonParser<'a>,
    current: usize,
    end: usize,
    left: Ghost<nat>,
}

/// A view of the token at one index of a tokenized text.
#[derive(Debug)]
pub struct JsonNode<'a> {
    parser: &'a JsonParser<'a>,
    index: usize,
}

impl<'a> JsonNode<'a> {
    /// The document's tokens.
    pub closed spec fn tokens(&self) -> Seq<JsonToken> {
        self.parser.tokens@
    }

    /// The document's text, as bytes.
    pub closed spec fn text(&self) -> Seq<u8> {
        self.parser.text()
    }

    /// The index of the viewed token.
    pub closed spec fn at(&self) -> int {
        self.index as int
    }

    /// The view stands on a token of a tokenized text.
    pub closed spec fn wf(&self) -> bool {
        self.parser.wf() && self.index < self.parser.tokens@.len()
    }

    /// `other` views the same document.
    pub open spec fn same_doc(&self, other: &JsonNode<'a>) -> bool {
        &&& other.wf()
        &&& other.tokens() == self.tokens()
        &&& other.text() == self.text()
    }

    /// The tokens of a view form a well-formed token array of its text.
    pub proof fn lemma_doc(&self)
        requires
            self.wf(),
        ensures
            doc_ok(self.text(), self.tokens()),
            0 <= self.at() < self.tokens().len(),
    {
        self.parser.lemma_doc();
    }

    /// A view of the root value.
    pub fn new(parser: &'a JsonParser<'a>) -> (r: JsonNode<'a>)
        requires
            parser.wf(),
        ensures
            r.wf(),
            r.tokens() == parser.tokens@,
            r.text() == parser.text(),
            r.at() == 0,
    {
        proof {
            parser.lemma_doc();
        }
        JsonNode { parser, index: 0 }
    }

    /// A view of the token at `index`.
    pub fn from_index(parser: &'a JsonParser<'a>, index: usize) -> (r: JsonNode<'a>)
        requires
            parser.wf(),
            index < parser.tokens@.len(),
        ensures
            r.wf(),
            r.tokens() == parser.tokens@,
            r.text() == parser.text(),
            r.at() == index,
    {
        JsonNode { parser, index }
    }

    /// The viewed token.
    pub fn token(&self) -> (r: &JsonToken)
        requires
            self.wf(),
        ensures
            *r == self.tokens()[self.at()],
    {
        &self.parser.tokens[self.index]
    }

    /// The viewed value token's value.
    pub fn value(&self) -> (r: JsonValue)
        requires
            self.wf(),
            self.tokens()[self.at()].data is Value,
        ensures
            r == self.tokens()[self.at()].data->Value_0,
    {
        let token = self.token();
        match token.data {
            JsonTokenData::Value(value) => value,
            _ => JsonValue::Null(),
        }
    }

    /// The source text of the viewed value.
    pub fn slice(&self) -> (r: &'a str)
        requires
            self.wf(),
        ensures
            bytes_of(r) == self.text().subrange(
                self.tokens()[self.at()].start as int,
                token_end(self.tokens(), self.at()),
            ),
    {
        self.parser.get_slice(self.index)
    }

    /// The integer of a number that fits in `i64`.
    pub fn get_int(&self) -> (r: Option<i64>)
        requires
            self.wf(),
        ensures
            r == match self.tokens()[self.at()].data {
                JsonTokenData::Value(JsonValue::Number(n)) => decimal_i64(
                    self.text().subrange(
                        self.tokens()[self.at()].start as int,
                        self.tokens()[self.at()].start + n,
                    ),
                ),
                _ => None,
            },
    {
        self.parser.get_int(self.index)
    }

    /// The boolean of `true` or `false`.
    pub fn get_bool(&self) -> (r: Option<bool>)
        requires
            self.wf(),
        ensures
            r == match self.tokens()[self.at()].data {
                JsonTokenData::Value(JsonValue::True()) => Some(true),
                JsonTokenData::Value(JsonValue::False()) => Some(false),
                _ => None::<bool>,
            },
    {
        self.parser.get_bool(self.index)
    }

    /// The text between the quotes of a string.
    pub fn get_string(&self) -> (r: Option<&'a str>)
        requires
            self.wf(),
        ensures
            match r {
                Some(s) => string_contents(self.text(), self.tokens()[self.at()]) == Some(
                    bytes_of(s),
                ),
                None => string_contents(self.text(), self.tokens()[self.at()]) is None,
            },
    {
        self.parser.get_string(self.index)
    }

    /// The element at position `index` of an array.
    pub fn get(&self, index: usize) -> (r: Result<JsonNode<'a>, JsonNodeError>)
        requires
            self.wf(),
        ensures
            match array_count(self.tokens(), self.at()) {
                Some(n) => if index < n {
                    r matches Ok(node) && self.same_doc(&node) && node.at() == iterate(
                        self.tokens(),
                        self.at() + 1,
                        index as nat,
                    )
                } else {
                    r == Err::<JsonNode<'a>, JsonNodeError>(
                        JsonNodeError { kind: NodeErrorKind::OutOfRange },
                    )
                },
                None => r == Err::<JsonNode<'a>, JsonNodeError>(
                    JsonNodeError { kind: NodeErrorKind::NotArray },
                ),
            },
    {
        let ghost t = self.tokens();
        let ghost i = self.at();
        proof {
            self.lemma_doc();
            lemma_nesting(self.text(), t, i);
        }
        let token = self.token();
        match token.data {
            JsonTokenData::Value(JsonValue::ArrayOpen(close_index)) => {
                proof {
                    lemma_doc_value(self.text(), t, i);
                }
                let count = match self.parser.tokens[close_index].data {
                    JsonTokenData::ArrayClose(n) => n,
                    _ => 0,
                };
                if index >= count {
                    return Err(JsonNodeError { kind: NodeErrorKind::OutOfRange });
                }
                let ghost c = close_index as int;
                let ghost n = count as nat;
                assert(wf_seq(t, i + 1, c, n));
                let mut current = self.index + 1;
                let mut k: usize = 0;
                while k < index
                    invariant
                        self.wf(),
                        t == self.tokens(),
                        wf_seq(t, i + 1, c, n),
                        c < t.len(),
                        index < n,
                        k <= index,
                        current == iterate(t, i + 1, k as nat),
                    decreases index - k,
                {
                    proof {
                        lemma_iterate(t, i + 1, c, n, k as nat);
                        lemma_wf_value_next(t, current as int, next_sib(t, current as int));
                    }
                    current = self.parser.next_sibling_index(current);
                    k = k + 1;
                }
                proof {
                    lemma_iterate(t, i + 1, c, n, k as nat);
                }
                Ok(JsonNode { parser: self.parser, index: current })
            },
            _ => Err(JsonNodeError { kind: NodeErrorKind::NotArray }),
        }
    }

    /// The element count of an array.
    pub fn array_len(&self) -> (r: Option<usize>)
        requires
            self.wf(),
        ensures
            r == array_count(self.tokens(), self.at()),
    {
        proof {
            self.lemma_doc();
            lemma_nesting(self.text(), self.tokens(), self.at());
        }
        match self.token().data {
            JsonTokenData::Value(JsonValue::ArrayOpen(close_index)) => {
                match self.parser.tokens[close_index].data {
                    JsonTokenData::ArrayClose(n) => Some(n),
                    _ => None,
                }
            },
            _ => None,
        }
    }

    /// The entry count of an object.
    pub fn object_len(&self) -> (r: Option<usize>)
        requires
            self.wf(),
        ensures
            r == object_count(self.tokens(), self.at()),
    {
        proof {
            self.lemma_doc();
            lemma_nesting(self.text(), self.tokens(), self.at());
        }
        match self.token().data {
            JsonTokenData::Value(JsonValue::ObjectOpen(close_index)) => {
                match self.parser.tokens[close_index].data {
                    JsonTokenData::ObjectClose(n) => Some(n),
                    _ => None,
                }
            },
            _ => None,
        }
    }

    /// The value of the first entry of an object whose key is the string
    /// `target`.
    pub fn key(&self, target: &str) -> (r: Result<JsonNode<'a>, JsonNodeError>)
        requires
            self.wf(),
        ensures
            match object_count(self.tokens(), self.at()) {
                Some(n) => match r {
                    Ok(node) => exists|k: nat|
                        #![trigger entry_key(self.tokens(), self.at(), k)]
                        {
                            &&& k < n
                            &&& key_is(
                                self.text(),
                                self.tokens(),
                                entry_key(self.tokens(), self.at(), k),
                                bytes_of(target),
                            )
                            &&& forall|q: nat|
                                q < k ==> !key_is(
                                    self.text(),
                                    self.tokens(),
                                    #[trigger] entry_key(self.tokens(), self.at(), q),
                                    bytes_of(target),
                                )
                            &&& self.same_doc(&node)
                            &&& node.at() == entry_value(self.tokens(), self.at(), k)
                        },
                    Err(e) => e.kind == NodeErrorKind::NotFound && forall|q: nat|
                        q < n ==> !key_is(
                            self.text(),
                            self.tokens(),
                            #[trigger] entry_key(self.tokens(), self.at(), q),
                            bytes_of(target),
                        ),
                },
                None => r == Err::<JsonNode<'a>, JsonNodeError>(
                    JsonNodeError { kind: NodeErrorKind::NotObject },
                ),
            },
    {
        let ghost t = self.tokens();
        let ghost b = self.text();
        let ghost i = self.at();
        proof {
            self.lemma_doc();
            lemma_nesting(b, t, i);
        }
        let token = self.token();
        match token.data {
            JsonTokenData::Value(JsonValue::ObjectOpen(close_index)) => {
                proof {
                    lemma_doc_value(b, t, i);
                }
                let ghost c = close_index as int;
                let ghost n: nat = t[c].data->ObjectClose_0 as nat;
                assert(wf_seq(t, i + 1, c, 2 * n));
                let mut current = self.index + 1;
                let ghost mut k: nat = 0;
                while current < close_index
                    invariant
                        self.wf(),
                        t == self.tokens(),
                        b == self.text(),
                        wf_seq(t, i + 1, c, 2 * n),
                        c < t.len(),
                        close_index == c,
                        t[i].data == JsonTokenData::Value(JsonValue::ObjectOpen(close_index)),
                        t[c].data is ObjectClose,
                        n == t[c].data->ObjectClose_0 as nat,
                        i == self.at(),
                        k <= n,
                        current == iterate(t, i + 1, 2 * k),
                        forall|q: nat|
                            q < k ==> !key_is(
                                b,
                                t,
                                #[trigger] entry_key(t, i, q),
                                bytes_of(target),
                            ),
                    decreases c - current,
                {
                    proof {
                        lemma_iterate(t, i + 1, c, 2 * n, 2 * k);
                        if k == n {
                            assert(false);
                        }
                        lemma_iterate(t, i + 1, c, 2 * n, 2 * k + 1);
                        lemma_wf_value_next(t, current as int, next_sib(t, current as int));
                        assert(iterate(t, i + 1, 2 * k + 1) == next_sib(t, current as int));
                    }
                    let key_index = current;
                    let value_index = self.parser.next_sibling_index(key_index);
                    if let Some(key) = self.parser.get_string(key_index) {
                        if same_bytes(key, target) {
                            let node = JsonNode { parser: self.parser, index: value_index };
                            assert(key_is(b, t, entry_key(t, i, k), bytes_of(target)));
                            assert(node.at() == entry_value(t, i, k));
                            assert(self.same_doc(&node));
                            return Ok(node);
                        }
                    }
                    proof {
                        let v = value_index as int;
                        lemma_wf_value_next(t, v, next_sib(t, v));
                        assert(iterate(t, i + 1, 2 * k + 2) == next_sib(t, v));
                    }
                    current = self.parser.next_sibling_index(value_index);
                    proof {
                        assert(2 * (k + 1) == 2 * k + 2);
                        k = k + 1;
                    }
                }
                proof {
                    lemma_iterate(t, i + 1, c, 2 * n, 2 * k);
                }
                Err(JsonNodeError { kind: NodeErrorKind::NotFound })
            },
            _ => Err(JsonNodeError { kind: NodeErrorKind::NotObject }),
        }
    }
}

impl<'a> JsonNode<'a> {
    /// The entries of an object; none for any other value.
    pub fn object_iter(&self) -> (r: JsonObjectIter<'a>)
        requires
            self.wf(),
        ensures
            r.wf(),
            r.tokens() == self.tokens(),
            r.text() == self.text(),
            r.position() == self.at() + 1,
            r.remaining() == match object_count(self.tokens(), self.at()) {
                Some(n) => n as nat,
                None => 0,
            },
    {
        let ghost t = self.tokens();
        let ghost i = self.at();
        proof {
            self.lemma_doc();
            lemma_nesting(self.text(), t, i);
        }
        let token = self.token();
        match token.data {
            JsonTokenData::Value(JsonValue::ObjectOpen(close_index)) => {
                proof {
                    lemma_doc_value(self.text(), t, i);
                }
                return JsonObjectIter {
                    parser: self.parser,
                    current: self.index + 1,
                    end: close_index,
                    left: Ghost(t[close_index as int].data->ObjectClose_0 as nat),
                };
            },
            _ => {},
        }
        JsonObjectIter {
            parser: self.parser,
            current: self.index + 1,
            end: self.index + 1,
            left: Ghost(0),
        }
    }

    /// The elements of an array; none for any other value.
    pub fn array_iter(&self) -> (r: JsonArrayIter<'a>)
        requires
            self.wf(),
        ensures
            r.wf(),
            r.tokens() == self.tokens(),
            r.text() == self.text(),
            r.position() == self.at() + 1,
            r.remaining() == match array_count(self.tokens(), self.at()) {
                Some(n) => n as nat,
                None => 0,
            },
    {
        let ghost t = self.tokens();
        let ghost i = self.at();
        proof {
            self.lemma_doc();
            lemma_nesting(self.text(), t, i);
        }
        let token = self.token();
        match token.data {
            JsonTokenData::Value(JsonValue::ArrayOpen(close_index)) => {
                proof {
                    lemma_doc_value(self.text(), t, i);
                }
                return JsonArrayIter {
                    parser: self.parser,
                    current: self.index + 1,
                    end: close_index,
                    left: Ghost(t[close_index as int].data->ArrayClose_0 as nat),
                };
            },
            _ => {},
        }
        JsonArrayIter {
            parser: self.parser,
            current: self.index + 1,
            end: self.index + 1,
            left: Ghost(0),
        }
    }
}

impl<'a> JsonObjectIter<'a> {
    pub closed spec fn tokens(&self) -> Seq<JsonToken> {
        self.parser.tokens@
    }

    pub closed spec fn text(&self) -> Seq<u8> {
        self.parser.text()
    }

    /// The index of the next entry's key.
    pub closed spec fn position(&self) -> int {
        self.current as int
    }

    /// The number of entries not yet handed out.
    pub closed spec fn remaining(&self) -> nat {
        self.left@
    }

    /// The entries left are key and value in turn, up to the object's end.
    pub closed spec fn wf(&self) -> bool {
        &&& self.parser.wf()
        &&& self.end <= self.parser.tokens@.len()
        &&& wf_seq(self.parser.tokens@, self.current as int, self.end as int, 2 * self.left@)
    }

    /// The next entry: its key's text and a view of its value. Iteration ends
    /// at the object's end, or at a key that is not a string.
    pub fn next(&mut self) -> (r: Option<(&'a str, JsonNode<'a>)>)
        requires
            old(self).wf(),
        ensures
            final(self).wf(),
            final(self).tokens() == old(self).tokens(),
            final(self).text() == old(self).text(),
            old(self).remaining() == 0 ==> r is None && *final(self) == *old(self),
            old(self).remaining() > 0 ==> {
                let t = old(self).tokens();
                let k = old(self).position();
                let v = next_sib(t, k);
                &&& final(self).position() == next_sib(t, v)
                &&& final(self).remaining() == old(self).remaining() - 1
                &&& match string_contents(old(self).text(), t[k]) {
                    Some(key) => r matches Some((ks, node)) && bytes_of(ks) == key && node.at()
                        == v && node.wf() && node.tokens() == t && node.text() == old(self).text(),
                    None => r is None,
                }
            },
    {
        let ghost t = self.parser.tokens@;
        if self.current == self.end {
            proof {
                if self.left@ > 0 {
                    lemma_wf_seq_count(t, self.current as int, self.end as int, 2 * self.left@);
                }
            }
            return None;
        }
        let ghost k = self.current as int;
        let ghost m = 2 * self.left@;
        proof {
            lemma_wf_value_next(t, k, next_sib(t, k));
            let v = next_sib(t, k);
            assert(wf_seq(t, v, self.end as int, (m - 1) as nat));
            lemma_wf_value_next(t, v, next_sib(t, v));
            assert(wf_seq(t, next_sib(t, v), self.end as int, (m - 2) as nat));
            assert((m - 2) as nat == 2 * (self.left@ - 1) as nat);
        }
        let key_index = self.current;
        let value_index = self.parser.next_sibling_index(key_index);
        self.current = self.parser.next_sibling_index(value_index);
        self.left = Ghost((self.left@ - 1) as nat);
        if let Some(key) = self.parser.get_string(key_index) {
            Some((key, JsonNode::from_index(self.parser, value_index)))
        } else {
            None
        }
    }
}

impl<'a> JsonArrayIter<'a> {
    pub closed spec fn tokens(&self) -> Seq<JsonToken> {
        self.parser.tokens@
    }

    pub closed spec fn text(&self) -> Seq<u8> {
        self.parser.text()
    }

    /// The index of the next element.
    pub closed spec fn position(&self) -> int {
        self.current as int
    }

    /// The number of elements not yet handed out.
    pub closed spec fn remaining(&self) -> nat {
        self.left@
    }

    /// The elements left form a chain of siblings up to the array's end.
    pub closed spec fn wf(&self) -> bool {
        &&& self.parser.wf()
        &&& self.end <= self.parser.tokens@.len()
        &&& wf_seq(self.parser.tokens@, self.current as int, self.end as int, self.left@)
    }

    /// A view of the next element.
    pub fn next(&mut self) -> (r: Option<JsonNode<'a>>)
        requires
            old(self).wf(),
        ensures
            final(self).wf(),
            final(self).tokens() == old(self).tokens(),
            final(self).text() == old(self).text(),
            old(self).remaining() == 0 ==> r is None && *final(self) == *old(self),
            old(self).remaining() > 0 ==> {
                let t = old(self).tokens();
                let k = old(self).position();
                &&& final(self).position() == next_sib(t, k)
                &&& final(self).remaining() == old(self).remaining() - 1
                &&& r matches Some(node) && node.at() == k && node.wf() && node.tokens() == t
                    && node.text() == old(self).text()
            },
    {
        let ghost t = self.parser.tokens@;
        if self.current == self.end {
            proof {
                if self.left@ > 0 {
                    lemma_wf_seq_count(t, self.current as int, self.end as int, self.left@);
                }
            }
            return None;
        }
        let ghost k = self.current as int;
        proof {
            lemma_wf_value_next(t, k, next_sib(t, k));
        }
        let index = self.current;
        self.current = self.parser.next_sibling_index(index);
        self.left = Ghost((self.left@ - 1) as nat);
        Some(JsonNode::from_index(self.parser, index))
    }
}

} // verus!
