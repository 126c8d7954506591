//! Tokens, the tokenizer's grammar as spec functions, and the tokenizer.
use vstd::prelude::*;
use crate::structure::{
    doc_ok, lemma_array, lemma_colon_value, lemma_doc_value, lemma_nesting, lemma_object, lemma_parse,
    lemma_token_span, lemma_tokenize_ok, next_sib, skip_ws, string_contents, token_end,
};
use crate::text::{
    bytes_of, char_at, char_at_exec, decimal_i64, lemma_after_ascii_boundary, lemma_ascii_boundary,
    lemma_next_boundary, lemma_str_valid, parse_i64, substr,
};
use vstd::utf8::{is_char_boundary, valid_utf8};

verus! {

/// A value token. Lengths are in bytes; an open token holds the index of its
/// close token in the token array.
#[derive(Debug, Clone, Copy, PartialEq, Eq)]
pub enum JsonValue {
    Null(),
    True(),
    False(),
    Number(usize),
    String(usize),
    ArrayOpen(usize),
    ObjectOpen(usize),
}

/// What a token is. A close token holds the number of its container's entries.
#[derive(Debug, Clone, Copy, PartialEq, Eq)]
pub enum JsonTokenData {
    Value(JsonValue),
    Comma(),
    Colon(),
    ArrayClose(usize),
    ObjectClose(usize),
}

/// A token and the byte offset at which it starts in the source text.
#[derive(Debug, Clone, Copy, PartialEq, Eq)]
pub struct JsonToken {
    pub start: usize,
    pub data: JsonTokenData,
}

/// Why a text could not be tokenized.
#[derive(Debug, Clone, Copy, PartialEq, Eq)]
pub enum ParseError {
    /// The text ended inside a token or a container.
    Eof(),
    /// The character at this byte offset cannot stand there.
    Unknown(usize, char),
    /// A value stands at this byte offset where punctuation was required.
    Value(usize, JsonValue),
}

/// ASCII white space: tab, line feed, vertical tab, form feed, carriage
/// return and space.
pub open spec fn is_ws(c: u8) -> bool {
    c == 0x20 || c == 0x09 || c == 0x0a || c == 0x0b || c == 0x0c || c == 0x0d
}

/// The length of the white-space character encoded at `pos`, or 0 where
/// there is none. White space is what has the Unicode White_Space property:
/// the ASCII white space, U+0085, U+00A0, U+1680, U+2000 to U+200A, U+2028,
/// U+2029, U+202F, U+205F and U+3000, here in UTF-8.
pub open spec fn ws_len(b: Seq<u8>, pos: int) -> int {
    if 0 <= pos < b.len() && is_ws(b[pos]) {
        1
    } else if 0 <= pos && pos + 2 <= b.len() && b[pos] == 0xc2 && (b[pos + 1] == 0x85 || b[pos
        + 1] == 0xa0) {
        2
    } else if 0 <= pos && pos + 3 <= b.len() && ((b[pos] == 0xe1 && b[pos + 1] == 0x9a && b[pos
        + 2] == 0x80) || (b[pos] == 0xe2 && b[pos + 1] == 0x80 && ((0x80 <= b[pos + 2] <= 0x8a)
        || b[pos + 2] == 0xa8 || b[pos + 2] == 0xa9 || b[pos + 2] == 0xaf)) || (b[pos] == 0xe2
        && b[pos + 1] == 0x81 && b[pos + 2] == 0x9f) || (b[pos] == 0xe3 && b[pos + 1] == 0x80
        && b[pos + 2] == 0x80)) {
        3
    } else {
        0
    }
}

pub open spec fn is_digit_byte(c: u8) -> bool {
    0x30 <= c <= 0x39
}

/// A byte that may stand in a number literal.
pub open spec fn is_number_byte(c: u8) -> bool {
    is_digit_byte(c) || c == 0x2d || c == 0x2b || c == 0x2e || c == 0x45 || c == 0x65
}

pub open spec fn mk_token(start: int, data: JsonTokenData) -> JsonToken {
    JsonToken { start: start as usize, data }
}

/// The error for a token that cannot stand where it was found.
pub open spec fn spec_unexpected(t: JsonToken) -> ParseError {
    match t.data {
        JsonTokenData::Value(v) => ParseError::Value(t.start, v),
        JsonTokenData::Comma() => ParseError::Unknown(t.start, ','),
        JsonTokenData::Colon() => ParseError::Unknown(t.start, ':'),
        JsonTokenData::ArrayClose(_) => ParseError::Unknown(t.start, ']'),
        JsonTokenData::ObjectClose(_) => ParseError::Unknown(t.start, '}'),
    }
}

/// Matches the bytes of `w` at `pos`; the position after them.
pub open spec fn expect_bytes(b: Seq<u8>, pos: int, w: Seq<u8>) -> Result<int, ParseError>
    decreases w.len(),
{
    if w.len() == 0 {
        Ok(pos)
    } else if pos < 0 || pos >= b.len() {
        Err(ParseError::Eof())
    } else if b[pos] != w[0] {
        Err(ParseError::Unknown(pos as usize, char_at(b, pos)))
    } else {
        expect_bytes(b, pos + 1, w.drop_first())
    }
}

/// The end of the run of digits that starts at `pos`.
pub open spec fn digits_end(b: Seq<u8>, pos: int) -> int
    decreases b.len() - pos,
{
    if 0 <= pos < b.len() && is_digit_byte(b[pos]) {
        digits_end(b, pos + 1)
    } else {
        pos
    }
}

/// The end of a non-empty run of digits that starts at `pos`; where there is
/// no digit, the text ended or the byte at `pos` cannot stand there.
pub open spec fn digit_run(b: Seq<u8>, pos: int) -> Result<int, ParseError> {
    if digits_end(b, pos) > pos {
        Ok(digits_end(b, pos))
    } else if pos < 0 || pos >= b.len() {
        Err(ParseError::Eof())
    } else {
        Err(ParseError::Unknown(pos as usize, char_at(b, pos)))
    }
}

/// The end of a number that starts at `start` with a digit or `-`: an
/// optional `-`, a digit run, an optional `.` and digit run, then an optional
/// exponent of `e` or `E`, an optional sign and a digit run.
pub open spec fn number_end(b: Seq<u8>, start: int) -> Result<int, ParseError> {
    let p0 = if b[start] == 0x2d {
        start + 1
    } else {
        start
    };
    match digit_run(b, p0) {
        Err(e) => Err(e),
        Ok(p1) => {
            let fraction = if 0 <= p1 < b.len() && b[p1] == 0x2e {
                digit_run(b, p1 + 1)
            } else {
                Ok(p1)
            };
            match fraction {
                Err(e) => Err(e),
                Ok(p2) => if 0 <= p2 < b.len() && (b[p2] == 0x65 || b[p2] == 0x45) {
                    let p3 = p2 + 1;
                    if 0 <= p3 < b.len() && (b[p3] == 0x2b || b[p3] == 0x2d) {
                        digit_run(b, p3 + 1)
                    } else {
                        digit_run(b, p3)
                    }
                } else {
                    Ok(p2)
                },
            }
        },
    }
}

/// The position after the first quote at or after `pos`.
pub open spec fn string_end(b: Seq<u8>, pos: int) -> Result<int, ParseError>
    decreases b.len() - pos,
{
    if pos < 0 || pos >= b.len() {
        Err(ParseError::Eof())
    } else if b[pos] == 0x22 {
        Ok(pos + 1)
    } else {
        string_end(b, pos + 1)
    }
}

/// A scalar token starting at `start` that ends where `end` says.
pub open spec fn scalar_result(
    toks: Seq<JsonToken>,
    start: int,
    end: Result<int, ParseError>,
    v: JsonValue,
) -> Result<(JsonToken, int, Seq<JsonToken>), ParseError> {
    match end {
        Err(e) => Err(e),
        Ok(p) => {
            let t = mk_token(start, JsonTokenData::Value(v));
            Ok((t, p, toks.push(t)))
        },
    }
}

/// The next token at or after `pos`, given the tokens stored so far: the token,
/// the position after it, and the tokens stored after it. Values and close
/// tokens are stored; a container is scanned whole, and its open token is
/// rewritten with the index of its close token, which is rewritten with its
/// entry count.
pub open spec fn parse_spec(b: Seq<u8>, pos: int, toks: Seq<JsonToken>) -> Result<
    (JsonToken, int, Seq<JsonToken>),
    ParseError,
>
    decreases b.len() - pos, 0int,
{
    if pos < 0 || pos >= b.len() {
        Err(ParseError::Eof())
    } else {
        let c = b[pos];
        if ws_len(b, pos) > 0 {
            parse_spec(b, pos + ws_len(b, pos), toks)
        } else if c == 0x6e {
            scalar_result(toks, pos, expect_bytes(b, pos + 1, seq![0x75u8, 0x6c, 0x6c]), JsonValue::Null())
        } else if c == 0x74 {
            scalar_result(toks, pos, expect_bytes(b, pos + 1, seq![0x72u8, 0x75, 0x65]), JsonValue::True())
        } else if c == 0x66 {
            scalar_result(
                toks,
                pos,
                expect_bytes(b, pos + 1, seq![0x61u8, 0x6c, 0x73, 0x65]),
                JsonValue::False(),
            )
        } else if is_digit_byte(c) || c == 0x2d {
            match number_end(b, pos) {
                Err(e) => Err(e),
                Ok(p) => scalar_result(toks, pos, Ok(p), JsonValue::Number((p - pos) as usize)),
            }
        } else if c == 0x22 {
            match string_end(b, pos + 1) {
                Err(e) => Err(e),
                Ok(p) => scalar_result(toks, pos, Ok(p), JsonValue::String((p - pos) as usize)),
            }
        } else if c == 0x2c {
            Ok((mk_token(pos, JsonTokenData::Comma()), pos + 1, toks))
        } else if c == 0x3a {
            Ok((mk_token(pos, JsonTokenData::Colon()), pos + 1, toks))
        } else if c == 0x5b {
            let o = toks.len() as int;
            let placeholder = mk_token(pos, JsonTokenData::Value(JsonValue::ArrayOpen((o + 1) as usize)));
            match array_spec(b, pos + 1, toks.push(placeholder)) {
                Err(e) => Err(e),
                Ok((count, p, t)) => {
                    let ci = t.len() - 1;
                    let open = mk_token(pos, JsonTokenData::Value(JsonValue::ArrayOpen(ci as usize)));
                    let close = mk_token(t[ci].start as int, JsonTokenData::ArrayClose(count as usize));
                    Ok((open, p, t.update(o, open).update(ci, close)))
                },
            }
        } else if c == 0x5d {
            let t = mk_token(pos, JsonTokenData::ArrayClose(0));
            Ok((t, pos + 1, toks.push(t)))
        } else if c == 0x7b {
            let o = toks.len() as int;
            let placeholder = mk_token(pos, JsonTokenData::Value(JsonValue::ObjectOpen((o + 1) as usize)));
            match object_spec(b, pos + 1, toks.push(placeholder)) {
                Err(e) => Err(e),
                Ok((count, p, t)) => {
                    let ci = t.len() - 1;
                    let open = mk_token(pos, JsonTokenData::Value(JsonValue::ObjectOpen(ci as usize)));
                    let close = mk_token(t[ci].start as int, JsonTokenData::ObjectClose(count as usize));
                    Ok((open, p, t.update(o, open).update(ci, close)))
                },
            }
        } else if c == 0x7d {
            let t = mk_token(pos, JsonTokenData::ObjectClose(0));
            Ok((t, pos + 1, toks.push(t)))
        } else {
            Err(ParseError::Unknown(pos as usize, char_at(b, pos)))
        }
    }
}

/// The elements of an array after its `[`: the element count, the position
/// after the `]`, and the tokens stored up to and including the close token.
pub open spec fn array_spec(b: Seq<u8>, pos: int, toks: Seq<JsonToken>) -> Result<
    (nat, int, Seq<JsonToken>),
    ParseError,
>
    decreases b.len() - pos, 1int,
{
    match parse_spec(b, pos, toks) {
        Err(e) => Err(e),
        Ok((t0, p, t)) => match t0.data {
            JsonTokenData::ArrayClose(_) => Ok((0, p, t)),
            JsonTokenData::Value(_) => if pos < p <= b.len() {
                array_rest(b, p, t, 1)
            } else {
                Err(ParseError::Eof())
            },
            _ => Err(spec_unexpected(t0)),
        },
    }
}

/// The rest of an array after `count` elements: a `]`, or a comma and a
/// further element.
pub open spec fn array_rest(b: Seq<u8>, pos: int, toks: Seq<JsonToken>, count: nat) -> Result<
    (nat, int, Seq<JsonToken>),
    ParseError,
>
    decreases b.len() - pos, 1int,
{
    match parse_spec(b, pos, toks) {
        Err(e) => Err(e),
        Ok((t0, p1, t1)) => match t0.data {
            JsonTokenData::ArrayClose(_) => Ok((count, p1, t1)),
            JsonTokenData::Comma() => if pos < p1 <= b.len() {
                match parse_spec(b, p1, t1) {
                    Err(e) => Err(e),
                    Ok((t2, p2, tt)) => match t2.data {
                        JsonTokenData::Value(_) => if p1 < p2 <= b.len() {
                            array_rest(b, p2, tt, count + 1)
                        } else {
                            Err(ParseError::Eof())
                        },
                        _ => Err(spec_unexpected(t2)),
                    },
                }
            } else {
                Err(ParseError::Eof())
            },
            _ => Err(spec_unexpected(t0)),
        },
    }
}

/// A colon and the value after it.
pub open spec fn colon_value_spec(b: Seq<u8>, pos: int, toks: Seq<JsonToken>) -> Result<
    (JsonToken, int, Seq<JsonToken>),
    ParseError,
>
    decreases b.len() - pos, 1int,
{
    match parse_spec(b, pos, toks) {
        Err(e) => Err(e),
        Ok((t0, p1, t1)) => match t0.data {
            JsonTokenData::Colon() => if pos < p1 <= b.len() {
                match parse_spec(b, p1, t1) {
                    Err(e) => Err(e),
                    Ok((t2, p2, tt)) => match t2.data {
                        JsonTokenData::Value(_) => Ok((t2, p2, tt)),
                        _ => Err(spec_unexpected(t2)),
                    },
                }
            } else {
                Err(ParseError::Eof())
            },
            _ => Err(spec_unexpected(t0)),
        },
    }
}

/// The entries of an object after its `{`, as `array_spec` for arrays.
pub open spec fn object_spec(b: Seq<u8>, pos: int, toks: Seq<JsonToken>) -> Result<
    (nat, int, Seq<JsonToken>),
    ParseError,
>
    decreases b.len() - pos, 2int,
{
    match parse_spec(b, pos, toks) {
        Err(e) => Err(e),
        Ok((t0, p, t)) => match t0.data {
            JsonTokenData::ObjectClose(_) => Ok((0, p, t)),
            JsonTokenData::Value(_) => if pos < p <= b.len() {
                match colon_value_spec(b, p, t) {
                    Err(e) => Err(e),
                    Ok((_, p2, t2)) => if p < p2 <= b.len() {
                        object_rest(b, p2, t2, 1)
                    } else {
                        Err(ParseError::Eof())
                    },
                }
            } else {
                Err(ParseError::Eof())
            },
            _ => Err(spec_unexpected(t0)),
        },
    }
}

/// The rest of an object after `count` entries: a `}`, or a comma and a
/// further `key : value` entry.
pub open spec fn object_rest(b: Seq<u8>, pos: int, toks: Seq<JsonToken>, count: nat) -> Result<
    (nat, int, Seq<JsonToken>),
    ParseError,
>
    decreases b.len() - pos, 2int,
{
    match parse_spec(b, pos, toks) {
        Err(e) => Err(e),
        Ok((t0, p1, t1)) => match t0.data {
            JsonTokenData::ObjectClose(_) => Ok((count, p1, t1)),
            JsonTokenData::Comma() => if pos < p1 <= b.len() {
                match parse_spec(b, p1, t1) {
                    Err(e) => Err(e),
                    Ok((t2, p2, t2s)) => match t2.data {
                        JsonTokenData::Value(_) => if p1 < p2 <= b.len() {
                            match colon_value_spec(b, p2, t2s) {
                                Err(e) => Err(e),
                                Ok((_, p3, t3)) => if p2 < p3 <= b.len() {
                                    object_rest(b, p3, t3, count + 1)
                                } else {
                                    Err(ParseError::Eof())
                                },
                            }
                        } else {
                            Err(ParseError::Eof())
                        },
                        _ => Err(spec_unexpected(t2)),
                    },
                }
            } else {
                Err(ParseError::Eof())
            },
            _ => Err(spec_unexpected(t0)),
        },
    }
}

/// The token array of a whole text: the tokens of its first value.
pub open spec fn tokenize_spec(b: Seq<u8>) -> Result<Seq<JsonToken>, ParseError> {
    match parse_spec(b, 0, Seq::empty()) {
        Err(e) => Err(e),
        Ok((t0, _, t)) => match t0.data {
            JsonTokenData::Value(_) => Ok(t),
            _ => Err(spec_unexpected(t0)),
        },
    }
}

/// `r` is what the spec result `s` says, ending at `p` with tokens `t`.
pub open spec fn token_matches(
    r: Result<JsonToken, ParseError>,
    s: Result<(JsonToken, int, Seq<JsonToken>), ParseError>,
    p: int,
    t: Seq<JsonToken>,
) -> bool {
    match r {
        Ok(tok) => s == Ok::<(JsonToken, int, Seq<JsonToken>), ParseError>((tok, p, t)),
        Err(e) => s == Err::<(JsonToken, int, Seq<JsonToken>), ParseError>(e),
    }
}

/// `r` is the entry count that the spec result `s` says, ending at `p` with
/// tokens `t`.
pub open spec fn count_matches(
    r: Result<usize, ParseError>,
    s: Result<(nat, int, Seq<JsonToken>), ParseError>,
    p: int,
    t: Seq<JsonToken>,
) -> bool {
    match r {
        Ok(n) => s == Ok::<(nat, int, Seq<JsonToken>), ParseError>((n as nat, p, t)),
        Err(e) => s == Err::<(nat, int, Seq<JsonToken>), ParseError>(e),
    }
}

/// `t` keeps the tokens of `toks` and may have more after them.
pub open spec fn keeps_prefix(toks: Seq<JsonToken>, t: Seq<JsonToken>) -> bool {
    &&& toks.len() <= t.len()
    &&& forall|k: int| 0 <= k < toks.len() ==> #[trigger] t[k] == toks[k]
}

/// `pos` is the start of the text or follows an ASCII byte.
pub open spec fn after_ascii(b: Seq<u8>, pos: int) -> bool {
    pos == 0 || (0 < pos <= b.len() && b[pos - 1] < 0x80)
}

/// A cursor over the bytes of the source text.
struct PeekIt<'a> {
    src: &'a str,
    bytes: &'a [u8],
    pos: usize,
}

impl<'a> PeekIt<'a> {
    spec fn wf(&self) -> bool {
        &&& self.bytes@ == bytes_of(self.src)
        &&& self.bytes@.len() <= usize::MAX
        &&& self.pos <= self.bytes@.len()
    }

    /// The cursor keeps its text and only moves forward.
    spec fn same_text(&self, other: &PeekIt<'a>) -> bool {
        &&& self.src == other.src
        &&& self.bytes == other.bytes
    }

    fn new(src: &'a str) -> (r: PeekIt<'a>)
        ensures
            r.wf(),
            r.src == src,
            r.pos == 0,
    {
        let bytes = src.as_bytes();
        let _ = bytes.len();
        PeekIt { src, bytes, pos: 0 }
    }

    fn next(&mut self)
        requires
            old(self).wf(),
        ensures
            final(self).wf(),
            final(self).same_text(old(self)),
            final(self).pos == if old(self).pos < old(self).bytes@.len() {
                old(self).pos + 1
            } else {
                old(self).pos as int
            },
    {
        if self.pos < self.bytes.len() {
            self.pos = self.pos + 1;
        }
    }

    fn peek(&self) -> (r: Option<(usize, u8)>)
        requires
            self.wf(),
        ensures
            r == if self.pos < self.bytes@.len() {
                Some((self.pos, self.bytes@[self.pos as int]))
            } else {
                None
            },
    {
        if self.pos < self.bytes.len() {
            Some((self.pos, self.bytes[self.pos]))
        } else {
            None
        }
    }
}

/// The byte offset of the expected byte at the cursor.
fn get_char(it: &PeekIt, expected: u8) -> (r: Result<usize, ParseError>)
    requires
        it.wf(),
        after_ascii(it.bytes@, it.pos as int),
    ensures
        r == if it.pos < it.bytes@.len() {
            if it.bytes@[it.pos as int] == expected {
                Ok(it.pos)
            } else {
                Err(ParseError::Unknown(it.pos, char_at(it.bytes@, it.pos as int)))
            }
        } else {
            Err(ParseError::Eof())
        },
{
    match it.peek() {
        Some((i, c)) => {
            if c == expected {
                Ok(i)
            } else {
                proof {
                    lemma_str_valid(it.src);
                    lemma_after_ascii_boundary(it.bytes@, i as int);
                }
                Err(ParseError::Unknown(i, char_at_exec(it.src, i)))
            }
        },
        None => Err(ParseError::Eof()),
    }
}

fn is_digit(c: u8) -> (r: bool)
    ensures
        r == is_digit_byte(c),
{
    0x30 <= c && c <= 0x39
}

/// The length of the white-space character at byte `pos`, or 0.
fn whitespace_len(b: &[u8], pos: usize) -> (r: usize)
    requires
        pos < b@.len(),
    ensures
        r == ws_len(b@, pos as int),
{
    let c = b[pos];
    if c == 0x20 || c == 0x09 || c == 0x0a || c == 0x0b || c == 0x0c || c == 0x0d {
        return 1;
    }
    let n = b.len();
    if 2 <= n - pos && c == 0xc2 && (b[pos + 1] == 0x85 || b[pos + 1] == 0xa0) {
        return 2;
    }
    if 3 <= n - pos {
        let c1 = b[pos + 1];
        let c2 = b[pos + 2];
        if (c == 0xe1 && c1 == 0x9a && c2 == 0x80) || (c == 0xe2 && c1 == 0x80 && ((0x80 <= c2
            && c2 <= 0x8a) || c2 == 0xa8 || c2 == 0xa9 || c2 == 0xaf)) || (c == 0xe2 && c1 == 0x81
            && c2 == 0x9f) || (c == 0xe3 && c1 == 0x80 && c2 == 0x80) {
            return 3;
        }
    }
    0
}

fn unexpected(t: &JsonToken) -> (r: ParseError)
    ensures
        r == spec_unexpected(*t),
{
    match t.data {
        JsonTokenData::Value(v) => ParseError::Value(t.start, v),
        JsonTokenData::Comma() => ParseError::Unknown(t.start, ','),
        JsonTokenData::Colon() => ParseError::Unknown(t.start, ':'),
        JsonTokenData::ArrayClose(_) => ParseError::Unknown(t.start, ']'),
        JsonTokenData::ObjectClose(_) => ParseError::Unknown(t.start, '}'),
    }
}

/// Moves the cursor past a run of digits.
fn skip_digits(it: &mut PeekIt)
    requires
        old(it).wf(),
    ensures
        final(it).wf(),
        final(it).same_text(old(it)),
        final(it).pos == digits_end(old(it).bytes@, old(it).pos as int),
        final(it).pos >= old(it).pos,
{
    let ghost b = it.bytes@;
    let ghost p0 = it.pos as int;
    while it.pos < it.bytes.len() && is_digit(it.bytes[it.pos])
        invariant
            it.wf(),
            it.same_text(old(it)),
            it.bytes@ == b,
            digits_end(b, it.pos as int) == digits_end(b, p0),
            it.pos >= p0,
        decreases b.len() - it.pos,
    {
        it.next();
    }
}

/// Moves the cursor past a run of digits that must not be empty.
fn skip_digit_run(it: &mut PeekIt) -> (r: Result<(), ParseError>)
    requires
        old(it).wf(),
        after_ascii(old(it).bytes@, old(it).pos as int),
    ensures
        final(it).wf(),
        final(it).same_text(old(it)),
        final(it).pos >= old(it).pos,
        after_ascii(final(it).bytes@, final(it).pos as int),
        match digit_run(old(it).bytes@, old(it).pos as int) {
            Ok(p) => r is Ok && final(it).pos == p,
            Err(e) => r == Err::<(), ParseError>(e),
        },
{
    let ghost b = it.bytes@;
    let p = it.pos;
    proof {
        crate::structure::lemma_digits_end(b, p as int);
    }
    skip_digits(it);
    if it.pos > p {
        return Ok(());
    }
    match it.peek() {
        Some((i, _)) => {
            proof {
                lemma_str_valid(it.src);
                lemma_after_ascii_boundary(b, i as int);
            }
            Err(ParseError::Unknown(i, char_at_exec(it.src, i)))
        },
        None => Err(ParseError::Eof()),
    }
}

impl JsonToken {
    /// The result of matching `w` after the first byte of a literal.
    spec fn literal_result(
        b: Seq<u8>,
        start: usize,
        w: Seq<u8>,
        v: JsonValue,
        r: Result<JsonToken, ParseError>,
        end: usize,
    ) -> bool {
        match expect_bytes(b, start + 1, w) {
            Ok(p) => r == Ok::<JsonToken, ParseError>(JsonToken { start, data: JsonTokenData::Value(v) })
                && end == p,
            Err(e) => r == Err::<JsonToken, ParseError>(e),
        }
    }

    fn get_null_token(it: &mut PeekIt, start: usize) -> (r: Result<JsonToken, ParseError>)
        requires
            old(it).wf(),
            old(it).pos == start + 1,
            start < old(it).bytes@.len(),
            old(it).bytes@[start as int] < 0x80,
        ensures
            final(it).wf(),
            final(it).same_text(old(it)),
            Self::literal_result(
                old(it).bytes@,
                start,
                seq![0x75u8, 0x6c, 0x6c],
                JsonValue::Null(),
                r,
                final(it).pos,
            ),
    {
        proof {
            reveal_with_fuel(expect_bytes, 4);
            assert(seq![0x75u8, 0x6c, 0x6c].drop_first() =~= seq![0x6cu8, 0x6c]);
            assert(seq![0x6cu8, 0x6c].drop_first() =~= seq![0x6cu8]);
            assert(seq![0x6cu8].drop_first() =~= Seq::<u8>::empty());
        }
        if let Err(e) = get_char(it, 0x75) {
            return Err(e);
        }
        it.next();
        if let Err(e) = get_char(it, 0x6c) {
            return Err(e);
        }
        it.next();
        if let Err(e) = get_char(it, 0x6c) {
            return Err(e);
        }
        it.next();
        Ok(JsonToken { start, data: JsonTokenData::Value(JsonValue::Null()) })
    }

    fn get_true_token(it: &mut PeekIt, start: usize) -> (r: Result<JsonToken, ParseError>)
        requires
            old(it).wf(),
            old(it).pos == start + 1,
            start < old(it).bytes@.len(),
            old(it).bytes@[start as int] < 0x80,
        ensures
            final(it).wf(),
            final(it).same_text(old(it)),
            Self::literal_result(
                old(it).bytes@,
                start,
                seq![0x72u8, 0x75, 0x65],
                JsonValue::True(),
                r,
                final(it).pos,
            ),
    {
        proof {
            reveal_with_fuel(expect_bytes, 4);
            assert(seq![0x72u8, 0x75, 0x65].drop_first() =~= seq![0x75u8, 0x65]);
            assert(seq![0x75u8, 0x65].drop_first() =~= seq![0x65u8]);
            assert(seq![0x65u8].drop_first() =~= Seq::<u8>::empty());
        }
        if let Err(e) = get_char(it, 0x72) {
            return Err(e);
        }
        it.next();
        if let Err(e) = get_char(it, 0x75) {
            return Err(e);
        }
        it.next();
        if let Err(e) = get_char(it, 0x65) {
            return Err(e);
        }
        it.next();
        Ok(JsonToken { start, data: JsonTokenData::Value(JsonValue::True()) })
    }

    fn get_false_token(it: &mut PeekIt, start: usize) -> (r: Result<JsonToken, ParseError>)
        requires
            old(it).wf(),
            old(it).pos == start + 1,
            start < old(it).bytes@.len(),
            old(it).bytes@[start as int] < 0x80,
        ensures
            final(it).wf(),
            final(it).same_text(old(it)),
            Self::literal_result(
                old(it).bytes@,
                start,
                seq![0x61u8, 0x6c, 0x73, 0x65],
                JsonValue::False(),
                r,
                final(it).pos,
            ),
    {
        proof {
            reveal_with_fuel(expect_bytes, 5);
            assert(seq![0x61u8, 0x6c, 0x73, 0x65].drop_first() =~= seq![0x6cu8, 0x73, 0x65]);
            assert(seq![0x6cu8, 0x73, 0x65].drop_first() =~= seq![0x73u8, 0x65]);
            assert(seq![0x73u8, 0x65].drop_first() =~= seq![0x65u8]);
            assert(seq![0x65u8].drop_first() =~= Seq::<u8>::empty());
        }
        if let Err(e) = get_char(it, 0x61) {
            return Err(e);
        }
        it.next();
        if let Err(e) = get_char(it, 0x6c) {
            return Err(e);
        }
        it.next();
        if let Err(e) = get_char(it, 0x73) {
            return Err(e);
        }
        it.next();
        if let Err(e) = get_char(it, 0x65) {
            return Err(e);
        }
        it.next();
        Ok(JsonToken { start, data: JsonTokenData::Value(JsonValue::False()) })
    }

    fn get_number_token(it: &mut PeekIt, start: usize) -> (r: Result<JsonToken, ParseError>)
        requires
            old(it).wf(),
            old(it).pos == start + 1,
            start < old(it).bytes@.len(),
            is_digit_byte(old(it).bytes@[start as int]) || old(it).bytes@[start as int] == 0x2d,
        ensures
            final(it).wf(),
            final(it).same_text(old(it)),
            match number_end(old(it).bytes@, start as int) {
                Ok(p) => r == Ok::<JsonToken, ParseError>(
                    JsonToken { start, data: JsonTokenData::Value(JsonValue::Number((p - start) as usize)) },
                ) && final(it).pos == p,
                Err(e) => r == Err::<JsonToken, ParseError>(e),
            },
    {
        let ghost b = it.bytes@;
        if it.bytes[start] == 0x2d {
            if let Err(e) = skip_digit_run(it) {
                return Err(e);
            }
        } else {
            skip_digits(it);
        }
        if it.pos < it.bytes.len() && it.bytes[it.pos] == 0x2e {
            it.next();
            if let Err(e) = skip_digit_run(it) {
                return Err(e);
            }
        }
        if it.pos < it.bytes.len() && (it.bytes[it.pos] == 0x65 || it.bytes[it.pos] == 0x45) {
            it.next();
            if let Some((_, c)) = it.peek() {
                if c == 0x2b || c == 0x2d {
                    it.next();
                }
            }
            if let Err(e) = skip_digit_run(it) {
                return Err(e);
            }
        }
        Ok(JsonToken { start, data: JsonTokenData::Value(JsonValue::Number(it.pos - start)) })
    }

    fn get_string_token(it: &mut PeekIt, start: usize) -> (r: Result<JsonToken, ParseError>)
        requires
            old(it).wf(),
            old(it).pos == start + 1,
        ensures
            final(it).wf(),
            final(it).same_text(old(it)),
            match string_end(old(it).bytes@, start + 1) {
                Ok(p) => r == Ok::<JsonToken, ParseError>(
                    JsonToken { start, data: JsonTokenData::Value(JsonValue::String((p - start) as usize)) },
                ) && final(it).pos == p,
                Err(e) => r == Err::<JsonToken, ParseError>(e),
            },
    {
        let ghost b = it.bytes@;
        loop
            invariant
                it.wf(),
                it.same_text(old(it)),
                it.bytes@ == b,
                start < it.pos,
                string_end(b, it.pos as int) == string_end(b, start + 1),
            decreases b.len() - it.pos,
        {
            match it.peek() {
                Some((i, c)) => {
                    it.next();
                    if c == 0x22 {
                        return Ok(
                            JsonToken {
                                start,
                                data: JsonTokenData::Value(JsonValue::String(i + 1 - start)),
                            },
                        );
                    }
                },
                None => {
                    return Err(ParseError::Eof());
                },
            }
        }
    }
}

/// A text and its token array.
#[derive(Debug)]
pub struct JsonParser<'a> {
    pub src: &'a str,
    pub tokens: Vec<JsonToken>,
}

impl<'a> JsonParser<'a> {
    /// The token array is the tokenization of the text.
    pub open spec fn wf(&self) -> bool {
        &&& tokenize_spec(bytes_of(self.src)) == Ok::<Seq<JsonToken>, ParseError>(self.tokens@)
        &&& bytes_of(self.src).len() <= usize::MAX
    }

    /// A tokenized text is a well-formed token array.
    pub proof fn lemma_doc(&self)
        requires
            self.wf(),
        ensures
            doc_ok(self.text(), self.tokens@),
    {
        lemma_tokenize_ok(self.text());
    }

    /// The index of the token after the value at `index`.
    pub fn next_sibling_index(&self, index: usize) -> (r: usize)
        requires
            self.wf(),
            index < self.tokens@.len(),
            self.tokens@[index as int].data is Value,
        ensures
            r == next_sib(self.tokens@, index as int),
            index < r <= self.tokens@.len(),
    {
        proof {
            self.lemma_doc();
            lemma_doc_value(self.text(), self.tokens@, index as int);
            lemma_nesting(self.text(), self.tokens@, index as int);
        }
        let token = self.tokens[index];
        match token.data {
            JsonTokenData::Value(value) => match value {
                JsonValue::ArrayOpen(close_index) => close_index + 1,
                JsonValue::ObjectOpen(close_index) => close_index + 1,
                _ => index + 1,
            },
            _ => index + 1,
        }
    }

    /// The length in bytes of a scalar's source text.
    fn value_len(&self, value: JsonValue) -> (r: usize)
        requires
            !(value is ArrayOpen),
            !(value is ObjectOpen),
        ensures
            r == match value {
                JsonValue::Null() => 4,
                JsonValue::True() => 4,
                JsonValue::False() => 5,
                JsonValue::Number(n) => n,
                JsonValue::String(n) => n,
                _ => 0,
            },
    {
        match value {
            JsonValue::Null() => 4,
            JsonValue::True() => 4,
            JsonValue::False() => 5,
            JsonValue::Number(n) => n,
            JsonValue::String(n) => n,
            _ => 0,
        }
    }

    /// The source text of the token at `index`; for a container, from its
    /// open byte through its close byte.
    pub fn get_slice(&self, index: usize) -> (r: &'a str)
        requires
            self.wf(),
            index < self.tokens@.len(),
        ensures
            bytes_of(r) == self.text().subrange(
                self.tokens@[index as int].start as int,
                token_end(self.tokens@, index as int),
            ),
    {
        let ghost b = self.text();
        proof {
            self.lemma_doc();
            lemma_token_span(b, self.tokens@, index as int);
            lemma_nesting(b, self.tokens@, index as int);
            lemma_str_valid(self.src);
            lemma_ascii_boundary(b, self.tokens@[index as int].start as int);
            lemma_after_ascii_boundary(b, token_end(self.tokens@, index as int));
        }
        let token = &self.tokens[index];
        let end = match token.data {
            JsonTokenData::Value(value) => match value {
                JsonValue::ArrayOpen(close_index) => {
                    let close = self.tokens[close_index];
                    close.start + 1
                },
                JsonValue::ObjectOpen(close_index) => {
                    let close = self.tokens[close_index];
                    close.start + 1
                },
                _ => token.start + self.value_len(value),
            },
            _ => token.start + 1,
        };
        substr(self.src, token.start, end)
    }

    /// The integer that a number token at `index` spells, if it fits in `i64`.
    pub fn get_int(&self, index: usize) -> (r: Option<i64>)
        requires
            self.wf(),
            index < self.tokens@.len(),
        ensures
            r == match self.tokens@[index as int].data {
                JsonTokenData::Value(JsonValue::Number(n)) => decimal_i64(
                    self.text().subrange(
                        self.tokens@[index as int].start as int,
                        self.tokens@[index as int].start + n,
                    ),
                ),
                _ => None,
            },
    {
        let token = &self.tokens[index];
        match token.data {
            JsonTokenData::Value(JsonValue::Number(_)) => {
                let segment = self.get_slice(index);
                parse_i64(segment)
            },
            _ => None,
        }
    }

    /// The boolean of a `true` or `false` token at `index`.
    pub fn get_bool(&self, index: usize) -> (r: Option<bool>)
        requires
            index < self.tokens@.len(),
        ensures
            r == match self.tokens@[index as int].data {
                JsonTokenData::Value(JsonValue::True()) => Some(true),
                JsonTokenData::Value(JsonValue::False()) => Some(false),
                _ => None::<bool>,
            },
    {
        let token = &self.tokens[index];
        match token.data {
            JsonTokenData::Value(value) => match value {
                JsonValue::True() => Some(true),
                JsonValue::False() => Some(false),
                _ => None,
            },
            _ => None,
        }
    }

    /// The text between the quotes of a string token at `index`.
    pub fn get_string(&self, index: usize) -> (r: Option<&'a str>)
        requires
            self.wf(),
            index < self.tokens@.len(),
        ensures
            match r {
                Some(s) => string_contents(self.text(), self.tokens@[index as int]) == Some(
                    bytes_of(s),
                ),
                None => string_contents(self.text(), self.tokens@[index as int]) is None,
            },
    {
        let ghost b = self.text();
        let token = &self.tokens[index];
        match token.data {
            JsonTokenData::Value(JsonValue::String(len)) => {
                proof {
                    self.lemma_doc();
                    lemma_token_span(b, self.tokens@, index as int);
                    lemma_str_valid(self.src);
                    lemma_ascii_boundary(b, token.start as int);
                    lemma_ascii_boundary(b, token.start + len - 1);
                }
                Some(substr(self.src, token.start + 1, token.start + len - 1))
            },
            _ => None,
        }
    }

    /// The text as bytes.
    pub open spec fn text(&self) -> Seq<u8> {
        bytes_of(self.src)
    }

    fn get_array_token(&mut self, it: &mut PeekIt) -> (r: Result<usize, ParseError>)
        requires
            old(it).wf(),
            old(self).tokens@.len() <= old(it).pos,
            after_ascii(old(it).bytes@, old(it).pos as int),
        ensures
            final(it).wf(),
            final(it).same_text(old(it)),
            final(self).src == old(self).src,
            keeps_prefix(old(self).tokens@, final(self).tokens@),
            count_matches(
                r,
                array_spec(old(it).bytes@, old(it).pos as int, old(self).tokens@),
                final(it).pos as int,
                final(self).tokens@,
            ),
        decreases old(it).bytes@.len() - old(it).pos, 1int,
    {
        let ghost b = it.bytes@;
        let ghost pos0 = it.pos as int;
        let ghost toks0 = self.tokens@;
        proof {
            lemma_parse(b, pos0, toks0);
        }
        let token = match self.parse(it) {
            Ok(t) => t,
            Err(e) => {
                return Err(e);
            },
        };
        match token.data {
            JsonTokenData::ArrayClose(_) => {
                return Ok(0);
            },
            JsonTokenData::Value(_) => {},
            _ => {
                return Err(unexpected(&token));
            },
        }
        let mut count: usize = 1;
        loop
            invariant
                it.wf(),
                it.same_text(old(it)),
                it.bytes@ == b,
                self.src == old(self).src,
                pos0 == old(it).pos,
                toks0 == old(self).tokens@,
                keeps_prefix(toks0, self.tokens@),
                pos0 < it.pos,
                self.tokens@.len() <= it.pos,
                after_ascii(b, it.pos as int),
                1 <= count <= it.pos - pos0,
                array_spec(b, pos0, toks0) == array_rest(b, it.pos as int, self.tokens@, count as nat),
            decreases b.len() - it.pos,
        {
            let ghost p1 = it.pos as int;
            let ghost t1 = self.tokens@;
            proof {
                lemma_parse(b, p1, t1);
            }
            let token = match self.parse(it) {
                Ok(t) => t,
                Err(e) => {
                    return Err(e);
                },
            };
            match token.data {
                JsonTokenData::ArrayClose(_) => {
                    return Ok(count);
                },
                JsonTokenData::Comma() => {},
                _ => {
                    return Err(unexpected(&token));
                },
            }
            count = count + 1;
            let ghost p2 = it.pos as int;
            let ghost t2 = self.tokens@;
            proof {
                lemma_parse(b, p2, t2);
            }
            let token = match self.parse(it) {
                Ok(t) => t,
                Err(e) => {
                    return Err(e);
                },
            };
            match token.data {
                JsonTokenData::Value(_) => {},
                _ => {
                    return Err(unexpected(&token));
                },
            }
        }
    }

    fn colon_value(&mut self, it: &mut PeekIt) -> (r: Result<JsonToken, ParseError>)
        requires
            old(it).wf(),
            old(self).tokens@.len() <= old(it).pos,
            after_ascii(old(it).bytes@, old(it).pos as int),
        ensures
            final(it).wf(),
            final(it).same_text(old(it)),
            final(self).src == old(self).src,
            keeps_prefix(old(self).tokens@, final(self).tokens@),
            token_matches(
                r,
                colon_value_spec(old(it).bytes@, old(it).pos as int, old(self).tokens@),
                final(it).pos as int,
                final(self).tokens@,
            ),
        decreases old(it).bytes@.len() - old(it).pos, 1int,
    {
        let ghost b = it.bytes@;
        let ghost pos0 = it.pos as int;
        let ghost toks0 = self.tokens@;
        proof {
            lemma_parse(b, pos0, toks0);
        }
        let token = match self.parse(it) {
            Ok(t) => t,
            Err(e) => {
                return Err(e);
            },
        };
        match token.data {
            JsonTokenData::Colon() => {},
            _ => {
                return Err(unexpected(&token));
            },
        }
        let ghost p1 = it.pos as int;
        let ghost t1 = self.tokens@;
        proof {
            lemma_parse(b, p1, t1);
        }
        let token = match self.parse(it) {
            Ok(t) => t,
            Err(e) => {
                return Err(e);
            },
        };
        match token.data {
            JsonTokenData::Value(_) => Ok(token),
            _ => Err(unexpected(&token)),
        }
    }

    fn get_object_token(&mut self, it: &mut PeekIt) -> (r: Result<usize, ParseError>)
        requires
            old(it).wf(),
            old(self).tokens@.len() <= old(it).pos,
            after_ascii(old(it).bytes@, old(it).pos as int),
        ensures
            final(it).wf(),
            final(it).same_text(old(it)),
            final(self).src == old(self).src,
            keeps_prefix(old(self).tokens@, final(self).tokens@),
            count_matches(
                r,
                object_spec(old(it).bytes@, old(it).pos as int, old(self).tokens@),
                final(it).pos as int,
                final(self).tokens@,
            ),
        decreases old(it).bytes@.len() - old(it).pos, 1int,
    {
        let ghost b = it.bytes@;
        let ghost pos0 = it.pos as int;
        let ghost toks0 = self.tokens@;
        proof {
            lemma_parse(b, pos0, toks0);
        }
        let token = match self.parse(it) {
            Ok(t) => t,
            Err(e) => {
                return Err(e);
            },
        };
        match token.data {
            JsonTokenData::ObjectClose(_) => {
                return Ok(0);
            },
            JsonTokenData::Value(_) => {},
            _ => {
                return Err(unexpected(&token));
            },
        }
        let ghost pk = it.pos as int;
        let ghost tk = self.tokens@;
        proof {
            lemma_colon_value(b, pk, tk);
        }
        if let Err(e) = self.colon_value(it) {
            return Err(e);
        }
        let mut count: usize = 1;
        loop
            invariant
                it.wf(),
                it.same_text(old(it)),
                it.bytes@ == b,
                self.src == old(self).src,
                pos0 == old(it).pos,
                toks0 == old(self).tokens@,
                keeps_prefix(toks0, self.tokens@),
                pos0 < it.pos,
                self.tokens@.len() <= it.pos,
                after_ascii(b, it.pos as int),
                1 <= count <= it.pos - pos0,
                object_spec(b, pos0, toks0) == object_rest(b, it.pos as int, self.tokens@, count as nat),
            decreases b.len() - it.pos,
        {
            let ghost p1 = it.pos as int;
            let ghost t1 = self.tokens@;
            proof {
                lemma_parse(b, p1, t1);
            }
            let token = match self.parse(it) {
                Ok(t) => t,
                Err(e) => {
                    return Err(e);
                },
            };
            match token.data {
                JsonTokenData::ObjectClose(_) => {
                    return Ok(count);
                },
                JsonTokenData::Comma() => {},
                _ => {
                    return Err(unexpected(&token));
                },
            }
            count = count + 1;
            let ghost p2 = it.pos as int;
            let ghost t2 = self.tokens@;
            proof {
                lemma_parse(b, p2, t2);
            }
            let token = match self.parse(it) {
                Ok(t) => t,
                Err(e) => {
                    return Err(e);
                },
            };
            match token.data {
                JsonTokenData::Value(_) => {},
                _ => {
                    return Err(unexpected(&token));
                },
            }
            let ghost p3 = it.pos as int;
            let ghost t3 = self.tokens@;
            proof {
                lemma_colon_value(b, p3, t3);
            }
            if let Err(e) = self.colon_value(it) {
                return Err(e);
            }
        }
    }

    fn parse(&mut self, it: &mut PeekIt) -> (r: Result<JsonToken, ParseError>)
        requires
            old(it).wf(),
            old(self).tokens@.len() <= old(it).pos,
            after_ascii(old(it).bytes@, old(it).pos as int),
        ensures
            final(it).wf(),
            final(it).same_text(old(it)),
            final(self).src == old(self).src,
            keeps_prefix(old(self).tokens@, final(self).tokens@),
            token_matches(
                r,
                parse_spec(old(it).bytes@, old(it).pos as int, old(self).tokens@),
                final(it).pos as int,
                final(self).tokens@,
            ),
            skip_ws(old(it).bytes@, old(it).pos as int) >= old(it).bytes@.len() ==> r
                == Err::<JsonToken, ParseError>(ParseError::Eof()) && final(self).tokens@ == old(
                self,
            ).tokens@,
        decreases old(it).bytes@.len() - old(it).pos, 0int,
    {
        let ghost b = it.bytes@;
        let ghost pos0 = it.pos as int;
        let ghost toks0 = self.tokens@;
        proof {
            lemma_str_valid(it.src);
            lemma_after_ascii_boundary(b, pos0);
        }
        loop
            invariant
                it.wf(),
                it.same_text(old(it)),
                it.bytes@ == b,
                self.src == old(self).src,
                pos0 == old(it).pos,
                toks0 == old(self).tokens@,
                keeps_prefix(toks0, self.tokens@),
                self.tokens@ == toks0,
                skip_ws(b, pos0) == skip_ws(b, it.pos as int),
                toks0.len() <= pos0 <= it.pos,
                valid_utf8(b),
                is_char_boundary(b, it.pos as int),
                parse_spec(b, pos0, toks0) == parse_spec(b, it.pos as int, toks0),
            decreases b.len() - it.pos,
        {
            let peeked = it.peek();
            let (i, c) = match peeked {
                Some(ic) => ic,
                None => {
                    return Err(ParseError::Eof());
                },
            };
            let ws = whitespace_len(it.bytes, i);
            if ws > 0 {
                proof {
                    lemma_next_boundary(b, i as int);
                }
                it.pos = i + ws;
                continue;
            }
            it.next();
            if c == 0x6e {
                return match JsonToken::get_null_token(it, i) {
                    Ok(token) => {
                        self.tokens.push(token);
                        Ok(token)
                    },
                    Err(e) => Err(e),
                };
            } else if c == 0x74 {
                return match JsonToken::get_true_token(it, i) {
                    Ok(token) => {
                        self.tokens.push(token);
                        Ok(token)
                    },
                    Err(e) => Err(e),
                };
            } else if c == 0x66 {
                return match JsonToken::get_false_token(it, i) {
                    Ok(token) => {
                        self.tokens.push(token);
                        Ok(token)
                    },
                    Err(e) => Err(e),
                };
            } else if is_digit(c) || c == 0x2d {
                return match JsonToken::get_number_token(it, i) {
                    Ok(token) => {
                        self.tokens.push(token);
                        Ok(token)
                    },
                    Err(e) => Err(e),
                };
            } else if c == 0x22 {
                return match JsonToken::get_string_token(it, i) {
                    Ok(token) => {
                        self.tokens.push(token);
                        Ok(token)
                    },
                    Err(e) => Err(e),
                };
            } else if c == 0x2c {
                return Ok(JsonToken { start: i, data: JsonTokenData::Comma() });
            } else if c == 0x3a {
                return Ok(JsonToken { start: i, data: JsonTokenData::Colon() });
            } else if c == 0x5b {
                let open_index = self.tokens.len();
                self.tokens.push(
                    JsonToken {
                        start: i,
                        data: JsonTokenData::Value(JsonValue::ArrayOpen(open_index + 1)),
                    },
                );
                let ghost t1 = self.tokens@;
                proof {
                    lemma_array(b, i + 1, t1);
                }
                return match self.get_array_token(it) {
                    Err(e) => Err(e),
                    Ok(item_count) => {
                        let close_index = self.tokens.len() - 1;
                        let token = JsonToken {
                            start: i,
                            data: JsonTokenData::Value(JsonValue::ArrayOpen(close_index)),
                        };
                        self.tokens[open_index] = token;
                        let close_start = self.tokens[close_index].start;
                        self.tokens[close_index] = JsonToken {
                            start: close_start,
                            data: JsonTokenData::ArrayClose(item_count),
                        };
                        Ok(token)
                    },
                };
            } else if c == 0x5d {
                let token = JsonToken { start: i, data: JsonTokenData::ArrayClose(0) };
                self.tokens.push(token);
                return Ok(token);
            } else if c == 0x7b {
                let open_index = self.tokens.len();
                self.tokens.push(
                    JsonToken {
                        start: i,
                        data: JsonTokenData::Value(JsonValue::ObjectOpen(open_index + 1)),
                    },
                );
                let ghost t1 = self.tokens@;
                proof {
                    lemma_object(b, i + 1, t1);
                }
                return match self.get_object_token(it) {
                    Err(e) => Err(e),
                    Ok(item_count) => {
                        let close_index = self.tokens.len() - 1;
                        let token = JsonToken {
                            start: i,
                            data: JsonTokenData::Value(JsonValue::ObjectOpen(close_index)),
                        };
                        self.tokens[open_index] = token;
                        let close_start = self.tokens[close_index].start;
                        self.tokens[close_index] = JsonToken {
                            start: close_start,
                            data: JsonTokenData::ObjectClose(item_count),
                        };
                        Ok(token)
                    },
                };
            } else if c == 0x7d {
                let token = JsonToken { start: i, data: JsonTokenData::ObjectClose(0) };
                self.tokens.push(token);
                return Ok(token);
            } else {
                return Err(ParseError::Unknown(i, char_at_exec(it.src, i)));
            }
        }
    }

    /// Tokenizes `src`: its token array, or the first error in it.
    pub fn tokenize(src: &'a str) -> (r: Result<JsonParser<'a>, ParseError>)
        ensures
            match r {
                Ok(p) => p.src == src && p.wf(),
                Err(e) => tokenize_spec(bytes_of(src)) == Err::<Seq<JsonToken>, ParseError>(e),
            },
    {
        let mut parser = JsonParser { src, tokens: Vec::new() };
        let mut it = PeekIt::new(src);
        match parser.parse(&mut it) {
            Ok(token) => match token.data {
                JsonTokenData::Value(_) => Ok(parser),
                _ => Err(unexpected(&token)),
            },
            Err(e) => Err(e),
        }
    }

    /// Tokenizes a text that is known to tokenize.
    pub fn process(src: &'a str) -> (r: JsonParser<'a>)
        requires
            tokenize_spec(bytes_of(src)) is Ok,
        ensures
            r.src == src,
            r.wf(),
    {
        match Self::tokenize(src) {
            Ok(p) => p,
            Err(_) => {
                proof {
                    assert(false);
                }
                JsonParser { src, tokens: Vec::new() }
            },
        }
    }
}

} // verus!
