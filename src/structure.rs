//! The shape of a token array: every value spans a range of tokens, and a
//! container's entries are a chain of siblings that ends at its close token.
//! The lemmas here show that the tokenizer's grammar only yields such arrays.
use vstd::prelude::*;
use crate::parser::{
    array_rest, array_spec, colon_value_spec, digit_run, digits_end, expect_bytes, is_digit_byte,
    is_number_byte, mk_token, ws_len, number_end, object_rest, object_spec, parse_spec,
    string_end, tokenize_spec, JsonToken, JsonTokenData, JsonValue, ParseError,
};

verus! {

/// The index of the token after the value at `i`: past its close token for a
/// container, the next index otherwise.
pub open spec fn next_sib(t: Seq<JsonToken>, i: int) -> int {
    match t[i].data {
        JsonTokenData::Value(JsonValue::ArrayOpen(c)) => c + 1,
        JsonTokenData::Value(JsonValue::ObjectOpen(c)) => c + 1,
        _ => i + 1,
    }
}

/// The tokens in `[i, j)` are one value: a scalar, or an open token whose
/// close token is at `j - 1`, after its own start, with the entries between
/// them. An array's close token holds its element count; an object's holds
/// its entry count, and its entries are keys and values in turn.
pub open spec fn wf_value(t: Seq<JsonToken>, i: int, j: int) -> bool
    decreases j - i, 0int,
{
    if 0 <= i < j <= t.len() {
        match t[i].data {
            JsonTokenData::Value(JsonValue::ArrayOpen(c)) => c == j - 1 && i < c && t[i].start
                < t[c as int].start && match t[c as int].data {
                JsonTokenData::ArrayClose(n) => wf_seq(t, i + 1, c as int, n as nat),
                _ => false,
            },
            JsonTokenData::Value(JsonValue::ObjectOpen(c)) => c == j - 1 && i < c && t[i].start
                < t[c as int].start && match t[c as int].data {
                JsonTokenData::ObjectClose(n) => wf_seq(t, i + 1, c as int, 2 * n as nat),
                _ => false,
            },
            JsonTokenData::Value(_) => j == i + 1,
            _ => false,
        }
    } else {
        false
    }
}

/// The tokens in `[i, j)` are `n` values, each the next sibling of the one
/// before.
pub open spec fn wf_seq(t: Seq<JsonToken>, i: int, j: int, n: nat) -> bool
    decreases j - i, 1int,
{
    if n == 0 {
        i == j
    } else {
        let k = next_sib(t, i);
        i < k <= j && wf_value(t, i, k) && wf_seq(t, k, j, (n - 1) as nat)
    }
}

/// `w` stands in `b` at `s`.
pub open spec fn word_at(b: Seq<u8>, s: int, w: Seq<u8>) -> bool {
    0 <= s && s + w.len() <= b.len() && b.subrange(s, s + w.len()) == w
}

/// The source bytes at a token's start are those the token was scanned from.
pub open spec fn span_ok(b: Seq<u8>, tok: JsonToken) -> bool {
    let s = tok.start as int;
    match tok.data {
        JsonTokenData::Value(JsonValue::Null()) => word_at(b, s, seq![0x6eu8, 0x75, 0x6c, 0x6c]),
        JsonTokenData::Value(JsonValue::True()) => word_at(b, s, seq![0x74u8, 0x72, 0x75, 0x65]),
        JsonTokenData::Value(JsonValue::False()) => word_at(
            b,
            s,
            seq![0x66u8, 0x61, 0x6c, 0x73, 0x65],
        ),
        JsonTokenData::Value(JsonValue::Number(n)) => 1 <= n && s + n <= b.len() && (forall|k: int|
            s <= k < s + n ==> is_number_byte(#[trigger] b[k])),
        JsonTokenData::Value(JsonValue::String(n)) => 2 <= n && s + n <= b.len() && b[s] == 0x22
            && b[s + n - 1] == 0x22 && (forall|k: int| s < k < s + n - 1 ==> #[trigger] b[k] != 0x22),
        JsonTokenData::Value(JsonValue::ArrayOpen(_)) => s < b.len() && b[s] == 0x5b,
        JsonTokenData::Value(JsonValue::ObjectOpen(_)) => s < b.len() && b[s] == 0x7b,
        JsonTokenData::ArrayClose(_) => s < b.len() && b[s] == 0x5d,
        JsonTokenData::ObjectClose(_) => s < b.len() && b[s] == 0x7d,
        JsonTokenData::Comma() => s < b.len() && b[s] == 0x2c,
        JsonTokenData::Colon() => s < b.len() && b[s] == 0x3a,
    }
}

/// A token array is the tokenization of `b`: one value spanning the whole
/// array, every token matching the source bytes it was scanned from, and no
/// more tokens than bytes.
pub open spec fn doc_ok(b: Seq<u8>, t: Seq<JsonToken>) -> bool {
    &&& 0 < t.len() <= b.len()
    &&& wf_value(t, 0, t.len() as int)
    &&& forall|k: int| 0 <= k < t.len() ==> span_ok(b, #[trigger] t[k])
}

/// Scanning from `pos` to `p` kept the tokens before and appended tokens
/// scanned from the bytes in between, at most one per byte; the last byte
/// read is ASCII.
pub open spec fn grows(b: Seq<u8>, pos: int, toks: Seq<JsonToken>, p: int, t: Seq<JsonToken>) -> bool {
    &&& pos < p <= b.len()
    &&& b[p - 1] < 0x80
    &&& toks.len() <= t.len()
    &&& t.len() - toks.len() <= p - pos
    &&& forall|k: int| 0 <= k < toks.len() ==> #[trigger] t[k] == toks[k]
    &&& forall|k: int|
        toks.len() <= k < t.len() ==> pos <= (#[trigger] t[k]).start < p && span_ok(b, t[k])
}

/// What scanning one token yields.
pub open spec fn parse_post(
    b: Seq<u8>,
    pos: int,
    toks: Seq<JsonToken>,
    tok: JsonToken,
    p: int,
    t: Seq<JsonToken>,
) -> bool {
    &&& grows(b, pos, toks, p, t)
    &&& pos <= tok.start < p
    &&& span_ok(b, tok)
    &&& match tok.data {
        JsonTokenData::Value(_) => t.len() > toks.len() && t[toks.len() as int] == tok && wf_value(
            t,
            toks.len() as int,
            t.len() as int,
        ),
        JsonTokenData::ArrayClose(n) => n == 0 && t == toks.push(tok),
        JsonTokenData::ObjectClose(n) => n == 0 && t == toks.push(tok),
        _ => t == toks,
    }
}

/// What scanning the rest of a container yields: `n` entries from `base`,
/// then a close token of the given kind.
pub open spec fn list_post(
    b: Seq<u8>,
    pos: int,
    toks: Seq<JsonToken>,
    base: int,
    n: nat,
    p: int,
    t: Seq<JsonToken>,
    array: bool,
) -> bool {
    &&& grows(b, pos, toks, p, t)
    &&& t.len() > toks.len()
    &&& if array {
        t[t.len() - 1].data is ArrayClose
    } else {
        t[t.len() - 1].data is ObjectClose
    }
    &&& wf_seq(t, base, t.len() - 1, n)
}

/// What scanning a value yields.
pub open spec fn value_post(
    b: Seq<u8>,
    pos: int,
    toks: Seq<JsonToken>,
    tok: JsonToken,
    p: int,
    t: Seq<JsonToken>,
) -> bool {
    &&& grows(b, pos, toks, p, t)
    &&& tok.data is Value
    &&& t.len() > toks.len()
    &&& wf_value(t, toks.len() as int, t.len() as int)
}

pub proof fn lemma_wf_value_next(t: Seq<JsonToken>, i: int, j: int)
    requires
        wf_value(t, i, j),
    ensures
        next_sib(t, i) == j,
        t[i].data is Value,
{
}

/// Two arrays that agree on `[i, j)` agree on whether it holds one value.
pub proof fn lemma_wf_value_agree(t1: Seq<JsonToken>, t2: Seq<JsonToken>, i: int, j: int)
    requires
        j <= t1.len(),
        j <= t2.len(),
        forall|k: int| i <= k < j ==> #[trigger] t1[k] == t2[k],
    ensures
        wf_value(t1, i, j) == wf_value(t2, i, j),
    decreases j - i, 0int,
{
    if 0 <= i < j {
        assert(t1[i] == t2[i]);
        match t1[i].data {
            JsonTokenData::Value(JsonValue::ArrayOpen(c)) => {
                if c == j - 1 && i < c {
                    assert(t1[c as int] == t2[c as int]);
                    if let JsonTokenData::ArrayClose(n) = t1[c as int].data {
                        lemma_wf_seq_agree(t1, t2, i + 1, c as int, n as nat);
                    }
                }
            },
            JsonTokenData::Value(JsonValue::ObjectOpen(c)) => {
                if c == j - 1 && i < c {
                    assert(t1[c as int] == t2[c as int]);
                    if let JsonTokenData::ObjectClose(n) = t1[c as int].data {
                        lemma_wf_seq_agree(t1, t2, i + 1, c as int, 2 * n as nat);
                    }
                }
            },
            _ => {},
        }
    }
}

pub proof fn lemma_wf_seq_agree(t1: Seq<JsonToken>, t2: Seq<JsonToken>, i: int, j: int, n: nat)
    requires
        j <= t1.len(),
        j <= t2.len(),
        forall|k: int| i <= k < j ==> #[trigger] t1[k] == t2[k],
    ensures
        wf_seq(t1, i, j, n) == wf_seq(t2, i, j, n),
    decreases j - i, 1int,
{
    if n > 0 && i < j {
        assert(t1[i] == t2[i]);
        let k = next_sib(t1, i);
        if i < k <= j {
            lemma_wf_value_agree(t1, t2, i, k);
            lemma_wf_seq_agree(t1, t2, k, j, (n - 1) as nat);
        }
    }
}

/// A chain of `n` values followed by one more value is a chain of `n + 1`.
pub proof fn lemma_wf_seq_append(t: Seq<JsonToken>, i: int, j: int, n: nat, k: int)
    requires
        wf_seq(t, i, j, n),
        wf_value(t, j, k),
    ensures
        wf_seq(t, i, k, n + 1),
    decreases n,
{
    lemma_wf_value_next(t, j, k);
    if n > 0 {
        let m = next_sib(t, i);
        lemma_wf_seq_append(t, m, j, (n - 1) as nat, k);
        assert((n - 1) as nat + 1 == n);
        assert(wf_seq(t, m, k, n));
    } else {
        assert(wf_seq(t, k, k, 0));
    }
}

/// A chain of `n` values spans at least `n` tokens.
pub proof fn lemma_wf_seq_count(t: Seq<JsonToken>, i: int, j: int, n: nat)
    requires
        wf_seq(t, i, j, n),
    ensures
        i <= j,
        n <= j - i,
    decreases n,
{
    if n > 0 {
        lemma_wf_seq_count(t, next_sib(t, i), j, (n - 1) as nat);
    }
}

pub proof fn lemma_grows_trans(
    b: Seq<u8>,
    pos: int,
    toks: Seq<JsonToken>,
    p1: int,
    t1: Seq<JsonToken>,
    p2: int,
    t2: Seq<JsonToken>,
)
    requires
        grows(b, pos, toks, p1, t1),
        grows(b, p1, t1, p2, t2),
    ensures
        grows(b, pos, toks, p2, t2),
{
    assert forall|k: int| 0 <= k < toks.len() implies #[trigger] t2[k] == toks[k] by {
        assert(t2[k] == t1[k]);
    }
    assert forall|k: int| toks.len() <= k < t2.len() implies pos <= (#[trigger] t2[k]).start < p2
        && span_ok(b, t2[k]) by {
        if k < t1.len() {
            assert(t2[k] == t1[k]);
        }
    }
}

pub proof fn lemma_expect(b: Seq<u8>, pos: int, w: Seq<u8>)
    requires
        0 <= pos <= b.len(),
    ensures
        expect_bytes(b, pos, w) is Ok ==> {
            let p = expect_bytes(b, pos, w)->Ok_0;
            p == pos + w.len() && p <= b.len() && b.subrange(pos, p) == w
        },
    decreases w.len(),
{
    if w.len() > 0 && pos < b.len() && b[pos] == w[0] {
        lemma_expect(b, pos + 1, w.drop_first());
        if expect_bytes(b, pos, w) is Ok {
            assert(b.subrange(pos, pos + w.len()) =~= seq![w[0]] + w.drop_first());
            assert(w =~= seq![w[0]] + w.drop_first());
        }
    } else if w.len() == 0 {
        assert(b.subrange(pos, pos) =~= w);
    }
}

pub proof fn lemma_digits_end(b: Seq<u8>, pos: int)
    requires
        0 <= pos <= b.len(),
    ensures
        pos <= digits_end(b, pos) <= b.len(),
        forall|k: int| pos <= k < digits_end(b, pos) ==> is_digit_byte(#[trigger] b[k]),
    decreases b.len() - pos,
{
    if pos < b.len() && is_digit_byte(b[pos]) {
        lemma_digits_end(b, pos + 1);
    }
}

pub proof fn lemma_digit_run(b: Seq<u8>, pos: int)
    requires
        0 <= pos <= b.len(),
    ensures
        digit_run(b, pos) is Ok ==> {
            let p = digit_run(b, pos)->Ok_0;
            &&& pos < p <= b.len()
            &&& forall|k: int| pos <= k < p ==> is_digit_byte(#[trigger] b[k])
        },
{
    lemma_digits_end(b, pos);
}

/// A number scanned from `start` spans number bytes only.
pub proof fn lemma_number_end(b: Seq<u8>, start: int)
    requires
        0 <= start < b.len(),
        is_digit_byte(b[start]) || b[start] == 0x2d,
    ensures
        number_end(b, start) is Ok ==> {
            let p = number_end(b, start)->Ok_0;
            &&& start < p <= b.len()
            &&& forall|k: int| start <= k < p ==> is_number_byte(#[trigger] b[k])
        },
{
    let p0 = if b[start] == 0x2d {
        start + 1
    } else {
        start
    };
    lemma_digit_run(b, p0);
    if let Ok(p1) = digit_run(b, p0) {
        if p1 < b.len() && b[p1] == 0x2e {
            lemma_digit_run(b, p1 + 1);
        }
        let fraction = if 0 <= p1 < b.len() && b[p1] == 0x2e {
            digit_run(b, p1 + 1)
        } else {
            Ok(p1)
        };
        if let Ok(p2) = fraction {
            if 0 <= p2 < b.len() && (b[p2] == 0x65 || b[p2] == 0x45) {
                let p3 = p2 + 1;
                if 0 <= p3 < b.len() && (b[p3] == 0x2b || b[p3] == 0x2d) {
                    lemma_digit_run(b, p3 + 1);
                } else {
                    lemma_digit_run(b, p3);
                }
            }
        }
    }
}

pub proof fn lemma_string_end(b: Seq<u8>, pos: int)
    requires
        0 <= pos,
    ensures
        string_end(b, pos) is Ok ==> {
            let p = string_end(b, pos)->Ok_0;
            &&& pos < p <= b.len()
            &&& b[p - 1] == 0x22
            &&& forall|k: int| pos <= k < p - 1 ==> #[trigger] b[k] != 0x22
        },
    decreases b.len() - pos,
{
    if pos < b.len() && b[pos] != 0x22 {
        lemma_string_end(b, pos + 1);
    }
}

/// A scalar token scanned from `pos` to `p` and appended.
proof fn lemma_scalar_post(b: Seq<u8>, pos: int, toks: Seq<JsonToken>, tok: JsonToken, p: int)
    requires
        0 <= pos < p <= b.len(),
        toks.len() <= pos,
        b[p - 1] < 0x80,
        tok.start == pos,
        tok.data is Value,
        !(tok.data->Value_0 is ArrayOpen),
        !(tok.data->Value_0 is ObjectOpen),
        span_ok(b, tok),
    ensures
        parse_post(b, pos, toks, tok, p, toks.push(tok)),
{
    let t = toks.push(tok);
    assert(t[toks.len() as int] == tok);
    assert(wf_value(t, toks.len() as int, t.len() as int));
}

/// Scanning one token from `pos` yields what `parse_post` says.
pub proof fn lemma_parse(b: Seq<u8>, pos: int, toks: Seq<JsonToken>)
    requires
        0 <= pos,
        toks.len() <= pos,
        b.len() <= usize::MAX,
    ensures
        parse_spec(b, pos, toks) matches Ok((tok, p, t)) ==> parse_post(b, pos, toks, tok, p, t),
    decreases b.len() - pos, 1int,
{
    if pos < b.len() {
        let c = b[pos];
        let w = ws_len(b, pos);
        if w > 0 {
            lemma_parse(b, pos + w, toks);
            if let Ok((tok, p, t)) = parse_spec(b, pos + w, toks) {
                assert(grows(b, pos, toks, p, t));
            }
        } else if c == 0x6e {
            let w = seq![0x75u8, 0x6c, 0x6c];
            lemma_expect(b, pos + 1, w);
            if let Ok(p) = expect_bytes(b, pos + 1, w) {
                let tok = mk_token(pos, JsonTokenData::Value(JsonValue::Null()));
                assert(b.subrange(pos, pos + 4) =~= seq![0x6eu8, 0x75, 0x6c, 0x6c]) by {
                    assert(b.subrange(pos + 1, p)[2] == b[pos + 3]);
                    assert(b.subrange(pos + 1, p)[1] == b[pos + 2]);
                    assert(b.subrange(pos + 1, p)[0] == b[pos + 1]);
                }
                assert(b[p - 1] == b.subrange(pos + 1, p)[2]);
                lemma_scalar_post(b, pos, toks, tok, p);
            }
        } else if c == 0x74 {
            let w = seq![0x72u8, 0x75, 0x65];
            lemma_expect(b, pos + 1, w);
            if let Ok(p) = expect_bytes(b, pos + 1, w) {
                let tok = mk_token(pos, JsonTokenData::Value(JsonValue::True()));
                assert(b.subrange(pos, pos + 4) =~= seq![0x74u8, 0x72, 0x75, 0x65]) by {
                    assert(b.subrange(pos + 1, p)[2] == b[pos + 3]);
                    assert(b.subrange(pos + 1, p)[1] == b[pos + 2]);
                    assert(b.subrange(pos + 1, p)[0] == b[pos + 1]);
                }
                assert(b[p - 1] == b.subrange(pos + 1, p)[2]);
                lemma_scalar_post(b, pos, toks, tok, p);
            }
        } else if c == 0x66 {
            let w = seq![0x61u8, 0x6c, 0x73, 0x65];
            lemma_expect(b, pos + 1, w);
            if let Ok(p) = expect_bytes(b, pos + 1, w) {
                let tok = mk_token(pos, JsonTokenData::Value(JsonValue::False()));
                assert(b.subrange(pos, pos + 5) =~= seq![0x66u8, 0x61, 0x6c, 0x73, 0x65]) by {
                    assert(b.subrange(pos + 1, p)[3] == b[pos + 4]);
                    assert(b.subrange(pos + 1, p)[2] == b[pos + 3]);
                    assert(b.subrange(pos + 1, p)[1] == b[pos + 2]);
                    assert(b.subrange(pos + 1, p)[0] == b[pos + 1]);
                }
                assert(b[p - 1] == b.subrange(pos + 1, p)[3]);
                lemma_scalar_post(b, pos, toks, tok, p);
            }
        } else if is_digit_byte(c) || c == 0x2d {
            lemma_number_end(b, pos);
            if let Ok(p) = number_end(b, pos) {
                let tok = mk_token(pos, JsonTokenData::Value(JsonValue::Number((p - pos) as usize)));
                assert(is_number_byte(b[p - 1]));
                lemma_scalar_post(b, pos, toks, tok, p);
            }
        } else if c == 0x22 {
            lemma_string_end(b, pos + 1);
            if let Ok(p) = string_end(b, pos + 1) {
                let tok = mk_token(pos, JsonTokenData::Value(JsonValue::String((p - pos) as usize)));
                lemma_scalar_post(b, pos, toks, tok, p);
            }
        } else if c == 0x5b {
            lemma_parse_open(b, pos, toks, true);
        } else if c == 0x7b {
            lemma_parse_open(b, pos, toks, false);
        } else if c == 0x5d || c == 0x7d || c == 0x2c || c == 0x3a {
            if let Ok((tok, p, t)) = parse_spec(b, pos, toks) {
                assert(grows(b, pos, toks, p, t));
            }
        }
    }
}

/// Scanning a container from its open byte at `pos`.
proof fn lemma_parse_open(b: Seq<u8>, pos: int, toks: Seq<JsonToken>, array: bool)
    requires
        0 <= pos < b.len(),
        toks.len() <= pos,
        b.len() <= usize::MAX,
        array ==> b[pos] == 0x5b,
        !array ==> b[pos] == 0x7b,
    ensures
        parse_spec(b, pos, toks) matches Ok((tok, p, t)) ==> parse_post(b, pos, toks, tok, p, t),
    decreases b.len() - pos, 0int,
{
    let o = toks.len() as int;
    let placeholder = mk_token(
        pos,
        JsonTokenData::Value(
            if array {
                JsonValue::ArrayOpen((o + 1) as usize)
            } else {
                JsonValue::ObjectOpen((o + 1) as usize)
            },
        ),
    );
    let t1 = toks.push(placeholder);
    let r = if array {
        array_spec(b, pos + 1, t1)
    } else {
        object_spec(b, pos + 1, t1)
    };
    if array {
        lemma_array(b, pos + 1, t1);
    } else {
        lemma_object(b, pos + 1, t1);
    }
    if let Ok((count, p, t)) = r {
        let n: nat = if array {
            count
        } else {
            2 * count
        };
        assert(list_post(b, pos + 1, t1, t1.len() as int, n, p, t, array));
        let ci = t.len() - 1;
        lemma_wf_seq_count(t, o + 1, ci, n);
        assert(count <= usize::MAX);
        let open = mk_token(
            pos,
            JsonTokenData::Value(
                if array {
                    JsonValue::ArrayOpen(ci as usize)
                } else {
                    JsonValue::ObjectOpen(ci as usize)
                },
            ),
        );
        let close = mk_token(
            t[ci].start as int,
            if array {
                JsonTokenData::ArrayClose(count as usize)
            } else {
                JsonTokenData::ObjectClose(count as usize)
            },
        );
        let t3 = t.update(o, open).update(ci, close);
        assert(span_ok(b, t[ci]));
        assert(span_ok(b, close));
        assert(t[o] == t1[o]);
        assert(grows(b, pos, toks, p, t3)) by {
            assert forall|k: int| 0 <= k < toks.len() implies #[trigger] t3[k] == toks[k] by {
                assert(t[k] == t1[k]);
            }
            assert forall|k: int| toks.len() <= k < t3.len() implies pos <= (
            #[trigger] t3[k]).start < p && span_ok(b, t3[k]) by {
                if k != o && k != ci {
                    assert(t3[k] == t[k]);
                }
            }
        }
        lemma_wf_seq_agree(t, t3, o + 1, ci, n);
        assert(t3[ci] == close);
        assert(wf_value(t3, o, t3.len() as int));
        assert(parse_spec(b, pos, toks) == Ok::<(JsonToken, int, Seq<JsonToken>), ParseError>((open, p, t3)));
    }
}

/// Scanning an array's elements after its `[`.
pub proof fn lemma_array(b: Seq<u8>, pos: int, toks: Seq<JsonToken>)
    requires
        0 <= pos,
        toks.len() <= pos,
        b.len() <= usize::MAX,
    ensures
        array_spec(b, pos, toks) matches Ok((n, p, t)) ==> list_post(
            b,
            pos,
            toks,
            toks.len() as int,
            n,
            p,
            t,
            true,
        ),
    decreases b.len() - pos, 2int,
{
    lemma_parse(b, pos, toks);
    if let Ok((t0, p, t)) = parse_spec(b, pos, toks) {
        let base = toks.len() as int;
        if t0.data is ArrayClose {
            assert(t[t.len() - 1] == t0);
        } else if t0.data is Value {
            lemma_wf_value_next(t, base, t.len() as int);
            assert(wf_seq(t, t.len() as int, t.len() as int, 0));
            assert(wf_seq(t, base, t.len() as int, 1));
            lemma_array_rest(b, p, t, 1, base);
            if let Ok((n, p2, t2)) = array_rest(b, p, t, 1) {
                lemma_grows_trans(b, pos, toks, p, t, p2, t2);
            }
        }
    }
}

/// Scanning the rest of an array after `count` elements.
pub proof fn lemma_array_rest(b: Seq<u8>, pos: int, toks: Seq<JsonToken>, count: nat, base: int)
    requires
        0 <= pos,
        toks.len() <= pos,
        b.len() <= usize::MAX,
        0 <= base <= toks.len(),
        wf_seq(toks, base, toks.len() as int, count),
    ensures
        array_rest(b, pos, toks, count) matches Ok((n, p, t)) ==> list_post(
            b,
            pos,
            toks,
            base,
            n,
            p,
            t,
            true,
        ),
    decreases b.len() - pos, 2int,
{
    lemma_parse(b, pos, toks);
    if let Ok((t0, p1, t1)) = parse_spec(b, pos, toks) {
        if t0.data is ArrayClose {
            assert(t1[t1.len() - 1] == t0);
            lemma_wf_seq_agree(toks, t1, base, toks.len() as int, count);
        } else if t0.data is Comma {
            lemma_parse(b, p1, t1);
            if let Ok((t2, p2, tt)) = parse_spec(b, p1, t1) {
                if t2.data is Value {
                    lemma_grows_trans(b, pos, toks, p1, t1, p2, tt);
                    lemma_wf_seq_agree(toks, tt, base, toks.len() as int, count);
                    lemma_wf_seq_append(tt, base, toks.len() as int, count, tt.len() as int);
                    lemma_array_rest(b, p2, tt, count + 1, base);
                    if let Ok((n, p3, t3)) = array_rest(b, p2, tt, count + 1) {
                        lemma_grows_trans(b, pos, toks, p2, tt, p3, t3);
                    }
                }
            }
        }
    }
}

/// Scanning a colon and a value.
pub proof fn lemma_colon_value(b: Seq<u8>, pos: int, toks: Seq<JsonToken>)
    requires
        0 <= pos,
        toks.len() <= pos,
        b.len() <= usize::MAX,
    ensures
        colon_value_spec(b, pos, toks) matches Ok((tok, p, t)) ==> value_post(
            b,
            pos,
            toks,
            tok,
            p,
            t,
        ),
    decreases b.len() - pos, 2int,
{
    lemma_parse(b, pos, toks);
    if let Ok((t0, p1, t1)) = parse_spec(b, pos, toks) {
        if t0.data is Colon {
            lemma_parse(b, p1, t1);
            if let Ok((t2, p2, tt)) = parse_spec(b, p1, t1) {
                if t2.data is Value {
                    lemma_grows_trans(b, pos, toks, p1, t1, p2, tt);
                }
            }
        }
    }
}

/// Scanning an object's entries after its `{`.
pub proof fn lemma_object(b: Seq<u8>, pos: int, toks: Seq<JsonToken>)
    requires
        0 <= pos,
        toks.len() <= pos,
        b.len() <= usize::MAX,
    ensures
        object_spec(b, pos, toks) matches Ok((n, p, t)) ==> list_post(
            b,
            pos,
            toks,
            toks.len() as int,
            2 * n,
            p,
            t,
            false,
        ),
    decreases b.len() - pos, 2int,
{
    lemma_parse(b, pos, toks);
    if let Ok((t0, p, t)) = parse_spec(b, pos, toks) {
        let base = toks.len() as int;
        if t0.data is ObjectClose {
            assert(t[t.len() - 1] == t0);
        } else if t0.data is Value {
            lemma_colon_value(b, p, t);
            if let Ok((_, p2, t2)) = colon_value_spec(b, p, t) {
                lemma_grows_trans(b, pos, toks, p, t, p2, t2);
                lemma_wf_value_agree(t, t2, base, t.len() as int);
                assert(wf_seq(t2, base, base, 0));
                lemma_wf_seq_append(t2, base, base, 0, t.len() as int);
                lemma_wf_seq_append(t2, base, t.len() as int, 1, t2.len() as int);
                lemma_object_rest(b, p2, t2, 1, base);
                if let Ok((n, p3, t3)) = object_rest(b, p2, t2, 1) {
                    lemma_grows_trans(b, pos, toks, p2, t2, p3, t3);
                }
            }
        }
    }
}

/// Scanning the rest of an object after `count` entries.
pub proof fn lemma_object_rest(b: Seq<u8>, pos: int, toks: Seq<JsonToken>, count: nat, base: int)
    requires
        0 <= pos,
        toks.len() <= pos,
        b.len() <= usize::MAX,
        0 <= base <= toks.len(),
        wf_seq(toks, base, toks.len() as int, 2 * count),
    ensures
        object_rest(b, pos, toks, count) matches Ok((n, p, t)) ==> list_post(
            b,
            pos,
            toks,
            base,
            2 * n,
            p,
            t,
            false,
        ),
    decreases b.len() - pos, 2int,
{
    lemma_parse(b, pos, toks);
    if let Ok((t0, p1, t1)) = parse_spec(b, pos, toks) {
        if t0.data is ObjectClose {
            assert(t1[t1.len() - 1] == t0);
            lemma_wf_seq_agree(toks, t1, base, toks.len() as int, 2 * count);
        } else if t0.data is Comma {
            lemma_parse(b, p1, t1);
            if let Ok((t2, p2, t2s)) = parse_spec(b, p1, t1) {
                if t2.data is Value {
                    lemma_grows_trans(b, pos, toks, p1, t1, p2, t2s);
                    lemma_colon_value(b, p2, t2s);
                    if let Ok((_, p3, t3)) = colon_value_spec(b, p2, t2s) {
                        lemma_grows_trans(b, pos, toks, p2, t2s, p3, t3);
                        let m = toks.len() as int;
                        lemma_wf_seq_agree(toks, t3, base, m, 2 * count);
                        lemma_wf_value_agree(t2s, t3, m, t2s.len() as int);
                        lemma_wf_seq_append(t3, base, m, 2 * count, t2s.len() as int);
                        lemma_wf_seq_append(t3, base, t2s.len() as int, 2 * count + 1, t3.len() as int);
                        assert(2 * count + 1 + 1 == 2 * (count + 1));
                        lemma_object_rest(b, p3, t3, count + 1, base);
                        if let Ok((n, p4, t4)) = object_rest(b, p3, t3, count + 1) {
                            lemma_grows_trans(b, pos, toks, p3, t3, p4, t4);
                        }
                    }
                }
            }
        }
    }
}

/// A successful tokenization is a well-formed token array.
pub proof fn lemma_tokenize_ok(b: Seq<u8>)
    requires
        b.len() <= usize::MAX,
    ensures
        tokenize_spec(b) matches Ok(t) ==> doc_ok(b, t),
{
    lemma_parse(b, 0, Seq::empty());
    if let Ok(t) = tokenize_spec(b) {
        assert(forall|k: int| 0 <= k < t.len() ==> span_ok(b, #[trigger] t[k]));
    }
}

/// The index reached from `a` after `k` sibling steps.
pub open spec fn iterate(t: Seq<JsonToken>, a: int, k: nat) -> int
    decreases k,
{
    if k == 0 {
        a
    } else {
        next_sib(t, iterate(t, a, (k - 1) as nat))
    }
}

/// Inside a value, every value token starts a value of its own, which ends
/// within the enclosing one.
pub proof fn lemma_subtree_value(t: Seq<JsonToken>, i: int, j: int, m: int)
    requires
        wf_value(t, i, j),
        i <= m < j,
        t[m].data is Value,
    ensures
        wf_value(t, m, next_sib(t, m)),
        next_sib(t, m) <= j,
    decreases j - i, 0int,
{
    lemma_wf_value_next(t, i, j);
    if m > i {
        match t[i].data {
            JsonTokenData::Value(JsonValue::ArrayOpen(c)) => {
                if let JsonTokenData::ArrayClose(n) = t[c as int].data {
                    lemma_subtree_seq(t, i + 1, c as int, n as nat, m);
                }
            },
            JsonTokenData::Value(JsonValue::ObjectOpen(c)) => {
                if let JsonTokenData::ObjectClose(n) = t[c as int].data {
                    lemma_subtree_seq(t, i + 1, c as int, 2 * n as nat, m);
                }
            },
            _ => {},
        }
    }
}

pub proof fn lemma_subtree_seq(t: Seq<JsonToken>, i: int, j: int, n: nat, m: int)
    requires
        wf_seq(t, i, j, n),
        i <= m < j,
        t[m].data is Value,
    ensures
        wf_value(t, m, next_sib(t, m)),
        next_sib(t, m) <= j,
    decreases j - i, 1int,
{
    let k = next_sib(t, i);
    if m < k {
        lemma_subtree_value(t, i, k, m);
    } else {
        lemma_subtree_seq(t, k, j, (n - 1) as nat, m);
    }
}

/// In a well-formed array, every value token starts a value of its own.
pub proof fn lemma_doc_value(b: Seq<u8>, t: Seq<JsonToken>, m: int)
    requires
        doc_ok(b, t),
        0 <= m < t.len(),
        t[m].data is Value,
    ensures
        wf_value(t, m, next_sib(t, m)),
        m < next_sib(t, m) <= t.len(),
{
    lemma_subtree_value(t, 0, t.len() as int, m);
}

/// Walking `k` siblings into a chain of `n` leaves a chain of `n - k`.
pub proof fn lemma_iterate(t: Seq<JsonToken>, a: int, j: int, n: nat, k: nat)
    requires
        wf_seq(t, a, j, n),
        k <= n,
    ensures
        wf_seq(t, iterate(t, a, k), j, (n - k) as nat),
        a <= iterate(t, a, k),
        k < n ==> iterate(t, a, k) < j,
        k == n ==> iterate(t, a, k) == j,
    decreases k,
{
    if k > 0 {
        let k1 = (k - 1) as nat;
        lemma_iterate(t, a, j, n, k1);
        let x1 = iterate(t, a, k1);
        assert(iterate(t, a, k) == next_sib(t, x1));
        assert((n - k1) as nat > 0);
        assert(wf_seq(t, x1, j, (n - k1) as nat));
        assert(((n - k1) as nat - 1) as nat == (n - k) as nat);
    }
    let x = iterate(t, a, k);
    if k < n {
        assert(wf_seq(t, x, j, (n - k) as nat));
        assert(x < next_sib(t, x) <= j);
    }
}

/// Nesting closure: every open token's recorded close index lies after it and
/// holds a close token of the same kind.
pub proof fn lemma_nesting(b: Seq<u8>, t: Seq<JsonToken>, i: int)
    requires
        doc_ok(b, t),
        0 <= i < t.len(),
    ensures
        t[i].data matches JsonTokenData::Value(JsonValue::ArrayOpen(c)) ==> i < c < t.len()
            && t[c as int].data is ArrayClose,
        t[i].data matches JsonTokenData::Value(JsonValue::ObjectOpen(c)) ==> i < c < t.len()
            && t[c as int].data is ObjectClose,
{
    if t[i].data is Value {
        lemma_doc_value(b, t, i);
    }
}

/// Sibling skip: from an array's first element, as many sibling steps as it
/// has elements reach its close token exactly, and every fewer number of steps
/// stops before it.
pub proof fn lemma_sibling_skip(b: Seq<u8>, t: Seq<JsonToken>, i: int)
    requires
        doc_ok(b, t),
        0 <= i < t.len(),
        t[i].data is Value,
        t[i].data->Value_0 is ArrayOpen,
    ensures
        ({
            let c = t[i].data->Value_0->ArrayOpen_0 as int;
            let n = t[c].data->ArrayClose_0 as nat;
            &&& iterate(t, i + 1, n) == c
            &&& forall|k: nat| k < n ==> i < #[trigger] iterate(t, i + 1, k) < c
        }),
{
    lemma_doc_value(b, t, i);
    let c = t[i].data->Value_0->ArrayOpen_0 as int;
    let n = t[c].data->ArrayClose_0 as nat;
    lemma_iterate(t, i + 1, c, n, n);
    assert forall|k: nat| k < n implies i < #[trigger] iterate(t, i + 1, k) < c by {
        lemma_iterate(t, i + 1, c, n, k);
    }
}

/// Where the source text of the token at `i` ends: after its close token for
/// a container, after the literal for a scalar, after its one byte otherwise.
pub open spec fn token_end(t: Seq<JsonToken>, i: int) -> int {
    let s = t[i].start as int;
    match t[i].data {
        JsonTokenData::Value(JsonValue::ArrayOpen(c)) => t[c as int].start + 1,
        JsonTokenData::Value(JsonValue::ObjectOpen(c)) => t[c as int].start + 1,
        JsonTokenData::Value(JsonValue::Null()) => s + 4,
        JsonTokenData::Value(JsonValue::True()) => s + 4,
        JsonTokenData::Value(JsonValue::False()) => s + 5,
        JsonTokenData::Value(JsonValue::Number(n)) => s + n,
        JsonTokenData::Value(JsonValue::String(n)) => s + n,
        _ => s + 1,
    }
}

/// The bytes between the quotes of a string token.
pub open spec fn string_contents(b: Seq<u8>, tok: JsonToken) -> Option<Seq<u8>> {
    match tok.data {
        JsonTokenData::Value(JsonValue::String(n)) => Some(
            b.subrange(tok.start + 1, tok.start + n - 1),
        ),
        _ => None,
    }
}

/// A token's source text lies in the text and starts and ends with ASCII bytes.
pub proof fn lemma_token_span(b: Seq<u8>, t: Seq<JsonToken>, i: int)
    requires
        doc_ok(b, t),
        0 <= i < t.len(),
    ensures
        0 <= t[i].start < token_end(t, i) <= b.len(),
        b[t[i].start as int] < 0x80,
        b[token_end(t, i) - 1] < 0x80,
        t[i].data matches JsonTokenData::Value(JsonValue::String(n)) ==> b[t[i].start + n - 1]
            == 0x22,
{
    let tok = t[i];
    let s = tok.start as int;
    assert(span_ok(b, tok));
    match tok.data {
        JsonTokenData::Value(JsonValue::ArrayOpen(c)) => {
            lemma_nesting(b, t, i);
            lemma_doc_value(b, t, i);
            assert(span_ok(b, t[c as int]));
        },
        JsonTokenData::Value(JsonValue::ObjectOpen(c)) => {
            lemma_nesting(b, t, i);
            lemma_doc_value(b, t, i);
            assert(span_ok(b, t[c as int]));
        },
        JsonTokenData::Value(JsonValue::Null()) => {
            assert(b[s] == b.subrange(s, s + 4)[0]);
            assert(b[s + 3] == b.subrange(s, s + 4)[3]);
        },
        JsonTokenData::Value(JsonValue::True()) => {
            assert(b[s] == b.subrange(s, s + 4)[0]);
            assert(b[s + 3] == b.subrange(s, s + 4)[3]);
        },
        JsonTokenData::Value(JsonValue::False()) => {
            assert(b[s] == b.subrange(s, s + 5)[0]);
            assert(b[s + 4] == b.subrange(s, s + 5)[4]);
        },
        JsonTokenData::Value(JsonValue::Number(n)) => {
            assert(is_number_byte(b[s]));
            assert(is_number_byte(b[s + n - 1]));
        },
        _ => {},
    }
}

/// The first position at or after `pos` where no white space starts.
pub open spec fn skip_ws(b: Seq<u8>, pos: int) -> int
    decreases b.len() - pos,
{
    if ws_len(b, pos) > 0 {
        skip_ws(b, pos + ws_len(b, pos))
    } else {
        pos
    }
}

/// A value token that is not a container.
pub open spec fn is_scalar(tok: JsonToken) -> bool {
    &&& tok.data is Value
    &&& !(tok.data->Value_0 is ArrayOpen)
    &&& !(tok.data->Value_0 is ObjectOpen)
}

/// Round trip of span: scanning a scalar from `pos` skips the white space up
/// to the token's start and stops exactly at `token_end`, so the token's source
/// text is exactly what the scanner read for it.
pub proof fn lemma_scalar_span(b: Seq<u8>, pos: int, toks: Seq<JsonToken>)
    requires
        0 <= pos,
        toks.len() <= pos,
        b.len() <= usize::MAX,
    ensures
        parse_spec(b, pos, toks) matches Ok((tok, p, t)) ==> (is_scalar(tok) ==> {
            &&& t[toks.len() as int] == tok
            &&& token_end(t, toks.len() as int) == p
            &&& skip_ws(b, pos) == tok.start
        }),
    decreases b.len() - pos,
{
    lemma_parse(b, pos, toks);
    if pos < b.len() {
        let c = b[pos];
        if ws_len(b, pos) > 0 {
            lemma_scalar_span(b, pos + ws_len(b, pos), toks);
        } else if c == 0x6e {
            lemma_expect(b, pos + 1, seq![0x75u8, 0x6c, 0x6c]);
        } else if c == 0x74 {
            lemma_expect(b, pos + 1, seq![0x72u8, 0x75, 0x65]);
        } else if c == 0x66 {
            lemma_expect(b, pos + 1, seq![0x61u8, 0x6c, 0x73, 0x65]);
        } else if is_digit_byte(c) || c == 0x2d {
            lemma_number_end(b, pos);
        } else if c == 0x22 {
            lemma_string_end(b, pos + 1);
        }
    }
}

} // verus!
