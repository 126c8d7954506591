//! Byte-level views of source text: character boundaries, substrings and
//! the character that starts at a byte offset.
use vstd::prelude::*;
use vstd::string::StringSliceAdditionalSpecFns;
use vstd::utf8::*;

verus! {

broadcast use vstd::string::group_string_axioms;

/// The bytes of a string slice, as UTF-8.
pub open spec fn bytes_of(s: &str) -> Seq<u8> {
    s.spec_bytes()
}

/// The character whose encoding starts at byte `i` of `b`.
pub open spec fn char_at(b: Seq<u8>, i: int) -> char {
    if b[i] < 0x80 {
        b[i] as char
    } else {
        decode_utf8(b.subrange(i, b.len() as int))[0]
    }
}

/// In valid UTF-8, the encoding of a character that starts at a boundary
/// ends at a boundary; its length follows from its first byte.
pub proof fn lemma_next_boundary(b: Seq<u8>, i: int)
    requires
        valid_utf8(b),
        0 <= i < b.len(),
        is_char_boundary(b, i),
    ensures
        b[i] <= 0x7f ==> is_char_boundary(b, i + 1),
        0xc0 <= b[i] <= 0xdf ==> is_char_boundary(b, i + 2),
        0xe0 <= b[i] <= 0xef ==> is_char_boundary(b, i + 3),
    decreases b.len(),
{
    reveal_with_fuel(is_char_boundary, 2);
    if i > 0 {
        let rest = pop_first_scalar(b);
        let n = length_of_first_scalar(b);
        assert(rest[i - n] == b[i]);
        lemma_next_boundary(rest, i - n);
    }
}

/// In valid UTF-8, an ASCII byte starts a character, and so does the byte after it.
pub proof fn lemma_ascii_boundary(b: Seq<u8>, i: int)
    requires
        valid_utf8(b),
        0 <= i < b.len(),
        b[i] < 0x80,
    ensures
        is_char_boundary(b, i),
        is_char_boundary(b, i + 1),
{
    is_char_boundary_iff_not_is_continuation_byte(b, i);
    lemma_next_boundary(b, i);
}

/// A position right after an ASCII byte, or the start, is a character boundary.
pub proof fn lemma_after_ascii_boundary(b: Seq<u8>, i: int)
    requires
        valid_utf8(b),
        0 <= i <= b.len(),
        i == 0 || b[i - 1] < 0x80,
    ensures
        is_char_boundary(b, i),
{
    if i == 0 {
        is_char_boundary_start_end_of_seq(b);
    } else {
        lemma_ascii_boundary(b, i - 1);
    }
}

/// The bytes of a string slice form valid UTF-8.
pub proof fn lemma_str_valid(s: &str)
    ensures
        valid_utf8(bytes_of(s)),
{
    encode_utf8_valid_utf8(s@);
}

/// The part of `s` between two character boundaries, as a borrowed slice.
pub fn substr<'a>(s: &'a str, start: usize, end: usize) -> (r: &'a str)
    requires
        start <= end <= bytes_of(s).len(),
        is_char_boundary(bytes_of(s), start as int),
        is_char_boundary(bytes_of(s), end as int),
    ensures
        bytes_of(r) == bytes_of(s).subrange(start as int, end as int),
{
    let ghost b = bytes_of(s);
    proof {
        lemma_str_valid(s);
    }
    let (_, tail) = s.split_at(start);
    let ghost t = bytes_of(tail);
    proof {
        valid_utf8_split(b, start as int);
        assert(t =~= b.subrange(start as int, b.len() as int));
        let k = end - start;
        if k < t.len() {
            is_char_boundary_iff_not_is_continuation_byte(b, end as int);
            is_char_boundary_iff_not_is_continuation_byte(t, k as int);
        } else {
            is_char_boundary_start_end_of_seq(t);
        }
    }
    let (mid, _) = tail.split_at(end - start);
    assert(bytes_of(mid) =~= b.subrange(start as int, end as int));
    mid
}

/// The character whose encoding starts at byte `i` of `s`.
pub fn char_at_exec(s: &str, i: usize) -> (c: char)
    requires
        i < bytes_of(s).len(),
        is_char_boundary(bytes_of(s), i as int),
    ensures
        c == char_at(bytes_of(s), i as int),
{
    let b = s.as_bytes();
    let byte = b[i];
    if byte < 0x80 {
        byte as char
    } else {
        let ghost bs = bytes_of(s);
        proof {
            lemma_str_valid(s);
            is_char_boundary_start_end_of_seq(bs);
        }
        let (_, tail) = s.split_at(i);
        proof {
            assert(bytes_of(tail) =~= bs.subrange(i as int, bs.len() as int));
            encode_utf8_decode_utf8(tail@);
            assert(tail@.len() > 0) by {
                if tail@.len() == 0 {
                    assert(encode_utf8(tail@) =~= Seq::<u8>::empty());
                }
            }
        }
        let mut chars = tail.chars();
        match chars.next() {
            Some(c) => c,
            None => {
                proof {
                    assert(false);
                }
                ' '
            },
        }
    }
}

/// The value of a run of ASCII digits.
pub open spec fn digits_value(d: Seq<u8>) -> int
    decreases d.len(),
{
    if d.len() == 0 {
        0
    } else {
        10 * digits_value(d.drop_last()) + (d.last() - 0x30)
    }
}

/// A decimal integer: an optional `+` or `-`, then one or more ASCII digits.
pub open spec fn decimal_value(s: Seq<u8>) -> Option<int> {
    let signed = s.len() > 0 && (s[0] == 0x2b || s[0] == 0x2d);
    let d = if signed {
        s.drop_first()
    } else {
        s
    };
    if d.len() > 0 && forall|k: int| 0 <= k < d.len() ==> 0x30 <= #[trigger] d[k] <= 0x39 {
        Some(
            if signed && s[0] == 0x2d {
                -digits_value(d)
            } else {
                digits_value(d)
            },
        )
    } else {
        None
    }
}

/// A decimal integer that fits in `i64`.
pub open spec fn decimal_i64(s: Seq<u8>) -> Option<i64> {
    match decimal_value(s) {
        Some(v) => if i64::MIN <= v <= i64::MAX {
            Some(v as i64)
        } else {
            None
        },
        None => None,
    }
}

/// Relies on `str::parse::<i64>` (`i64::from_str`), which accepts an optional
/// `+` or `-` followed by one or more ASCII digits whose value fits in `i64`,
/// and rejects anything else, white space included.
#[verifier::external_body]
pub(crate) fn parse_i64(s: &str) -> (r: Option<i64>)
    ensures
        r == decimal_i64(bytes_of(s)),
{
    s.parse::<i64>().ok()
}

/// Whether two strings hold the same bytes.
pub fn same_bytes(a: &str, b: &str) -> (r: bool)
    ensures
        r == (bytes_of(a) == bytes_of(b)),
{
    let x = a.as_bytes();
    let y = b.as_bytes();
    if x.len() != y.len() {
        return false;
    }
    let mut i: usize = 0;
    while i < x.len()
        invariant
            x@ == bytes_of(a),
            y@ == bytes_of(b),
            x@.len() == y@.len(),
            i <= x@.len(),
            forall|k: int| 0 <= k < i ==> x@[k] == y@[k],
        decreases x@.len() - i,
    {
        if x[i] != y[i] {
            return false;
        }
        i = i + 1;
    }
    assert(x@ =~= y@);
    true
}

} // verus!
