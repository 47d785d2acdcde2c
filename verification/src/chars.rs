//! Byte-level access to the characters of UTF-8 text.
//!
//! All offsets in this crate are byte offsets into the UTF-8 encoding of a
//! string, so this module provides the few primitives the rest of the parser
//! needs: reading the character that starts or ends at a byte offset, the
//! width of a character's encoding, and lemmas for carrying character
//! boundaries through slicing and concatenation.

use vstd::prelude::*;
use vstd::std_specs::iter::IteratorSpec;
use vstd::string::StringSliceAdditionalSpecFns;
use vstd::utf8::*;

verus! {

broadcast use
    vstd::string::group_string_axioms,
    vstd::utf8::encode_utf8_valid_utf8,
    vstd::utf8::is_char_boundary_start_end_of_seq,
;

/// Whether a character counts as whitespace.
pub uninterp spec fn unicode_whitespace(c: char) -> bool;

/// Relies on char::is_whitespace: true exactly for characters with the
/// Unicode White_Space property; the result depends on the character alone.
#[verifier::external_body]
pub(crate) fn char_is_whitespace(c: char) -> (r: bool)
    ensures
        r == unicode_whitespace(c),
{
    c.is_whitespace()
}

/// Whether a character counts as alphanumeric.
pub uninterp spec fn unicode_alphanumeric(c: char) -> bool;

/// Relies on char::is_alphanumeric: true exactly for characters in the
/// Unicode Alphabetic or Number categories; the result depends on the
/// character alone.
#[verifier::external_body]
pub(crate) fn char_is_alphanumeric(c: char) -> (r: bool)
    ensures
        r == unicode_alphanumeric(c),
{
    c.is_alphanumeric()
}

/// The byte width of a character's UTF-8 encoding.
pub open spec fn char_width(c: char) -> int {
    encode_scalar(c as u32).len() as int
}

/// Computes the byte width of a character's UTF-8 encoding.
pub fn char_utf8_width(c: char) -> (w: usize)
    ensures
        w == char_width(c),
        1 <= w <= 4,
{
    proof {
        char_is_scalar(c);
    }
    let u = c as u32;
    if u < 0x80 {
        1
    } else if u < 0x800 {
        2
    } else if u < 0x10000 {
        3
    } else {
        4
    }
}

/// The character whose encoding starts at byte offset `i` of `b`.
pub open spec fn char_at_spec(b: Seq<u8>, i: int) -> char
    recommends
        valid_utf8(b),
        is_char_boundary(b, i),
        0 <= i < b.len(),
{
    decode_first_scalar(b.subrange(i, b.len() as int)) as char
}

/// In valid UTF-8, a boundary of a suffix that starts at a boundary is a
/// boundary of the whole, and conversely.
pub proof fn lemma_boundary_in_suffix(b: Seq<u8>, i: int, j: int)
    requires
        valid_utf8(b),
        is_char_boundary(b, i),
        0 <= j <= b.len() - i,
    ensures
        is_char_boundary(b, i + j) <==> is_char_boundary(b.subrange(i, b.len() as int), j),
{
    let suffix = b.subrange(i, b.len() as int);
    valid_utf8_split(b, i);
    if i + j == b.len() {
        assert(is_char_boundary(b, i + j));
        assert(is_char_boundary(suffix, j));
    } else {
        is_char_boundary_iff_not_is_continuation_byte(b, i + j);
        is_char_boundary_iff_not_is_continuation_byte(suffix, j);
        assert(suffix[j] == b[i + j]);
    }
}

/// Character boundaries of a prefix that ends at a boundary are boundaries of
/// the whole, and conversely.
pub proof fn lemma_boundary_in_prefix(b: Seq<u8>, i: int, j: int)
    requires
        valid_utf8(b),
        is_char_boundary(b, i),
        0 <= j <= i,
    ensures
        is_char_boundary(b, j) <==> is_char_boundary(b.subrange(0, i), j),
{
    let prefix = b.subrange(0, i);
    valid_utf8_split(b, i);
    if j == i {
        assert(is_char_boundary(b, j));
        assert(is_char_boundary(prefix, j));
    } else {
        is_char_boundary_iff_not_is_continuation_byte(b, j);
        is_char_boundary_iff_not_is_continuation_byte(prefix, j);
        assert(prefix[j] == b[j]);
    }
}

/// Appending valid UTF-8 keeps every old character boundary a boundary.
pub proof fn lemma_boundary_extend(b: Seq<u8>, c: Seq<u8>, i: int)
    requires
        valid_utf8(b),
        valid_utf8(c),
        is_char_boundary(b, i),
        0 <= i <= b.len(),
    ensures
        valid_utf8(b + c),
        is_char_boundary(b + c, i),
{
    valid_utf8_concat(b, c);
    if i < b.len() {
        is_char_boundary_iff_not_is_continuation_byte(b, i);
        is_char_boundary_iff_not_is_continuation_byte(b + c, i);
        assert((b + c)[i] == b[i]);
    } else if c.len() == 0 {
        assert(b + c =~= b);
    } else {
        is_char_boundary_iff_not_is_continuation_byte(b + c, i);
        assert((b + c)[i] == c[0]);
        is_char_boundary_iff_not_is_continuation_byte(c, 0);
    }
}

/// The characters encoded by the byte range `[lo, hi)` of `b`.
pub open spec fn chars_of(b: Seq<u8>, lo: int, hi: int) -> Seq<char>
    recommends
        valid_utf8(b),
        0 <= lo <= hi <= b.len(),
        is_char_boundary(b, lo),
        is_char_boundary(b, hi),
{
    decode_utf8(b.subrange(lo, hi))
}

/// UTF-8 encoding distributes over concatenation of character sequences.
pub proof fn lemma_encode_concat(a: Seq<char>, c: Seq<char>)
    ensures
        encode_utf8(a + c) == encode_utf8(a) + encode_utf8(c),
    decreases a.len(),
{
    if a.len() == 0 {
        assert(a + c =~= c);
        assert(encode_utf8(a) =~= Seq::<u8>::empty());
        assert(encode_utf8(a) + encode_utf8(c) =~= encode_utf8(c));
    } else {
        let ac = a + c;
        assert(ac.len() > 0);
        assert(ac[0] == a[0]);
        assert(ac.drop_first() =~= a.drop_first() + c);
        lemma_encode_concat(a.drop_first(), c);
        assert(encode_utf8(ac) == encode_scalar(ac[0] as u32) + encode_utf8(ac.drop_first()));
        assert(encode_scalar(a[0] as u32) + (encode_utf8(a.drop_first()) + encode_utf8(c))
            =~= (encode_scalar(a[0] as u32) + encode_utf8(a.drop_first())) + encode_utf8(c));
    }
}

/// The index of the last newline byte of `b`, if any.
pub open spec fn last_newline(b: Seq<u8>) -> Option<int>
    decreases b.len(),
{
    if b.len() == 0 {
        None
    } else if b.last() == 10 {
        Some(b.len() - 1)
    } else {
        last_newline(b.drop_last())
    }
}

/// The byte offset where the current logical line starts: just after the
/// last newline, or the start of the text.
pub open spec fn line_start_of(b: Seq<u8>) -> int {
    match last_newline(b) {
        Some(i) => i + 1,
        None => 0,
    }
}

/// What the last-newline search returns.
pub proof fn lemma_last_newline(b: Seq<u8>)
    ensures
        match last_newline(b) {
            Some(i) => 0 <= i < b.len() && b[i] == 10 && forall|k: int| i < k < b.len() ==> b[k]
                != 10,
            None => forall|k: int| 0 <= k < b.len() ==> b[k] != 10,
        },
    decreases b.len(),
{
    if b.len() > 0 && b.last() != 10 {
        lemma_last_newline(b.drop_last());
        match last_newline(b.drop_last()) {
            Some(i) => {
                assert(b.drop_last()[i] == b[i]);
                assert forall|k: int| i < k < b.len() implies b[k] != 10 by {
                    if k < b.len() - 1 {
                        assert(b.drop_last()[k] == b[k] && b.drop_last()[k] != 10);
                    }
                }
            },
            None => {
                assert forall|k: int| 0 <= k < b.len() implies b[k] != 10 by {
                    if k < b.len() - 1 {
                        assert(b.drop_last()[k] == b[k] && b.drop_last()[k] != 10);
                    }
                }
            },
        }
    }
}

/// How the last newline moves when text is appended.
pub proof fn lemma_last_newline_concat(b: Seq<u8>, c: Seq<u8>)
    ensures
        last_newline(b + c) == match last_newline(c) {
            Some(j) => Some(b.len() + j),
            None => last_newline(b),
        },
    decreases c.len(),
{
    if c.len() == 0 {
        assert(b + c =~= b);
    } else {
        assert((b + c).last() == c.last());
        if c.last() != 10 {
            assert((b + c).drop_last() =~= b + c.drop_last());
            lemma_last_newline_concat(b, c.drop_last());
        }
    }
}

/// The line start of a text is a character boundary at or before its end.
pub proof fn lemma_line_start_ok(b: Seq<u8>)
    requires
        valid_utf8(b),
    ensures
        0 <= line_start_of(b) <= b.len(),
        is_char_boundary(b, line_start_of(b)),
{
    lemma_last_newline(b);
    match last_newline(b) {
        Some(i) => {
            lemma_boundary_after_ascii(b, i + 1);
        },
        None => {},
    }
}

/// Encoding the characters of a byte range gives those bytes back.
pub proof fn lemma_chars_of_bytes(b: Seq<u8>, lo: int, hi: int)
    requires
        valid_utf8(b),
        0 <= lo <= hi <= b.len(),
        is_char_boundary(b, lo),
        is_char_boundary(b, hi),
    ensures
        encode_utf8(chars_of(b, lo, hi)) == b.subrange(lo, hi),
{
    valid_utf8_split(b, lo);
    let suffix = b.subrange(lo, b.len() as int);
    lemma_boundary_in_suffix(b, lo, hi - lo);
    valid_utf8_split(suffix, hi - lo);
    assert(suffix.subrange(0, hi - lo) =~= b.subrange(lo, hi));
    decode_utf8_encode_utf8(b.subrange(lo, hi));
}

/// The position after an ASCII byte is always a character boundary.
pub proof fn lemma_boundary_after_ascii(b: Seq<u8>, k: int)
    requires
        valid_utf8(b),
        0 < k <= b.len(),
        b[k - 1] < 0x80,
    ensures
        is_char_boundary(b, k),
{
    lemma_ascii_is_boundary(b, k - 1);
    valid_utf8_split(b, k - 1);
    let suffix = b.subrange(k - 1, b.len() as int);
    assert(suffix[0] == b[k - 1]);
    assert(is_leading_byte_width_1(suffix[0]));
    assert(length_of_first_scalar(suffix) == 1);
    assert(is_char_boundary(suffix, 1)) by {
        reveal_with_fuel(is_char_boundary, 3);
    }
    lemma_boundary_in_suffix(b, k - 1, 1);
}

/// A byte below 0x80 in valid UTF-8 always sits on a character boundary.
pub proof fn lemma_ascii_is_boundary(b: Seq<u8>, i: int)
    requires
        valid_utf8(b),
        0 <= i < b.len(),
        b[i] < 0x80,
    ensures
        is_char_boundary(b, i),
{
    is_char_boundary_iff_not_is_continuation_byte(b, i);
}

/// Reads the character whose encoding starts at byte offset `i` of `s`,
/// together with the width of its encoding.
pub fn char_at(s: &str, i: usize) -> (r: (char, usize))
    requires
        i < s.spec_bytes().len(),
        is_char_boundary(s.spec_bytes(), i as int),
    ensures
        r.0 == char_at_spec(s.spec_bytes(), i as int),
        r.1 == char_width(r.0),
        i + r.1 <= s.spec_bytes().len(),
        is_char_boundary(s.spec_bytes(), i + r.1),
        s.spec_bytes().subrange(i as int, i + r.1) == encode_scalar(r.0 as u32),
        forall|j: int| i < j < i + r.1 ==> !is_char_boundary(s.spec_bytes(), j),
{
    let ghost b = s.spec_bytes();
    let ghost suffix = b.subrange(i as int, b.len() as int);
    proof {
        valid_utf8_split(b, i as int);
        decode_utf8_encode_utf8(suffix);
        if decode_utf8(suffix).len() == 0 {
            assert(suffix =~= encode_utf8(decode_utf8(suffix)));
            assert(suffix.len() == 0);
        }
    }
    let (_, tail) = s.split_at(i);
    proof {
        assert(tail.spec_bytes() =~= suffix);
        assert(tail@ =~= decode_utf8(suffix)) by {
            encode_utf8_decode_utf8(tail@);
            assert(decode_utf8(encode_utf8(tail@)) == tail@);
        }
    }
    let mut it = tail.chars();
    let copt = it.next();
    let c = match copt {
        Some(c) => c,
        None => {
            proof {
                assert(false);
            }
            ' '
        },
    };
    let w = char_utf8_width(c);
    proof {
        assert(c == decode_utf8(suffix)[0]);
        assert(c == decode_first_scalar(suffix) as char);
        decode_utf8_first_scalar(suffix);
        assert(encode_scalar(c as u32) == take_first_scalar(suffix));
        assert(w == length_of_first_scalar(suffix));
        assert(b.subrange(i as int, i + w) =~= suffix.subrange(0, w as int));
        assert(suffix.subrange(0, w as int) =~= take_first_scalar(suffix));
        assert(is_char_boundary(suffix, w as int)) by {
            reveal_with_fuel(is_char_boundary, 3);
        }
        lemma_boundary_in_suffix(b, i as int, w as int);
        assert forall|j: int| i < j < i + w implies !is_char_boundary(b, j) by {
            assert(!is_char_boundary(suffix, j - i)) by {
                reveal_with_fuel(is_char_boundary, 3);
            }
            lemma_boundary_in_suffix(b, i as int, j - i);
        }
    }
    (c, w)
}

/// ASCII case folding on a Unicode scalar: the upper-case letters fold onto
/// the lower-case ones and every other scalar stays itself.
pub open spec fn lower_scalar(u: u32) -> u32 {
    if 65 <= u <= 90 {
        (u + 32) as u32
    } else {
        u
    }
}

/// Character sequences equal up to ASCII case.
pub open spec fn chars_eq_ci(a: Seq<char>, b: Seq<char>) -> bool {
    a.len() == b.len() && forall|k: int|
        0 <= k < a.len() ==> lower_scalar(#[trigger] a[k] as u32) == lower_scalar(b[k] as u32)
}

/// Compares two strings, folding ASCII case when `fold` is set.
pub fn str_eq_fold(a: &str, b: &str, fold: bool) -> (r: bool)
    ensures
        fold ==> r == chars_eq_ci(a@, b@),
        !fold ==> r == (a@ == b@),
{
    let mut ia = a.chars();
    let mut ib = b.chars();
    let ghost mut i: int = 0;
    loop
        invariant
            0 <= i <= a@.len(),
            i <= b@.len(),
            ia.remaining() == a@.skip(i),
            ib.remaining() == b@.skip(i),
            forall|k: int| 0 <= k < i ==> #[trigger] a@[k] == b@[k] || fold,
            forall|k: int|
                0 <= k < i ==> lower_scalar(#[trigger] a@[k] as u32) == lower_scalar(b@[k] as u32),
        decreases a@.len() - i,
    {
        let na = ia.next();
        let nb = ib.next();
        proof {
            assert(a@.skip(i).len() == a@.len() - i);
            assert(b@.skip(i).len() == b@.len() - i);
        }
        match (na, nb) {
            (None, None) => {
                proof {
                    assert(a@.len() == i && b@.len() == i);
                    if !fold {
                        assert(a@ =~= b@);
                    }
                }
                return true;
            },
            (Some(ca), Some(cb)) => {
                proof {
                    assert(ca == a@.skip(i)[0] && ca == a@[i]);
                    assert(cb == b@.skip(i)[0] && cb == b@[i]);
                }
                let xa = ca as u32;
                let xb = cb as u32;
                let fa = if fold && 65 <= xa && xa <= 90 {
                    xa + 32
                } else {
                    xa
                };
                let fb = if fold && 65 <= xb && xb <= 90 {
                    xb + 32
                } else {
                    xb
                };
                if fa != fb {
                    proof {
                        if !fold {
                            vstd::utf8::char_u32_cast(ca, xa);
                            vstd::utf8::char_u32_cast(cb, xb);
                            assert(a@[i] != b@[i]);
                        }
                    }
                    return false;
                }
                proof {
                    if !fold {
                        vstd::utf8::char_u32_cast(ca, xa);
                        vstd::utf8::char_u32_cast(cb, xb);
                        assert(a@[i] == b@[i]);
                    }
                    assert(a@.skip(i).drop_first() =~= a@.skip(i + 1));
                    assert(b@.skip(i).drop_first() =~= b@.skip(i + 1));
                    i = i + 1;
                }
            },
            _ => {
                proof {
                    assert(a@.len() != b@.len());
                }
                return false;
            },
        }
    }
}

/// Compares two strings for character-for-character equality.
pub fn str_eq(a: &str, b: &str) -> (r: bool)
    ensures
        r == (a@ == b@),
{
    str_eq_fold(a, b, false)
}

/// Borrows the substring of `s` between byte offsets `from` and `to`.
pub fn str_slice<'a>(s: &'a str, from: usize, to: usize) -> (r: &'a str)
    requires
        from <= to <= s.spec_bytes().len(),
        is_char_boundary(s.spec_bytes(), from as int),
        is_char_boundary(s.spec_bytes(), to as int),
    ensures
        r.spec_bytes() == s.spec_bytes().subrange(from as int, to as int),
        r@ == decode_utf8(s.spec_bytes().subrange(from as int, to as int)),
{
    let ghost b = s.spec_bytes();
    let (_, t) = s.split_at(from);
    proof {
        lemma_boundary_in_suffix(b, from as int, (to - from) as int);
        valid_utf8_split(b, from as int);
    }
    let (m, _) = t.split_at(to - from);
    proof {
        assert(m.spec_bytes() =~= b.subrange(from as int, to as int));
        encode_utf8_decode_utf8(m@);
        valid_utf8_split(t.spec_bytes(), (to - from) as int);
        assert(decode_utf8(m.spec_bytes()) == m@);
    }
    m
}

} // verus!
