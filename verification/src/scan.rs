//! Low-level scans over the UTF-8 bytes of the input: quote-aware search for
//! `>`, name runs, whitespace and punctuation trimming, and the CDATA
//! delimiters. Each scan has a spec-level definition and an executable
//! counterpart proved equal to it.

use vstd::prelude::*;
use vstd::string::StringSliceAdditionalSpecFns;
use vstd::utf8::*;
use crate::chars::char_at;
use crate::chars::char_at_spec;
use crate::chars::char_is_alphanumeric;
use crate::chars::char_is_whitespace;
use crate::chars::char_width;
use crate::chars::unicode_alphanumeric;
use crate::chars::unicode_whitespace;

verus! {

broadcast use
    vstd::string::group_string_axioms,
    vstd::utf8::encode_utf8_valid_utf8,
    vstd::utf8::is_char_boundary_start_end_of_seq,
;

pub const LT: u8 = 60;

pub const GT: u8 = 62;

pub const SLASH: u8 = 47;

pub const EQ_SIGN: u8 = 61;

pub const SQUOTE: u8 = 39;

pub const DQUOTE: u8 = 34;

pub const NEWLINE: u8 = 10;

pub const BANG: u8 = 33;

pub const LBRACKET: u8 = 91;

pub const RBRACKET: u8 = 93;

/// First ASCII-alphabetic byte class: tag and attribute names start with one.
pub open spec fn is_name_start_byte(c: u8) -> bool {
    (65 <= c <= 90) || (97 <= c <= 122)
}

/// Bytes that may continue a tag or attribute name: ASCII alphanumerics and
/// `_ - : .`.
pub open spec fn is_name_byte(c: u8) -> bool {
    is_name_start_byte(c) || (48 <= c <= 57) || c == 95 || c == 45 || c == 58 || c == 46
}

/// Checks whether a byte may start a name.
pub fn name_start_byte(c: u8) -> (r: bool)
    ensures
        r == is_name_start_byte(c),
{
    (65 <= c && c <= 90) || (97 <= c && c <= 122)
}

/// Checks whether a byte may continue a name.
pub fn name_byte(c: u8) -> (r: bool)
    ensures
        r == is_name_byte(c),
{
    name_start_byte(c) || (48 <= c && c <= 57) || c == 95 || c == 45 || c == 58 || c == 46
}

/// The punctuation characters trimmed from recovered spans.
pub open spec fn is_trim_punct(c: char) -> bool {
    c == ',' || c == '.' || c == ';' || c == ':' || c == '!' || c == '?' || c == '(' || c == ')'
}

/// Characters removed by trimming: whitespace always, and when `punct` is
/// set also the trim punctuation set.
pub open spec fn is_cut_char(c: char, punct: bool) -> bool {
    unicode_whitespace(c) || (punct && is_trim_punct(c))
}

/// Checks whether a character is removed by trimming.
pub fn cut_char(c: char, punct: bool) -> (r: bool)
    ensures
        r == is_cut_char(c, punct),
{
    if char_is_whitespace(c) {
        true
    } else if punct {
        c == ',' || c == '.' || c == ';' || c == ':' || c == '!' || c == '?' || c == '(' || c == ')'
    } else {
        false
    }
}

/// Offset of the first `>` at or after `i`. The tokenizer stops on the
/// first `>` it meets, whatever quoting surrounds it: a broken quote must
/// not swallow the rest of the document.
pub open spec fn scan_gt(b: Seq<u8>, i: int) -> Option<int>
    decreases b.len() - i,
    when 0 <= i <= b.len()
{
    if i >= b.len() {
        None
    } else if b[i] == GT {
        Some(i)
    } else {
        scan_gt(b, i + 1)
    }
}

/// Finds the first `>` at or after `i`.
pub fn find_gt(s: &str, i: usize) -> (r: Option<usize>)
    requires
        i <= s.spec_bytes().len(),
    ensures
        match r {
            Some(g) => scan_gt(s.spec_bytes(), i as int) == Some(g as int) && i <= g
                < s.spec_bytes().len() && s.spec_bytes()[g as int] == GT,
            None => scan_gt(s.spec_bytes(), i as int) is None,
        },
{
    let ghost b = s.spec_bytes();
    let bs = s.as_bytes();
    let n = bs.len();
    let mut j: usize = i;
    while j < n
        invariant
            i <= j <= n,
            scan_gt(b, i as int) == scan_gt(b, j as int),
        decreases n - j,
    {
        if bs[j] == GT {
            return Some(j);
        }
        j = j + 1;
    }
    None
}

/// End of the run of name bytes starting at `i`, capped at `end`.
pub open spec fn name_end_from(b: Seq<u8>, i: int, end: int) -> int
    decreases end - i,
    when 0 <= i <= end <= b.len()
{
    if i >= end {
        i
    } else if is_name_byte(b[i]) {
        name_end_from(b, i + 1, end)
    } else {
        i
    }
}

/// Facts that hold of every name run: it stays within its bounds and covers
/// name bytes exactly.
pub proof fn lemma_name_end_from(b: Seq<u8>, i: int, end: int)
    requires
        0 <= i <= end <= b.len(),
    ensures
        i <= name_end_from(b, i, end) <= end,
        forall|k: int| i <= k < name_end_from(b, i, end) ==> is_name_byte(b[k]),
        name_end_from(b, i, end) < end ==> !is_name_byte(b[name_end_from(b, i, end)]),
    decreases end - i,
{
    if i < end && is_name_byte(b[i]) {
        lemma_name_end_from(b, i + 1, end);
    }
}

/// Finds the end of the name run starting at `i`, capped at `end`.
pub fn name_run_end(s: &str, i: usize, end: usize) -> (r: usize)
    requires
        i <= end <= s.spec_bytes().len(),
    ensures
        r == name_end_from(s.spec_bytes(), i as int, end as int),
{
    let ghost b = s.spec_bytes();
    let bs = s.as_bytes();
    let mut j: usize = i;
    while j < end && name_byte(bs[j])
        invariant
            i <= j <= end,
            name_end_from(b, i as int, end as int) == name_end_from(b, j as int, end as int),
        decreases end - j,
    {
        j = j + 1;
    }
    j
}

/// First position at or after `i` (stepping by whole characters) whose
/// character is not removed by trimming, capped at `end`.
pub open spec fn skip_cut_fwd(b: Seq<u8>, i: int, end: int, punct: bool) -> int
    decreases end - i,
    when 0 <= i <= end
{
    if i >= end {
        end
    } else {
        let c = char_at_spec(b, i);
        if is_cut_char(c, punct) {
            if i + char_width(c) <= end {
                skip_cut_fwd(b, i + char_width(c), end, punct)
            } else {
                end
            }
        } else {
            i
        }
    }
}

/// Position after the last character in `[i, end)` that is not removed by
/// trimming, or `i` when every character there is.
pub open spec fn cut_end_pos(b: Seq<u8>, i: int, end: int, punct: bool) -> int
    decreases end - i,
    when 0 <= i <= end
{
    if i >= end {
        i
    } else {
        let c = char_at_spec(b, i);
        let w = if i + char_width(c) <= end {
            char_width(c)
        } else {
            end - i
        };
        let rest = cut_end_pos(b, i + w, end, punct);
        if rest > i + w {
            rest
        } else if !is_cut_char(c, punct) {
            i + w
        } else {
            i
        }
    }
}

/// A forward trim never leaves its bounds.
pub proof fn lemma_skip_cut_bounds(b: Seq<u8>, i: int, end: int, punct: bool)
    requires
        0 <= i <= end,
    ensures
        i <= skip_cut_fwd(b, i, end, punct) <= end,
    decreases end - i,
{
    if i < end {
        let c = char_at_spec(b, i);
        if is_cut_char(c, punct) && i + char_width(c) <= end {
            lemma_skip_cut_bounds(b, i + char_width(c), end, punct);
        }
    }
}

/// An unquoted value scan never leaves its bounds.
pub proof fn lemma_value_stop_bounds(b: Seq<u8>, i: int, end: int)
    requires
        0 <= i <= end,
    ensures
        i <= value_stop(b, i, end) <= end,
    decreases end - i,
{
    if i < end {
        let c = char_at_spec(b, i);
        if !(unicode_whitespace(c) || b[i] == SLASH || b[i] == GT) && i + char_width(c) <= end {
            lemma_value_stop_bounds(b, i + char_width(c), end);
        }
    }
}

/// Walks over leading trimmed characters.
pub fn skip_cut(s: &str, i: usize, end: usize, punct: bool) -> (r: usize)
    requires
        i <= end <= s.spec_bytes().len(),
        is_char_boundary(s.spec_bytes(), i as int),
        is_char_boundary(s.spec_bytes(), end as int),
    ensures
        r == skip_cut_fwd(s.spec_bytes(), i as int, end as int, punct),
        i <= r <= end,
        is_char_boundary(s.spec_bytes(), r as int),
{
    let ghost b = s.spec_bytes();
    let mut j: usize = i;
    loop
        invariant
            i <= j <= end,
            is_char_boundary(b, j as int),
            skip_cut_fwd(b, i as int, end as int, punct) == skip_cut_fwd(b, j as int, end as int, punct),
        decreases end - j,
    {
        if j >= end {
            return j;
        }
        let (c, w) = char_at(s, j);
        if !cut_char(c, punct) {
            return j;
        }
        if end - j < w {
            proof {
                crate::chars::lemma_boundary_in_prefix(b, j + w, end as int);
                assert(false);
            }
        }
        j = j + w;
    }
}

/// First position at or after `i` where an unquoted attribute value stops: a
/// whitespace character, `/`, or `>`; capped at `end`.
pub open spec fn value_stop(b: Seq<u8>, i: int, end: int) -> int
    decreases end - i,
    when 0 <= i <= end
{
    if i >= end {
        end
    } else {
        let c = char_at_spec(b, i);
        if unicode_whitespace(c) || b[i] == SLASH || b[i] == GT {
            i
        } else if i + char_width(c) <= end {
            value_stop(b, i + char_width(c), end)
        } else {
            end
        }
    }
}

/// Finds where an unquoted attribute value stops.
pub fn value_stop_at(s: &str, i: usize, end: usize) -> (r: usize)
    requires
        i <= end <= s.spec_bytes().len(),
        is_char_boundary(s.spec_bytes(), i as int),
        is_char_boundary(s.spec_bytes(), end as int),
    ensures
        r == value_stop(s.spec_bytes(), i as int, end as int),
        i <= r <= end,
        is_char_boundary(s.spec_bytes(), r as int),
{
    let ghost b = s.spec_bytes();
    let bs = s.as_bytes();
    let mut j: usize = i;
    loop
        invariant
            i <= j <= end,
            is_char_boundary(b, j as int),
            value_stop(b, i as int, end as int) == value_stop(b, j as int, end as int),
        decreases end - j,
    {
        if j >= end {
            return j;
        }
        let (c, w) = char_at(s, j);
        if char_is_whitespace(c) || bs[j] == SLASH || bs[j] == GT {
            return j;
        }
        if end - j < w {
            proof {
                assert(!is_char_boundary(b, end as int));
                assert(false);
            }
        }
        j = j + w;
    }
}

/// First occurrence of the byte `t` in `[i, end)`.
pub open spec fn find_byte_spec(b: Seq<u8>, i: int, end: int, t: u8) -> Option<int>
    decreases end - i,
    when 0 <= i <= end <= b.len()
{
    if i >= end {
        None
    } else if b[i] == t {
        Some(i)
    } else {
        find_byte_spec(b, i + 1, end, t)
    }
}

/// What a byte search returns: the first hit, or a miss everywhere.
pub proof fn lemma_find_byte(b: Seq<u8>, i: int, end: int, t: u8)
    requires
        0 <= i <= end <= b.len(),
    ensures
        match find_byte_spec(b, i, end, t) {
            Some(j) => i <= j < end && b[j] == t,
            None => forall|k: int| i <= k < end ==> b[k] != t,
        },
    decreases end - i,
{
    if i < end && b[i] != t {
        lemma_find_byte(b, i + 1, end, t);
    }
}

/// Finds the first occurrence of the byte `t` in `[i, end)`.
pub fn find_byte(s: &str, i: usize, end: usize, t: u8) -> (r: Option<usize>)
    requires
        i <= end <= s.spec_bytes().len(),
    ensures
        match r {
            Some(j) => find_byte_spec(s.spec_bytes(), i as int, end as int, t) == Some(j as int),
            None => find_byte_spec(s.spec_bytes(), i as int, end as int, t) is None,
        },
{
    let ghost b = s.spec_bytes();
    let bs = s.as_bytes();
    let mut j: usize = i;
    while j < end
        invariant
            i <= j <= end,
            find_byte_spec(b, i as int, end as int, t) == find_byte_spec(b, j as int, end as int, t),
        decreases end - j,
    {
        if bs[j] == t {
            return Some(j);
        }
        j = j + 1;
    }
    None
}

/// Whether the CDATA opener `<![CDATA[` starts at offset `i`.
pub open spec fn is_cdata_open_at(b: Seq<u8>, i: int) -> bool {
    &&& 0 <= i
    &&& i + 9 <= b.len()
    &&& b[i] == LT
    &&& b[i + 1] == BANG
    &&& b[i + 2] == LBRACKET
    &&& b[i + 3] == 67
    &&& b[i + 4] == 68
    &&& b[i + 5] == 65
    &&& b[i + 6] == 84
    &&& b[i + 7] == 65
    &&& b[i + 8] == LBRACKET
}

/// Checks for the CDATA opener at offset `i`.
pub fn cdata_open_at(s: &str, i: usize) -> (r: bool)
    requires
        i <= s.spec_bytes().len(),
    ensures
        r == is_cdata_open_at(s.spec_bytes(), i as int),
{
    let bs = s.as_bytes();
    if bs.len() - i < 9 {
        return false;
    }
    bs[i] == LT && bs[i + 1] == BANG && bs[i + 2] == LBRACKET && bs[i + 3] == 67 && bs[i + 4] == 68
        && bs[i + 5] == 65 && bs[i + 6] == 84 && bs[i + 7] == 65 && bs[i + 8] == LBRACKET
}

/// Whether the CDATA closer `]]>` starts at offset `i`.
pub open spec fn is_cdata_close_at(b: Seq<u8>, i: int) -> bool {
    &&& 0 <= i
    &&& i + 3 <= b.len()
    &&& b[i] == RBRACKET
    &&& b[i + 1] == RBRACKET
    &&& b[i + 2] == GT
}

/// Offset of the first CDATA closer at or after `i`.
pub open spec fn cdata_close_from(b: Seq<u8>, i: int) -> Option<int>
    decreases b.len() - i,
    when 0 <= i <= b.len()
{
    if i + 3 > b.len() {
        None
    } else if is_cdata_close_at(b, i) {
        Some(i)
    } else {
        cdata_close_from(b, i + 1)
    }
}

/// What the CDATA closer search returns.
pub proof fn lemma_cdata_close_from(b: Seq<u8>, i: int)
    requires
        0 <= i <= b.len(),
    ensures
        match cdata_close_from(b, i) {
            Some(j) => i <= j && j + 3 <= b.len() && is_cdata_close_at(b, j),
            None => forall|k: int| i <= k ==> !is_cdata_close_at(b, k),
        },
    decreases b.len() - i,
{
    if i + 3 <= b.len() && !is_cdata_close_at(b, i) {
        lemma_cdata_close_from(b, i + 1);
    }
}

/// Finds the first CDATA closer at or after `i`.
pub fn find_cdata_close(s: &str, i: usize) -> (r: Option<usize>)
    requires
        i <= s.spec_bytes().len(),
    ensures
        match r {
            Some(j) => cdata_close_from(s.spec_bytes(), i as int) == Some(j as int),
            None => cdata_close_from(s.spec_bytes(), i as int) is None,
        },
{
    let ghost b = s.spec_bytes();
    let bs = s.as_bytes();
    let n = bs.len();
    let mut j: usize = i;
    while n - j >= 3
        invariant
            i <= j <= n,
            cdata_close_from(b, i as int) == cdata_close_from(b, j as int),
        decreases n - j,
    {
        if bs[j] == RBRACKET && bs[j + 1] == RBRACKET && bs[j + 2] == GT {
            return Some(j);
        }
        j = j + 1;
    }
    None
}

/// First position at or after `i` whose character is alphanumeric, or `end`
/// when none is.
pub open spec fn alnum_start(b: Seq<u8>, i: int, end: int) -> int
    decreases end - i,
    when 0 <= i <= end
{
    if i >= end {
        end
    } else {
        let c = char_at_spec(b, i);
        if unicode_alphanumeric(c) {
            i
        } else if i + char_width(c) <= end {
            alnum_start(b, i + char_width(c), end)
        } else {
            end
        }
    }
}

/// First position at or after `i` whose character is not alphanumeric,
/// capped at `end`.
pub open spec fn alnum_end(b: Seq<u8>, i: int, end: int) -> int
    decreases end - i,
    when 0 <= i <= end
{
    if i >= end {
        end
    } else {
        let c = char_at_spec(b, i);
        if !unicode_alphanumeric(c) {
            i
        } else if i + char_width(c) <= end {
            alnum_end(b, i + char_width(c), end)
        } else {
            end
        }
    }
}

/// Finds the bounds of the first maximal run of alphanumeric characters in
/// `[i, end)`.
pub fn next_token_bounds(s: &str, i: usize, end: usize) -> (r: Option<(usize, usize)>)
    requires
        i <= end <= s.spec_bytes().len(),
        is_char_boundary(s.spec_bytes(), i as int),
        is_char_boundary(s.spec_bytes(), end as int),
    ensures
        match r {
            Some(t) => {
                &&& alnum_start(s.spec_bytes(), i as int, end as int) == t.0
                &&& t.0 < end
                &&& alnum_end(s.spec_bytes(), t.0 as int, end as int) == t.1
                &&& i <= t.0 < t.1 <= end
                &&& is_char_boundary(s.spec_bytes(), t.0 as int)
                &&& is_char_boundary(s.spec_bytes(), t.1 as int)
            },
            None => alnum_start(s.spec_bytes(), i as int, end as int) == end,
        },
{
    let ghost b = s.spec_bytes();
    let mut j: usize = i;
    loop
        invariant
            i <= j <= end,
            is_char_boundary(b, j as int),
            alnum_start(b, i as int, end as int) == alnum_start(b, j as int, end as int),
        decreases end - j,
    {
        if j >= end {
            return None;
        }
        let (c, w) = char_at(s, j);
        if end - j < w {
            proof {
                assert(!is_char_boundary(b, end as int));
                assert(false);
            }
        }
        if char_is_alphanumeric(c) {
            break;
        }
        j = j + w;
    }
    let start: usize = j;
    loop
        invariant
            start <= j <= end,
            is_char_boundary(b, j as int),
            alnum_end(b, start as int, end as int) == alnum_end(b, j as int, end as int),
            alnum_start(b, i as int, end as int) == start,
            start < end,
            i <= start,
            is_char_boundary(b, start as int),
            j == start ==> unicode_alphanumeric(char_at_spec(b, start as int)),
        decreases end - j,
    {
        if j >= end {
            return Some((start, j));
        }
        let (c, w) = char_at(s, j);
        if end - j < w {
            proof {
                assert(!is_char_boundary(b, end as int));
                assert(false);
            }
        }
        if !char_is_alphanumeric(c) {
            return Some((start, j));
        }
        j = j + w;
    }
}

/// Finds the position after the last character of `[i, end)` that trimming
/// keeps.
pub fn cut_end(s: &str, i: usize, end: usize, punct: bool) -> (r: usize)
    requires
        i <= end <= s.spec_bytes().len(),
        is_char_boundary(s.spec_bytes(), i as int),
        is_char_boundary(s.spec_bytes(), end as int),
    ensures
        r == cut_end_pos(s.spec_bytes(), i as int, end as int, punct),
        i <= r <= end,
        is_char_boundary(s.spec_bytes(), r as int),
{
    let ghost b = s.spec_bytes();
    let mut j: usize = i;
    let mut keep: usize = i;
    while j < end
        invariant
            i <= keep <= j <= end,
            is_char_boundary(b, j as int),
            is_char_boundary(b, keep as int),
            cut_end_pos(b, i as int, end as int, punct) == if cut_end_pos(b, j as int, end as int, punct)
                > j {
                cut_end_pos(b, j as int, end as int, punct)
            } else {
                keep as int
            },
        decreases end - j,
    {
        let (c, w) = char_at(s, j);
        if end - j < w {
            proof {
                crate::chars::lemma_boundary_in_prefix(b, j + w, end as int);
                assert(false);
            }
        }
        j = j + w;
        if !cut_char(c, punct) {
            keep = j;
        }
    }
    keep
}

} // verus!
