//! The tag tokenizer: given an offset where the input holds `<`, it finds
//! the first `>`, classifies the body as a start, end or
//! self-closing tag, and scans the name and the attribute region. When no
//! tag can be read the caller treats the `<` as literal text.

use vstd::prelude::*;
use vstd::string::StringSliceAdditionalSpecFns;
use vstd::utf8::*;
use crate::attrs::attrs_from;
use crate::attrs::parse_attrs;
use crate::chars::chars_of;
use crate::chars::lemma_ascii_is_boundary;
use crate::chars::lemma_boundary_after_ascii;
use crate::chars::str_slice;
use crate::scan::cut_end_pos;
use crate::scan::is_name_start_byte;
use crate::scan::name_end_from;
use crate::scan::lemma_name_end_from;
use crate::scan::scan_gt;
use crate::scan::skip_cut_fwd;
use crate::scan::LT;
use crate::scan::SLASH;
use crate::types::AttrMap;
use crate::types::AttrValueView;

verus! {

broadcast use
    vstd::string::group_string_axioms,
    vstd::utf8::encode_utf8_valid_utf8,
    vstd::utf8::is_char_boundary_start_end_of_seq,
;

/// The three shapes a tag token can take.
#[derive(Debug, Clone, Copy, PartialEq, Eq, Structural)]
pub enum TagKind {
    Start,
    End,
    SelfClosing,
}

/// Mathematical value of a tag token read at some offset: where its raw
/// bytes end, its shape, its name, and its attribute mapping.
#[verifier::ext_equal]
pub struct TokenModel {
    pub next: int,
    pub kind: TagKind,
    pub name: Seq<char>,
    pub attrs: Map<Seq<char>, AttrValueView>,
}

/// The token read at offset `i` of `b`, or `None` when no tag starts there:
/// the body runs to the first `>`; a leading `/` after trimming
/// makes an end tag; a trailing `/` makes a start tag self-closing; the name
/// must start with an ASCII letter; end tags carry no attributes.
pub open spec fn token_at(b: Seq<u8>, i: int) -> Option<TokenModel>
    recommends
        0 <= i <= b.len(),
{
    match scan_gt(b, i) {
        None => None,
        Some(g) => {
            if g + 1 - i < 3 {
                None
            } else {
                let lo = skip_cut_fwd(b, i + 1, g, false);
                let hi = cut_end_pos(b, lo, g, false);
                if lo < hi && b[lo] == SLASH {
                    let lo2 = skip_cut_fwd(b, lo + 1, hi, false);
                    if lo2 < hi && is_name_start_byte(b[lo2]) {
                        let ne = name_end_from(b, lo2, hi);
                        Some(
                            TokenModel {
                                next: g + 1,
                                kind: TagKind::End,
                                name: chars_of(b, lo2, ne),
                                attrs: Map::empty(),
                            },
                        )
                    } else {
                        None
                    }
                } else {
                    let selfc = lo < hi && b[hi - 1] == SLASH;
                    let hi2 = if selfc {
                        cut_end_pos(b, lo, hi - 1, false)
                    } else {
                        hi
                    };
                    if lo < hi2 && is_name_start_byte(b[lo]) {
                        let ne = name_end_from(b, lo, hi2);
                        Some(
                            TokenModel {
                                next: g + 1,
                                kind: if selfc {
                                    TagKind::SelfClosing
                                } else {
                                    TagKind::Start
                                },
                                name: chars_of(b, lo, ne),
                                attrs: attrs_from(b, ne, hi2),
                            },
                        )
                    } else {
                        None
                    }
                }
            }
        },
    }
}

/// A tag token read from the input: the byte range of its raw text, its
/// shape, its name as written, and its attributes.
pub struct TagToken {
    pub raw_lo: usize,
    pub raw_hi: usize,
    pub kind: TagKind,
    pub name: String,
    pub attrs: AttrMap,
}

/// Reads the tag token starting at offset `i` of `s`, where `s` holds `<`.
/// Returns the token and the count of bytes it consumed, or `None` when no
/// tag starts at `i`.
pub fn parse_tag(s: &str, i: usize) -> (r: Option<(TagToken, usize)>)
    requires
        i < s.spec_bytes().len(),
        s.spec_bytes()[i as int] == LT,
    ensures
        match r {
            None => token_at(s.spec_bytes(), i as int) is None,
            Some(p) => {
                &&& token_at(s.spec_bytes(), i as int) == Some(
                    TokenModel {
                        next: i + p.1,
                        kind: p.0.kind,
                        name: p.0.name@,
                        attrs: p.0.attrs@,
                    },
                )
                &&& p.0.raw_lo == i
                &&& p.0.raw_hi == i + p.1
                &&& i < i + p.1 <= s.spec_bytes().len()
                &&& is_char_boundary(s.spec_bytes(), i as int)
                &&& is_char_boundary(s.spec_bytes(), i + p.1)
            },
        },
{
    let ghost b = s.spec_bytes();
    let bs = s.as_bytes();
    proof {
        lemma_ascii_is_boundary(b, i as int);
    }
    let g = match crate::scan::find_gt(s, i) {
        Some(g) => g,
        None => {
            return None;
        },
    };
    proof {
        assert(g < bs@.len());
    }
    if g - i < 2 {
        return None;
    }
    proof {
        lemma_boundary_after_ascii(b, i + 1);
        lemma_ascii_is_boundary(b, g as int);
        lemma_boundary_after_ascii(b, g + 1);
    }
    let lo = crate::scan::skip_cut(s, i + 1, g, false);
    let hi = crate::scan::cut_end(s, lo, g, false);
    if lo < hi && bs[lo] == SLASH {
        proof {
            lemma_boundary_after_ascii(b, lo + 1);
        }
        let lo2 = crate::scan::skip_cut(s, lo + 1, hi, false);
        if lo2 < hi && crate::scan::name_start_byte(bs[lo2]) {
            let ne = crate::scan::name_run_end(s, lo2, hi);
            proof {
                lemma_name_end_from(b, lo2 as int, hi as int);
                lemma_boundary_after_ascii(b, ne as int);
            }
            let name = str_slice(s, lo2, ne).to_owned();
            let tok = TagToken {
                raw_lo: i,
                raw_hi: g + 1,
                kind: TagKind::End,
                name,
                attrs: AttrMap::new(),
            };
            Some((tok, g + 1 - i))
        } else {
            None
        }
    } else {
        let selfc = lo < hi && bs[hi - 1] == SLASH;
        let hi2 = if selfc {
            proof {
                lemma_ascii_is_boundary(b, hi - 1);
            }
            crate::scan::cut_end(s, lo, hi - 1, false)
        } else {
            hi
        };
        if lo < hi2 && crate::scan::name_start_byte(bs[lo]) {
            let ne = crate::scan::name_run_end(s, lo, hi2);
            proof {
                lemma_name_end_from(b, lo as int, hi2 as int);
                lemma_boundary_after_ascii(b, ne as int);
            }
            let name = str_slice(s, lo, ne).to_owned();
            let attrs = parse_attrs(s, ne, hi2);
            let kind = if selfc {
                TagKind::SelfClosing
            } else {
                TagKind::Start
            };
            let tok = TagToken { raw_lo: i, raw_hi: g + 1, kind, name, attrs };
            Some((tok, g + 1 - i))
        } else {
            None
        }
    }
}

} // verus!
