//! The attribute scanner: it walks the attribute region of a start tag and
//! produces the attribute mapping, recovering from broken quotes and
//! accepting unquoted and boolean attributes. The scanner never fails.

use vstd::prelude::*;
use vstd::string::StringSliceAdditionalSpecFns;
use vstd::utf8::*;
use crate::chars::chars_of;
use crate::chars::lemma_ascii_is_boundary;
use crate::chars::lemma_boundary_after_ascii;
use crate::chars::str_slice;
use crate::scan::find_byte_spec;
use crate::scan::lemma_find_byte;
use crate::scan::name_end_from;
use crate::scan::lemma_name_end_from;
use crate::scan::skip_cut_fwd;
use crate::scan::value_stop;
use crate::scan::DQUOTE;
use crate::scan::EQ_SIGN;
use crate::scan::SQUOTE;
use crate::types::AttrMap;
use crate::types::AttrValue;
use crate::types::AttrValueView;

verus! {

broadcast use
    vstd::string::group_string_axioms,
    vstd::utf8::encode_utf8_valid_utf8,
    vstd::utf8::is_char_boundary_start_end_of_seq,
;

/// The attribute mapping written in the byte range `[i, end)`: names are
/// runs of name bytes, `=` introduces a value, values are quoted (a missing
/// closing quote captures the rest of the region), unquoted (up to
/// whitespace, `/` or `>`), or absent (`Bool(true)`); a later write to the
/// same name wins.
pub open spec fn attrs_from(b: Seq<u8>, i: int, end: int) -> Map<Seq<char>, AttrValueView>
    decreases end - i,
    when 0 <= i <= end <= b.len()
    via attrs_from_decreases
{
    let j = skip_cut_fwd(b, i, end, false);
    let k = name_end_from(b, j, end);
    if k == j {
        Map::empty()
    } else {
        let name = chars_of(b, j, k);
        let m = skip_cut_fwd(b, k, end, false);
        if m < end && b[m] == EQ_SIGN {
            let v = skip_cut_fwd(b, m + 1, end, false);
            if v < end && (b[v] == SQUOTE || b[v] == DQUOTE) {
                match find_byte_spec(b, v + 1, end, b[v]) {
                    Some(q) => map![name => AttrValueView::Str(chars_of(b, v + 1, q))]
                        .union_prefer_right(attrs_from(b, q + 1, end)),
                    None => map![name => AttrValueView::Str(chars_of(b, v + 1, end))],
                }
            } else if v < end {
                let w = value_stop(b, v, end);
                if w == v {
                    map![name => AttrValueView::Str(chars_of(b, v, end))]
                } else {
                    map![name => AttrValueView::Str(chars_of(b, v, w))].union_prefer_right(
                        attrs_from(b, w, end),
                    )
                }
            } else {
                map![name => AttrValueView::Bool(true)]
            }
        } else {
            map![name => AttrValueView::Bool(true)].union_prefer_right(attrs_from(b, m, end))
        }
    }
}

#[via_fn]
proof fn attrs_from_decreases(b: Seq<u8>, i: int, end: int) {
    if 0 <= i <= end <= b.len() {
        let j = skip_cut_fwd(b, i, end, false);
        crate::scan::lemma_skip_cut_bounds(b, i, end, false);
        let k = name_end_from(b, j, end);
        lemma_name_end_from(b, j, end);
        if k != j {
            let m = skip_cut_fwd(b, k, end, false);
            crate::scan::lemma_skip_cut_bounds(b, k, end, false);
            if m < end && b[m] == EQ_SIGN {
                let v = skip_cut_fwd(b, m + 1, end, false);
                crate::scan::lemma_skip_cut_bounds(b, m + 1, end, false);
                if v < end && (b[v] == SQUOTE || b[v] == DQUOTE) {
                    lemma_find_byte(b, v + 1, end, b[v]);
                } else if v < end {
                    crate::scan::lemma_value_stop_bounds(b, v, end);
                }
            }
        }
    }
}

proof fn lemma_upr_empty(m: Map<Seq<char>, AttrValueView>)
    ensures
        m.union_prefer_right(Map::empty()) == m,
{
    assert(m.union_prefer_right(Map::empty()) =~= m);
}

proof fn lemma_upr_single(
    m: Map<Seq<char>, AttrValueView>,
    k: Seq<char>,
    v: AttrValueView,
)
    ensures
        m.union_prefer_right(map![k => v]) == m.insert(k, v),
{
    assert(m.union_prefer_right(map![k => v]) =~= m.insert(k, v));
}

proof fn lemma_upr_step(
    m: Map<Seq<char>, AttrValueView>,
    k: Seq<char>,
    v: AttrValueView,
    r: Map<Seq<char>, AttrValueView>,
)
    ensures
        m.union_prefer_right(map![k => v].union_prefer_right(r)) == m.insert(
            k,
            v,
        ).union_prefer_right(r),
{
    assert(m.union_prefer_right(map![k => v].union_prefer_right(r)) =~= m.insert(
        k,
        v,
    ).union_prefer_right(r));
}

/// Scans the attribute region `[i, end)` of `s` and builds the attribute
/// mapping it writes.
pub fn parse_attrs(s: &str, i: usize, end: usize) -> (am: AttrMap)
    requires
        i <= end <= s.spec_bytes().len(),
        is_char_boundary(s.spec_bytes(), i as int),
        is_char_boundary(s.spec_bytes(), end as int),
    ensures
        am@ == attrs_from(s.spec_bytes(), i as int, end as int),
{
    let ghost b = s.spec_bytes();
    let bs = s.as_bytes();
    let mut am = AttrMap::new();
    let mut cur: usize = i;
    loop
        invariant
            i <= cur <= end,
            is_char_boundary(b, cur as int),
            attrs_from(b, i as int, end as int) == am@.union_prefer_right(
                attrs_from(b, cur as int, end as int),
            ),
        decreases end - cur,
    {
        let j = crate::scan::skip_cut(s, cur, end, false);
        let k = crate::scan::name_run_end(s, j, end);
        proof {
            lemma_name_end_from(b, j as int, end as int);
        }
        if k == j {
            proof {
                assert(attrs_from(b, cur as int, end as int) =~= Map::<
                    Seq<char>,
                    AttrValueView,
                >::empty());
                lemma_upr_empty(am@);
            }
            return am;
        }
        proof {
            lemma_boundary_after_ascii(b, k as int);
        }
        let name = crate::chars::str_slice(s, j, k).to_owned();
        let ghost namev = chars_of(b, j as int, k as int);
        let ghost m0 = am@;
        let m = crate::scan::skip_cut(s, k, end, false);
        if m < end && bs[m] == EQ_SIGN {
            proof {
                lemma_boundary_after_ascii(b, m + 1);
            }
            let v = crate::scan::skip_cut(s, m + 1, end, false);
            if v < end && (bs[v] == SQUOTE || bs[v] == DQUOTE) {
                let quote = bs[v];
                proof {
                    lemma_boundary_after_ascii(b, v + 1);
                }
                match crate::scan::find_byte(s, v + 1, end, quote) {
                    Some(q) => {
                        proof {
                            lemma_find_byte(b, v + 1, end as int, quote);
                            lemma_ascii_is_boundary(b, q as int);
                            lemma_boundary_after_ascii(b, q + 1);
                        }
                        let val = crate::chars::str_slice(s, v + 1, q).to_owned();
                        let ghost valv = AttrValueView::Str(chars_of(b, v + 1, q as int));
                        am.insert(name, AttrValue::Str(val));
                        proof {
                            assert(attrs_from(b, cur as int, end as int)
                                == map![namev => valv].union_prefer_right(
                                attrs_from(b, q + 1, end as int),
                            ));
                            lemma_upr_step(m0, namev, valv, attrs_from(b, q + 1, end as int));
                        }
                        cur = q + 1;
                    },
                    None => {
                        let val = crate::chars::str_slice(s, v + 1, end).to_owned();
                        let ghost valv = AttrValueView::Str(chars_of(b, v + 1, end as int));
                        am.insert(name, AttrValue::Str(val));
                        proof {
                            assert(attrs_from(b, cur as int, end as int) == map![namev => valv]);
                            lemma_upr_single(m0, namev, valv);
                        }
                        return am;
                    },
                }
            } else if v < end {
                let w = crate::scan::value_stop_at(s, v, end);
                if w == v {
                    let val = crate::chars::str_slice(s, v, end).to_owned();
                    let ghost valv = AttrValueView::Str(chars_of(b, v as int, end as int));
                    am.insert(name, AttrValue::Str(val));
                    proof {
                        assert(attrs_from(b, cur as int, end as int) == map![namev => valv]);
                        lemma_upr_single(m0, namev, valv);
                    }
                    return am;
                } else {
                    let val = crate::chars::str_slice(s, v, w).to_owned();
                    let ghost valv = AttrValueView::Str(chars_of(b, v as int, w as int));
                    am.insert(name, AttrValue::Str(val));
                    proof {
                        assert(attrs_from(b, cur as int, end as int)
                            == map![namev => valv].union_prefer_right(
                            attrs_from(b, w as int, end as int),
                        ));
                        lemma_upr_step(m0, namev, valv, attrs_from(b, w as int, end as int));
                    }
                    cur = w;
                }
            } else {
                let ghost valv = AttrValueView::Bool(true);
                am.insert(name, AttrValue::Bool(true));
                proof {
                    assert(attrs_from(b, cur as int, end as int) == map![namev => valv]);
                    lemma_upr_single(m0, namev, valv);
                }
                return am;
            }
        } else {
            let ghost valv = AttrValueView::Bool(true);
            am.insert(name, AttrValue::Bool(true));
            proof {
                assert(attrs_from(b, cur as int, end as int) == map![namev => valv]
                    .union_prefer_right(attrs_from(b, m as int, end as int)));
                lemma_upr_step(m0, namev, valv, attrs_from(b, m as int, end as int));
            }
            cur = m;
        }
    }
}

} // verus!
