//! The segmenter: it converts the clean text and the accumulated span list
//! into a flat, gapless sequence of segments. Cutting the text at every span
//! endpoint makes each segment's covering-span set constant over the whole
//! segment; the segment then carries the annotations of exactly the spans
//! that cover it.

use vstd::prelude::*;
use vstd::string::StringSliceAdditionalSpecFns;
use vstd::utf8::*;
use crate::chars::chars_of;
use crate::chars::lemma_boundary_in_prefix;
use crate::chars::str_slice;
use crate::types::Annotation;
use crate::types::Segment;

verus! {

broadcast use
    vstd::string::group_string_axioms,
    vstd::utf8::encode_utf8_valid_utf8,
    vstd::utf8::is_char_boundary_start_end_of_seq,
;

/// The concatenation of the segments' texts, in order.
pub open spec fn concat_texts(segs: Seq<Segment>) -> Seq<char>
    decreases segs.len(),
{
    if segs.len() == 0 {
        Seq::empty()
    } else {
        concat_texts(segs.drop_last()) + segs.last().text@
    }
}

/// The byte offset in the clean text where segment `i` starts: the total
/// byte length of the segments before it.
pub open spec fn seg_offset(segs: Seq<Segment>, i: int) -> int
    decreases i,
{
    if i <= 0 {
        0
    } else {
        seg_offset(segs, i - 1) + encode_utf8(segs[i - 1].text@).len()
    }
}

/// Whether the span `sp` covers the whole byte range `[lo, hi)`.
pub open spec fn span_covers(sp: (usize, usize, Annotation), lo: int, hi: int) -> bool {
    sp.0 <= lo && hi <= sp.1
}

/// Pushing a segment does not move the ones before it.
proof fn lemma_seg_offset_push(segs: Seq<Segment>, seg: Segment, i: int)
    requires
        0 <= i <= segs.len(),
    ensures
        seg_offset(segs.push(seg), i) == seg_offset(segs, i),
    decreases i,
{
    if i > 0 {
        lemma_seg_offset_push(segs, seg, i - 1);
    }
}

/// Dropping the last segment does not move the ones before it.
proof fn lemma_seg_offset_drop_last(segs: Seq<Segment>, i: int)
    requires
        segs.len() > 0,
        0 <= i < segs.len(),
    ensures
        seg_offset(segs, i) == seg_offset(segs.drop_last(), i),
{
    assert(segs =~= segs.drop_last().push(segs.last()));
    lemma_seg_offset_push(segs.drop_last(), segs.last(), i);
}

/// The offset after the last segment is the byte length of the whole text.
proof fn lemma_seg_offset_total(segs: Seq<Segment>)
    ensures
        seg_offset(segs, segs.len() as int) == encode_utf8(concat_texts(segs)).len(),
    decreases segs.len(),
{
    if segs.len() == 0 {
        assert(encode_utf8(concat_texts(segs)) =~= Seq::<u8>::empty());
    } else {
        lemma_seg_offset_total(segs.drop_last());
        lemma_seg_offset_drop_last(segs, segs.len() - 1);
        crate::chars::lemma_encode_concat(concat_texts(segs.drop_last()), segs.last().text@);
    }
}

/// Every segment cut point falls on a UTF-8 codepoint boundary of the text
/// that the segments concatenate to.
pub proof fn lemma_segment_offsets_are_boundaries(segs: Seq<Segment>, text: Seq<char>)
    requires
        concat_texts(segs) == text,
    ensures
        forall|i: int|
            0 <= i <= segs.len() ==> is_char_boundary(encode_utf8(text), #[trigger] seg_offset(
                segs,
                i,
            )),
    decreases segs.len(),
{
    broadcast use vstd::utf8::encode_utf8_valid_utf8;
    broadcast use vstd::utf8::is_char_boundary_start_end_of_seq;

    if segs.len() == 0 {
        assert forall|i: int| 0 <= i <= segs.len() implies is_char_boundary(
            encode_utf8(text),
            #[trigger] seg_offset(segs, i),
        ) by {
            assert(seg_offset(segs, 0) == 0);
        }
    } else {
        let front = concat_texts(segs.drop_last());
        lemma_segment_offsets_are_boundaries(segs.drop_last(), front);
        crate::chars::lemma_encode_concat(front, segs.last().text@);
        lemma_seg_offset_total(segs);
        assert forall|i: int| 0 <= i <= segs.len() implies is_char_boundary(
            encode_utf8(text),
            #[trigger] seg_offset(segs, i),
        ) by {
            if i < segs.len() {
                lemma_seg_offset_drop_last(segs, i);
                crate::chars::lemma_boundary_extend(
                    encode_utf8(front),
                    encode_utf8(segs.last().text@),
                    seg_offset(segs.drop_last(), i),
                );
            } else {
                assert(seg_offset(segs, i) == encode_utf8(text).len());
            }
        }
    }
}

/// Inserts `x` into the strictly sorted `v`, keeping it strictly sorted; a
/// value already present is left alone.
fn sorted_insert(v: &mut Vec<usize>, x: usize)
    requires
        forall|p: int, q: int| 0 <= p < q < old(v)@.len() ==> old(v)@[p] < old(v)@[q],
    ensures
        forall|p: int, q: int| 0 <= p < q < final(v)@.len() ==> final(v)@[p] < final(v)@[q],
        forall|y: usize| final(v)@.contains(y) <==> (old(v)@.contains(y) || y == x),
{
    let n = v.len();
    let mut i: usize = 0;
    while i < n && v[i] < x
        invariant
            i <= n,
            forall|k: int| 0 <= k < i ==> v@[k] < x,
        decreases n - i,
    {
        i = i + 1;
    }
    if i < n && v[i] == x {
        proof {
            assert(v@.contains(x)) by {
                assert(v@[i as int] == x);
            }
        }
        return ;
    }
    let ghost prev = v@;
    v.insert(i, x);
    proof {
        assert(v@ == prev.insert(i as int, x));
        assert forall|p: int, q: int| 0 <= p < q < v@.len() implies v@[p] < v@[q] by {
            let vp = if p < i {
                prev[p]
            } else if p == i {
                x
            } else {
                prev[p - 1]
            };
            assert(v@[p] == vp);
            let vq = if q < i {
                prev[q]
            } else if q == i {
                x
            } else {
                prev[q - 1]
            };
            assert(v@[q] == vq);
        }
        assert forall|y: usize| v@.contains(y) implies (prev.contains(y) || y == x) by {
            let w = choose|w: int| 0 <= w < v@.len() && v@[w] == y;
            if w < i {
                assert(prev[w] == y);
            } else if w > i {
                assert(prev[w - 1] == y);
            }
        }
        assert forall|y: usize| prev.contains(y) implies v@.contains(y) by {
            let w = choose|w: int| 0 <= w < prev.len() && prev[w] == y;
            if w < i {
                assert(v@[w] == y);
            } else {
                assert(v@[w + 1] == y);
            }
        }
        assert(v@.contains(x)) by {
            assert(v@[i as int] == x);
        }
    }
}

/// Some span in `spans` covers `[lo, hi)` and carries the annotation `a`.
pub open spec fn ann_justified(
    spans: Seq<(usize, usize, Annotation)>,
    lo: int,
    hi: int,
    a: crate::types::AnnotationView,
) -> bool {
    exists|k: int|
        0 <= k < spans.len() && span_covers(#[trigger] spans[k], lo, hi) && spans[k].2@ == a
}

/// Some entry of `anns` denotes the annotation `a`.
pub open spec fn carries(anns: Seq<Annotation>, a: crate::types::AnnotationView) -> bool {
    exists|ai: int| 0 <= ai < anns.len() && (#[trigger] anns[ai])@ == a
}

/// The annotation of every span that covers `[lo, hi)`, one entry per
/// covering span, in span-append order.
pub open spec fn covering_anns(
    spans: Seq<(int, int, crate::types::AnnotationView)>,
    lo: int,
    hi: int,
) -> Seq<crate::types::AnnotationView>
    decreases spans.len(),
{
    if spans.len() == 0 {
        Seq::empty()
    } else {
        covering_anns(spans.drop_last(), lo, hi) + if spans.last().0 <= lo && hi
            <= spans.last().1 {
            seq![spans.last().2]
        } else {
            Seq::empty()
        }
    }
}

/// The mathematical values of a segment's annotation list.
pub open spec fn ann_views(anns: Seq<Annotation>) -> Seq<crate::types::AnnotationView> {
    anns.map_values(|a: Annotation| a@)
}

/// A byte offset where the segmenter must cut: the ends of the text and
/// every span endpoint.
pub open spec fn is_cut_point(
    spans: Seq<(int, int, crate::types::AnnotationView)>,
    len: int,
    x: int,
) -> bool {
    x == 0 || x == len || exists|k: int|
        0 <= k < spans.len() && ((#[trigger] spans[k]).0 == x || spans[k].1 == x)
}

/// Each segment's annotation list is exactly the covering spans' annotations
/// in span-append order.
pub open spec fn annotations_exact(
    segs: Seq<Segment>,
    spans: Seq<(int, int, crate::types::AnnotationView)>,
) -> bool {
    forall|si: int|
        0 <= si < segs.len() ==> ann_views((#[trigger] segs[si]).annotations@) == covering_anns(
            spans,
            seg_offset(segs, si),
            seg_offset(segs, si + 1),
        )
}

/// The segments cut the text at exactly the cut points: each segment runs
/// from one cut point to the next, with no cut point strictly inside it.
pub open spec fn cuts_exact(
    segs: Seq<Segment>,
    spans: Seq<(int, int, crate::types::AnnotationView)>,
    len: int,
) -> bool {
    forall|si: int|
        #![trigger seg_offset(segs, si)]
        0 <= si < segs.len() ==> is_cut_point(spans, len, seg_offset(segs, si)) && is_cut_point(
            spans,
            len,
            seg_offset(segs, si + 1),
        ) && (forall|x: int|
            seg_offset(segs, si) < x < seg_offset(segs, si + 1) ==> !is_cut_point(spans, len, x))
}

/// Whether `y` is an endpoint of one of the first `k2` spans.
pub open spec fn is_endpoint_upto(spans: Seq<(usize, usize, Annotation)>, k2: int, y: usize) -> bool {
    exists|k: int| 0 <= k < k2 && ((#[trigger] spans[k]).0 == y || spans[k].1 == y)
}

/// Every annotation a segment carries comes from a span that covers the
/// segment's whole byte range.
pub open spec fn annotations_sound(segs: Seq<Segment>, spans: Seq<(usize, usize, Annotation)>) -> bool {
    forall|si: int, ai: int|
        #![trigger segs[si].annotations@[ai]]
        0 <= si < segs.len() && 0 <= ai < segs[si].annotations@.len() ==> ann_justified(
            spans,
            seg_offset(segs, si),
            seg_offset(segs, si + 1),
            segs[si].annotations@[ai]@,
        )
}

/// Every span that covers a segment's whole byte range contributes its
/// annotation to that segment.
pub open spec fn annotations_complete(segs: Seq<Segment>, spans: Seq<(usize, usize, Annotation)>) -> bool {
    forall|si: int, k: int|
        #![trigger segs[si], spans[k]]
        0 <= si < segs.len() && 0 <= k < spans.len() && span_covers(
            spans[k],
            seg_offset(segs, si),
            seg_offset(segs, si + 1),
        ) ==> carries(segs[si].annotations@, spans[k].2@)
}

/// Collects, in span order, a copy of the annotation of every span that
/// covers `[lo, hi)`.
fn collect_covering(spans: &Vec<(usize, usize, Annotation)>, lo: usize, hi: usize) -> (anns: Vec<
    Annotation,
>)
    ensures
        forall|j: int|
            0 <= j < anns@.len() ==> ann_justified(
                spans@,
                lo as int,
                hi as int,
                (#[trigger] anns@[j])@,
            ),
        forall|k: int|
            #![trigger spans@[k]]
            0 <= k < spans@.len() && span_covers(spans@[k], lo as int, hi as int) ==> carries(
                anns@,
                spans@[k].2@,
            ),
        ann_views(anns@) == covering_anns(
            crate::parser::span_views(spans@),
            lo as int,
            hi as int,
        ),
{
    let mut anns: Vec<Annotation> = Vec::new();
    let mut k2: usize = 0;
    proof {
        assert(crate::parser::span_views(spans@.take(0)) =~= Seq::<
            (int, int, crate::types::AnnotationView),
        >::empty());
        assert(ann_views(anns@) =~= Seq::<crate::types::AnnotationView>::empty());
    }
    while k2 < spans.len()
        invariant
            k2 <= spans@.len(),
            forall|j: int|
                0 <= j < anns@.len() ==> ann_justified(
                    spans@,
                    lo as int,
                    hi as int,
                    (#[trigger] anns@[j])@,
                ),
            forall|k: int|
                #![trigger spans@[k]]
                0 <= k < k2 && span_covers(spans@[k], lo as int, hi as int) ==> carries(
                    anns@,
                    spans@[k].2@,
                ),
            ann_views(anns@) == covering_anns(
                crate::parser::span_views(spans@.take(k2 as int)),
                lo as int,
                hi as int,
            ),
        decreases spans@.len() - k2,
    {
        let ghost svk1 = crate::parser::span_views(spans@.take(k2 + 1));
        proof {
            assert(svk1.drop_last() =~= crate::parser::span_views(spans@.take(k2 as int)));
            assert(spans@.take(k2 + 1).last() == spans@[k2 as int]);
            assert(svk1.last() == (
                spans@[k2 as int].0 as int,
                spans@[k2 as int].1 as int,
                spans@[k2 as int].2@,
            ));
        }
        if spans[k2].0 <= lo && hi <= spans[k2].1 {
            let a = spans[k2].2.duplicate();
            let ghost pa = anns@;
            anns.push(a);
            proof {
                assert(span_covers(spans@[k2 as int], lo as int, hi as int));
                assert(anns@[pa.len() as int]@ == spans@[k2 as int].2@);
                assert(forall|j: int| 0 <= j < pa.len() ==> anns@[j] == pa[j]);
                assert forall|k: int|
                    0 <= k < k2 + 1 && span_covers(#[trigger] spans@[k], lo as int, hi as int)
                        implies carries(anns@, spans@[k].2@) by {
                    if k < k2 {
                        let ai = choose|ai: int| 0 <= ai < pa.len() && (#[trigger] pa[ai])@
                            == spans@[k].2@;
                        assert((anns@[ai])@ == spans@[k].2@);
                    } else {
                        assert((anns@[pa.len() as int])@ == spans@[k].2@);
                    }
                }
                assert(ann_views(anns@) =~= ann_views(pa) + seq![spans@[k2 as int].2@]);
                assert(covering_anns(svk1, lo as int, hi as int) == covering_anns(
                    svk1.drop_last(),
                    lo as int,
                    hi as int,
                ) + seq![svk1.last().2]);
            }
        } else {
            proof {
                assert(covering_anns(svk1, lo as int, hi as int) =~= covering_anns(
                    svk1.drop_last(),
                    lo as int,
                    hi as int,
                ));
            }
        }
        k2 = k2 + 1;
    }
    proof {
        assert(spans@.take(spans@.len() as int) =~= spans@);
    }
    anns
}

/// Appending a segment keeps every earlier segment's offsets.
proof fn lemma_push_offsets(prevsegs: Seq<Segment>, seg: Segment)
    ensures
        forall|si: int|
            0 <= si <= prevsegs.len() ==> #[trigger] seg_offset(prevsegs.push(seg), si)
                == seg_offset(prevsegs, si),
        forall|si: int|
            0 <= si < prevsegs.len() ==> #[trigger] prevsegs.push(seg)[si] == prevsegs[si],
        prevsegs.push(seg)[prevsegs.len() as int] == seg,
{
    assert forall|si: int| 0 <= si <= prevsegs.len() implies #[trigger] seg_offset(
        prevsegs.push(seg),
        si,
    ) == seg_offset(prevsegs, si) by {
        lemma_seg_offset_push(prevsegs, seg, si);
    }
}

/// Appending a segment whose annotations all come from covering spans keeps
/// the list sound.
proof fn lemma_push_sound(
    prevsegs: Seq<Segment>,
    seg: Segment,
    spans: Seq<(usize, usize, Annotation)>,
    lo: int,
    hi: int,
)
    requires
        seg_offset(prevsegs, prevsegs.len() as int) == lo,
        encode_utf8(seg.text@).len() == hi - lo,
        annotations_sound(prevsegs, spans),
        forall|j: int|
            0 <= j < seg.annotations@.len() ==> ann_justified(
                spans,
                lo,
                hi,
                (#[trigger] seg.annotations@[j])@,
            ),
    ensures
        annotations_sound(prevsegs.push(seg), spans),
{
    let segs = prevsegs.push(seg);
    let n = prevsegs.len() as int;
    lemma_push_offsets(prevsegs, seg);
    assert forall|si: int, ai: int|
        #![trigger segs[si].annotations@[ai]]
        0 <= si < segs.len() && 0 <= ai < segs[si].annotations@.len() implies ann_justified(
        spans,
        seg_offset(segs, si),
        seg_offset(segs, si + 1),
        segs[si].annotations@[ai]@,
    ) by {
        if si < n {
            assert(segs[si] == prevsegs[si]);
            assert(ann_justified(
                spans,
                seg_offset(prevsegs, si),
                seg_offset(prevsegs, si + 1),
                prevsegs[si].annotations@[ai]@,
            ));
        } else {
            assert(segs[si] == seg);
            assert(ann_justified(spans, lo, hi, seg.annotations@[ai]@));
        }
    }
}

/// Appending a segment that carries every covering span's annotation keeps
/// the list complete.
proof fn lemma_push_complete(
    prevsegs: Seq<Segment>,
    seg: Segment,
    spans: Seq<(usize, usize, Annotation)>,
    lo: int,
    hi: int,
)
    requires
        seg_offset(prevsegs, prevsegs.len() as int) == lo,
        encode_utf8(seg.text@).len() == hi - lo,
        annotations_complete(prevsegs, spans),
        forall|k: int|
            #![trigger spans[k]]
            0 <= k < spans.len() && span_covers(spans[k], lo, hi) ==> carries(
                seg.annotations@,
                spans[k].2@,
            ),
    ensures
        annotations_complete(prevsegs.push(seg), spans),
{
    let segs = prevsegs.push(seg);
    let n = prevsegs.len() as int;
    lemma_push_offsets(prevsegs, seg);
    assert forall|si: int, k: int|
        #![trigger segs[si], spans[k]]
        0 <= si < segs.len() && 0 <= k < spans.len() && span_covers(
            spans[k],
            seg_offset(segs, si),
            seg_offset(segs, si + 1),
        ) implies carries(segs[si].annotations@, spans[k].2@) by {
        if si < n {
            assert(segs[si] == prevsegs[si]);
            assert(span_covers(spans[k], seg_offset(prevsegs, si), seg_offset(prevsegs, si + 1)));
        } else {
            assert(segs[si] == seg);
            assert(span_covers(spans[k], lo, hi));
        }
    }
}

/// Appending a segment whose annotation list is exactly the covering spans'
/// annotations keeps the whole list exact.
proof fn lemma_push_exact(
    prevsegs: Seq<Segment>,
    seg: Segment,
    sv: Seq<(int, int, crate::types::AnnotationView)>,
    lo: int,
    hi: int,
)
    requires
        seg_offset(prevsegs, prevsegs.len() as int) == lo,
        encode_utf8(seg.text@).len() == hi - lo,
        annotations_exact(prevsegs, sv),
        ann_views(seg.annotations@) == covering_anns(sv, lo, hi),
    ensures
        annotations_exact(prevsegs.push(seg), sv),
{
    let segs = prevsegs.push(seg);
    let n = prevsegs.len() as int;
    lemma_push_offsets(prevsegs, seg);
    assert forall|si: int|
        0 <= si < segs.len() implies ann_views((#[trigger] segs[si]).annotations@)
        == covering_anns(sv, seg_offset(segs, si), seg_offset(segs, si + 1)) by {
        if si < n {
            assert(segs[si] == prevsegs[si]);
        } else {
            assert(segs[si] == seg);
            assert(seg_offset(segs, si) == lo);
            assert(seg_offset(segs, si + 1) == hi);
        }
    }
}

/// Appending a segment cut between two consecutive cut points keeps every
/// segment cut at exactly the cut points.
proof fn lemma_push_cuts(
    prevsegs: Seq<Segment>,
    seg: Segment,
    sv: Seq<(int, int, crate::types::AnnotationView)>,
    tn: usize,
    lo: int,
    hi: int,
)
    requires
        seg_offset(prevsegs, prevsegs.len() as int) == lo,
        encode_utf8(seg.text@).len() == hi - lo,
        cuts_exact(prevsegs, sv, tn as int),
        is_cut_point(sv, tn as int, lo),
        is_cut_point(sv, tn as int, hi),
        forall|x: int| lo < x < hi ==> !is_cut_point(sv, tn as int, x),
    ensures
        cuts_exact(prevsegs.push(seg), sv, tn as int),
        seg_offset(prevsegs.push(seg), prevsegs.len() as int + 1) == hi,
{
    let segs = prevsegs.push(seg);
    let n = prevsegs.len() as int;
    lemma_push_offsets(prevsegs, seg);
    assert(segs[n] == seg);
    assert(seg_offset(segs, n + 1) == seg_offset(segs, n) + encode_utf8(segs[n].text@).len());
    assert forall|si: int|
        #![trigger seg_offset(segs, si)]
        0 <= si < segs.len() implies is_cut_point(sv, tn as int, seg_offset(segs, si))
        && is_cut_point(sv, tn as int, seg_offset(segs, si + 1)) && (forall|x: int|
        seg_offset(segs, si) < x < seg_offset(segs, si + 1) ==> !is_cut_point(
            sv,
            tn as int,
            x,
        )) by {
        if si < n {
            assert(seg_offset(segs, si) == seg_offset(prevsegs, si));
            assert(seg_offset(segs, si + 1) == seg_offset(prevsegs, si + 1));
        } else {
            assert(seg_offset(segs, si) == lo);
            assert(seg_offset(segs, si + 1) == hi);
        }
    }
}

/// Collects the sorted cut offsets: the text ends and every span endpoint.
fn collect_bounds(
    spans: &Vec<(usize, usize, Annotation)>,
    n: usize,
    Ghost(b): Ghost<Seq<u8>>,
)  -> (bounds: Vec<usize>)
    requires
        n > 0,
        n as int == b.len(),
        valid_utf8(b),
        forall|k: int| 0 <= k < spans@.len() ==> (#[trigger] spans@[k]).0 < spans@[k].1 <= n,
        forall|k: int|
            0 <= k < spans@.len() ==> is_char_boundary(b, (#[trigger] spans@[k]).0 as int)
                && is_char_boundary(b, spans@[k].1 as int),
    ensures
        forall|p: int, q: int| 0 <= p < q < bounds@.len() ==> bounds@[p] < bounds@[q],
        forall|u: int|
            0 <= u < bounds@.len() ==> (#[trigger] bounds@[u]) <= n && is_char_boundary(
                b,
                bounds@[u] as int,
            ),
        forall|u: int|
            0 <= u < bounds@.len() ==> is_cut_point(
                crate::parser::span_views(spans@),
                n as int,
                (#[trigger] bounds@[u]) as int,
            ),
        forall|u: int, x: int|
            #![trigger bounds@[u], is_cut_point(crate::parser::span_views(spans@), n as int, x)]
            0 <= u < bounds@.len() - 1 && bounds@[u] < x < bounds@[u + 1] ==> !is_cut_point(
                crate::parser::span_views(spans@),
                n as int,
                x,
            ),
        bounds@.len() >= 2,
        bounds@[0] == 0,
        bounds@[bounds@.len() - 1] == n,
{
    let mut bounds: Vec<usize> = Vec::new();
    bounds.push(0);
    bounds.push(n);
    proof {
        assert(bounds@[0] == 0usize && bounds@[1] == n);
        assert(bounds@.contains(0usize));
        assert(bounds@.contains(n));
        assert forall|y: usize| #[trigger] bounds@.contains(y) implies (y == 0 || y == n) by {
            let w = choose|w: int| 0 <= w < bounds@.len() && bounds@[w] == y;
        }
    }
    let mut ki: usize = 0;
    while ki < spans.len()
        invariant
            ki <= spans@.len(),
            forall|p: int, q: int| 0 <= p < q < bounds@.len() ==> bounds@[p] < bounds@[q],
            forall|y: usize|
                #[trigger] bounds@.contains(y) ==> y <= n && is_char_boundary(b, y as int),
            forall|y: usize|
                #[trigger] bounds@.contains(y) <==> (y == 0 || y == n || is_endpoint_upto(
                    spans@,
                    ki as int,
                    y,
                )),
        decreases spans@.len() - ki,
    {
        let lo = spans[ki].0;
        let hi = spans[ki].1;
        let ghost before = bounds@;
        sorted_insert(&mut bounds, lo);
        sorted_insert(&mut bounds, hi);
        proof {
            assert forall|y: usize| #[trigger] bounds@.contains(y) implies (y == 0 || y == n
                || is_endpoint_upto(spans@, ki + 1, y)) by {
                if y != lo && y != hi {
                    assert(before.contains(y));
                    if !(y == 0 || y == n) {
                        let k = choose|k: int|
                            0 <= k < ki && ((#[trigger] spans@[k]).0 == y || spans@[k].1 == y);
                        assert(0 <= k < ki + 1 && (spans@[k].0 == y || spans@[k].1 == y));
                    }
                } else {
                    assert(spans@[ki as int].0 == y || spans@[ki as int].1 == y);
                }
            }
            assert forall|y: usize| (y == 0 || y == n || is_endpoint_upto(spans@, ki + 1, y))
                implies #[trigger] bounds@.contains(y) by {
                if y == 0 || y == n {
                    assert(before.contains(y));
                } else {
                    let k = choose|k: int|
                        0 <= k < ki + 1 && ((#[trigger] spans@[k]).0 == y || spans@[k].1 == y);
                    if k < ki {
                        assert(before.contains(y));
                    }
                }
            }
        }
        ki = ki + 1;
    }
    proof {
        let m = bounds@.len() as int;
        assert(bounds@.contains(0usize));
        assert(bounds@.contains(n));
        let wz = choose|wz: int| 0 <= wz < bounds@.len() && bounds@[wz] == 0usize;
        assert(bounds@[0] <= bounds@[wz]);
        let wn = choose|wn: int| 0 <= wn < bounds@.len() && bounds@[wn] == n;
        assert(bounds@[wn] <= bounds@[m - 1]);
        assert(bounds@.contains(bounds@[m - 1]));
        assert(bounds@[0] == 0 && bounds@[m - 1] == n);
        assert forall|u: int| 0 <= u < bounds@.len() implies (#[trigger] bounds@[u]) <= n
            && is_char_boundary(b, bounds@[u] as int) by {
            assert(bounds@.contains(bounds@[u]));
        }
        assert forall|u: int, x: int|
            #![trigger bounds@[u], is_cut_point(crate::parser::span_views(spans@), n as int, x)]
            0 <= u < bounds@.len() - 1 && bounds@[u] < x < bounds@[u + 1] implies !is_cut_point(
            crate::parser::span_views(spans@),
            n as int,
            x,
        ) by {
            lemma_window_cuts(spans@, bounds@, n, u);
        }
        assert forall|u: int| 0 <= u < bounds@.len() implies is_cut_point(
            crate::parser::span_views(spans@),
            n as int,
            (#[trigger] bounds@[u]) as int,
        ) by {
            if u < bounds@.len() - 1 {
                lemma_window_cuts(spans@, bounds@, n, u);
            } else {
                lemma_window_cuts(spans@, bounds@, n, u - 1);
            }
        }
    }
    bounds
}

/// Two consecutive entries of the collected bounds are consecutive cut
/// points: each is a cut point and no cut point lies strictly between them.
proof fn lemma_window_cuts(
    spans: Seq<(usize, usize, Annotation)>,
    bounds: Seq<usize>,
    n: usize,
    w: int,
)
    requires
        forall|p: int, q: int| 0 <= p < q < bounds.len() ==> bounds[p] < bounds[q],
        forall|y: usize|
            #[trigger] bounds.contains(y) <==> (y == 0 || y == n || is_endpoint_upto(
                spans,
                spans.len() as int,
                y,
            )),
        0 <= w < bounds.len() - 1,
        bounds[bounds.len() - 1] == n,
    ensures
        is_cut_point(crate::parser::span_views(spans), n as int, bounds[w] as int),
        is_cut_point(crate::parser::span_views(spans), n as int, bounds[w + 1] as int),
        forall|x: int|
            bounds[w] < x < bounds[w + 1] ==> !is_cut_point(
                crate::parser::span_views(spans),
                n as int,
                x,
            ),
{
    let sv = crate::parser::span_views(spans);
    assert forall|u: int| 0 <= u < bounds.len() implies is_cut_point(
        sv,
        n as int,
        #[trigger] bounds[u] as int,
    ) by {
        let y = bounds[u];
        assert(bounds.contains(y));
        if y != 0 && y != n {
            let k = choose|k: int|
                0 <= k < spans.len() && ((#[trigger] spans[k]).0 == y || spans[k].1 == y);
            assert(sv[k] == (spans[k].0 as int, spans[k].1 as int, spans[k].2@));
            assert(sv[k].0 == y as int || sv[k].1 == y as int);
        }
    }
    assert forall|x: int| bounds[w] < x < bounds[w + 1] implies !is_cut_point(sv, n as int, x) by {
        if is_cut_point(sv, n as int, x) {
            let y: usize = if x == 0 {
                0
            } else if x == n as int {
                n
            } else {
                let k = choose|k: int| 0 <= k < sv.len() && ((#[trigger] sv[k]).0 == x || sv[k].1 == x);
                assert(sv[k] == (spans[k].0 as int, spans[k].1 as int, spans[k].2@));
                if spans[k].0 as int == x {
                    spans[k].0
                } else {
                    spans[k].1
                }
            };
            assert(y as int == x);
            assert(bounds.contains(y)) by {
                if y != 0 && y != n {
                    let k = choose|k: int|
                        0 <= k < sv.len() && ((#[trigger] sv[k]).0 == x || sv[k].1 == x);
                    assert(sv[k] == (spans[k].0 as int, spans[k].1 as int, spans[k].2@));
                    assert(spans[k].0 == y || spans[k].1 == y);
                    assert(is_endpoint_upto(spans, spans.len() as int, y));
                }
            }
            let u = choose|u: int| 0 <= u < bounds.len() && bounds[u] == y;
            if u <= w {
                if u < w {
                    assert(bounds[u] < bounds[w]);
                }
            } else {
                if u > w + 1 {
                    assert(bounds[w + 1] < bounds[u]);
                }
            }
            assert(false);
        }
    }
}

/// Appending a segment whose bytes are the next slice of the text extends
/// the concatenation to the new cut point, and the slice is not empty.
proof fn lemma_concat_step(b: Seq<u8>, prev: Seq<Segment>, seg: Segment, lo: int, hi: int)
    requires
        valid_utf8(b),
        0 <= lo < hi <= b.len(),
        is_char_boundary(b, lo),
        is_char_boundary(b, hi),
        concat_texts(prev) == chars_of(b, 0, lo),
        encode_utf8(seg.text@) == b.subrange(lo, hi),
    ensures
        concat_texts(prev.push(seg)) == chars_of(b, 0, hi),
        seg.text@.len() > 0,
{
    let segs = prev.push(seg);
    assert(segs.drop_last() =~= prev);
    assert(segs.last() == seg);
    if seg.text@.len() == 0 {
        assert(encode_utf8(seg.text@).len() == 0);
    }
    valid_utf8_split(b, hi);
    lemma_boundary_in_prefix(b, hi, lo);
    let pfx = b.subrange(0, hi);
    decode_utf8_split(pfx, lo);
    assert(pfx.subrange(0, lo) =~= b.subrange(0, lo));
    assert(pfx.subrange(lo, pfx.len() as int) =~= b.subrange(lo, hi));
    encode_utf8_decode_utf8(seg.text@);
    assert(concat_texts(segs) == concat_texts(prev) + seg.text@);
}

/// Emits the segment between two consecutive collected bounds, keeping
/// every invariant of the assembly.
#[verifier::rlimit(100)]
fn emit_window(
    text: &str,
    spans: &Vec<(usize, usize, Annotation)>,
    lo: usize,
    hi: usize,
    segs: &mut Vec<Segment>,
    w: usize,
    n: usize,
)
    requires
        forall|k: int|
            0 <= k < spans@.len() ==> (#[trigger] spans@[k]).0 < spans@[k].1 <= text.spec_bytes().len(),
        forall|k: int|
            0 <= k < spans@.len() ==> is_char_boundary(text.spec_bytes(), (#[trigger] spans@[k]).0 as int)
                && is_char_boundary(text.spec_bytes(), spans@[k].1 as int),
        n as int == text.spec_bytes().len(),
        lo < hi <= n,
        is_char_boundary(text.spec_bytes(), lo as int),
        is_char_boundary(text.spec_bytes(), hi as int),
        is_cut_point(crate::parser::span_views(spans@), n as int, lo as int),
        is_cut_point(crate::parser::span_views(spans@), n as int, hi as int),
        forall|x: int|
            lo < x < hi ==> !is_cut_point(crate::parser::span_views(spans@), n as int, x),
        old(segs)@.len() == w,
        seg_offset(old(segs)@, w as int) == lo,
        concat_texts(old(segs)@) == chars_of(text.spec_bytes(), 0, lo as int),
        forall|si: int| 0 <= si < w ==> (#[trigger] old(segs)@[si]).text@.len() > 0,
        annotations_sound(old(segs)@, spans@),
        annotations_complete(old(segs)@, spans@),
        annotations_exact(old(segs)@, crate::parser::span_views(spans@)),
        cuts_exact(old(segs)@, crate::parser::span_views(spans@), n as int),
    ensures
        final(segs)@.len() == w + 1,
        seg_offset(final(segs)@, w + 1) == hi,
        concat_texts(final(segs)@) == chars_of(text.spec_bytes(), 0, hi as int),
        forall|si: int| 0 <= si < w + 1 ==> (#[trigger] final(segs)@[si]).text@.len() > 0,
        annotations_sound(final(segs)@, spans@),
        annotations_complete(final(segs)@, spans@),
        annotations_exact(final(segs)@, crate::parser::span_views(spans@)),
        cuts_exact(final(segs)@, crate::parser::span_views(spans@), n as int),
{
    let ghost b = text.spec_bytes();
    let stext = str_slice(text, lo, hi).to_owned();
    let anns = collect_covering(spans, lo, hi);
    let ghost annsv = anns@;
    let ghost prev = segs@;
    let seg = Segment { text: stext, annotations: anns };
    proof {
        assert(seg.annotations@ == annsv);
        assert(encode_utf8(seg.text@) == b.subrange(lo as int, hi as int));
        let sv = crate::parser::span_views(spans@);
        lemma_push_sound(prev, seg, spans@, lo as int, hi as int);
        lemma_push_complete(prev, seg, spans@, lo as int, hi as int);
        lemma_push_exact(prev, seg, sv, lo as int, hi as int);
        lemma_push_cuts(prev, seg, sv, n, lo as int, hi as int);
    }
    segs.push(seg);
    proof {
        assert(segs@ == prev.push(seg));
        lemma_concat_step(b, prev, seg, lo as int, hi as int);
        assert(seg_offset(segs@, w + 1) == hi);
        assert(forall|si: int| 0 <= si < w ==> segs@[si] == prev[si]);
        assert(segs@[w as int] == seg);
    }
}

/// Cuts the clean text at every span endpoint and returns the resulting
/// segments in order. Their texts concatenate back to the clean text, every
/// segment is non-empty, and a segment carries an annotation exactly when
/// one of the spans carrying that annotation covers the segment's whole
/// byte range.
pub fn build_segments(text: &str, spans: &Vec<(usize, usize, Annotation)>) -> (r: Vec<Segment>)
    requires
        forall|k: int|
            0 <= k < spans@.len() ==> (#[trigger] spans@[k]).0 < spans@[k].1 <= text.spec_bytes().len(),
        forall|k: int|
            0 <= k < spans@.len() ==> is_char_boundary(text.spec_bytes(), (#[trigger] spans@[k]).0 as int)
                && is_char_boundary(text.spec_bytes(), spans@[k].1 as int),
    ensures
        concat_texts(r@) == text@,
        forall|si: int| 0 <= si < r@.len() ==> (#[trigger] r@[si]).text@.len() > 0,
        annotations_sound(r@, spans@),
        annotations_complete(r@, spans@),
        annotations_exact(r@, crate::parser::span_views(spans@)),
        cuts_exact(r@, crate::parser::span_views(spans@), text.spec_bytes().len() as int),
        text@.len() == 0 ==> r@.len() == 0,
{
    let ghost b = text.spec_bytes();
    let bs = text.as_bytes();
    let n = bs.len();
    if n == 0 {
        proof {
            if text@.len() > 0 {
                assert(encode_utf8(text@).len() > 0);
            }
            assert(text@ =~= Seq::<char>::empty());
        }
        return Vec::new();
    }
    let bounds = collect_bounds(spans, n, Ghost(b));
    let ghost sv = crate::parser::span_views(spans@);
    let m = bounds.len();
    let mut segs: Vec<Segment> = Vec::new();
    let mut w: usize = 0;
    #[verifier::loop_isolation(true)]
    while w < m - 1
        invariant
            forall|k: int|
                0 <= k < spans@.len() ==> (#[trigger] spans@[k]).0 < spans@[k].1
                    <= text.spec_bytes().len(),
            forall|k: int|
                0 <= k < spans@.len() ==> is_char_boundary(
                    text.spec_bytes(),
                    (#[trigger] spans@[k]).0 as int,
                ) && is_char_boundary(text.spec_bytes(), spans@[k].1 as int),
            b == text.spec_bytes(),
            sv == crate::parser::span_views(spans@),
            n as int == b.len(),
            m == bounds@.len(),
            2 <= m,
            bounds@[m - 1] == n,
            forall|p: int, q: int| 0 <= p < q < bounds@.len() ==> bounds@[p] < bounds@[q],
            forall|u: int|
                0 <= u < bounds@.len() ==> (#[trigger] bounds@[u]) <= n && is_char_boundary(
                    b,
                    bounds@[u] as int,
                ),
            forall|u: int|
                0 <= u < bounds@.len() ==> is_cut_point(sv, n as int, (#[trigger] bounds@[u]) as int),
            forall|u: int, x: int|
                #![trigger bounds@[u], is_cut_point(sv, n as int, x)]
                0 <= u < bounds@.len() - 1 && bounds@[u] < x < bounds@[u + 1] ==> !is_cut_point(
                    sv,
                    n as int,
                    x,
                ),
            w <= m - 1,
            segs@.len() == w,
            seg_offset(segs@, w as int) == bounds@[w as int],
            concat_texts(segs@) == chars_of(b, 0, bounds@[w as int] as int),
            forall|si: int| 0 <= si < w ==> (#[trigger] segs@[si]).text@.len() > 0,
            annotations_sound(segs@, spans@),
            annotations_complete(segs@, spans@),
            annotations_exact(segs@, sv),
            cuts_exact(segs@, sv, n as int),
        decreases m - w,
    {
        let lo = bounds[w];
        let hi = bounds[w + 1];
        emit_window(text, spans, lo, hi, &mut segs, w, n);
        w = w + 1;
    }
    proof {
        assert(b.subrange(0, n as int) =~= b);
        encode_utf8_decode_utf8(text@);
        assert(concat_texts(segs@) == text@);
    }
    segs
}

} // verus!
