//! The core driver: it walks the input once, emits clean text, maintains the
//! open-tag stack, applies the autoclose rules, dispatches tag tokens, copies
//! CDATA bodies through verbatim, and finally drains the stack and segments
//! the clean text.

use vstd::prelude::*;
use vstd::string::StringExecFns;
use vstd::string::StringSliceAdditionalSpecFns;
use vstd::utf8::*;
use crate::chars::chars_eq_ci;
use crate::chars::chars_of;
use crate::chars::lemma_ascii_is_boundary;
use crate::chars::lemma_boundary_after_ascii;
use crate::chars::lemma_boundary_extend;
use crate::chars::lemma_encode_concat;
use crate::chars::lemma_last_newline;
use crate::chars::lemma_last_newline_concat;
use crate::chars::lemma_line_start_ok;
use crate::chars::last_newline;
use crate::chars::line_start_of;
use crate::chars::str_slice;
use crate::types::Annotation;
use crate::types::AttrMap;
use crate::types::Marker;
use crate::types::ParseResult;
use crate::types::ParserConfig;
use crate::types::RecoveryStrategy;
use crate::types::UnknownMode;
use crate::types::StrayEndTagPolicy;

verus! {

broadcast use
    vstd::string::group_string_axioms,
    vstd::utf8::encode_utf8_valid_utf8,
    vstd::utf8::is_char_boundary_start_end_of_seq,
;

/// Tag names equal under the configured case rule.
pub open spec fn name_eq(case_sensitive: bool, a: Seq<char>, b: Seq<char>) -> bool {
    if case_sensitive {
        a == b
    } else {
        chars_eq_ci(a, b)
    }
}

/// Whether the configuration recognizes the tag name `nm`.
pub open spec fn spec_recognized(cfg: ParserConfig, nm: Seq<char>) -> bool {
    exists|i: int|
        0 <= i < cfg.recognized_tags@.len() && name_eq(
            cfg.case_sensitive_tags,
            (#[trigger] cfg.recognized_tags@[i])@,
            nm,
        )
}

/// The recovery strategy bound to `nm`: the latest matching binding wins,
/// and an unlisted tag falls back to `RetroLine`.
pub open spec fn strategy_lookup(
    entries: Seq<(String, RecoveryStrategy)>,
    case_sensitive: bool,
    nm: Seq<char>,
) -> RecoveryStrategy
    decreases entries.len(),
{
    if entries.len() == 0 {
        RecoveryStrategy::RetroLine
    } else if name_eq(case_sensitive, entries.last().0@, nm) {
        entries.last().1
    } else {
        strategy_lookup(entries.drop_last(), case_sensitive, nm)
    }
}

/// The recovery strategy the configuration assigns to the tag name `nm`.
pub open spec fn spec_strategy(cfg: ParserConfig, nm: Seq<char>) -> RecoveryStrategy {
    strategy_lookup(cfg.per_tag_recovery@, cfg.case_sensitive_tags, nm)
}

/// A span over the clean text: non-empty, in bounds, and cut at character
/// boundaries.
pub open spec fn span_ok(tb: Seq<u8>, sp: (usize, usize, Annotation)) -> bool {
    &&& sp.0 < sp.1 <= tb.len()
    &&& is_char_boundary(tb, sp.0 as int)
    &&& is_char_boundary(tb, sp.1 as int)
}

/// A marker position: in bounds and on a character boundary of the clean
/// text.
pub open spec fn marker_ok(tb: Seq<u8>, m: Marker) -> bool {
    m.pos <= tb.len() && is_char_boundary(tb, m.pos as int)
}

/// A tag still open on the stack.
pub(crate) struct OpenTag {
    pub name: String,
    pub attrs: AttrMap,
    pub start_pos: usize,
    pub line_start_at_open: usize,
    pub strategy: RecoveryStrategy,
}

/// An open tag's anchors: its line start never lies after its start, both
/// lie within the clean text, and both sit on character boundaries.
pub(crate) open spec fn open_ok(tb: Seq<u8>, ot: OpenTag) -> bool {
    &&& ot.line_start_at_open <= ot.start_pos <= tb.len()
    &&& is_char_boundary(tb, ot.start_pos as int)
    &&& is_char_boundary(tb, ot.line_start_at_open as int)
}

pub(crate) struct Parser<'a> {
    pub input: &'a str,
    pub config: &'a ParserConfig,
    pub text: String,
    pub line_start: usize,
    pub open: Vec<OpenTag>,
    pub spans: Vec<(usize, usize, Annotation)>,
    pub markers: Vec<Marker>,
}

impl<'a> Parser<'a> {
    /// The UTF-8 bytes of the clean text built so far.
    pub(crate) open spec fn tb(self) -> Seq<u8> {
        encode_utf8(self.text@)
    }

    /// The parser's whole state, mathematically.
    pub(crate) open spec fn st_of(self) -> DriverState {
        DriverState {
            text: self.tb(),
            stack: stack_views(self.open@),
            spans: span_views(self.spans@),
            markers: marker_views(self.markers@),
        }
    }

    /// The parser's working invariant: the line anchor tracks the text, and
    /// every recorded offset is a character boundary within the text.
    pub(crate) open spec fn wf(self) -> bool {
        &&& self.line_start as int == line_start_of(self.tb())
        &&& forall|i: int|
            0 <= i < self.open@.len() ==> open_ok(self.tb(), #[trigger] self.open@[i])
        &&& forall|i: int|
            0 <= i < self.spans@.len() ==> span_ok(self.tb(), #[trigger] self.spans@[i])
        &&& forall|i: int|
            0 <= i < self.markers@.len() ==> marker_ok(self.tb(), #[trigger] self.markers@[i])
    }

    /// Appends literal text to the clean output, keeping the line anchor at
    /// the byte after the last newline.
    pub(crate) fn push_text(&mut self, s: &str)
        requires
            old(self).wf(),
        ensures
            final(self).wf(),
            final(self).text@ == old(self).text@ + s@,
            final(self).tb() == old(self).tb() + s.spec_bytes(),
            final(self).open@ == old(self).open@,
            final(self).spans@ == old(self).spans@,
            final(self).markers@ == old(self).markers@,
            final(self).config == old(self).config,
            final(self).input == old(self).input,
    {
        let ghost tb0 = self.tb();
        let ghost sb = s.spec_bytes();
        let base = self.text.as_str().as_bytes().len();
        self.text.append(s);
        proof {
            lemma_encode_concat(old(self).text@, s@);
            assert(self.tb() == tb0 + sb);
            lemma_last_newline_concat(tb0, sb);
            lemma_last_newline(sb);
        }
        let total = self.text.as_str().as_bytes().len();
        let bs = s.as_bytes();
        let n = bs.len();
        let mut j: usize = n;
        while j > 0
            invariant
                j <= n,
                forall|k: int| j <= k < n ==> sb[k] != 10,
                self.text@ == old(self).text@ + s@,
                self.tb() == tb0 + sb,
                self.line_start == old(self).line_start,
                self.open@ == old(self).open@,
                self.spans@ == old(self).spans@,
                self.markers@ == old(self).markers@,
                self.config == old(self).config,
                self.input == old(self).input,
            decreases j,
        {
            if bs[j - 1] == 10 {
                proof {
                    assert(last_newline(sb) == Some(j - 1)) by {
                        lemma_last_newline(sb);
                        if last_newline(sb) is None {
                            assert(sb[j - 1] != 10);
                        } else {
                            let i = last_newline(sb).unwrap();
                            assert(sb[i] == 10);
                            if i < j - 1 {
                                assert(sb[j - 1] != 10);
                            }
                        }
                    }
                    assert(base + j <= total);
                }
                self.line_start = base + j;
                proof {
                    assert(self.line_start as int == line_start_of(self.tb()));
                    lemma_ok_extend(tb0, sb);
                }
                return ;
            }
            j = j - 1;
        }
        proof {
            lemma_encode_concat(old(self).text@, s@);
            assert(self.tb() == tb0 + sb);
            lemma_last_newline_concat(tb0, sb);
            assert(last_newline(sb) is None) by {
                lemma_last_newline(sb);
                if last_newline(sb) is Some {
                    let i = last_newline(sb).unwrap();
                    assert(sb[i] != 10);
                }
            }
            assert(line_start_of(self.tb()) == line_start_of(tb0));
            lemma_ok_extend(tb0, sb);
        }
    }
}

/// The bounds a recovered span keeps after trimming: whitespace and trim
/// punctuation fall away from both ends when trimming is on.
pub open spec fn trim_bounds(tb: Seq<u8>, s: int, e: int, trim: bool) -> (int, int) {
    if !trim || s >= e {
        (s, e)
    } else {
        let s1 = crate::scan::skip_cut_fwd(tb, s, e, true);
        (s1, crate::scan::cut_end_pos(tb, s1, e, true))
    }
}

/// The byte range of the span that closing `ot` at `close_pos` emits, or
/// `None` when the strategy emits nothing: `RetroLine` covers the line text
/// before the opener, the two forward strategies run from the opener to the
/// next newline or the close, and `ForwardNextToken` covers the first
/// alphanumeric run; trimming applies to each, and empty ranges are dropped.
pub(crate) open spec fn recovery_bounds(tb: Seq<u8>, ot: OpenTag, close_pos: int, trim: bool) -> Option<
    (int, int),
> {
    match ot.strategy {
        RecoveryStrategy::Noop => None,
        RecoveryStrategy::RetroLine => {
            let s0 = if ot.line_start_at_open > ot.start_pos {
                ot.start_pos as int
            } else {
                ot.line_start_at_open as int
            };
            let p = trim_bounds(tb, s0, ot.start_pos as int, trim);
            if p.0 < p.1 {
                Some(p)
            } else {
                None
            }
        },
        RecoveryStrategy::ForwardUntilTag | RecoveryStrategy::ForwardUntilNewline => {
            let e0 = match crate::scan::find_byte_spec(
                tb,
                ot.start_pos as int,
                close_pos,
                crate::scan::NEWLINE,
            ) {
                Some(r) => r,
                None => close_pos,
            };
            let p = trim_bounds(tb, ot.start_pos as int, e0, trim);
            if p.0 < p.1 {
                Some(p)
            } else {
                None
            }
        },
        RecoveryStrategy::ForwardNextToken => {
            let ts = crate::scan::alnum_start(tb, ot.start_pos as int, close_pos);
            if ts == close_pos {
                None
            } else {
                let te = crate::scan::alnum_end(tb, ts, close_pos);
                let p = trim_bounds(tb, ts, te, trim);
                if p.0 < p.1 {
                    Some(p)
                } else {
                    None
                }
            }
        },
    }
}

/// The view of the annotation that an open tag turns into when it closes.
pub(crate) open spec fn ann_of(ot: OpenTag) -> crate::types::AnnotationView {
    crate::types::AnnotationView { tag: ot.name@, attrs: ot.attrs@ }
}

/// `b` extends `a` without touching the part already there.
pub open spec fn spans_extend(
    a: Seq<(usize, usize, Annotation)>,
    b: Seq<(usize, usize, Annotation)>,
) -> bool {
    a.len() <= b.len() && forall|i: int| 0 <= i < a.len() ==> a[i] == #[trigger] b[i]
}

/// The mathematical values of a span list.
pub open spec fn span_views(s: Seq<(usize, usize, Annotation)>) -> Seq<
    (int, int, crate::types::AnnotationView),
> {
    s.map_values(|sp: (usize, usize, Annotation)| (sp.0 as int, sp.1 as int, sp.2@))
}

/// The spans that closing `ot` by its strategy emits: one or none.
pub(crate) open spec fn emit_of(tb: Seq<u8>, ot: OpenTag, close_pos: int, trim: bool) -> Seq<
    (int, int, crate::types::AnnotationView),
> {
    match recovery_bounds(tb, ot, close_pos, trim) {
        Some(p) => seq![(p.0, p.1, ann_of(ot))],
        None => Seq::empty(),
    }
}

/// The spans that closing `ot` explicitly emits: the opener-to-close range,
/// unless it is empty.
pub(crate) open spec fn explicit_emit(ot: OpenTag, close_pos: int) -> Seq<
    (int, int, crate::types::AnnotationView),
> {
    if ot.start_pos < close_pos {
        seq![(ot.start_pos as int, close_pos, ann_of(ot))]
    } else {
        Seq::empty()
    }
}

/// The spans that draining a stack at `close_pos` emits, the most recent
/// tag's first.
pub(crate) open spec fn drain_emits(tb: Seq<u8>, stack: Seq<OpenTag>, close_pos: int, trim: bool) -> Seq<
    (int, int, crate::types::AnnotationView),
>
    decreases stack.len(),
{
    if stack.len() == 0 {
        Seq::empty()
    } else {
        emit_of(tb, stack.last(), close_pos, trim) + drain_emits(
            tb,
            stack.drop_last(),
            close_pos,
            trim,
        )
    }
}

/// A single closed tag adds its emitted span, if any, at the end of the
/// span views.
proof fn lemma_span_views_push(
    s: Seq<(usize, usize, Annotation)>,
    sp: (usize, usize, Annotation),
)
    ensures
        span_views(s.push(sp)) == span_views(s) + seq![(sp.0 as int, sp.1 as int, sp.2@)],
{
    assert(span_views(s.push(sp)) =~= span_views(s) + seq![(sp.0 as int, sp.1 as int, sp.2@)]);
}

impl<'a> Parser<'a> {
    /// Trims a recovered span's bounds when the configuration asks for it.
    fn trim_span(&self, s: usize, e: usize) -> (p: (usize, usize))
        requires
            self.wf(),
            s <= e <= self.tb().len(),
            is_char_boundary(self.tb(), s as int),
            is_char_boundary(self.tb(), e as int),
        ensures
            (p.0 as int, p.1 as int) == trim_bounds(
                self.tb(),
                s as int,
                e as int,
                self.config.trim_punctuation,
            ),
            s <= p.0 <= p.1 <= e,
            is_char_boundary(self.tb(), p.0 as int),
            is_char_boundary(self.tb(), p.1 as int),
    {
        if !self.config.trim_punctuation || s >= e {
            return (s, e);
        }
        let t = self.text.as_str();
        let s1 = crate::scan::skip_cut(t, s, e, true);
        let e1 = crate::scan::cut_end(t, s1, e, true);
        (s1, e1)
    }

    /// Records the span `[s, e)` for the closed tag, after trimming, when it
    /// is non-empty.
    fn push_trimmed_span(&mut self, name: String, attrs: AttrMap, s: usize, e: usize)
        requires
            old(self).wf(),
            s <= e <= old(self).tb().len(),
            is_char_boundary(old(self).tb(), s as int),
            is_char_boundary(old(self).tb(), e as int),
        ensures
            final(self).wf(),
            final(self).text@ == old(self).text@,
            final(self).open@ == old(self).open@,
            final(self).markers@ == old(self).markers@,
            final(self).config == old(self).config,
            final(self).input == old(self).input,
            ({
                let p = trim_bounds(
                    old(self).tb(),
                    s as int,
                    e as int,
                    old(self).config.trim_punctuation,
                );
                let sv = final(self).spans@;
                let ov = old(self).spans@;
                if p.0 < p.1 {
                    sv.drop_last() == ov && sv.len() == ov.len() + 1 && sv.last().0 == p.0
                        && sv.last().1 == p.1 && (sv.last().2@
                        == crate::types::AnnotationView { tag: name@, attrs: attrs@ })
                } else {
                    sv == ov
                }
            }),
    {
        let (s1, e1) = self.trim_span(s, e);
        if s1 < e1 {
            let annotation = Annotation { tag: name, attrs };
            let ghost prev = self.spans@;
            self.spans.push((s1, e1, annotation));
            proof {
                assert(self.spans@.drop_last() =~= prev);
            }
        }
    }

    /// Closes `ot` at `close_pos` by its recovery strategy, recording the
    /// recovered span, if the strategy yields one.
    fn close_tag(&mut self, ot: OpenTag, close_pos: usize)
        requires
            old(self).wf(),
            open_ok(old(self).tb(), ot),
            ot.start_pos <= close_pos <= old(self).tb().len(),
            is_char_boundary(old(self).tb(), close_pos as int),
        ensures
            final(self).wf(),
            final(self).text@ == old(self).text@,
            final(self).open@ == old(self).open@,
            final(self).markers@ == old(self).markers@,
            final(self).config == old(self).config,
            final(self).input == old(self).input,
            ({
                let r = recovery_bounds(
                    old(self).tb(),
                    ot,
                    close_pos as int,
                    old(self).config.trim_punctuation,
                );
                let sv = final(self).spans@;
                let ov = old(self).spans@;
                match r {
                    None => sv == ov,
                    Some(p) => sv.drop_last() == ov && sv.len() == ov.len() + 1 && sv.last().0
                        == p.0 && sv.last().1 == p.1 && (sv.last().2@ == ann_of(ot)),
                }
            }),
    {
        let OpenTag { name, attrs, start_pos, line_start_at_open, strategy } = ot;
        match strategy {
            RecoveryStrategy::Noop => {},
            RecoveryStrategy::RetroLine => {
                let mut start: usize = line_start_at_open;
                let end: usize = start_pos;
                if start > end {
                    start = end;
                }
                self.push_trimmed_span(name, attrs, start, end);
            },
            RecoveryStrategy::ForwardUntilTag | RecoveryStrategy::ForwardUntilNewline => {
                let end = match crate::scan::find_byte(
                    self.text.as_str(),
                    start_pos,
                    close_pos,
                    crate::scan::NEWLINE,
                ) {
                    Some(r) => {
                        proof {
                            crate::scan::lemma_find_byte(
                                self.tb(),
                                start_pos as int,
                                close_pos as int,
                                crate::scan::NEWLINE,
                            );
                            lemma_ascii_is_boundary(self.tb(), r as int);
                        }
                        r
                    },
                    None => close_pos,
                };
                self.push_trimmed_span(name, attrs, start_pos, end);
            },
            RecoveryStrategy::ForwardNextToken => {
                match crate::scan::next_token_bounds(self.text.as_str(), start_pos, close_pos) {
                    Some(t) => {
                        self.push_trimmed_span(name, attrs, t.0, t.1);
                    },
                    None => {},
                }
            },
        }
    }

    /// Closes `ot` at `close_pos` explicitly: the span runs from the opener
    /// to the close, untrimmed, and is dropped only when empty.
    fn close_explicit(&mut self, ot: OpenTag, close_pos: usize)
        requires
            old(self).wf(),
            open_ok(old(self).tb(), ot),
            ot.start_pos <= close_pos <= old(self).tb().len(),
            is_char_boundary(old(self).tb(), close_pos as int),
        ensures
            final(self).wf(),
            final(self).text@ == old(self).text@,
            final(self).open@ == old(self).open@,
            final(self).markers@ == old(self).markers@,
            final(self).config == old(self).config,
            final(self).input == old(self).input,
            ({
                let sv = final(self).spans@;
                let ov = old(self).spans@;
                if ot.start_pos < close_pos {
                    sv.drop_last() == ov && sv.len() == ov.len() + 1 && sv.last().0 == ot.start_pos
                        && sv.last().1 == close_pos && (sv.last().2@ == ann_of(ot))
                } else {
                    sv == ov
                }
            }),
    {
        let OpenTag { name, attrs, start_pos, line_start_at_open: _, strategy: _ } = ot;
        if start_pos >= close_pos {
            return ;
        }
        let annotation = Annotation { tag: name, attrs };
        let ghost prev = self.spans@;
        self.spans.push((start_pos, close_pos, annotation));
        proof {
            assert(self.spans@.drop_last() =~= prev);
        }
    }

    /// Drains the whole open stack, closing each tag by its strategy, the
    /// most recent first.
    fn close_all_open(&mut self, close_pos: usize)
        requires
            old(self).wf(),
            close_pos as int == old(self).tb().len(),
        ensures
            final(self).wf(),
            final(self).text@ == old(self).text@,
            final(self).open@.len() == 0,
            final(self).markers@ == old(self).markers@,
            final(self).config == old(self).config,
            final(self).input == old(self).input,
            spans_extend(old(self).spans@, final(self).spans@),
            old(self).open@.len() == 0 ==> final(self).spans@ == old(self).spans@,
            span_views(final(self).spans@) == span_views(old(self).spans@) + drain_emits(
                old(self).tb(),
                old(self).open@,
                close_pos as int,
                old(self).config.trim_punctuation,
            ),
    {
        proof {
            lemma_line_start_ok(self.tb());
        }
        let ghost tb0 = self.tb();
        let ghost trim = self.config.trim_punctuation;
        loop
            invariant
                self.wf(),
                self.text@ == old(self).text@,
                self.markers@ == old(self).markers@,
                self.config == old(self).config,
                self.input == old(self).input,
                close_pos as int == self.tb().len(),
                spans_extend(old(self).spans@, self.spans@),
                old(self).open@.len() == 0 ==> self.spans@ == old(self).spans@ && self.open@.len()
                    == 0,
                span_views(old(self).spans@) + drain_emits(tb0, old(self).open@, close_pos as int, trim)
                    == span_views(self.spans@) + drain_emits(
                    tb0,
                    self.open@,
                    close_pos as int,
                    trim,
                ),
            decreases self.open@.len(),
        {
            let ghost open_before = self.open@;
            let ot = match self.open.pop() {
                Some(ot) => ot,
                None => {
                    proof {
                        assert(drain_emits(tb0, self.open@, close_pos as int, trim)
                            =~= Seq::<(int, int, crate::types::AnnotationView)>::empty());
                        assert(span_views(self.spans@) + drain_emits(
                            tb0,
                            self.open@,
                            close_pos as int,
                            trim,
                        ) =~= span_views(self.spans@));
                    }
                    return ;
                },
            };
            proof {
                assert(open_ok(self.tb(), ot));
                is_char_boundary_start_end_of_seq(self.tb());
                assert(ot == open_before.last());
                assert(self.open@ =~= open_before.drop_last());
            }
            let ghost before = self.spans@;
            self.close_tag(ot, close_pos);
            proof {
                assert(spans_extend(before, self.spans@));
                let e = emit_of(tb0, ot, close_pos as int, trim);
                let d = drain_emits(tb0, self.open@, close_pos as int, trim);
                assert(span_views(self.spans@) == span_views(before) + e) by {
                    match recovery_bounds(tb0, ot, close_pos as int, trim) {
                        Some(p) => {
                            lemma_span_views_push(before, self.spans@.last());
                            assert(self.spans@ =~= before.push(self.spans@.last()));
                            assert(e =~= seq![
                                (
                                    self.spans@.last().0 as int,
                                    self.spans@.last().1 as int,
                                    self.spans@.last().2@,
                                ),
                            ]);
                        },
                        None => {
                            assert(span_views(before) + e =~= span_views(before));
                        },
                    }
                }
                assert(span_views(before) + (e + d) =~= (span_views(before) + e) + d);
            }
        }
    }
}

/// Bounds of the `>` search.
pub(crate) proof fn lemma_scan_gt_bounds(b: Seq<u8>, i: int)
    requires
        0 <= i <= b.len(),
    ensures
        match crate::scan::scan_gt(b, i) {
            Some(g) => i <= g < b.len(),
            None => true,
        },
    decreases b.len() - i,
{
    if i < b.len() && b[i] != crate::scan::GT {
        lemma_scan_gt_bounds(b, i + 1);
    }
}

/// A token read at `i` ends after `i` and within the input.
pub(crate) proof fn lemma_token_next(b: Seq<u8>, i: int)
    requires
        0 <= i <= b.len(),
    ensures
        match crate::token::token_at(b, i) {
            Some(t) => i < t.next <= b.len(),
            None => true,
        },
{
    lemma_scan_gt_bounds(b, i);
}

/// The clean text that a parse with no recognized tags produces from the
/// input suffix starting at `i`: CDATA bodies are kept and their wrappers
/// stripped, tag-shaped tokens are removed under `Strip` and kept verbatim
/// otherwise, and everything else is copied through.
pub open spec fn plain_output(b: Seq<u8>, i: int, mode: UnknownMode) -> Seq<u8>
    decreases b.len() - i,
    when 0 <= i <= b.len()
    via plain_output_decreases
{
    if i >= b.len() {
        Seq::empty()
    } else if crate::scan::is_cdata_open_at(b, i) {
        match crate::scan::cdata_close_from(b, i + 9) {
            Some(j) => b.subrange(i + 9, j) + plain_output(b, j + 3, mode),
            None => b.subrange(i + 9, b.len() as int),
        }
    } else if b[i] == crate::scan::LT {
        match crate::token::token_at(b, i) {
            Some(t) => (if mode == UnknownMode::Strip {
                Seq::empty()
            } else {
                b.subrange(i, t.next)
            }) + plain_output(b, t.next, mode),
            None => seq![crate::scan::LT] + plain_output(b, i + 1, mode),
        }
    } else {
        match crate::scan::find_byte_spec(b, i, b.len() as int, crate::scan::LT) {
            Some(j) => b.subrange(i, j) + plain_output(b, j, mode),
            None => b.subrange(i, b.len() as int),
        }
    }
}

#[via_fn]
proof fn plain_output_decreases(b: Seq<u8>, i: int, mode: UnknownMode) {
    if 0 <= i < b.len() {
        if crate::scan::is_cdata_open_at(b, i) {
            crate::scan::lemma_cdata_close_from(b, i + 9);
        } else if b[i] == crate::scan::LT {
            lemma_token_next(b, i);
        } else {
            crate::scan::lemma_find_byte(b, i, b.len() as int, crate::scan::LT);
        }
    }
}

/// With no recognized tags and a mode that keeps tag tokens, parsing copies
/// the input through unchanged wherever no CDATA opener occurs.
proof fn lemma_plain_identity_from(b: Seq<u8>, i: int, mode: UnknownMode)
    requires
        0 <= i <= b.len(),
        mode != UnknownMode::Strip,
        forall|j: int| !(#[trigger] crate::scan::is_cdata_open_at(b, j)),
    ensures
        plain_output(b, i, mode) == b.subrange(i, b.len() as int),
    decreases b.len() - i,
{
    if i >= b.len() {
        assert(b.subrange(i, b.len() as int) =~= Seq::<u8>::empty());
    } else if b[i] == crate::scan::LT {
        match crate::token::token_at(b, i) {
            Some(t) => {
                lemma_token_next(b, i);
                lemma_plain_identity_from(b, t.next, mode);
                assert(b.subrange(i, t.next) + b.subrange(t.next, b.len() as int) =~= b.subrange(
                    i,
                    b.len() as int,
                ));
            },
            None => {
                lemma_plain_identity_from(b, i + 1, mode);
                assert(seq![crate::scan::LT] + b.subrange(i + 1, b.len() as int) =~= b.subrange(
                    i,
                    b.len() as int,
                ));
            },
        }
    } else {
        match crate::scan::find_byte_spec(b, i, b.len() as int, crate::scan::LT) {
            Some(j) => {
                crate::scan::lemma_find_byte(b, i, b.len() as int, crate::scan::LT);
                lemma_plain_identity_from(b, j, mode);
                assert(b.subrange(i, j) + b.subrange(j, b.len() as int) =~= b.subrange(
                    i,
                    b.len() as int,
                ));
            },
            None => {},
        }
    }
}

/// The identity wrapper is idempotent: re-parsing an already-clean text with
/// no recognized tags, under a mode that keeps tag tokens, gives the same
/// text back, provided the text holds no CDATA opener. The premise on
/// `output` is exactly what [`parse`] guarantees of its result's text when
/// `input` is the text re-parsed.
pub proof fn lemma_reparse_identity(input: Seq<char>, output: Seq<char>, mode: UnknownMode)
    requires
        mode != UnknownMode::Strip,
        forall|j: int| !(#[trigger] crate::scan::is_cdata_open_at(encode_utf8(input), j)),
        encode_utf8(output) == plain_output(encode_utf8(input), 0, mode),
    ensures
        output == input,
{
    lemma_plain_identity_from(encode_utf8(input), 0, mode);
    assert(encode_utf8(input).subrange(0, encode_utf8(input).len() as int) =~= encode_utf8(input));
    encode_utf8_decode_utf8(input);
    encode_utf8_decode_utf8(output);
    assert(decode_utf8(encode_utf8(output)) == decode_utf8(encode_utf8(input)));
}

/// Mathematical value of an open tag: what the stack entry means.
#[verifier::ext_equal]
pub struct OpenTagView {
    pub tag: Seq<char>,
    pub attrs: Map<Seq<char>, crate::types::AttrValueView>,
    pub start_pos: int,
    pub line_start_at_open: int,
    pub strategy: RecoveryStrategy,
}

/// The view of one open tag.
pub(crate) open spec fn ot_view(ot: OpenTag) -> OpenTagView {
    OpenTagView {
        tag: ot.name@,
        attrs: ot.attrs@,
        start_pos: ot.start_pos as int,
        line_start_at_open: ot.line_start_at_open as int,
        strategy: ot.strategy,
    }
}

/// The views of a whole stack.
pub(crate) open spec fn stack_views(stack: Seq<OpenTag>) -> Seq<OpenTagView> {
    stack.map_values(|ot: OpenTag| ot_view(ot))
}

/// The mathematical values of the marker list: offset and annotation.
pub open spec fn marker_views(ms: Seq<Marker>) -> Seq<(int, crate::types::AnnotationView)> {
    ms.map_values(|m: Marker| (m.pos as int, m.annotation@))
}

/// The byte range of the span that closing the open tag `ot` at `close_pos`
/// emits, stated over the tag's view.
pub open spec fn recovery_bounds_v(
    tb: Seq<u8>,
    ot: OpenTagView,
    close_pos: int,
    trim: bool,
) -> Option<(int, int)> {
    match ot.strategy {
        RecoveryStrategy::Noop => None,
        RecoveryStrategy::RetroLine => {
            let s0 = if ot.line_start_at_open > ot.start_pos {
                ot.start_pos
            } else {
                ot.line_start_at_open
            };
            let p = trim_bounds(tb, s0, ot.start_pos, trim);
            if p.0 < p.1 {
                Some(p)
            } else {
                None
            }
        },
        RecoveryStrategy::ForwardUntilTag | RecoveryStrategy::ForwardUntilNewline => {
            let e0 = match crate::scan::find_byte_spec(
                tb,
                ot.start_pos,
                close_pos,
                crate::scan::NEWLINE,
            ) {
                Some(r) => r,
                None => close_pos,
            };
            let p = trim_bounds(tb, ot.start_pos, e0, trim);
            if p.0 < p.1 {
                Some(p)
            } else {
                None
            }
        },
        RecoveryStrategy::ForwardNextToken => {
            let ts = crate::scan::alnum_start(tb, ot.start_pos, close_pos);
            if ts == close_pos {
                None
            } else {
                let te = crate::scan::alnum_end(tb, ts, close_pos);
                let p = trim_bounds(tb, ts, te, trim);
                if p.0 < p.1 {
                    Some(p)
                } else {
                    None
                }
            }
        },
    }
}

/// The annotation of an open tag's view.
pub open spec fn ann_of_v(ot: OpenTagView) -> crate::types::AnnotationView {
    crate::types::AnnotationView { tag: ot.tag, attrs: ot.attrs }
}

/// The spans that closing an open tag by its strategy emits, over views.
pub open spec fn emit_v(tb: Seq<u8>, ot: OpenTagView, close_pos: int, trim: bool) -> Seq<
    (int, int, crate::types::AnnotationView),
> {
    match recovery_bounds_v(tb, ot, close_pos, trim) {
        Some(p) => seq![(p.0, p.1, ann_of_v(ot))],
        None => Seq::empty(),
    }
}

/// The spans that closing an open tag explicitly emits, over views.
pub open spec fn explicit_v(ot: OpenTagView, close_pos: int) -> Seq<
    (int, int, crate::types::AnnotationView),
> {
    if ot.start_pos < close_pos {
        seq![(ot.start_pos, close_pos, ann_of_v(ot))]
    } else {
        Seq::empty()
    }
}

/// The spans that draining a stack of views emits, most recent tag first.
pub open spec fn drain_v(
    tb: Seq<u8>,
    stack: Seq<OpenTagView>,
    close_pos: int,
    trim: bool,
) -> Seq<(int, int, crate::types::AnnotationView)>
    decreases stack.len(),
{
    if stack.len() == 0 {
        Seq::empty()
    } else {
        emit_v(tb, stack.last(), close_pos, trim) + drain_v(tb, stack.drop_last(), close_pos, trim)
    }
}

/// The topmost matching open tag in a stack of views.
pub open spec fn last_match_v(stack: Seq<OpenTagView>, case_sensitive: bool, nm: Seq<char>) -> Option<
    int,
>
    decreases stack.len(),
{
    if stack.len() == 0 {
        None
    } else if name_eq(case_sensitive, stack.last().tag, nm) {
        Some(stack.len() - 1)
    } else {
        last_match_v(stack.drop_last(), case_sensitive, nm)
    }
}

/// A tag's recovery behaviour depends only on its view.
proof fn lemma_recovery_bridge(tb: Seq<u8>, ot: OpenTag, close_pos: int, trim: bool)
    ensures
        recovery_bounds(tb, ot, close_pos, trim) == recovery_bounds_v(tb, ot_view(ot), close_pos, trim),
        emit_of(tb, ot, close_pos, trim) == emit_v(tb, ot_view(ot), close_pos, trim),
        explicit_emit(ot, close_pos) == explicit_v(ot_view(ot), close_pos),
{
}

/// Draining a stack depends only on the tags' views.
proof fn lemma_drain_bridge(tb: Seq<u8>, stack: Seq<OpenTag>, close_pos: int, trim: bool)
    ensures
        drain_emits(tb, stack, close_pos, trim) == drain_v(tb, stack_views(stack), close_pos, trim),
    decreases stack.len(),
{
    if stack.len() == 0 {
        assert(stack_views(stack) =~= Seq::<OpenTagView>::empty());
    } else {
        lemma_drain_bridge(tb, stack.drop_last(), close_pos, trim);
        lemma_recovery_bridge(tb, stack.last(), close_pos, trim);
        assert(stack_views(stack).drop_last() =~= stack_views(stack.drop_last()));
        assert(stack_views(stack).last() == ot_view(stack.last()));
    }
}

/// Matching a name against the stack depends only on the tags' views.
proof fn lemma_last_match_bridge(stack: Seq<OpenTag>, case_sensitive: bool, nm: Seq<char>)
    ensures
        last_match(stack, case_sensitive, nm) == last_match_v(stack_views(stack), case_sensitive, nm),
    decreases stack.len(),
{
    if stack.len() == 0 {
        assert(stack_views(stack) =~= Seq::<OpenTagView>::empty());
    } else {
        lemma_last_match_bridge(stack.drop_last(), case_sensitive, nm);
        assert(stack_views(stack).drop_last() =~= stack_views(stack.drop_last()));
        assert(stack_views(stack).last() == ot_view(stack.last()));
    }
}

/// The whole driver state, mathematically: the clean text bytes, the open
/// stack, the emitted spans, and the emitted markers.
#[verifier::ext_equal]
pub struct DriverState {
    pub text: Seq<u8>,
    pub stack: Seq<OpenTagView>,
    pub spans: Seq<(int, int, crate::types::AnnotationView)>,
    pub markers: Seq<(int, crate::types::AnnotationView)>,
}

/// Appending literal text to the clean output.
pub open spec fn st_push_text(st: DriverState, bytes: Seq<u8>) -> DriverState {
    DriverState { text: st.text + bytes, stack: st.stack, spans: st.spans, markers: st.markers }
}

/// What an unknown tag does to the state: dropped under `Strip`, copied
/// verbatim otherwise.
pub open spec fn st_unknown(st: DriverState, mode: UnknownMode, raw: Seq<u8>) -> DriverState {
    match mode {
        UnknownMode::Strip => st,
        _ => st_push_text(st, raw),
    }
}

/// Closing through the open tag at index `ix`: the tags above it close by
/// their strategies, most recent first, and the tag itself closes
/// explicitly.
pub open spec fn st_close_through(st: DriverState, ix: int, trim: bool) -> DriverState {
    DriverState {
        text: st.text,
        stack: st.stack.take(ix),
        spans: st.spans + drain_v(st.text, st.stack.skip(ix + 1), st.text.len() as int, trim)
            + explicit_v(st.stack[ix], st.text.len() as int),
        markers: st.markers,
    }
}

/// Draining the whole stack, each tag closing by its strategy.
pub open spec fn st_drain(st: DriverState, trim: bool) -> DriverState {
    DriverState {
        text: st.text,
        stack: Seq::empty(),
        spans: st.spans + drain_v(st.text, st.stack, st.text.len() as int, trim),
        markers: st.markers,
    }
}

/// The autoclose rules a recognized start-like tag triggers: close through
/// an open tag of the same name first, then, if configured, drain the whole
/// stack.
pub open spec fn st_autoclose(cfg: ParserConfig, st: DriverState, nm: Seq<char>) -> DriverState {
    let st1 = if cfg.autoclose_on_same_tag {
        match last_match_v(st.stack, cfg.case_sensitive_tags, nm) {
            Some(ix) => st_close_through(st, ix, cfg.trim_punctuation),
            None => st,
        }
    } else {
        st
    };
    if cfg.autoclose_on_any_tag {
        st_drain(st1, cfg.trim_punctuation)
    } else {
        st1
    }
}

/// What one tag token does to the state.
pub open spec fn st_dispatch(
    b: Seq<u8>,
    cfg: ParserConfig,
    st: DriverState,
    t: crate::token::TokenModel,
    i: int,
) -> DriverState {
    let raw = b.subrange(i, t.next);
    let recognized = spec_recognized(cfg, t.name);
    if cfg.unknown_mode == UnknownMode::TreatAsText && !recognized {
        st_push_text(st, raw)
    } else {
        match t.kind {
            crate::token::TagKind::Start => if recognized {
                let st1 = st_autoclose(cfg, st, t.name);
                DriverState {
                    text: st1.text,
                    stack: st1.stack.push(
                        OpenTagView {
                            tag: t.name,
                            attrs: t.attrs,
                            start_pos: st1.text.len() as int,
                            line_start_at_open: line_start_of(st1.text),
                            strategy: spec_strategy(cfg, t.name),
                        },
                    ),
                    spans: st1.spans,
                    markers: st1.markers,
                }
            } else {
                st_unknown(st, cfg.unknown_mode, raw)
            },
            crate::token::TagKind::SelfClosing => if recognized {
                let st1 = st_autoclose(cfg, st, t.name);
                DriverState {
                    text: st1.text,
                    stack: st1.stack,
                    spans: st1.spans,
                    markers: st1.markers.push(
                        (
                            st1.text.len() as int,
                            crate::types::AnnotationView { tag: t.name, attrs: t.attrs },
                        ),
                    ),
                }
            } else {
                st_unknown(st, cfg.unknown_mode, raw)
            },
            crate::token::TagKind::End => if recognized {
                match last_match_v(st.stack, cfg.case_sensitive_tags, t.name) {
                    Some(ix) => st_close_through(st, ix, cfg.trim_punctuation),
                    None => match cfg.stray_end_tag_policy {
                        StrayEndTagPolicy::Drop => st,
                        StrayEndTagPolicy::Passthrough => st_push_text(st, raw),
                    },
                }
            } else {
                st_unknown(st, cfg.unknown_mode, raw)
            },
        }
    }
}

/// Runs the driver over the input suffix starting at `i`: CDATA bodies are
/// copied with their wrappers stripped, tag tokens are dispatched, a `<`
/// that starts no token is copied, and plain text is copied up to the next
/// `<`. The end-of-document drain is not included.
pub open spec fn drive(b: Seq<u8>, cfg: ParserConfig, st: DriverState, i: int) -> DriverState
    decreases b.len() - i,
    when 0 <= i <= b.len()
    via drive_decreases
{
    if i >= b.len() {
        st
    } else if crate::scan::is_cdata_open_at(b, i) {
        match crate::scan::cdata_close_from(b, i + 9) {
            Some(j) => drive(b, cfg, st_push_text(st, b.subrange(i + 9, j)), j + 3),
            None => st_push_text(st, b.subrange(i + 9, b.len() as int)),
        }
    } else if b[i] == crate::scan::LT {
        match crate::token::token_at(b, i) {
            Some(t) => drive(b, cfg, st_dispatch(b, cfg, st, t, i), t.next),
            None => drive(b, cfg, st_push_text(st, seq![crate::scan::LT]), i + 1),
        }
    } else {
        match crate::scan::find_byte_spec(b, i, b.len() as int, crate::scan::LT) {
            Some(j) => drive(b, cfg, st_push_text(st, b.subrange(i, j)), j),
            None => st_push_text(st, b.subrange(i, b.len() as int)),
        }
    }
}

#[via_fn]
proof fn drive_decreases(b: Seq<u8>, cfg: ParserConfig, st: DriverState, i: int) {
    if 0 <= i < b.len() {
        if crate::scan::is_cdata_open_at(b, i) {
            crate::scan::lemma_cdata_close_from(b, i + 9);
        } else if b[i] == crate::scan::LT {
            lemma_token_next(b, i);
        } else {
            crate::scan::lemma_find_byte(b, i, b.len() as int, crate::scan::LT);
        }
    }
}

/// The parse of a whole input: the driver runs from the empty state over
/// all of it, and the tags still open at the end drain.
pub open spec fn driver_post(b: Seq<u8>, cfg: ParserConfig) -> DriverState {
    let init = DriverState {
        text: Seq::empty(),
        stack: Seq::empty(),
        spans: Seq::empty(),
        markers: Seq::empty(),
    };
    st_drain(drive(b, cfg, init, 0), cfg.trim_punctuation)
}

/// Markers sit within the clean text and never step backwards.
pub open spec fn markers_in_order(st: DriverState) -> bool {
    &&& forall|j: int, k: int|
        0 <= j <= k < st.markers.len() ==> (#[trigger] st.markers[j]).0 <= (
        #[trigger] st.markers[k]).0
    &&& forall|j: int| 0 <= j < st.markers.len() ==> (#[trigger] st.markers[j]).0 <= st.text.len()
}

/// One dispatch step keeps the markers in order: a new marker lands at the
/// current end of the text, and the text only ever grows.
proof fn lemma_dispatch_markers(
    b: Seq<u8>,
    cfg: ParserConfig,
    st: DriverState,
    t: crate::token::TokenModel,
    i: int,
)
    requires
        markers_in_order(st),
    ensures
        markers_in_order(st_dispatch(b, cfg, st, t, i)),
        st.text.len() <= st_dispatch(b, cfg, st, t, i).text.len(),
{
    let st2 = st_dispatch(b, cfg, st, t, i);
    assert(st_autoclose(cfg, st, t.name).text == st.text);
    assert(st_autoclose(cfg, st, t.name).markers == st.markers);
}

/// The driver keeps the markers in order from any state that has them so.
#[verifier::rlimit(60)]
proof fn lemma_drive_markers(b: Seq<u8>, cfg: ParserConfig, st: DriverState, i: int)
    requires
        0 <= i <= b.len(),
        markers_in_order(st),
    ensures
        markers_in_order(drive(b, cfg, st, i)),
    decreases b.len() - i,
{
    if i >= b.len() {
    } else if crate::scan::is_cdata_open_at(b, i) {
        crate::scan::lemma_cdata_close_from(b, i + 9);
        match crate::scan::cdata_close_from(b, i + 9) {
            Some(j) => {
                lemma_drive_markers(b, cfg, st_push_text(st, b.subrange(i + 9, j)), j + 3);
            },
            None => {},
        }
    } else if b[i] == crate::scan::LT {
        lemma_token_next(b, i);
        match crate::token::token_at(b, i) {
            Some(t) => {
                lemma_dispatch_markers(b, cfg, st, t, i);
                lemma_drive_markers(b, cfg, st_dispatch(b, cfg, st, t, i), t.next);
            },
            None => {
                lemma_drive_markers(b, cfg, st_push_text(st, seq![crate::scan::LT]), i + 1);
            },
        }
    } else {
        crate::scan::lemma_find_byte(b, i, b.len() as int, crate::scan::LT);
        match crate::scan::find_byte_spec(b, i, b.len() as int, crate::scan::LT) {
            Some(j) => {
                lemma_drive_markers(b, cfg, st_push_text(st, b.subrange(i, j)), j);
            },
            None => {},
        }
    }
}

/// Markers are emitted left to right: in any parse's result their offsets
/// never decrease, and each lies within the clean text.
pub proof fn lemma_markers_monotone(b: Seq<u8>, cfg: ParserConfig)
    ensures
        markers_in_order(driver_post(b, cfg)),
{
    let init = DriverState {
        text: Seq::empty(),
        stack: Seq::empty(),
        spans: Seq::empty(),
        markers: Seq::empty(),
    };
    lemma_drive_markers(b, cfg, init, 0);
}

/// With no recognized tags the driver only copies text: the machine adds
/// exactly `plain_output` to the clean text and touches nothing else.
#[verifier::rlimit(60)]
proof fn lemma_drive_plain(b: Seq<u8>, cfg: ParserConfig, st: DriverState, i: int)
    requires
        0 <= i <= b.len(),
        cfg.recognized_tags@.len() == 0,
    ensures
        drive(b, cfg, st, i) == (DriverState {
            text: st.text + plain_output(b, i, cfg.unknown_mode),
            stack: st.stack,
            spans: st.spans,
            markers: st.markers,
        }),
    decreases b.len() - i,
{
    let mode = cfg.unknown_mode;
    if i >= b.len() {
        assert(st.text + plain_output(b, i, mode) =~= st.text);
        assert(drive(b, cfg, st, i) =~= (DriverState {
            text: st.text + plain_output(b, i, mode),
            stack: st.stack,
            spans: st.spans,
            markers: st.markers,
        }));
    } else if crate::scan::is_cdata_open_at(b, i) {
        crate::scan::lemma_cdata_close_from(b, i + 9);
        match crate::scan::cdata_close_from(b, i + 9) {
            Some(j) => {
                lemma_drive_plain(b, cfg, st_push_text(st, b.subrange(i + 9, j)), j + 3);
                assert((st.text + b.subrange(i + 9, j)) + plain_output(b, j + 3, mode) =~= st.text
                    + (b.subrange(i + 9, j) + plain_output(b, j + 3, mode)));
            },
            None => {},
        }
    } else if b[i] == crate::scan::LT {
        lemma_token_next(b, i);
        match crate::token::token_at(b, i) {
            Some(t) => {
                assert(!spec_recognized(cfg, t.name));
                let raw = b.subrange(i, t.next);
                let st1 = st_dispatch(b, cfg, st, t, i);
                lemma_drive_plain(b, cfg, st1, t.next);
                if mode == UnknownMode::Strip {
                    assert(st1 == st);
                    assert(st.text + (Seq::<u8>::empty() + plain_output(b, t.next, mode)) =~= st.text
                        + plain_output(b, t.next, mode));
                } else {
                    assert(st1 == st_push_text(st, raw));
                    assert((st.text + raw) + plain_output(b, t.next, mode) =~= st.text + (raw
                        + plain_output(b, t.next, mode)));
                }
            },
            None => {
                lemma_drive_plain(b, cfg, st_push_text(st, seq![crate::scan::LT]), i + 1);
                assert((st.text + seq![crate::scan::LT]) + plain_output(b, i + 1, mode) =~= st.text
                    + (seq![crate::scan::LT] + plain_output(b, i + 1, mode)));
            },
        }
    } else {
        crate::scan::lemma_find_byte(b, i, b.len() as int, crate::scan::LT);
        match crate::scan::find_byte_spec(b, i, b.len() as int, crate::scan::LT) {
            Some(j) => {
                lemma_drive_plain(b, cfg, st_push_text(st, b.subrange(i, j)), j);
                assert((st.text + b.subrange(i, j)) + plain_output(b, j, mode) =~= st.text + (
                b.subrange(i, j) + plain_output(b, j, mode)));
            },
            None => {},
        }
    }
}

/// The index of the topmost open tag whose name matches `nm` under the case
/// rule, if any.
pub(crate) open spec fn last_match(stack: Seq<OpenTag>, case_sensitive: bool, nm: Seq<char>) -> Option<
    int,
>
    decreases stack.len(),
{
    if stack.len() == 0 {
        None
    } else if name_eq(case_sensitive, stack.last().name@, nm) {
        Some(stack.len() - 1)
    } else {
        last_match(stack.drop_last(), case_sensitive, nm)
    }
}

impl<'a> Parser<'a> {
    /// Whether the configuration recognizes the tag name.
    fn is_recognized(&self, name: &str) -> (r: bool)
        ensures
            r == spec_recognized(*self.config, name@),
    {
        let cs = self.config.case_sensitive_tags;
        let n = self.config.recognized_tags.len();
        let mut i: usize = 0;
        while i < n
            invariant
                i <= n,
                forall|k: int|
                    0 <= k < i ==> !name_eq(cs, (#[trigger] self.config.recognized_tags@[k])@, name@),
            decreases n - i,
        {
            if crate::chars::str_eq_fold(self.config.recognized_tags[i].as_str(), name, !cs) {
                return true;
            }
            i = i + 1;
        }
        false
    }

    /// The recovery strategy the configuration assigns to the tag name.
    fn strategy_for(&self, name: &str) -> (r: RecoveryStrategy)
        ensures
            r == spec_strategy(*self.config, name@),
    {
        let cs = self.config.case_sensitive_tags;
        let entries = &self.config.per_tag_recovery;
        let n = entries.len();
        proof {
            assert(entries@.take(n as int) =~= entries@);
        }
        let mut i: usize = n;
        while i > 0
            invariant
                i <= n,
                spec_strategy(*self.config, name@) == strategy_lookup(
                    entries@.take(i as int),
                    cs,
                    name@,
                ),
            decreases i,
        {
            i = i - 1;
            proof {
                assert(entries@.take(i + 1).drop_last() =~= entries@.take(i as int));
                assert(entries@.take(i + 1).last() == entries@[i as int]);
            }
            if crate::chars::str_eq_fold(entries[i].0.as_str(), name, !cs) {
                return entries[i].1;
            }
        }
        proof {
            assert(entries@.take(0) =~= Seq::<(String, RecoveryStrategy)>::empty());
        }
        RecoveryStrategy::RetroLine
    }

    /// Finds the topmost open tag whose name matches, under the case rule.
    fn find_open(&self, name: &str) -> (r: Option<usize>)
        ensures
            match r {
                Some(i) => last_match(self.open@, self.config.case_sensitive_tags, name@) == Some(
                    i as int,
                ) && i < self.open@.len(),
                None => last_match(self.open@, self.config.case_sensitive_tags, name@) is None,
            },
    {
        let cs = self.config.case_sensitive_tags;
        let n = self.open.len();
        proof {
            assert(self.open@.take(n as int) =~= self.open@);
        }
        let mut i: usize = n;
        while i > 0
            invariant
                i <= n,
                last_match(self.open@, cs, name@) == last_match(self.open@.take(i as int), cs, name@),
            decreases i,
        {
            i = i - 1;
            proof {
                assert(self.open@.take(i + 1).drop_last() =~= self.open@.take(i as int));
                assert(self.open@.take(i + 1).last() == self.open@[i as int]);
            }
            if crate::chars::str_eq_fold(self.open[i].name.as_str(), name, !cs) {
                return Some(i);
            }
        }
        proof {
            assert(self.open@.take(0) =~= Seq::<OpenTag>::empty());
        }
        None
    }

    /// Pops and closes, by their strategies, every open tag strictly above
    /// `idx`, the most recent first, then pops the tag at `idx` itself and
    /// closes it explicitly.
    fn close_through(&mut self, idx: usize, close_pos: usize)
        requires
            old(self).wf(),
            idx < old(self).open@.len(),
            close_pos as int == old(self).tb().len(),
        ensures
            final(self).wf(),
            final(self).text@ == old(self).text@,
            final(self).open@ == old(self).open@.take(idx as int),
            final(self).markers@ == old(self).markers@,
            final(self).config == old(self).config,
            final(self).input == old(self).input,
            spans_extend(old(self).spans@, final(self).spans@),
            span_views(final(self).spans@) == span_views(old(self).spans@) + drain_emits(
                old(self).tb(),
                old(self).open@.skip(idx + 1),
                close_pos as int,
                old(self).config.trim_punctuation,
            ) + explicit_emit(old(self).open@[idx as int], close_pos as int),
    {
        proof {
            lemma_line_start_ok(self.tb());
            is_char_boundary_start_end_of_seq(self.tb());
        }
        let ghost tb0 = self.tb();
        let ghost trim = self.config.trim_punctuation;
        let n = self.open.len();
        proof {
            assert(idx < n);
        }
        let mut trailing = self.open.split_off(idx + 1);
        proof {
            assert(self.open@ == old(self).open@.take(idx + 1));
            assert(trailing@ =~= old(self).open@.skip(idx + 1));
            assert(forall|k: int|
                0 <= k < trailing@.len() ==> open_ok(self.tb(), #[trigger] trailing@[k]));
        }
        loop
            invariant
                self.wf(),
                self.text@ == old(self).text@,
                self.open@ == old(self).open@.take(idx + 1),
                self.markers@ == old(self).markers@,
                self.config == old(self).config,
                self.input == old(self).input,
                close_pos as int == self.tb().len(),
                spans_extend(old(self).spans@, self.spans@),
                forall|k: int| 0 <= k < trailing@.len() ==> open_ok(self.tb(), #[trigger] trailing@[k]),
                span_views(old(self).spans@) + drain_emits(
                    tb0,
                    old(self).open@.skip(idx + 1),
                    close_pos as int,
                    trim,
                ) == span_views(self.spans@) + drain_emits(tb0, trailing@, close_pos as int, trim),
            decreases trailing@.len(),
        {
            let ghost trailing_before = trailing@;
            let ot = match trailing.pop() {
                Some(ot) => ot,
                None => {
                    proof {
                        assert(drain_emits(tb0, trailing@, close_pos as int, trim)
                            =~= Seq::<(int, int, crate::types::AnnotationView)>::empty());
                        assert(span_views(self.spans@) + drain_emits(
                            tb0,
                            trailing@,
                            close_pos as int,
                            trim,
                        ) =~= span_views(self.spans@));
                    }
                    break ;
                },
            };
            proof {
                assert(ot == trailing_before.last());
                assert(trailing@ =~= trailing_before.drop_last());
            }
            let ghost sb = self.spans@;
            self.close_tag(ot, close_pos);
            proof {
                assert forall|i: int| 0 <= i < sb.len() implies sb[i] == #[trigger] self.spans@[i] by {
                    if self.spans@.len() != sb.len() {
                        assert(self.spans@.drop_last()[i] == self.spans@[i]);
                        assert(self.spans@.drop_last() == sb);
                    }
                }
                let e = emit_of(tb0, ot, close_pos as int, trim);
                let d = drain_emits(tb0, trailing@, close_pos as int, trim);
                assert(span_views(self.spans@) == span_views(sb) + e) by {
                    match recovery_bounds(tb0, ot, close_pos as int, trim) {
                        Some(p) => {
                            lemma_span_views_push(sb, self.spans@.last());
                            assert(self.spans@ =~= sb.push(self.spans@.last()));
                            assert(e =~= seq![
                                (
                                    self.spans@.last().0 as int,
                                    self.spans@.last().1 as int,
                                    self.spans@.last().2@,
                                ),
                            ]);
                        },
                        None => {
                            assert(span_views(sb) + e =~= span_views(sb));
                        },
                    }
                }
                assert(span_views(sb) + (e + d) =~= (span_views(sb) + e) + d);
            }
        }
        let ot = match self.open.pop() {
            Some(ot) => ot,
            None => {
                proof {
                    assert(old(self).open@.take(idx + 1).len() == idx + 1);
                    assert(false);
                }
                return ;
            },
        };
        proof {
            assert(ot == old(self).open@[idx as int]);
            assert(open_ok(self.tb(), ot));
            assert(self.open@ =~= old(self).open@.take(idx as int));
        }
        let ghost s1 = self.spans@;
        self.close_explicit(ot, close_pos);
        proof {
            assert forall|i: int| 0 <= i < old(self).spans@.len() implies old(self).spans@[i]
                == #[trigger] self.spans@[i] by {
                if self.spans@.len() != s1.len() {
                    assert(self.spans@.drop_last()[i] == self.spans@[i]);
                    assert(self.spans@.drop_last() == s1);
                }
            }
            let ex = explicit_emit(ot, close_pos as int);
            assert(span_views(self.spans@) == span_views(s1) + ex) by {
                if ot.start_pos < close_pos {
                    lemma_span_views_push(s1, self.spans@.last());
                    assert(self.spans@ =~= s1.push(self.spans@.last()));
                    assert(ex =~= seq![
                        (
                            self.spans@.last().0 as int,
                            self.spans@.last().1 as int,
                            self.spans@.last().2@,
                        ),
                    ]);
                } else {
                    assert(span_views(s1) + ex =~= span_views(s1));
                }
            }
        }
    }

    /// Applies the autoclose rules that a recognized start-like tag
    /// triggers: close through an open tag of the same name first, then, if
    /// configured, drain the whole stack.
    #[verifier::rlimit(60)]
    fn maybe_autoclose_on_start_like(&mut self, name: &str)
        requires
            old(self).wf(),
        ensures
            final(self).wf(),
            final(self).text@ == old(self).text@,
            final(self).markers@ == old(self).markers@,
            final(self).config == old(self).config,
            final(self).input == old(self).input,
            spans_extend(old(self).spans@, final(self).spans@),
            final(self).st_of() == st_autoclose(*old(self).config, old(self).st_of(), name@),
    {
        let ghost st0 = self.st_of();
        let ghost trim = self.config.trim_punctuation;
        let ghost cs = self.config.case_sensitive_tags;
        let close_pos = self.text.as_str().as_bytes().len();
        if self.config.autoclose_on_same_tag {
            match self.find_open(name) {
                Some(idx) => {
                    self.close_through(idx, close_pos);
                    proof {
                        lemma_last_match_bridge(old(self).open@, cs, name@);
                        lemma_drain_bridge(
                            old(self).tb(),
                            old(self).open@.skip(idx + 1),
                            close_pos as int,
                            trim,
                        );
                        lemma_recovery_bridge(
                            old(self).tb(),
                            old(self).open@[idx as int],
                            close_pos as int,
                            trim,
                        );
                        assert(stack_views(old(self).open@.skip(idx + 1)) =~= st0.stack.skip(
                            idx + 1,
                        ));
                        assert(stack_views(old(self).open@.take(idx as int)) =~= st0.stack.take(
                            idx as int,
                        ));
                        assert(st0.stack[idx as int] == ot_view(old(self).open@[idx as int]));
                        assert(self.st_of() =~= st_close_through(st0, idx as int, trim));
                    }
                },
                None => {
                    proof {
                        lemma_last_match_bridge(old(self).open@, cs, name@);
                    }
                },
            }
        }
        let ghost st1 = self.st_of();
        proof {
            if self.config.autoclose_on_same_tag {
                match last_match_v(st0.stack, cs, name@) {
                    Some(ix) => {
                        assert(st1 == st_close_through(st0, ix, trim));
                    },
                    None => {
                        assert(st1 == st0);
                    },
                }
            } else {
                assert(st1 == st0);
            }
        }
        if self.config.autoclose_on_any_tag {
            let close_pos2 = self.text.as_str().as_bytes().len();
            let ghost openmid = self.open@;
            self.close_all_open(close_pos2);
            proof {
                lemma_drain_bridge(old(self).tb(), openmid, close_pos2 as int, trim);
                assert(stack_views(Seq::<OpenTag>::empty()) =~= Seq::<OpenTagView>::empty());
                assert(stack_views(self.open@) =~= Seq::<OpenTagView>::empty());
                assert(self.st_of() =~= st_drain(st1, trim));
            }
        }
        proof {
            assert(self.st_of() == st_autoclose(*old(self).config, st0, name@));
        }
    }
}

/// A token's raw byte range lies within the input, cut at character
/// boundaries.
pub(crate) open spec fn tok_range_ok(ib: Seq<u8>, t: crate::token::TagToken) -> bool {
    &&& t.raw_lo <= t.raw_hi <= ib.len()
    &&& is_char_boundary(ib, t.raw_lo as int)
    &&& is_char_boundary(ib, t.raw_hi as int)
}

impl<'a> Parser<'a> {
    /// Copies the token's raw text into the clean output verbatim.
    fn push_raw(&mut self, raw_lo: usize, raw_hi: usize)
        requires
            old(self).wf(),
            raw_lo <= raw_hi <= old(self).input.spec_bytes().len(),
            is_char_boundary(old(self).input.spec_bytes(), raw_lo as int),
            is_char_boundary(old(self).input.spec_bytes(), raw_hi as int),
        ensures
            final(self).wf(),
            final(self).text@ == old(self).text@ + chars_of(
                old(self).input.spec_bytes(),
                raw_lo as int,
                raw_hi as int,
            ),
            final(self).tb() == old(self).tb() + old(self).input.spec_bytes().subrange(
                raw_lo as int,
                raw_hi as int,
            ),
            final(self).open@ == old(self).open@,
            final(self).spans@ == old(self).spans@,
            final(self).markers@ == old(self).markers@,
            final(self).config == old(self).config,
            final(self).input == old(self).input,
    {
        let inp = self.input;
        let raw = str_slice(inp, raw_lo, raw_hi);
        self.push_text(raw);
    }

    /// Whether the token is passed through as plain text: the mode says so
    /// and its name is not recognized.
    fn should_treat_as_text(&self, tok: &crate::token::TagToken) -> (r: bool)
        ensures
            r == (self.config.unknown_mode == UnknownMode::TreatAsText && !spec_recognized(
                *self.config,
                tok.name@,
            )),
    {
        match self.config.unknown_mode {
            UnknownMode::TreatAsText => !self.is_recognized(tok.name.as_str()),
            _ => false,
        }
    }

    /// Handles a start tag: a recognized one opens on the stack with its
    /// strategy and the current anchors; an unknown one follows the unknown
    /// mode, dropped or copied verbatim.
    fn handle_start(&mut self, tok: crate::token::TagToken)
        requires
            old(self).wf(),
            tok_range_ok(old(self).input.spec_bytes(), tok),
        ensures
            final(self).wf(),
            final(self).markers@ == old(self).markers@,
            final(self).spans@ == old(self).spans@,
            final(self).config == old(self).config,
            final(self).input == old(self).input,
            if spec_recognized(*old(self).config, tok.name@) {
                ({
                    let ov = final(self).open@;
                    &&& final(self).text@ == old(self).text@
                    &&& ov.drop_last() == old(self).open@
                    &&& ov.len() == old(self).open@.len() + 1
                    &&& ov.last().name@ == tok.name@
                    &&& ov.last().attrs@ == tok.attrs@
                    &&& ov.last().start_pos as int == old(self).tb().len()
                    &&& ov.last().line_start_at_open == old(self).line_start
                    &&& ov.last().strategy == spec_strategy(*old(self).config, tok.name@)
                })
            } else {
                final(self).open@ == old(self).open@ && (match old(self).config.unknown_mode {
                    UnknownMode::Strip => final(self).text@ == old(self).text@,
                    _ => final(self).text@ == old(self).text@ + chars_of(
                        old(self).input.spec_bytes(),
                        tok.raw_lo as int,
                        tok.raw_hi as int,
                    ),
                })
            },
    {
        if !self.is_recognized(tok.name.as_str()) {
            match self.config.unknown_mode {
                UnknownMode::Strip => {},
                UnknownMode::Passthrough | UnknownMode::TreatAsText => {
                    self.push_raw(tok.raw_lo, tok.raw_hi);
                },
            }
            return ;
        }
        let strategy = self.strategy_for(tok.name.as_str());
        let start_pos = self.text.as_str().as_bytes().len();
        let line_start = self.line_start;
        proof {
            lemma_line_start_ok(self.tb());
            is_char_boundary_start_end_of_seq(self.tb());
        }
        let ot = OpenTag {
            name: tok.name,
            attrs: tok.attrs,
            start_pos,
            line_start_at_open: line_start,
            strategy,
        };
        let ghost prev = self.open@;
        self.open.push(ot);
        proof {
            assert(self.open@.drop_last() =~= prev);
        }
    }

    /// Handles a self-closing tag: a recognized one pins a zero-width marker
    /// at the current end of the clean text; an unknown one follows the
    /// unknown mode.
    fn handle_self_closing(&mut self, tok: crate::token::TagToken)
        requires
            old(self).wf(),
            tok_range_ok(old(self).input.spec_bytes(), tok),
        ensures
            final(self).wf(),
            final(self).open@ == old(self).open@,
            final(self).spans@ == old(self).spans@,
            final(self).config == old(self).config,
            final(self).input == old(self).input,
            if spec_recognized(*old(self).config, tok.name@) {
                ({
                    let mv = final(self).markers@;
                    &&& final(self).text@ == old(self).text@
                    &&& mv.drop_last() == old(self).markers@
                    &&& mv.len() == old(self).markers@.len() + 1
                    &&& mv.last().pos as int == old(self).tb().len()
                    &&& mv.last().annotation@ == (crate::types::AnnotationView {
                        tag: tok.name@,
                        attrs: tok.attrs@,
                    })
                })
            } else {
                final(self).markers@ == old(self).markers@ && (match old(self).config.unknown_mode {
                    UnknownMode::Strip => final(self).text@ == old(self).text@,
                    _ => final(self).text@ == old(self).text@ + chars_of(
                        old(self).input.spec_bytes(),
                        tok.raw_lo as int,
                        tok.raw_hi as int,
                    ),
                })
            },
    {
        if !self.is_recognized(tok.name.as_str()) {
            match self.config.unknown_mode {
                UnknownMode::Strip => {},
                UnknownMode::Passthrough | UnknownMode::TreatAsText => {
                    self.push_raw(tok.raw_lo, tok.raw_hi);
                },
            }
            return ;
        }
        let pos = self.text.as_str().as_bytes().len();
        proof {
            is_char_boundary_start_end_of_seq(self.tb());
        }
        let annotation = Annotation { tag: tok.name, attrs: tok.attrs };
        let ghost prev = self.markers@;
        self.markers.push(Marker { pos, annotation });
        proof {
            assert(self.markers@.drop_last() =~= prev);
        }
    }

    /// Handles an end tag: a recognized one closes through the topmost open
    /// tag of the same name, closing newer tags by their strategies and the
    /// match explicitly; without a match the stray policy decides; an
    /// unknown one follows the unknown mode.
    fn handle_end(&mut self, tok: crate::token::TagToken)
        requires
            old(self).wf(),
            tok_range_ok(old(self).input.spec_bytes(), tok),
        ensures
            final(self).wf(),
            final(self).markers@ == old(self).markers@,
            final(self).config == old(self).config,
            final(self).input == old(self).input,
            spans_extend(old(self).spans@, final(self).spans@),
            if spec_recognized(*old(self).config, tok.name@) {
                match last_match(
                    old(self).open@,
                    old(self).config.case_sensitive_tags,
                    tok.name@,
                ) {
                    Some(i) => final(self).open@ == old(self).open@.take(i) && final(self).text@
                        == old(self).text@ && span_views(final(self).spans@) == span_views(
                        old(self).spans@,
                    ) + drain_emits(
                        old(self).tb(),
                        old(self).open@.skip(i + 1),
                        old(self).tb().len() as int,
                        old(self).config.trim_punctuation,
                    ) + explicit_emit(old(self).open@[i], old(self).tb().len() as int),
                    None => final(self).open@ == old(self).open@ && final(self).spans@ == old(
                        self,
                    ).spans@ && (match old(self).config.stray_end_tag_policy {
                        StrayEndTagPolicy::Drop => final(self).text@ == old(self).text@,
                        StrayEndTagPolicy::Passthrough => final(self).text@ == old(self).text@
                            + chars_of(
                            old(self).input.spec_bytes(),
                            tok.raw_lo as int,
                            tok.raw_hi as int,
                        ),
                    }),
                }
            } else {
                final(self).open@ == old(self).open@ && final(self).spans@ == old(self).spans@ && (
                match old(self).config.unknown_mode {
                    UnknownMode::Strip => final(self).text@ == old(self).text@,
                    _ => final(self).text@ == old(self).text@ + chars_of(
                        old(self).input.spec_bytes(),
                        tok.raw_lo as int,
                        tok.raw_hi as int,
                    ),
                })
            },
    {
        if !self.is_recognized(tok.name.as_str()) {
            match self.config.unknown_mode {
                UnknownMode::Strip => {},
                UnknownMode::Passthrough | UnknownMode::TreatAsText => {
                    self.push_raw(tok.raw_lo, tok.raw_hi);
                },
            }
            return ;
        }
        match self.find_open(tok.name.as_str()) {
            Some(idx) => {
                let close_pos = self.text.as_str().as_bytes().len();
                self.close_through(idx, close_pos);
            },
            None => {
                match self.config.stray_end_tag_policy {
                    StrayEndTagPolicy::Drop => {},
                    StrayEndTagPolicy::Passthrough => {
                        self.push_raw(tok.raw_lo, tok.raw_hi);
                    },
                }
            },
        }
    }
}

/// A match found on the stack lies within it.
proof fn lemma_last_match_bounds(stack: Seq<OpenTag>, case_sensitive: bool, nm: Seq<char>)
    ensures
        match last_match(stack, case_sensitive, nm) {
            Some(i) => 0 <= i < stack.len(),
            None => true,
        },
    decreases stack.len(),
{
    if stack.len() > 0 && !name_eq(case_sensitive, stack.last().name@, nm) {
        lemma_last_match_bounds(stack.drop_last(), case_sensitive, nm);
    }
}

/// Taking or skipping part of a stack views the same part.
proof fn lemma_stack_views_parts(stack: Seq<OpenTag>, ix: int)
    requires
        0 <= ix < stack.len(),
    ensures
        stack_views(stack.skip(ix + 1)) == stack_views(stack).skip(ix + 1),
        stack_views(stack.take(ix)) == stack_views(stack).take(ix),
        stack_views(stack)[ix] == ot_view(stack[ix]),
{
    assert forall|q: int| 0 <= q < stack.len() - ix - 1 implies #[trigger] stack_views(
        stack.skip(ix + 1),
    )[q] == stack_views(stack).skip(ix + 1)[q] by {
        assert(stack.skip(ix + 1)[q] == stack[ix + 1 + q]);
    }
    assert(stack_views(stack.skip(ix + 1)) =~= stack_views(stack).skip(ix + 1));
    assert forall|q: int| 0 <= q < ix implies #[trigger] stack_views(stack.take(ix))[q]
        == stack_views(stack).take(ix)[q] by {
        assert(stack.take(ix)[q] == stack[q]);
    }
    assert(stack_views(stack.take(ix)) =~= stack_views(stack).take(ix));
}

/// An unknown tag's effect on the state, per mode: dropped under `Strip`,
/// copied verbatim otherwise.
proof fn lemma_unknown_step(
    st_at: DriverState,
    st_now: DriverState,
    mode: UnknownMode,
    text_at: Seq<char>,
    text_now: Seq<char>,
    raw: Seq<u8>,
    ib: Seq<u8>,
    i0: int,
    next: int,
)
    requires
        st_at.text == encode_utf8(text_at),
        st_now.text == encode_utf8(text_now),
        st_now.stack == st_at.stack,
        st_now.spans == st_at.spans,
        st_now.markers == st_at.markers,
        0 <= i0 <= next <= ib.len(),
        raw == ib.subrange(i0, next),
        encode_utf8(chars_of(ib, i0, next)) == raw,
        match mode {
            UnknownMode::Strip => text_now == text_at,
            _ => text_now == text_at + chars_of(ib, i0, next),
        },
    ensures
        st_now == st_unknown(st_at, mode, raw),
{
    match mode {
        UnknownMode::Strip => {
            assert(st_now =~= st_at);
        },
        _ => {
            crate::chars::lemma_encode_concat(text_at, chars_of(ib, i0, next));
            assert(st_now =~= st_push_text(st_at, raw));
        },
    }
}

impl<'a> Parser<'a> {
    /// Dispatches one tag token: a token an unknown-tolerant mode treats as
    /// text is copied verbatim; otherwise a recognized start-like token
    /// autocloses first and then opens or marks, and an end token closes.
    #[verifier::rlimit(60)]
    fn dispatch_token(&mut self, tok: crate::token::TagToken, Ghost(tm): Ghost<crate::token::TokenModel>)
        requires
            old(self).wf(),
            tok_range_ok(old(self).input.spec_bytes(), tok),
            tm == (crate::token::TokenModel {
                next: tok.raw_hi as int,
                kind: tok.kind,
                name: tok.name@,
                attrs: tok.attrs@,
            }),
        ensures
            final(self).wf(),
            final(self).config == old(self).config,
            final(self).input == old(self).input,
            final(self).st_of() == st_dispatch(
                old(self).input.spec_bytes(),
                *old(self).config,
                old(self).st_of(),
                tm,
                tok.raw_lo as int,
            ),
    {
        let ghost ib = self.input.spec_bytes();
        let ghost cfgv = *self.config;
        let ghost st_at = self.st_of();
        let ghost i0 = tok.raw_lo as int;
        let ghost raw = ib.subrange(i0, tm.next);
        let ghost text_at = self.text@;
        proof {
            crate::chars::lemma_chars_of_bytes(ib, i0, tm.next);
        }
        if self.should_treat_as_text(&tok) {
            self.push_raw(tok.raw_lo, tok.raw_hi);
            proof {
                assert(self.st_of() =~= st_push_text(st_at, raw));
            }
            return ;
        }
        match tok.kind {
            crate::token::TagKind::Start => {
                if self.is_recognized(tok.name.as_str()) {
                    self.maybe_autoclose_on_start_like(tok.name.as_str());
                    let ghost st1 = self.st_of();
                    let ghost open_mid = self.open@;
                    proof {
                        assert(st1 == st_autoclose(cfgv, st_at, tm.name));
                    }
                    self.handle_start(tok);
                    proof {
                        let pushed = self.open@.last();
                        assert(self.open@.drop_last() == open_mid);
                        assert(stack_views(self.open@) =~= stack_views(open_mid).push(
                            ot_view(pushed),
                        ));
                        assert(ot_view(pushed) == (OpenTagView {
                            tag: tm.name,
                            attrs: tm.attrs,
                            start_pos: st1.text.len() as int,
                            line_start_at_open: line_start_of(st1.text),
                            strategy: spec_strategy(cfgv, tm.name),
                        }));
                        assert(self.st_of() =~= (DriverState {
                            text: st1.text,
                            stack: st1.stack.push(
                                OpenTagView {
                                    tag: tm.name,
                                    attrs: tm.attrs,
                                    start_pos: st1.text.len() as int,
                                    line_start_at_open: line_start_of(st1.text),
                                    strategy: spec_strategy(cfgv, tm.name),
                                },
                            ),
                            spans: st1.spans,
                            markers: st1.markers,
                        }));
                    }
                } else {
                    self.handle_start(tok);
                    proof {
                        lemma_unknown_step(st_at, self.st_of(), cfgv.unknown_mode, text_at, self.text@, raw, ib, i0, tm.next);
                    }
                }
            },
            crate::token::TagKind::SelfClosing => {
                if self.is_recognized(tok.name.as_str()) {
                    self.maybe_autoclose_on_start_like(tok.name.as_str());
                    let ghost st1 = self.st_of();
                    let ghost markers_mid = self.markers@;
                    proof {
                        assert(st1 == st_autoclose(cfgv, st_at, tm.name));
                    }
                    self.handle_self_closing(tok);
                    proof {
                        assert(self.markers@.drop_last() == markers_mid);
                        assert(marker_views(self.markers@) =~= marker_views(markers_mid).push(
                            (
                                st1.text.len() as int,
                                crate::types::AnnotationView { tag: tm.name, attrs: tm.attrs },
                            ),
                        ));
                        assert(self.st_of() =~= (DriverState {
                            text: st1.text,
                            stack: st1.stack,
                            spans: st1.spans,
                            markers: st1.markers.push(
                                (
                                    st1.text.len() as int,
                                    crate::types::AnnotationView { tag: tm.name, attrs: tm.attrs },
                                ),
                            ),
                        }));
                    }
                } else {
                    self.handle_self_closing(tok);
                    proof {
                        lemma_unknown_step(st_at, self.st_of(), cfgv.unknown_mode, text_at, self.text@, raw, ib, i0, tm.next);
                    }
                }
            },
            crate::token::TagKind::End => {
                let ghost cs = cfgv.case_sensitive_tags;
                let ghost trim = cfgv.trim_punctuation;
                let ghost open_at = self.open@;
                let recognized = self.is_recognized(tok.name.as_str());
                self.handle_end(tok);
                proof {
                    lemma_last_match_bridge(open_at, cs, tm.name);
                    lemma_last_match_bounds(open_at, cs, tm.name);
                    if recognized {
                        match last_match(open_at, cs, tm.name) {
                            Some(ix) => {
                                lemma_drain_bridge(st_at.text, open_at.skip(ix + 1), st_at.text.len() as int, trim);
                                lemma_recovery_bridge(st_at.text, open_at[ix], st_at.text.len() as int, trim);
                                lemma_stack_views_parts(open_at, ix);
                                assert(self.st_of() =~= st_close_through(st_at, ix, trim));
                            },
                            None => {
                                match cfgv.stray_end_tag_policy {
                                    StrayEndTagPolicy::Drop => {
                                        assert(self.st_of() =~= st_at);
                                    },
                                    StrayEndTagPolicy::Passthrough => {
                                        lemma_encode_concat(text_at, chars_of(ib, i0, tm.next));
                                        assert(self.st_of() =~= st_push_text(st_at, raw));
                                    },
                                }
                            },
                        }
                    } else {
                        lemma_unknown_step(st_at, self.st_of(), cfgv.unknown_mode, text_at, self.text@, raw, ib, i0, tm.next);
                    }
                }
            },
        }
    }

    /// The main loop: walks the input once, copying CDATA bodies and literal
    /// text into the clean output and dispatching tag tokens.
    #[verifier::rlimit(60)]
    fn run(&mut self)
        requires
            old(self).wf(),
        ensures
            final(self).wf(),
            final(self).config == old(self).config,
            final(self).input == old(self).input,
            final(self).st_of() == drive(
                old(self).input.spec_bytes(),
                *old(self).config,
                old(self).st_of(),
                0,
            ),
    {
        let inp = self.input;
        let ghost ib = inp.spec_bytes();
        let ghost cfgv = *self.config;
        let ghost st0 = self.st_of();
        let bs = inp.as_bytes();
        let n = bs.len();
        let mut idx: usize = 0;
        while idx < n
            invariant
                idx <= n,
                is_char_boundary(ib, idx as int),
                self.wf(),
                self.config == old(self).config,
                self.input == old(self).input,
                drive(ib, cfgv, st0, 0) == drive(ib, cfgv, self.st_of(), idx as int),
            decreases n - idx,
        {
            let ghost st_at = self.st_of();
            let ghost idx0 = idx as int;
            if crate::scan::cdata_open_at(inp, idx) {
                proof {
                    lemma_boundary_after_ascii(ib, idx + 9);
                }
                let cstart = idx + 9;
                match crate::scan::find_cdata_close(inp, cstart) {
                    Some(end) => {
                        proof {
                            crate::scan::lemma_cdata_close_from(ib, cstart as int);
                            lemma_ascii_is_boundary(ib, end as int);
                            lemma_boundary_after_ascii(ib, end + 3);
                        }
                        let body = str_slice(inp, cstart, end);
                        self.push_text(body);
                        idx = end + 3;
                        proof {
                            assert(self.st_of() =~= st_push_text(
                                st_at,
                                ib.subrange(idx0 + 9, end as int),
                            ));
                        }
                    },
                    None => {
                        let body = str_slice(inp, cstart, n);
                        self.push_text(body);
                        idx = n;
                        proof {
                            assert(self.st_of() =~= st_push_text(
                                st_at,
                                ib.subrange(idx0 + 9, n as int),
                            ));
                        }
                    },
                }
            } else if bs[idx] == crate::scan::LT {
                match crate::token::parse_tag(inp, idx) {
                    Some(p) => {
                        let tok = p.0;
                        let consumed = p.1;
                        let ghost tm = crate::token::TokenModel {
                            next: idx0 + consumed,
                            kind: tok.kind,
                            name: tok.name@,
                            attrs: tok.attrs@,
                        };
                        self.dispatch_token(tok, Ghost(tm));
                        idx = idx + consumed;
                        proof {
                            assert(crate::token::token_at(ib, idx0) == Some(tm));
                            assert(self.st_of() == st_dispatch(ib, cfgv, st_at, tm, idx0));
                        }
                    },
                    None => {
                        proof {
                            lemma_boundary_after_ascii(ib, idx + 1);
                        }
                        self.push_raw(idx, idx + 1);
                        idx = idx + 1;
                        proof {
                            assert(ib.subrange(idx0, idx0 + 1) =~= seq![crate::scan::LT]);
                            assert(self.st_of() =~= st_push_text(st_at, seq![crate::scan::LT]));
                        }
                    },
                }
            } else {
                match crate::scan::find_byte(inp, idx, n, crate::scan::LT) {
                    Some(j) => {
                        proof {
                            crate::scan::lemma_find_byte(ib, idx as int, n as int, crate::scan::LT);
                            lemma_ascii_is_boundary(ib, j as int);
                        }
                        self.push_raw(idx, j);
                        idx = j;
                        proof {
                            assert(self.st_of() =~= st_push_text(
                                st_at,
                                ib.subrange(idx0, j as int),
                            ));
                        }
                    },
                    None => {
                        self.push_raw(idx, n);
                        idx = n;
                        proof {
                            assert(self.st_of() =~= st_push_text(
                                st_at,
                                ib.subrange(idx0, n as int),
                            ));
                        }
                    },
                }
            }
        }
    }

    /// Drains the tags still open at the end of the document, then segments
    /// the clean text.
    fn finish(self) -> (r: ParseResult)
        requires
            self.wf(),
        ensures
            crate::segment::concat_texts(r.segments@) == r.text@,
            forall|i: int| 0 <= i < r.segments@.len() ==> (#[trigger] r.segments@[i]).text@.len() > 0,
            forall|i: int|
                0 <= i < r.markers@.len() ==> marker_ok(encode_utf8(r.text@), #[trigger] r.markers@[i]),
            r.markers@ == self.markers@,
            r.text@ == self.text@,
            r.text@.len() == 0 ==> r.segments@.len() == 0,
            exists|spans: Seq<(usize, usize, Annotation)>|
                #![trigger crate::segment::annotations_sound(r.segments@, spans)]
                (forall|k: int|
                    0 <= k < spans.len() ==> span_ok(encode_utf8(r.text@), #[trigger] spans[k]))
                    && crate::segment::annotations_sound(r.segments@, spans)
                    && crate::segment::annotations_complete(r.segments@, spans),
            crate::segment::annotations_exact(
                r.segments@,
                st_drain(self.st_of(), self.config.trim_punctuation).spans,
            ),
            crate::segment::cuts_exact(
                r.segments@,
                st_drain(self.st_of(), self.config.trim_punctuation).spans,
                encode_utf8(r.text@).len() as int,
            ),
    {
        let mut me = self;
        let end_pos = me.text.as_str().as_bytes().len();
        me.close_all_open(end_pos);
        proof {
            assert forall|k: int| 0 <= k < me.spans@.len() implies (#[trigger] me.spans@[k]).0
                < me.spans@[k].1 <= me.tb().len() && is_char_boundary(
                me.tb(),
                me.spans@[k].0 as int,
            ) && is_char_boundary(me.tb(), me.spans@[k].1 as int) by {
                assert(span_ok(me.tb(), me.spans@[k]));
            }
        }
        proof {
            lemma_drain_bridge(
                self.st_of().text,
                self.open@,
                end_pos as int,
                self.config.trim_punctuation,
            );
            assert(span_views(me.spans@) =~= st_drain(
                self.st_of(),
                self.config.trim_punctuation,
            ).spans);
        }
        let segments = crate::segment::build_segments(me.text.as_str(), &me.spans);
        let ghost spansv = me.spans@;
        let r = ParseResult { text: me.text, segments, markers: me.markers };
        proof {
            assert((forall|k: int|
                0 <= k < spansv.len() ==> span_ok(encode_utf8(r.text@), #[trigger] spansv[k]))
                && crate::segment::annotations_sound(r.segments@, spansv)
                && crate::segment::annotations_complete(r.segments@, spansv));
        }
        r
    }
}

/// Parses `input` under `config`: one pass over the input produces the clean
/// text, its annotated segments, and the markers.
///
/// The contract fixes the whole result as a function of the input and the
/// configuration: the clean text's bytes, the markers, and the segments'
/// cut points and annotation lists all equal what the driver machine
/// [`driver_post`] computes. On top of that it carries the parser's
/// universal guarantees: the segments' texts concatenate back to the clean
/// text and none of them is empty; every marker sits on a character
/// boundary of the clean text; every annotation a segment carries comes
/// from a covering span and every covering span contributes; and with no
/// recognized tags the clean text is the input with CDATA wrappers stripped
/// and, under `Strip`, every tag-shaped token removed, while the other
/// modes keep tag tokens verbatim.
pub fn parse(input: &str, config: &ParserConfig) -> (r: ParseResult)
    ensures
        crate::segment::concat_texts(r.segments@) == r.text@,
        forall|i: int| 0 <= i < r.segments@.len() ==> (#[trigger] r.segments@[i]).text@.len() > 0,
        forall|i: int|
            0 <= i < r.markers@.len() ==> (#[trigger] r.markers@[i]).pos <= encode_utf8(
                r.text@,
            ).len() && is_char_boundary(encode_utf8(r.text@), r.markers@[i].pos as int),
        encode_utf8(r.text@) == driver_post(input.spec_bytes(), *config).text,
        marker_views(r.markers@) == driver_post(input.spec_bytes(), *config).markers,
        crate::segment::annotations_exact(
            r.segments@,
            driver_post(input.spec_bytes(), *config).spans,
        ),
        crate::segment::cuts_exact(
            r.segments@,
            driver_post(input.spec_bytes(), *config).spans,
            driver_post(input.spec_bytes(), *config).text.len() as int,
        ),
        config.recognized_tags@.len() == 0 ==> encode_utf8(r.text@) == plain_output(
            input.spec_bytes(),
            0,
            config.unknown_mode,
        ) && r.markers@.len() == 0 && driver_post(input.spec_bytes(), *config).spans == Seq::<
            (int, int, crate::types::AnnotationView),
        >::empty(),
        r.text@.len() == 0 ==> r.segments@.len() == 0,
        exists|spans: Seq<(usize, usize, Annotation)>|
            #![trigger crate::segment::annotations_sound(r.segments@, spans)]
            (forall|k: int|
                0 <= k < spans.len() ==> span_ok(encode_utf8(r.text@), #[trigger] spans[k]))
                && crate::segment::annotations_sound(r.segments@, spans)
                && crate::segment::annotations_complete(r.segments@, spans),
{
    let ghost ib = input.spec_bytes();
    let ghost cfgv = *config;
    let ghost init = DriverState {
        text: Seq::empty(),
        stack: Seq::empty(),
        spans: Seq::empty(),
        markers: Seq::empty(),
    };
    let mut parser = Parser {
        input,
        config,
        text: String::new(),
        line_start: 0,
        open: Vec::new(),
        spans: Vec::new(),
        markers: Vec::new(),
    };
    proof {
        assert(parser.tb() =~= Seq::<u8>::empty());
        crate::chars::lemma_last_newline(parser.tb());
        assert(parser.wf());
        assert(parser.st_of() =~= init);
    }
    parser.run();
    proof {
        assert(parser.st_of() == drive(ib, cfgv, init, 0));
        if cfgv.recognized_tags@.len() == 0 {
            lemma_drive_plain(ib, cfgv, init, 0);
            assert(drive(ib, cfgv, init, 0).text =~= plain_output(ib, 0, cfgv.unknown_mode));
            assert(drive(ib, cfgv, init, 0).markers =~= Seq::<
                (int, crate::types::AnnotationView),
            >::empty());
            assert(driver_post(ib, cfgv).spans =~= Seq::<
                (int, int, crate::types::AnnotationView),
            >::empty());
        }
    }
    let r = parser.finish();
    proof {
        assert(st_drain(parser.st_of(), cfgv.trim_punctuation) == driver_post(ib, cfgv));
        assert(marker_views(r.markers@) == parser.st_of().markers);
        if cfgv.recognized_tags@.len() == 0 {
            assert(marker_views(r.markers@).len() == r.markers@.len());
            assert(r.markers@.len() == 0);
        }
    }
    r
}

/// Extending the clean text keeps every recorded span, marker and open tag
/// well-placed.
pub(crate) proof fn lemma_ok_extend(tb: Seq<u8>, c: Seq<u8>)
    requires
        valid_utf8(tb),
        valid_utf8(c),
    ensures
        forall|sp: (usize, usize, Annotation)| #[trigger]
            span_ok(tb, sp) ==> span_ok(tb + c, sp),
        forall|m: Marker| #[trigger] marker_ok(tb, m) ==> marker_ok(tb + c, m),
        forall|ot: OpenTag| #[trigger] open_ok(tb, ot) ==> open_ok(tb + c, ot),
{
    assert forall|sp: (usize, usize, Annotation)| #[trigger]
        span_ok(tb, sp) implies span_ok(tb + c, sp) by {
        lemma_boundary_extend(tb, c, sp.0 as int);
        lemma_boundary_extend(tb, c, sp.1 as int);
    }
    assert forall|m: Marker| #[trigger] marker_ok(tb, m) implies marker_ok(tb + c, m) by {
        lemma_boundary_extend(tb, c, m.pos as int);
    }
    assert forall|ot: OpenTag| #[trigger] open_ok(tb, ot) implies open_ok(tb + c, ot) by {
        lemma_boundary_extend(tb, c, ot.start_pos as int);
        lemma_boundary_extend(tb, c, ot.line_start_at_open as int);
    }
}

} // verus!
