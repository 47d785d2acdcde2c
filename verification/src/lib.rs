//! A tolerant parser for XML-ish inline annotations embedded in free-form
//! text. It recovers from the malformed markup that language models routinely
//! emit — unclosed tags, broken quotes, postfix citations, unquoted attribute
//! values — and produces a clean plain-text string together with annotated
//! byte ranges over that string.
//!
//! The contract of [`parser::parse`] pins the whole result down: the clean
//! text's bytes, the markers, and the segments' cut points and annotation
//! lists all equal what the spec-level driver machine ([`parser::drive`],
//! [`parser::driver_post`]) computes from the input and the configuration.
//! It also carries the parser's universal guarantees: the segments' texts
//! concatenate back to the clean text and none of them is empty; every
//! marker offset is a byte offset of the clean text on a UTF-8 character
//! boundary; and with no recognized tags the clean text is exactly the
//! input with CDATA wrappers stripped and, depending on the unknown-tag
//! mode, tag-shaped tokens removed or kept verbatim. The segmenter's
//! contract ([`segment::build_segments`]) states that the text is cut at
//! exactly the span endpoints and that each segment's annotation list is
//! exactly the covering spans' annotations in span order, and
//! [`segment::lemma_segment_offsets_are_boundaries`] places every segment
//! cut point on a character boundary.
//! [`parser::lemma_reparse_identity`] proves the identity wrapper
//! idempotent: re-parsing an already-clean text that holds no CDATA opener,
//! with no recognized tags and a mode that keeps tag tokens, gives the text
//! back unchanged.
#![verifier::loop_isolation(false)]

pub mod attrs;
pub mod chars;
pub mod parser;
pub mod scan;
pub mod segment;
pub mod token;
pub mod types;

pub use chars::unicode_whitespace;
pub use chars::unicode_alphanumeric;
pub use parser::parse;
pub use parser::plain_output;
pub use parser::lemma_reparse_identity;
pub use parser::drive;
pub use parser::driver_post;
pub use parser::DriverState;
pub use parser::OpenTagView;
pub use parser::markers_in_order;
pub use parser::lemma_markers_monotone;
pub use segment::annotations_exact;
pub use segment::cuts_exact;
pub use segment::covering_anns;
pub use segment::is_cut_point;
pub use segment::ann_views;
pub use segment::build_segments;
pub use segment::concat_texts;
pub use segment::seg_offset;
pub use segment::span_covers;
pub use segment::lemma_segment_offsets_are_boundaries;
pub use segment::annotations_sound;
pub use segment::annotations_complete;
pub use types::AttrValue;
pub use types::AttrValueView;
pub use types::AttrMap;
pub use types::Annotation;
pub use types::AnnotationView;
pub use types::Segment;
pub use types::Marker;
pub use types::UnknownMode;
pub use types::RecoveryStrategy;
pub use types::StrayEndTagPolicy;
pub use types::ParserConfig;
pub use types::ParseResult;
pub use types::map_of_entries;
