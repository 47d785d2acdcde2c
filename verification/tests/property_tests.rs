use kindaxml::build_segments;
use kindaxml::parse;
use kindaxml::Annotation;
use kindaxml::AttrMap;
use kindaxml::AttrValue;
use kindaxml::ParseResult;
use kindaxml::ParserConfig;
use kindaxml::RecoveryStrategy;
use kindaxml::UnknownMode;

fn llm_config() -> ParserConfig {
    ParserConfig::default_llm_friendly_config()
}

fn concat_segments(result: &ParseResult) -> String {
    result
        .segments
        .iter()
        .map(|s| s.text.as_str())
        .collect::<Vec<&str>>()
        .join("")
}

#[test]
fn segments_concatenate_to_text() {
    let cfg = llm_config();
    for input in [
        "We shipped <cite id=\"1\">last week</cite>.",
        "Alpha <note>bravo <cite id=9> charlie",
        "## Results\nWe shipped last week <cite id=1>.",
        "<code><![CDATA[if (a < b) return;]]",
        "plain text without any markup",
        "",
    ] {
        let result = parse(input, &cfg);
        assert_eq!(concat_segments(&result), result.text);
    }
}

#[test]
fn marker_sits_on_codepoint_boundary() {
    let cfg = llm_config();
    let result = parse("héllo <todo/> wörld", &cfg);
    assert_eq!(result.text, "héllo  wörld");
    assert_eq!(result.markers.len(), 1);
    let pos = result.markers[0].pos;
    assert_eq!(pos, "héllo ".len());
    assert!(result.text.is_char_boundary(pos));
    assert_eq!(concat_segments(&result), result.text);
}

#[test]
fn overlapping_spans_share_a_segment() {
    let cfg = llm_config();
    let result = parse("Alpha <note>bravo <cite id=9> charlie", &cfg);
    let bravo = result
        .segments
        .iter()
        .find(|s| s.text == "bravo")
        .expect("bravo segment");
    assert_eq!(bravo.annotations.len(), 2);
    assert!(bravo.annotations.iter().any(|a| a.tag == "note"));
    assert!(bravo.annotations.iter().any(|a| a.tag == "cite"));
}

#[test]
fn empty_recognized_set_strips_tags_and_cdata_wrappers() {
    let mut cfg = ParserConfig::default();
    cfg.unknown_mode = UnknownMode::Strip;
    let result = parse("a <b c=1>d</b> <![CDATA[x < y]]> e", &cfg);
    assert_eq!(result.text, "a d x < y e");
    assert!(result.segments.len() <= 1 || !result.text.is_empty());
    assert!(result.markers.is_empty());
}

#[test]
fn empty_recognized_set_passthrough_keeps_input() {
    let mut cfg = ParserConfig::default();
    cfg.unknown_mode = UnknownMode::Passthrough;
    let input = "a <b c=1>d</b> e < f";
    let result = parse(input, &cfg);
    assert_eq!(result.text, input);
}

#[test]
fn reparsing_clean_text_is_identity() {
    let cfg = llm_config();
    let first = parse("We shipped <cite id=1>last week</cite>. <todo/> done", &cfg);
    let mut plain = ParserConfig::default();
    plain.unknown_mode = UnknownMode::Passthrough;
    let second = parse(&first.text, &plain);
    assert_eq!(second.text, first.text);
}

#[test]
fn empty_input_gives_empty_result() {
    let cfg = llm_config();
    let result = parse("", &cfg);
    assert_eq!(result.text, "");
    assert!(result.segments.is_empty());
    assert!(result.markers.is_empty());
}

#[test]
fn unicode_whitespace_is_trimmed_from_recovered_spans() {
    let cfg = llm_config();
    let result = parse("Vor\u{a0}<cite id=1>", &cfg);
    assert_eq!(result.text, "Vor\u{a0}");
    let cite = result
        .segments
        .iter()
        .find(|s| s.annotations.iter().any(|a| a.tag == "cite"))
        .expect("cite span");
    assert_eq!(cite.text, "Vor");
}

#[test]
fn forward_next_token_finds_unicode_word() {
    let mut cfg = llm_config();
    cfg.per_tag_recovery
        .push(("todo".into(), RecoveryStrategy::ForwardNextToken));
    let result = parse("<todo>  ähm ok", &cfg);
    assert_eq!(result.text, "  ähm ok");
    let todo = result
        .segments
        .iter()
        .find(|s| s.annotations.iter().any(|a| a.tag == "todo"))
        .expect("todo span");
    assert_eq!(todo.text, "ähm");
}

#[test]
fn multibyte_attribute_value_survives() {
    let cfg = llm_config();
    let result = parse("<cite id='münchen'>X</cite>", &cfg);
    let ann = &result.segments[0].annotations[0];
    assert_eq!(ann.attrs.get("id"), Some(&AttrValue::Str("münchen".into())));
}

#[test]
fn equals_with_no_value_is_boolean() {
    let cfg = llm_config();
    let result = parse("<cite id=>Evidence</cite>", &cfg);
    let ann = result.segments[0].annotations[0].attrs.get("id");
    assert_eq!(ann, Some(&AttrValue::Bool(true)));
}

#[test]
fn slash_starts_unquoted_value_takes_rest() {
    let cfg = llm_config();
    let result = parse("<cite a=/ b=2>x</cite>", &cfg);
    let attrs = &result.segments[0].annotations[0].attrs;
    assert_eq!(attrs.get("a"), Some(&AttrValue::Str("/ b=2".into())));
    assert_eq!(attrs.get("b"), None);
}

#[test]
fn marker_at_start_of_empty_text() {
    let cfg = llm_config();
    let result = parse("<todo/>", &cfg);
    assert_eq!(result.text, "");
    assert!(result.segments.is_empty());
    assert_eq!(result.markers.len(), 1);
    assert_eq!(result.markers[0].pos, 0);
    assert_eq!(result.markers[0].annotation.tag, "todo");
}

#[test]
fn cite_config_recognizes_only_cite() {
    let cfg = ParserConfig::default_cite_config();
    let result = parse("A <note>b</note> c <cite id=1>d</cite>", &cfg);
    assert_eq!(result.text, "A b c d");
    assert!(result
        .segments
        .iter()
        .all(|s| s.annotations.iter().all(|a| a.tag != "note")));
    assert!(result
        .segments
        .iter()
        .any(|s| s.annotations.iter().any(|a| a.tag == "cite")));
}

#[test]
fn segmenter_covers_text_and_annotates_covering_spans() {
    let mut attrs = AttrMap::new();
    attrs.insert("id".to_string(), AttrValue::Str("1".to_string()));
    let spans = vec![
        (0usize, 5usize, Annotation { tag: "note".to_string(), attrs: AttrMap::new() }),
        (3usize, 9usize, Annotation { tag: "cite".to_string(), attrs }),
    ];
    let segments = build_segments("abcdefghi", &spans);
    let joined: String = segments.iter().map(|s| s.text.clone()).collect();
    assert_eq!(joined, "abcdefghi");
    assert_eq!(segments.len(), 3);
    assert_eq!(segments[0].text, "abc");
    assert_eq!(segments[1].text, "de");
    assert_eq!(segments[2].text, "fghi");
    assert_eq!(segments[0].annotations.len(), 1);
    assert_eq!(segments[0].annotations[0].tag, "note");
    assert_eq!(segments[1].annotations.len(), 2);
    assert_eq!(segments[2].annotations.len(), 1);
    assert_eq!(segments[2].annotations[0].tag, "cite");
}

#[test]
fn treat_as_text_keeps_unknown_end_tags() {
    let mut cfg = llm_config();
    cfg.unknown_mode = UnknownMode::TreatAsText;
    let result = parse("a </mystery> b", &cfg);
    assert_eq!(result.text, "a </mystery> b");
}

#[test]
fn forward_span_stops_at_newline() {
    let cfg = llm_config();
    let result = parse("<note>first line\nsecond line", &cfg);
    assert_eq!(result.text, "first line\nsecond line");
    let note = result
        .segments
        .iter()
        .find(|s| s.annotations.iter().any(|a| a.tag == "note"))
        .expect("note span");
    assert_eq!(note.text, "first line");
}

#[test]
fn names_may_carry_dashes_colons_and_dots() {
    let mut cfg = ParserConfig::default();
    cfg.recognized_tags = vec!["x-y:z.w1".to_string()];
    let result = parse("<x-y:z.w1>hi</x-y:z.w1>", &cfg);
    assert_eq!(result.text, "hi");
    assert!(result
        .segments
        .iter()
        .any(|s| s.annotations.iter().any(|a| a.tag == "x-y:z.w1")));
}

#[test]
fn end_tag_ignores_its_attributes() {
    let cfg = llm_config();
    let result = parse("<cite id=1>A</cite id=3>", &cfg);
    assert_eq!(result.text, "A");
    let ann = &result.segments[0].annotations[0];
    assert_eq!(ann.tag, "cite");
    assert_eq!(ann.attrs.get("id"), Some(&AttrValue::Str("1".into())));
}

#[test]
fn empty_tag_bodies_stay_literal() {
    let cfg = llm_config();
    let result = parse("a </> b < > c", &cfg);
    assert_eq!(result.text, "a </> b < > c");
}

#[test]
fn whitespace_around_tag_name_is_trimmed() {
    let cfg = llm_config();
    let result = parse("< cite id=1 >x</cite>", &cfg);
    assert_eq!(result.text, "x");
    let ann = &result.segments[0].annotations[0];
    assert_eq!(ann.tag, "cite");
    assert_eq!(ann.attrs.get("id"), Some(&AttrValue::Str("1".into())));
}

#[test]
fn self_closing_with_space_before_slash() {
    let cfg = llm_config();
    let result = parse("a <todo /> b", &cfg);
    assert_eq!(result.text, "a  b");
    assert_eq!(result.markers.len(), 1);
    assert_eq!(result.markers[0].annotation.tag, "todo");
}

#[test]
fn retro_line_anchor_with_multibyte_text() {
    let cfg = llm_config();
    let result = parse("Äpfel\nBirnen <cite id=1>", &cfg);
    assert_eq!(result.text, "Äpfel\nBirnen ");
    let cite = result
        .segments
        .iter()
        .find(|s| s.annotations.iter().any(|a| a.tag == "cite"))
        .expect("cite span");
    assert_eq!(cite.text, "Birnen");
}
