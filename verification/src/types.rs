//! The public data model: attribute values, annotations, segments, markers,
//! the parser configuration, and the parse result.

use vstd::prelude::*;

verus! {

/// A single attribute value: either a bare name (`Bool(true)`) or the string
/// written after `=`.
#[derive(Debug, Clone, PartialEq, Eq)]
pub enum AttrValue {
    Bool(bool),
    Str(String),
}

/// Mathematical value of an [`AttrValue`].
pub enum AttrValueView {
    Bool(bool),
    Str(Seq<char>),
}

impl View for AttrValue {
    type V = AttrValueView;

    open spec fn view(&self) -> AttrValueView {
        match self {
            AttrValue::Bool(b) => AttrValueView::Bool(*b),
            AttrValue::Str(s) => AttrValueView::Str(s@),
        }
    }
}

/// The map denoted by a sequence of name/value writes, later writes
/// shadowing earlier ones.
pub open spec fn map_of_entries(s: Seq<(String, AttrValue)>) -> Map<Seq<char>, AttrValueView>
    decreases s.len(),
{
    if s.len() == 0 {
        Map::empty()
    } else {
        map_of_entries(s.drop_last()).insert(s.last().0@, s.last().1@)
    }
}

/// Overwriting the rightmost binding of a key denotes the same map as
/// inserting that key.
proof fn lemma_map_of_update(s: Seq<(String, AttrValue)>, i: int, p: (String, AttrValue))
    requires
        0 <= i < s.len(),
        s[i].0@ == p.0@,
        forall|j: int| i < j < s.len() ==> (#[trigger] s[j]).0@ != p.0@,
    ensures
        map_of_entries(s.update(i, p)) == map_of_entries(s).insert(p.0@, p.1@),
    decreases s.len(),
{
    let t = s.update(i, p);
    if i == s.len() - 1 {
        assert(t.drop_last() =~= s.drop_last());
        assert(t.last() == p);
        assert(map_of_entries(s).insert(p.0@, p.1@) =~= map_of_entries(s.drop_last()).insert(
            p.0@,
            p.1@,
        ));
    } else {
        assert(t.drop_last() =~= s.drop_last().update(i, p));
        assert(t.last() == s.last());
        assert(forall|j: int|
            i < j < s.drop_last().len() ==> (#[trigger] s.drop_last()[j]).0@ != p.0@);
        lemma_map_of_update(s.drop_last(), i, p);
        assert(s.last().0@ != p.0@);
        assert(map_of_entries(s.drop_last()).insert(p.0@, p.1@).insert(s.last().0@, s.last().1@)
            =~= map_of_entries(s.drop_last()).insert(s.last().0@, s.last().1@).insert(
            p.0@,
            p.1@,
        ));
    }
}

/// An attribute mapping from names to values. Writes are kept in order; a
/// write to a name already bound replaces that binding in place, so each
/// name appears at most once.
#[derive(Debug, Clone, PartialEq, Eq)]
pub struct AttrMap {
    entries: Vec<(String, AttrValue)>,
}

impl View for AttrMap {
    type V = Map<Seq<char>, AttrValueView>;

    closed spec fn view(&self) -> Map<Seq<char>, AttrValueView> {
        map_of_entries(self.entries@)
    }
}

impl AttrMap {
    /// An empty attribute mapping.
    pub fn new() -> (r: AttrMap)
        ensures
            r@ == Map::<Seq<char>, AttrValueView>::empty(),
    {
        AttrMap { entries: Vec::new() }
    }

    /// Binds `name` to `value`, overwriting any earlier binding in place.
    pub fn insert(&mut self, name: String, value: AttrValue)
        ensures
            final(self)@ == old(self)@.insert(name@, value@),
    {
        let n = self.entries.len();
        let mut i: usize = n;
        while i > 0
            invariant
                i <= n,
                self.entries@ == old(self).entries@,
                forall|j: int| i <= j < n ==> (#[trigger] self.entries@[j]).0@ != name@,
            decreases i,
        {
            i = i - 1;
            if crate::chars::str_eq(self.entries[i].0.as_str(), name.as_str()) {
                let ghost prev = self.entries@;
                let ghost namev = name@;
                let ghost valuev = value@;
                self.entries.set(i, (name, value));
                proof {
                    lemma_map_of_update(prev, i as int, self.entries@[i as int]);
                    assert(self.entries@[i as int].0@ == namev);
                    assert(self.entries@[i as int].1@ == valuev);
                }
                return ;
            }
        }
        let ghost prev = self.entries@;
        self.entries.push((name, value));
        proof {
            assert(self.entries@.drop_last() =~= prev);
        }
    }

    /// Looks the value bound to `name` up.
    pub fn get<'a>(&'a self, name: &str) -> (r: Option<&'a AttrValue>)
        ensures
            match r {
                Some(v) => self@.contains_key(name@) && v@ == self@[name@],
                None => !self@.contains_key(name@),
            },
    {
        let n = self.entries.len();
        proof {
            assert(self.entries@.take(n as int) =~= self.entries@);
        }
        let mut i: usize = n;
        while i > 0
            invariant
                i <= n,
                self@.contains_key(name@) == map_of_entries(self.entries@.take(i as int)).contains_key(name@),
                self@.contains_key(name@) ==> self@[name@] == map_of_entries(
                    self.entries@.take(i as int),
                )[name@],
            decreases i,
        {
            i = i - 1;
            proof {
                assert(self.entries@.take(i + 1).drop_last() =~= self.entries@.take(i as int));
                assert(self.entries@.take(i + 1).last() == self.entries@[i as int]);
            }
            if crate::chars::str_eq(self.entries[i].0.as_str(), name) {
                return Some(&self.entries[i].1);
            }
        }
        proof {
            assert(self.entries@.take(0) =~= Seq::<(String, AttrValue)>::empty());
        }
        None
    }

    /// Copies the mapping; the copy denotes the same map.
    pub fn duplicate(&self) -> (r: AttrMap)
        ensures
            r@ == self@,
    {
        let n = self.entries.len();
        let mut out: Vec<(String, AttrValue)> = Vec::new();
        let mut i: usize = 0;
        while i < n
            invariant
                i <= n,
                map_of_entries(out@) == map_of_entries(self.entries@.take(i as int)),
            decreases n - i,
        {
            let name = self.entries[i].0.clone();
            let value = match &self.entries[i].1 {
                AttrValue::Bool(b) => AttrValue::Bool(*b),
                AttrValue::Str(s) => AttrValue::Str(s.clone()),
            };
            let ghost prev = out@;
            out.push((name, value));
            proof {
                assert(out@.drop_last() =~= prev);
                assert(self.entries@.take(i + 1).drop_last() =~= self.entries@.take(i as int));
                assert(self.entries@.take(i + 1).last() == self.entries@[i as int]);
            }
            i = i + 1;
        }
        proof {
            assert(self.entries@.take(n as int) =~= self.entries@);
        }
        AttrMap { entries: out }
    }

    /// The bindings in write order, later ones shadowing earlier ones.
    pub fn entry_list(&self) -> (r: &Vec<(String, AttrValue)>)
        ensures
            map_of_entries(r@) == self@,
    {
        &self.entries
    }
}

/// An annotation carried by a span of text: the tag as originally cased in
/// the source, and its attributes.
#[derive(Debug, Clone, PartialEq, Eq)]
pub struct Annotation {
    pub tag: String,
    pub attrs: AttrMap,
}

/// Mathematical value of an [`Annotation`].
pub struct AnnotationView {
    pub tag: Seq<char>,
    pub attrs: Map<Seq<char>, AttrValueView>,
}

impl View for Annotation {
    type V = AnnotationView;

    open spec fn view(&self) -> AnnotationView {
        AnnotationView { tag: self.tag@, attrs: self.attrs@ }
    }
}

impl Annotation {
    /// Copies the annotation; the copy denotes the same value.
    pub fn duplicate(&self) -> (r: Annotation)
        ensures
            r@ == self@,
    {
        Annotation { tag: self.tag.clone(), attrs: self.attrs.duplicate() }
    }
}

/// A contiguous run of clean text plus the annotations covering it.
#[derive(Debug, Clone, PartialEq, Eq)]
pub struct Segment {
    pub text: String,
    pub annotations: Vec<Annotation>,
}

/// A zero-width marker produced by a self-closing tag, pinned to a byte
/// offset of the clean text.
#[derive(Debug, Clone, PartialEq, Eq)]
pub struct Marker {
    pub pos: usize,
    pub annotation: Annotation,
}

/// How to treat tags whose name is not recognized.
#[derive(Debug, Clone, Copy, PartialEq, Eq, Structural)]
pub enum UnknownMode {
    /// Drop the unknown tag markup but keep inner text.
    Strip,
    /// Keep the literal `<unknown ...>` markup in the output text.
    Passthrough,
    /// Do not treat `<...>` as tags at all; parse them as plain text.
    TreatAsText,
}

/// Recovery strategies for tags that are closed implicitly.
#[derive(Debug, Clone, Copy, PartialEq, Eq, Structural)]
pub enum RecoveryStrategy {
    /// Retroactively apply the tag to the text on the same line before it.
    RetroLine,
    /// Apply the tag forward until the next tag start.
    ForwardUntilTag,
    /// Apply the tag forward until the next newline.
    ForwardUntilNewline,
    /// Apply the tag to the next token/word only.
    ForwardNextToken,
    /// Ignore the unclosed tag (no annotation emitted).
    Noop,
}

/// What to do with an end tag of a recognized name that matches no open tag.
#[derive(Debug, Clone, Copy, PartialEq, Eq, Structural)]
pub enum StrayEndTagPolicy {
    /// Drop stray end tags for recognized tags.
    Drop,
    /// Keep stray end tags as literal text.
    Passthrough,
}

/// Parser configuration controlling tag recognition and recovery.
#[derive(Debug, Clone)]
pub struct ParserConfig {
    /// Tags that should be parsed and annotated; all others follow
    /// `unknown_mode`.
    pub recognized_tags: Vec<String>,
    /// Per-tag recovery overrides; a later binding for the same tag wins.
    pub per_tag_recovery: Vec<(String, RecoveryStrategy)>,
    /// How to handle unknown tags.
    pub unknown_mode: UnknownMode,
    /// If true, close open tags when encountering any new recognized tag.
    pub autoclose_on_any_tag: bool,
    /// If true, close open tags when seeing the same tag open again.
    pub autoclose_on_same_tag: bool,
    /// Trim whitespace and punctuation from recovered spans.
    pub trim_punctuation: bool,
    /// Match tags with case sensitivity.
    pub case_sensitive_tags: bool,
    /// What to do with stray end tags (no matching open).
    pub stray_end_tag_policy: StrayEndTagPolicy,
}

impl Default for ParserConfig {
    /// The default configuration: no recognized tags, unknown markup
    /// stripped, both autoclose rules on, trimming on, case-sensitive.
    fn default() -> (r: Self)
        ensures
            r.recognized_tags@ =~= Seq::<String>::empty(),
            r.per_tag_recovery@ =~= Seq::<(String, RecoveryStrategy)>::empty(),
            r.unknown_mode == UnknownMode::Strip,
            r.autoclose_on_any_tag,
            r.autoclose_on_same_tag,
            r.trim_punctuation,
            r.case_sensitive_tags,
            r.stray_end_tag_policy == StrayEndTagPolicy::Drop,
    {
        ParserConfig {
            recognized_tags: Vec::new(),
            per_tag_recovery: Vec::new(),
            unknown_mode: UnknownMode::Strip,
            autoclose_on_any_tag: true,
            autoclose_on_same_tag: true,
            trim_punctuation: true,
            case_sensitive_tags: true,
            stray_end_tag_policy: StrayEndTagPolicy::Drop,
        }
    }
}

impl ParserConfig {
    /// A configuration tuned for LLM-style tags: `cite`, `note`, `todo`,
    /// `claim`, `risk` and `code` are recognized case-insensitively, `cite`
    /// recovers retroactively over its line and the others run forward.
    pub fn default_llm_friendly_config() -> (r: ParserConfig)
        ensures
            r.recognized_tags@.len() == 6,
            r.recognized_tags@[0]@ == "cite"@,
            r.recognized_tags@[1]@ == "note"@,
            r.recognized_tags@[2]@ == "todo"@,
            r.recognized_tags@[3]@ == "claim"@,
            r.recognized_tags@[4]@ == "risk"@,
            r.recognized_tags@[5]@ == "code"@,
            r.per_tag_recovery@.len() == 6,
            r.per_tag_recovery@[0].0@ == "cite"@ && r.per_tag_recovery@[0].1
                == RecoveryStrategy::RetroLine,
            forall|i: int|
                1 <= i < 6 ==> (#[trigger] r.per_tag_recovery@[i]).1
                    == RecoveryStrategy::ForwardUntilTag,
            r.per_tag_recovery@[1].0@ == "note"@,
            r.per_tag_recovery@[2].0@ == "todo"@,
            r.per_tag_recovery@[3].0@ == "claim"@,
            r.per_tag_recovery@[4].0@ == "risk"@,
            r.per_tag_recovery@[5].0@ == "code"@,
            r.unknown_mode == UnknownMode::Strip,
            r.autoclose_on_any_tag,
            r.autoclose_on_same_tag,
            r.trim_punctuation,
            !r.case_sensitive_tags,
            r.stray_end_tag_policy == StrayEndTagPolicy::Drop,
    {
        let mut recognized_tags: Vec<String> = Vec::new();
        recognized_tags.push("cite".to_owned());
        recognized_tags.push("note".to_owned());
        recognized_tags.push("todo".to_owned());
        recognized_tags.push("claim".to_owned());
        recognized_tags.push("risk".to_owned());
        recognized_tags.push("code".to_owned());
        let mut per_tag_recovery: Vec<(String, RecoveryStrategy)> = Vec::new();
        per_tag_recovery.push(("cite".to_owned(), RecoveryStrategy::RetroLine));
        per_tag_recovery.push(("note".to_owned(), RecoveryStrategy::ForwardUntilTag));
        per_tag_recovery.push(("todo".to_owned(), RecoveryStrategy::ForwardUntilTag));
        per_tag_recovery.push(("claim".to_owned(), RecoveryStrategy::ForwardUntilTag));
        per_tag_recovery.push(("risk".to_owned(), RecoveryStrategy::ForwardUntilTag));
        per_tag_recovery.push(("code".to_owned(), RecoveryStrategy::ForwardUntilTag));
        ParserConfig {
            recognized_tags,
            per_tag_recovery,
            unknown_mode: UnknownMode::Strip,
            autoclose_on_any_tag: true,
            autoclose_on_same_tag: true,
            trim_punctuation: true,
            case_sensitive_tags: false,
            stray_end_tag_policy: StrayEndTagPolicy::Drop,
        }
    }

    /// A configuration that recognizes only `cite`, case-insensitively, with
    /// retroactive line recovery.
    pub fn default_cite_config() -> (r: ParserConfig)
        ensures
            r.recognized_tags@.len() == 1,
            r.recognized_tags@[0]@ == "cite"@,
            r.per_tag_recovery@.len() == 1,
            r.per_tag_recovery@[0].0@ == "cite"@ && r.per_tag_recovery@[0].1
                == RecoveryStrategy::RetroLine,
            r.unknown_mode == UnknownMode::Strip,
            r.autoclose_on_any_tag,
            r.autoclose_on_same_tag,
            r.trim_punctuation,
            !r.case_sensitive_tags,
            r.stray_end_tag_policy == StrayEndTagPolicy::Drop,
    {
        let mut recognized_tags: Vec<String> = Vec::new();
        recognized_tags.push("cite".to_owned());
        let mut per_tag_recovery: Vec<(String, RecoveryStrategy)> = Vec::new();
        per_tag_recovery.push(("cite".to_owned(), RecoveryStrategy::RetroLine));
        ParserConfig {
            recognized_tags,
            per_tag_recovery,
            unknown_mode: UnknownMode::Strip,
            autoclose_on_any_tag: true,
            autoclose_on_same_tag: true,
            trim_punctuation: true,
            case_sensitive_tags: false,
            stray_end_tag_policy: StrayEndTagPolicy::Drop,
        }
    }
}

/// Parser output: the clean text, its segments, and the markers.
#[derive(Debug, Clone, PartialEq, Eq)]
pub struct ParseResult {
    pub text: String,
    pub segments: Vec<Segment>,
    pub markers: Vec<Marker>,
}

} // verus!
