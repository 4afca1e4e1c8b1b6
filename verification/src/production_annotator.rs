//! The segmentation engine: the greedy longest-match scan, the
//! opposite-script fallback, the multi-reading disambiguation policy,
//! and the per-segment confidence tiers.

use vstd::prelude::*;

use crate::dictionary::{
    active_words, spec_detect_traditional, spec_longest_match, str_eq,
    AnnotationData, AnnotationDataView, Dictionary, ProcessedDataView,
};

verus! {

/// The output layout a renderer is asked for.
#[derive(Debug, Clone, Copy, PartialEq, Eq, Structural)]
pub enum OutputFormat {
    Inline,
    Json,
    Brackets,
    Ruby,
    Table,
    Rows,
}

/// Which reading a renderer shows beside a segment.
#[derive(Debug, Clone, Copy, PartialEq, Eq, Structural)]
pub enum AnnotationStyle {
    Pinyin,
    Zhuyin,
    Both,
}

/// Caller-supplied, already-validated configuration. Confidence values
/// are carried in hundredths of the unit scale, so the threshold lies
/// in 0..=100.
#[derive(Debug, Clone, Copy, PartialEq, Eq, Structural)]
pub struct AnnotationConfig {
    pub output_format: OutputFormat,
    pub annotation_style: AnnotationStyle,
    pub confidence_threshold: u32,
    pub show_alternatives: bool,
    pub show_confidence: bool,
    pub use_traditional: bool,
}

impl Default for AnnotationConfig {
    fn default() -> (r: Self)
        ensures
            r == (AnnotationConfig {
                output_format: OutputFormat::Inline,
                annotation_style: AnnotationStyle::Pinyin,
                confidence_threshold: 30,
                show_alternatives: false,
                show_confidence: false,
                use_traditional: false,
            }),
    {
        AnnotationConfig {
            output_format: OutputFormat::Inline,
            annotation_style: AnnotationStyle::Pinyin,
            confidence_threshold: 30,
            show_alternatives: false,
            show_confidence: false,
            use_traditional: false,
        }
    }
}

/// One emitted segment: a substring of the input with its chosen
/// reading, confidence tier (in hundredths of the unit scale), and the
/// alternative pinyin readings when the match was ambiguous.
#[derive(Debug)]
pub struct AnnotatedSegment {
    pub text: String,
    pub pinyin: Option<String>,
    pub zhuyin: Option<String>,
    pub confidence: u32,
    pub alternatives: Vec<String>,
    pub is_chinese: bool,
    pub position: usize,
}

/// Mathematical image of an [`AnnotatedSegment`].
#[verifier::ext_equal]
pub struct AnnotatedSegmentView {
    pub text: Seq<char>,
    pub pinyin: Option<Seq<char>>,
    pub zhuyin: Option<Seq<char>>,
    pub confidence: int,
    pub alternatives: Seq<Seq<char>>,
    pub is_chinese: bool,
    pub position: int,
}

impl View for AnnotatedSegment {
    type V = AnnotatedSegmentView;

    open spec fn view(&self) -> AnnotatedSegmentView {
        AnnotatedSegmentView {
            text: self.text@,
            pinyin: match self.pinyin {
                Some(p) => Some(p@),
                None => None,
            },
            zhuyin: match self.zhuyin {
                Some(z) => Some(z@),
                None => None,
            },
            confidence: self.confidence as int,
            alternatives: self.alternatives.deep_view(),
            is_chinese: self.is_chinese,
            position: self.position as int,
        }
    }
}

impl DeepView for AnnotatedSegment {
    type V = AnnotatedSegmentView;

    open spec fn deep_view(&self) -> AnnotatedSegmentView {
        self.view()
    }
}

/// Confidence, in hundredths, of a match with exactly one reading.
pub const CONFIDENCE_SINGLE: u32 = 95;

/// Confidence, in hundredths, of a match disambiguated among readings.
pub const CONFIDENCE_MULTI: u32 = 80;

/// Confidence, in hundredths, of a segment with nothing to choose: an
/// unmatched character, or a match whose record list stayed empty.
pub const CONFIDENCE_PLAIN: u32 = 100;

/// The record field that the active script is matched against.
pub open spec fn spec_script_field(a: AnnotationDataView, use_traditional: bool) -> Seq<char> {
    if use_traditional {
        a.traditional
    } else {
        a.simplified
    }
}

/// The first record whose script field equals the segment text exactly,
/// if any does.
pub open spec fn spec_direct_match_index(
    records: Seq<AnnotationDataView>,
    text: Seq<char>,
    use_traditional: bool,
) -> Option<int>
    decreases records.len(),
{
    if records.len() == 0 {
        None
    } else if spec_script_field(records[0], use_traditional) == text {
        Some(0)
    } else {
        match spec_direct_match_index(records.drop_first(), text, use_traditional) {
            Some(i) => Some(i + 1),
            None => None,
        }
    }
}

/// Whether a pinyin string stands in the fixed allow-list of canonical
/// readings for well-known polyphonic characters.
pub open spec fn spec_is_canonical_reading(p: Seq<char>) -> bool {
    ||| p == "wǒ"@
    ||| p == "nǐ"@
    ||| p == "hǎo"@
    ||| p == "shì"@
    ||| p == "de"@
    ||| p == "le"@
}

/// The first record whose pinyin is a canonical reading, if any is.
pub open spec fn spec_canonical_index(records: Seq<AnnotationDataView>) -> Option<int>
    decreases records.len(),
{
    if records.len() == 0 {
        None
    } else if spec_is_canonical_reading(records[0].pinyin) {
        Some(0)
    } else {
        match spec_canonical_index(records.drop_first()) {
            Some(i) => Some(i + 1),
            None => None,
        }
    }
}

/// The canonical-reading fallback: the first canonical record, else
/// index 0, the dictionary declaration order.
pub open spec fn spec_best_pronunciation(records: Seq<AnnotationDataView>) -> int {
    match spec_canonical_index(records) {
        Some(i) => i,
        None => 0,
    }
}

/// The full disambiguation policy: the first record whose script field
/// equals the segment text, else the canonical-reading fallback, else
/// index 0.
pub open spec fn spec_best_index(
    records: Seq<AnnotationDataView>,
    text: Seq<char>,
    use_traditional: bool,
) -> int {
    match spec_direct_match_index(records, text, use_traditional) {
        Some(i) => i,
        None => spec_best_pronunciation(records),
    }
}

/// A direct-match hit always names a record of the list.
proof fn lemma_direct_match_index_in_range(
    records: Seq<AnnotationDataView>,
    text: Seq<char>,
    use_traditional: bool,
)
    ensures
        spec_direct_match_index(records, text, use_traditional) matches Some(i) ==> 0 <= i
            < records.len(),
    decreases records.len(),
{
    if records.len() > 0 && spec_script_field(records[0], use_traditional) != text {
        lemma_direct_match_index_in_range(records.drop_first(), text, use_traditional);
    }
}

/// A canonical-reading hit always names a record of the list.
proof fn lemma_canonical_index_in_range(records: Seq<AnnotationDataView>)
    ensures
        spec_canonical_index(records) matches Some(i) ==> 0 <= i < records.len(),
    decreases records.len(),
{
    if records.len() > 0 && !spec_is_canonical_reading(records[0].pinyin) {
        lemma_canonical_index_in_range(records.drop_first());
    }
}

/// The chosen index always names a record of a non-empty list.
pub proof fn lemma_best_index_in_range(
    records: Seq<AnnotationDataView>,
    text: Seq<char>,
    use_traditional: bool,
)
    requires
        records.len() > 0,
    ensures
        0 <= spec_best_index(records, text, use_traditional) < records.len(),
{
    lemma_direct_match_index_in_range(records, text, use_traditional);
    lemma_canonical_index_in_range(records);
}

/// If the first `i` records carry no direct match, a direct match of
/// the whole list is one of the tail from `i` on, shifted by `i`.
proof fn lemma_direct_match_skip(
    records: Seq<AnnotationDataView>,
    text: Seq<char>,
    use_traditional: bool,
    i: int,
)
    requires
        0 <= i <= records.len(),
        forall|j: int| 0 <= j < i ==> spec_script_field(records[j], use_traditional) != text,
    ensures
        spec_direct_match_index(records, text, use_traditional) == match spec_direct_match_index(
            records.skip(i),
            text,
            use_traditional,
        ) {
            Some(k) => Some(k + i),
            None => None::<int>,
        },
    decreases i,
{
    if i > 0 {
        assert(spec_script_field(records[0], use_traditional) != text);
        lemma_direct_match_skip(records.drop_first(), text, use_traditional, i - 1);
        assert(records.drop_first().skip(i - 1) =~= records.skip(i));
    } else {
        assert(records.skip(0) =~= records);
    }
}

/// If the first `i` records carry no canonical reading, a canonical hit
/// of the whole list is one of the tail from `i` on, shifted by `i`.
proof fn lemma_canonical_skip(records: Seq<AnnotationDataView>, i: int)
    requires
        0 <= i <= records.len(),
        forall|j: int| 0 <= j < i ==> !spec_is_canonical_reading(records[j].pinyin),
    ensures
        spec_canonical_index(records) == match spec_canonical_index(records.skip(i)) {
            Some(k) => Some(k + i),
            None => None::<int>,
        },
    decreases i,
{
    if i > 0 {
        assert(!spec_is_canonical_reading(records[0].pinyin));
        lemma_canonical_skip(records.drop_first(), i - 1);
        assert(records.drop_first().skip(i - 1) =~= records.skip(i));
    } else {
        assert(records.skip(0) =~= records);
    }
}

/// The disambiguation policy is deterministic: the same record list,
/// segment text and active script always yield the same chosen index.
pub proof fn lemma_disambiguation_deterministic(
    records: Seq<AnnotationDataView>,
    text: Seq<char>,
    use_traditional: bool,
    first: int,
    second: int,
)
    requires
        first == spec_best_index(records, text, use_traditional),
        second == spec_best_index(records, text, use_traditional),
    ensures
        first == second,
{
}

/// The alternative readings of an ambiguous match: every record's
/// pinyin, in record order.
fn pinyin_options(records: &Vec<AnnotationData>) -> (r: Vec<String>)
    ensures
        r.deep_view() == records.deep_view().map_values(|a: AnnotationDataView| a.pinyin),
{
    let ghost target = records.deep_view().map_values(|a: AnnotationDataView| a.pinyin);
    let n = records.len();
    let mut r: Vec<String> = Vec::new();
    let mut i: usize = 0;
    proof {
        assert(r.deep_view() =~= target.take(0));
    }
    while i < n
        invariant
            n == records@.len(),
            target == records.deep_view().map_values(|a: AnnotationDataView| a.pinyin),
            target.len() == n,
            i <= n,
            r.deep_view() == target.take(i as int),
        decreases n - i,
    {
        let ghost pre = r.deep_view();
        r.push(records[i].pinyin.clone());
        proof {
            assert(r.deep_view() =~= pre.push(target[i as int]));
            assert(pre.push(target[i as int]) =~= target.take(i + 1));
        }
        i += 1;
    }
    proof {
        assert(target.take(n as int) =~= target);
    }
    r
}

/// Membership of a code point in the recognized CJK ranges: CJK
/// Unified Ideographs, Extension A, Extension B, and Kangxi Radicals.
pub open spec fn spec_is_chinese_char(c: char) -> bool {
    ||| 0x4E00 <= c as u32 <= 0x9FFF
    ||| 0x3400 <= c as u32 <= 0x4DBF
    ||| 0x20000 <= c as u32 <= 0x2A6DF
    ||| 0x2F00 <= c as u32 <= 0x2FDF
}

/// The script the engine scans with: the forced one when the caller
/// forces traditional, else the detector's whole-text outcome.
pub open spec fn spec_active_script(
    d: ProcessedDataView,
    config: AnnotationConfig,
    text: Seq<char>,
) -> bool {
    config.use_traditional || spec_detect_traditional(d, text)
}

/// The opposite-script fallback: an empty record list is replaced by
/// the opposite mapping's longest match over the segment text, when
/// that match exists and its records are non-empty.
pub open spec fn spec_fallback_records(
    d: ProcessedDataView,
    seg_text: Seq<char>,
    records: Seq<AnnotationDataView>,
    use_traditional: bool,
) -> Seq<AnnotationDataView> {
    if records.len() == 0 {
        match spec_longest_match(active_words(d, !use_traditional), seg_text, 0) {
            Some(p) => if p.1.len() > 0 {
                p.1
            } else {
                records
            },
            None => records,
        }
    } else {
        records
    }
}

/// The segment the engine emits at character offset `pos`: the longest
/// match annotated and disambiguated, or one unmatched character.
pub open spec fn spec_segment_at(
    d: ProcessedDataView,
    text: Seq<char>,
    pos: int,
    use_traditional: bool,
) -> AnnotatedSegmentView {
    match spec_longest_match(active_words(d, use_traditional), text, pos) {
        Some(p) => {
            let seg_text = text.subrange(pos, pos + p.0);
            let records = spec_fallback_records(d, seg_text, p.1, use_traditional);
            if records.len() == 1 {
                AnnotatedSegmentView {
                    text: seg_text,
                    pinyin: Some(records[0].pinyin),
                    zhuyin: Some(records[0].zhuyin),
                    confidence: CONFIDENCE_SINGLE as int,
                    alternatives: Seq::empty(),
                    is_chinese: true,
                    position: pos,
                }
            } else if records.len() > 1 {
                let best = spec_best_index(records, seg_text, use_traditional);
                AnnotatedSegmentView {
                    text: seg_text,
                    pinyin: Some(records[best].pinyin),
                    zhuyin: Some(records[best].zhuyin),
                    confidence: CONFIDENCE_MULTI as int,
                    alternatives: records.map_values(|a: AnnotationDataView| a.pinyin),
                    is_chinese: true,
                    position: pos,
                }
            } else {
                AnnotatedSegmentView {
                    text: seg_text,
                    pinyin: None,
                    zhuyin: None,
                    confidence: CONFIDENCE_PLAIN as int,
                    alternatives: Seq::empty(),
                    is_chinese: true,
                    position: pos,
                }
            }
        },
        None => AnnotatedSegmentView {
            text: seq![text[pos]],
            pinyin: None,
            zhuyin: None,
            confidence: CONFIDENCE_PLAIN as int,
            alternatives: Seq::empty(),
            is_chinese: spec_is_chinese_char(text[pos]),
            position: pos,
        },
    }
}

/// How many characters the step at `pos` consumes: the match length,
/// or one character when nothing matches. Always at least one.
pub open spec fn spec_step_len(
    d: ProcessedDataView,
    text: Seq<char>,
    pos: int,
    use_traditional: bool,
) -> int {
    match spec_longest_match(active_words(d, use_traditional), text, pos) {
        Some(p) => if p.0 >= 1 {
            p.0
        } else {
            1
        },
        None => 1,
    }
}

/// The whole segment sequence the engine emits from offset `pos` on:
/// one segment per step, each step consuming [`spec_step_len`]
/// characters, until the text is consumed.
pub open spec fn spec_annotate_from(
    d: ProcessedDataView,
    text: Seq<char>,
    pos: int,
    use_traditional: bool,
) -> Seq<AnnotatedSegmentView>
    decreases text.len() - pos,
    via spec_annotate_from_decreases
{
    if pos < 0 || pos >= text.len() {
        Seq::empty()
    } else {
        seq![spec_segment_at(d, text, pos, use_traditional)] + spec_annotate_from(
            d,
            text,
            pos + spec_step_len(d, text, pos, use_traditional),
            use_traditional,
        )
    }
}

#[via_fn]
proof fn spec_annotate_from_decreases(
    d: ProcessedDataView,
    text: Seq<char>,
    pos: int,
    use_traditional: bool,
) {
    if 0 <= pos < text.len() {
        crate::dictionary::lemma_longest_match_bounds(
            active_words(d, use_traditional),
            text,
            pos,
        );
    }
}

/// The texts of a segment sequence, concatenated in emission order.
pub open spec fn concat_segment_texts(segs: Seq<AnnotatedSegmentView>) -> Seq<char>
    decreases segs.len(),
{
    if segs.len() == 0 {
        Seq::empty()
    } else {
        segs[0].text + concat_segment_texts(segs.drop_first())
    }
}

/// Whether the positions are contiguous from `pos` on: each segment
/// starts exactly where the one before it ended, so positions are
/// strictly increasing and equal the cumulative character count.
pub open spec fn spec_positions_contiguous(segs: Seq<AnnotatedSegmentView>, pos: int) -> bool
    decreases segs.len(),
{
    if segs.len() == 0 {
        true
    } else {
        segs[0].position == pos && spec_positions_contiguous(
            segs.drop_first(),
            pos + segs[0].text.len(),
        )
    }
}

/// Partition and progress of the emitted segments: their texts
/// concatenate to the text from `pos` on, each consumes at least one
/// character, positions are contiguous, and the scan takes at most one
/// step per character — at least one step when text remains.
pub proof fn lemma_annotate_partition(
    d: ProcessedDataView,
    text: Seq<char>,
    pos: int,
    use_traditional: bool,
)
    requires
        0 <= pos <= text.len(),
    ensures
        ({
            let segs = spec_annotate_from(d, text, pos, use_traditional);
            &&& concat_segment_texts(segs) == text.subrange(pos, text.len() as int)
            &&& spec_positions_contiguous(segs, pos)
            &&& forall|j: int| 0 <= j < segs.len() ==> #[trigger] segs[j].text.len() >= 1
            &&& segs.len() <= text.len() - pos
            &&& pos < text.len() ==> segs.len() >= 1
        }),
    decreases text.len() - pos,
{
    let segs = spec_annotate_from(d, text, pos, use_traditional);
    if pos >= text.len() {
        assert(concat_segment_texts(segs) =~= text.subrange(pos, text.len() as int));
    } else {
        crate::dictionary::lemma_longest_match_bounds(
            active_words(d, use_traditional),
            text,
            pos,
        );
        let step = spec_step_len(d, text, pos, use_traditional);
        let head = spec_segment_at(d, text, pos, use_traditional);
        let rest = spec_annotate_from(d, text, pos + step, use_traditional);
        assert(1 <= step && pos + step <= text.len());
        assert(head.text =~= text.subrange(pos, pos + step));
        lemma_annotate_partition(d, text, pos + step, use_traditional);
        assert(segs == seq![head] + rest);
        assert(segs.drop_first() =~= rest);
        assert(segs[0] == head);
        assert(concat_segment_texts(segs) == head.text + concat_segment_texts(rest));
        assert(text.subrange(pos, pos + step) + text.subrange(pos + step, text.len() as int)
            =~= text.subrange(pos, text.len() as int));
        assert(head.position == pos);
        assert forall|j: int| 0 <= j < segs.len() implies #[trigger] segs[j].text.len() >= 1 by {
            if j == 0 {
                assert(segs[j] == head);
            } else {
                assert(segs[j] == rest[j - 1]);
            }
        }
    }
}

/// Confidence tiers of the emitted segments: every confidence lies in
/// the unit interval (in hundredths), and is exactly the single-reading
/// tier, the disambiguated tier, or the plain tier.
pub proof fn lemma_confidence_tiers(
    d: ProcessedDataView,
    text: Seq<char>,
    pos: int,
    use_traditional: bool,
)
    requires
        0 <= pos <= text.len(),
    ensures
        ({
            let segs = spec_annotate_from(d, text, pos, use_traditional);
            forall|j: int| 0 <= j < segs.len() ==> {
                let c = (#[trigger] segs[j]).confidence;
                &&& 0 <= c <= 100
                &&& (c == CONFIDENCE_SINGLE as int || c == CONFIDENCE_MULTI as int || c
                    == CONFIDENCE_PLAIN as int)
            }
        }),
    decreases text.len() - pos,
{
    let segs = spec_annotate_from(d, text, pos, use_traditional);
    if pos < text.len() {
        crate::dictionary::lemma_longest_match_bounds(
            active_words(d, use_traditional),
            text,
            pos,
        );
        let step = spec_step_len(d, text, pos, use_traditional);
        let head = spec_segment_at(d, text, pos, use_traditional);
        let rest = spec_annotate_from(d, text, pos + step, use_traditional);
        lemma_confidence_tiers(d, text, pos + step, use_traditional);
        assert(segs == seq![head] + rest);
        assert(head.confidence == CONFIDENCE_SINGLE as int || head.confidence
            == CONFIDENCE_MULTI as int || head.confidence == CONFIDENCE_PLAIN as int);
        assert forall|j: int| 0 <= j < segs.len() implies {
            let c = (#[trigger] segs[j]).confidence;
            &&& 0 <= c <= 100
            &&& (c == CONFIDENCE_SINGLE as int || c == CONFIDENCE_MULTI as int || c
                == CONFIDENCE_PLAIN as int)
        } by {
            if j == 0 {
                assert(segs[j] == head);
            } else {
                assert(segs[j] == rest[j - 1]);
            }
        }
    }
}

/// The tier a matched segment gets follows its effective record list:
/// exactly one reading gives the single-reading tier, several give the
/// disambiguated tier, none give the plain tier; an unmatched single
/// character gets the plain tier.
pub proof fn lemma_segment_confidence(
    d: ProcessedDataView,
    text: Seq<char>,
    pos: int,
    use_traditional: bool,
)
    requires
        0 <= pos < text.len(),
    ensures
        ({
            let seg = spec_segment_at(d, text, pos, use_traditional);
            let m = spec_longest_match(active_words(d, use_traditional), text, pos);
            &&& (m matches Some(p) ==> {
                let records = spec_fallback_records(
                    d,
                    text.subrange(pos, pos + p.0),
                    p.1,
                    use_traditional,
                );
                &&& (records.len() == 1 ==> seg.confidence == CONFIDENCE_SINGLE as int)
                &&& (records.len() > 1 ==> seg.confidence == CONFIDENCE_MULTI as int)
                &&& (records.len() == 0 ==> seg.confidence == CONFIDENCE_PLAIN as int)
            })
            &&& (m is None ==> seg.confidence == CONFIDENCE_PLAIN as int)
        }),
{
}

/// The annotation engine: the loaded dictionary and the caller's
/// configuration, both read-only between reconfigurations.
#[derive(Debug)]
pub struct ProductionAnnotator {
    dictionary: Dictionary,
    config: AnnotationConfig,
}

/// Mathematical image of a [`ProductionAnnotator`].
pub struct ProductionAnnotatorView {
    pub dictionary: ProcessedDataView,
    pub config: AnnotationConfig,
}

impl View for ProductionAnnotator {
    type V = ProductionAnnotatorView;

    closed spec fn view(&self) -> ProductionAnnotatorView {
        ProductionAnnotatorView { dictionary: self.dictionary@, config: self.config }
    }
}

impl ProductionAnnotator {
    /// Builds the engine around an already-loaded dictionary and an
    /// already-validated configuration.
    pub fn new(dictionary: Dictionary, config: AnnotationConfig) -> (r: Self)
        ensures
            r@.dictionary == dictionary@,
            r@.config == config,
    {
        ProductionAnnotator { dictionary, config }
    }

    /// The dictionary size and a short description of the mode.
    pub fn get_stats(&self) -> (r: (usize, String))
        ensures
            r.0 == self@.dictionary.stats.total_entries,
            r.1@ == "Dictionary-based annotation mode"@,
    {
        (self.dictionary.entry_count(), "Dictionary-based annotation mode".to_owned())
    }

    /// Swaps the configuration; the dictionary stays as it is.
    pub fn set_config(&mut self, config: AnnotationConfig)
        ensures
            final(self)@.config == config,
            final(self)@.dictionary == old(self)@.dictionary,
    {
        self.config = config;
    }

    /// Whether the character's code point lies in a recognized CJK
    /// range.
    pub fn is_chinese_char(&self, c: char) -> (r: bool)
        ensures
            r == spec_is_chinese_char(c),
    {
        let u = c as u32;
        (0x4E00 <= u && u <= 0x9FFF) || (0x3400 <= u && u <= 0x4DBF) || (0x20000 <= u && u
            <= 0x2A6DF) || (0x2F00 <= u && u <= 0x2FDF)
    }

    /// The canonical-reading fallback: the first record whose pinyin
    /// stands in the fixed allow-list, else index 0.
    pub fn select_best_pronunciation(&self, annotations: &Vec<AnnotationData>) -> (r: usize)
        ensures
            r == spec_best_pronunciation(annotations.deep_view()),
            annotations@.len() > 0 ==> r < annotations@.len(),
            annotations@.len() == 0 ==> r == 0,
    {
        let ghost records = annotations.deep_view();
        let n = annotations.len();
        let mut i: usize = 0;
        while i < n
            invariant
                records == annotations.deep_view(),
                n == records.len(),
                i <= n,
                forall|j: int| 0 <= j < i ==> !spec_is_canonical_reading(records[j].pinyin),
            decreases n - i,
        {
            let p = &annotations[i].pinyin;
            let canonical = str_eq(p.as_str(), "wǒ") || str_eq(p.as_str(), "nǐ") || str_eq(
                p.as_str(),
                "hǎo",
            ) || str_eq(p.as_str(), "shì") || str_eq(p.as_str(), "de") || str_eq(
                p.as_str(),
                "le",
            );
            if canonical {
                proof {
                    lemma_canonical_skip(records, i as int);
                    assert(records.skip(i as int)[0] == records[i as int]);
                }
                return i;
            }
            i += 1;
        }
        proof {
            lemma_canonical_skip(records, n as int);
            assert(records.skip(n as int) =~= Seq::<AnnotationDataView>::empty());
        }
        0
    }

    /// Annotates the text: the greedy longest-match scan over the whole
    /// input, one emitted segment per step, exactly the sequence that
    /// [`spec_annotate_from`] describes from offset 0 under the active
    /// script. Always succeeds; empty text yields an empty sequence.
    pub fn annotate(&self, text: &str) -> (r: Vec<AnnotatedSegment>)
        ensures
            r.deep_view() == spec_annotate_from(
                self@.dictionary,
                text@,
                0,
                spec_active_script(self@.dictionary, self@.config, text@),
            ),
    {
        let ghost d = self@.dictionary;
        let use_traditional = if self.config.use_traditional {
            true
        } else {
            self.dictionary.detect_traditional(text)
        };
        let n = text.unicode_len();
        let mut segments: Vec<AnnotatedSegment> = Vec::new();
        let mut i: usize = 0;
        proof {
            assert(segments.deep_view() =~= Seq::<AnnotatedSegmentView>::empty());
        }
        while i < n
            invariant
                n == text@.len(),
                i <= n,
                d == self@.dictionary,
                use_traditional == spec_active_script(self@.dictionary, self@.config, text@),
                spec_annotate_from(d, text@, 0, use_traditional) == segments.deep_view()
                    + spec_annotate_from(d, text@, i as int, use_traditional),
            decreases n - i,
        {
            let ghost seg_spec = spec_segment_at(d, text@, i as int, use_traditional);
            let ghost step = spec_step_len(d, text@, i as int, use_traditional);
            let ghost pre = segments.deep_view();
            let ghost entry_pos = i as int;
            match self.dictionary.find_longest_match(text, i, use_traditional) {
                Some((matched_len, annotation_data)) => {
                    let ghost records0 = annotation_data.deep_view();
                    let ghost seg_text = text@.subrange(i as int, i + matched_len);
                    let segment_text = text.substring_char(i, i + matched_len);
                    let final_data = if annotation_data.len() == 0 {
                        match self.dictionary.find_longest_match(
                            segment_text,
                            0,
                            !use_traditional,
                        ) {
                            Some((_fallback_len, fallback_data)) => {
                                if fallback_data.len() > 0 {
                                    fallback_data
                                } else {
                                    annotation_data
                                }
                            },
                            None => annotation_data,
                        }
                    } else {
                        annotation_data
                    };
                    proof {
                        assert(final_data.deep_view() == spec_fallback_records(
                            d,
                            seg_text,
                            records0,
                            use_traditional,
                        ));
                    }
                    let seg: AnnotatedSegment = if final_data.len() == 1 {
                        AnnotatedSegment {
                            text: segment_text.to_owned(),
                            pinyin: Some(final_data[0].pinyin.clone()),
                            zhuyin: Some(final_data[0].zhuyin.clone()),
                            confidence: CONFIDENCE_SINGLE,
                            alternatives: Vec::new(),
                            is_chinese: true,
                            position: i,
                        }
                    } else if final_data.len() > 1 {
                        let alternatives = pinyin_options(&final_data);
                        let best = self.select_by_direct_matching(
                            &final_data,
                            segment_text,
                            use_traditional,
                        );
                        proof {
                            lemma_best_index_in_range(
                                final_data.deep_view(),
                                seg_text,
                                use_traditional,
                            );
                        }
                        AnnotatedSegment {
                            text: segment_text.to_owned(),
                            pinyin: Some(final_data[best].pinyin.clone()),
                            zhuyin: Some(final_data[best].zhuyin.clone()),
                            confidence: CONFIDENCE_MULTI,
                            alternatives,
                            is_chinese: true,
                            position: i,
                        }
                    } else {
                        AnnotatedSegment {
                            text: segment_text.to_owned(),
                            pinyin: None,
                            zhuyin: None,
                            confidence: CONFIDENCE_PLAIN,
                            alternatives: Vec::new(),
                            is_chinese: true,
                            position: i,
                        }
                    };
                    proof {
                        assert(seg@.alternatives =~= seg_spec.alternatives);
                        assert(seg@ =~= seg_spec);
                        assert(step == matched_len as int);
                    }
                    segments.push(seg);
                    i += matched_len;
                },
                None => {
                    let segment_text = text.substring_char(i, i + 1);
                    let seg = AnnotatedSegment {
                        text: segment_text.to_owned(),
                        pinyin: None,
                        zhuyin: None,
                        confidence: CONFIDENCE_PLAIN,
                        alternatives: Vec::new(),
                        is_chinese: self.is_chinese_char(text.get_char(i)),
                        position: i,
                    };
                    proof {
                        assert(seg@.text =~= seq![text@[i as int]]);
                        assert(seg@.alternatives =~= seg_spec.alternatives);
                        assert(seg@ =~= seg_spec);
                        assert(step == 1);
                    }
                    segments.push(seg);
                    i += 1;
                },
            }
            proof {
                assert(spec_annotate_from(d, text@, entry_pos, use_traditional) == seq![seg_spec]
                    + spec_annotate_from(d, text@, entry_pos + step, use_traditional));
                assert(segments.deep_view() =~= pre.push(seg_spec));
                assert(pre + (seq![seg_spec] + spec_annotate_from(
                    d,
                    text@,
                    i as int,
                    use_traditional,
                )) =~= pre.push(seg_spec) + spec_annotate_from(d, text@, i as int, use_traditional));
            }
        }
        proof {
            assert(spec_annotate_from(d, text@, n as int, use_traditional)
                =~= Seq::<AnnotatedSegmentView>::empty());
            assert(segments.deep_view() + Seq::<AnnotatedSegmentView>::empty()
                =~= segments.deep_view());
        }
        segments
    }

    /// The full disambiguation policy: direct script-field match first,
    /// then the canonical-reading fallback.
    pub fn select_by_direct_matching(
        &self,
        annotations: &Vec<AnnotationData>,
        input_text: &str,
        use_traditional: bool,
    ) -> (r: usize)
        ensures
            r == spec_best_index(annotations.deep_view(), input_text@, use_traditional),
            annotations@.len() > 0 ==> r < annotations@.len(),
            annotations@.len() == 0 ==> r == 0,
    {
        let ghost records = annotations.deep_view();
        let n = annotations.len();
        let mut i: usize = 0;
        while i < n
            invariant
                records == annotations.deep_view(),
                n == records.len(),
                i <= n,
                forall|j: int| 0 <= j < i ==> spec_script_field(records[j], use_traditional)
                    != input_text@,
            decreases n - i,
        {
            let field = if use_traditional {
                &annotations[i].traditional
            } else {
                &annotations[i].simplified
            };
            if str_eq(field.as_str(), input_text) {
                proof {
                    lemma_direct_match_skip(records, input_text@, use_traditional, i as int);
                    assert(records.skip(i as int)[0] == records[i as int]);
                }
                return i;
            }
            i += 1;
        }
        proof {
            lemma_direct_match_skip(records, input_text@, use_traditional, n as int);
            assert(records.skip(n as int) =~= Seq::<AnnotationDataView>::empty());
        }
        self.select_best_pronunciation(annotations)
    }
}

} // verus!
