//! The offline dictionary-compilation step: turns a raw list of
//! pronunciation source records into the three lookup mappings and the
//! summary statistics that the loaded dictionary holds.

use vstd::prelude::*;

use crate::dictionary::{
    distinct_words, lemma_upsert_keeps_words_distinct, spec_upsert, str_to_chars, AnnotationData,
    AnnotationDataView, ProcessedData, ProcessingStats, WordEntryView, WordMap,
};

verus! {

/// One raw source record: a simplified form, a traditional form, and
/// the two phonetic transcriptions of one reading.
#[derive(Debug)]
pub struct DictionaryEntry {
    pub sm: String,
    pub tr: String,
    pub pinyin: String,
    pub zhuyin: String,
}

/// Mathematical image of a [`DictionaryEntry`].
pub struct DictionaryEntryView {
    pub sm: Seq<char>,
    pub tr: Seq<char>,
    pub pinyin: Seq<char>,
    pub zhuyin: Seq<char>,
}

impl View for DictionaryEntry {
    type V = DictionaryEntryView;

    open spec fn view(&self) -> DictionaryEntryView {
        DictionaryEntryView {
            sm: self.sm@,
            tr: self.tr@,
            pinyin: self.pinyin@,
            zhuyin: self.zhuyin@,
        }
    }
}

impl DeepView for DictionaryEntry {
    type V = DictionaryEntryView;

    open spec fn deep_view(&self) -> DictionaryEntryView {
        self.view()
    }
}

/// The pronunciation record that one source record contributes.
pub open spec fn annotation_of(e: DictionaryEntryView) -> AnnotationDataView {
    AnnotationDataView {
        pinyin: e.pinyin,
        zhuyin: e.zhuyin,
        traditional: e.tr,
        simplified: e.sm,
    }
}

/// The simplified word mapping: every source record filed under its
/// simplified form, in source order.
pub open spec fn build_simplified(es: Seq<DictionaryEntryView>) -> Seq<WordEntryView>
    decreases es.len(),
{
    if es.len() == 0 {
        Seq::empty()
    } else {
        spec_upsert(build_simplified(es.drop_last()), es.last().sm, annotation_of(es.last()))
    }
}

/// The traditional word mapping: every source record filed under its
/// traditional form, in source order.
pub open spec fn build_traditional(es: Seq<DictionaryEntryView>) -> Seq<WordEntryView>
    decreases es.len(),
{
    if es.len() == 0 {
        Seq::empty()
    } else {
        spec_upsert(build_traditional(es.drop_last()), es.last().tr, annotation_of(es.last()))
    }
}

/// The unit lookup mapping: every source record filed under its
/// simplified form, and under its traditional form as well whenever
/// that form differs from the simplified one.
pub open spec fn build_char_lookup(es: Seq<DictionaryEntryView>) -> Seq<WordEntryView>
    decreases es.len(),
{
    if es.len() == 0 {
        Seq::empty()
    } else {
        let m = build_char_lookup(es.drop_last());
        let e = es.last();
        let under_sm = spec_upsert(m, e.sm, annotation_of(e));
        if e.tr != e.sm {
            spec_upsert(under_sm, e.tr, annotation_of(e))
        } else {
            under_sm
        }
    }
}

/// The longest form, in characters, over all source records.
pub open spec fn spec_max_word_length(es: Seq<DictionaryEntryView>) -> int
    decreases es.len(),
{
    if es.len() == 0 {
        0
    } else {
        let prior = spec_max_word_length(es.drop_last());
        let here = if es.last().sm.len() >= es.last().tr.len() {
            es.last().sm.len() as int
        } else {
            es.last().tr.len() as int
        };
        if prior >= here {
            prior
        } else {
            here
        }
    }
}

/// How many source records have a form of more than one character.
pub open spec fn spec_multi_char_count(es: Seq<DictionaryEntryView>) -> int
    decreases es.len(),
{
    if es.len() == 0 {
        0
    } else {
        spec_multi_char_count(es.drop_last()) + if es.last().sm.len() > 1 || es.last().tr.len()
            > 1 {
            1int
        } else {
            0int
        }
    }
}

/// Each mapping the compiler builds keys every word at most once, so
/// the first-entry rule of lookup is plain map lookup, and the unique
/// character counts of the statistics count distinct forms.
pub proof fn lemma_built_maps_have_distinct_words(es: Seq<DictionaryEntryView>)
    ensures
        distinct_words(build_simplified(es)),
        distinct_words(build_traditional(es)),
        distinct_words(build_char_lookup(es)),
    decreases es.len(),
{
    if es.len() > 0 {
        lemma_built_maps_have_distinct_words(es.drop_last());
        let e = es.last();
        lemma_upsert_keeps_words_distinct(
            build_simplified(es.drop_last()),
            e.sm,
            annotation_of(e),
        );
        lemma_upsert_keeps_words_distinct(
            build_traditional(es.drop_last()),
            e.tr,
            annotation_of(e),
        );
        let under_sm = spec_upsert(build_char_lookup(es.drop_last()), e.sm, annotation_of(e));
        lemma_upsert_keeps_words_distinct(
            build_char_lookup(es.drop_last()),
            e.sm,
            annotation_of(e),
        );
        if e.tr != e.sm {
            lemma_upsert_keeps_words_distinct(under_sm, e.tr, annotation_of(e));
        }
    }
}

/// Compiles the raw source records into the three lookup mappings and
/// the summary statistics.
pub fn process_dictionary(entries: Vec<DictionaryEntry>) -> (r: ProcessedData)
    ensures
        r.simplified_words@ == build_simplified(entries.deep_view()),
        r.traditional_words@ == build_traditional(entries.deep_view()),
        r.char_lookup@ == build_char_lookup(entries.deep_view()),
        r.stats.total_entries == entries@.len(),
        r.stats.unique_simplified_chars == r.simplified_words@.len(),
        r.stats.unique_traditional_chars == r.traditional_words@.len(),
        r.stats.max_word_length == spec_max_word_length(entries.deep_view()),
        r.stats.multi_char_entries == spec_multi_char_count(entries.deep_view()),
{
    let ghost es = entries.deep_view();
    let mut simplified_words = WordMap::new();
    let mut traditional_words = WordMap::new();
    let mut char_lookup = WordMap::new();
    let mut max_word_length: usize = 0;
    let mut multi_char_count: usize = 0;

    let n = entries.len();
    let mut i: usize = 0;
    while i < n
        invariant
            n == es.len(),
            es == entries.deep_view(),
            i <= n,
            simplified_words@ == build_simplified(es.take(i as int)),
            traditional_words@ == build_traditional(es.take(i as int)),
            char_lookup@ == build_char_lookup(es.take(i as int)),
            max_word_length == spec_max_word_length(es.take(i as int)),
            multi_char_count <= i,
            multi_char_count == spec_multi_char_count(es.take(i as int)),
        decreases n - i,
    {
        let entry = &entries[i];
        proof {
            assert(es.take(i + 1).drop_last() =~= es.take(i as int));
            assert(es.take(i + 1).last() == es[i as int]);
        }
        let annotation = AnnotationData {
            pinyin: entry.pinyin.clone(),
            zhuyin: entry.zhuyin.clone(),
            traditional: entry.tr.clone(),
            simplified: entry.sm.clone(),
        };
        let sm_len = entry.sm.as_str().unicode_len();
        let tr_len = entry.tr.as_str().unicode_len();
        if sm_len > max_word_length {
            max_word_length = sm_len;
        }
        if tr_len > max_word_length {
            max_word_length = tr_len;
        }
        if sm_len > 1 || tr_len > 1 {
            multi_char_count += 1;
        }
        simplified_words.upsert(str_to_chars(entry.sm.as_str()), annotation.clone());
        traditional_words.upsert(str_to_chars(entry.tr.as_str()), annotation.clone());
        char_lookup.upsert(str_to_chars(entry.sm.as_str()), annotation.clone());
        if !(entry.sm == entry.tr) {
            char_lookup.upsert(str_to_chars(entry.tr.as_str()), annotation);
        }
        i += 1;
    }
    proof {
        assert(es.take(n as int) =~= es);
    }
    let stats = ProcessingStats {
        total_entries: n,
        unique_simplified_chars: simplified_words.len(),
        unique_traditional_chars: traditional_words.len(),
        max_word_length,
        multi_char_entries: multi_char_count,
    };
    ProcessedData { simplified_words, traditional_words, char_lookup, stats }
}

} // verus!
