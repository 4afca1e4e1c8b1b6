use zho_annotator::dict_processor::{process_dictionary, DictionaryEntry};
use zho_annotator::dictionary::{AnnotationData, Dictionary, ProcessedData, WordMap};

fn entry(sm: &str, tr: &str, pinyin: &str, zhuyin: &str) -> DictionaryEntry {
    DictionaryEntry {
        sm: sm.to_string(),
        tr: tr.to_string(),
        pinyin: pinyin.to_string(),
        zhuyin: zhuyin.to_string(),
    }
}

fn record(sm: &str, tr: &str, pinyin: &str, zhuyin: &str) -> AnnotationData {
    AnnotationData {
        pinyin: pinyin.to_string(),
        zhuyin: zhuyin.to_string(),
        traditional: tr.to_string(),
        simplified: sm.to_string(),
    }
}

fn small_dictionary() -> Dictionary {
    let entries = vec![
        entry("中国", "中國", "zhōng guó", "ㄓㄨㄥ ㄍㄨㄛˊ"),
        entry("了", "了", "le", "ㄌㄜ˙"),
        entry("了", "了", "liǎo", "ㄌㄧㄠˇ"),
        entry("国", "國", "guó", "ㄍㄨㄛˊ"),
    ];
    Dictionary::new(process_dictionary(entries))
}

#[test]
fn stats_count_entries_and_words() {
    let entries = vec![
        entry("中国", "中國", "zhōng guó", "ㄓㄨㄥ ㄍㄨㄛˊ"),
        entry("了", "了", "le", "ㄌㄜ˙"),
        entry("了", "了", "liǎo", "ㄌㄧㄠˇ"),
    ];
    let data = process_dictionary(entries);
    assert_eq!(data.stats.total_entries, 3);
    assert_eq!(data.stats.unique_simplified_chars, 2);
    assert_eq!(data.stats.unique_traditional_chars, 2);
    assert_eq!(data.stats.max_word_length, 2);
    assert_eq!(data.stats.multi_char_entries, 1);
}

#[test]
fn entry_count_and_max_word_length_read_the_stats() {
    let dict = small_dictionary();
    assert_eq!(dict.entry_count(), 4);
    assert_eq!(dict.max_word_length(), 2);
}

#[test]
fn polyphonic_word_keeps_both_records_in_order() {
    let entries = vec![
        entry("了", "了", "le", "ㄌㄜ˙"),
        entry("了", "了", "liǎo", "ㄌㄧㄠˇ"),
    ];
    let data = process_dictionary(entries);
    let dict = Dictionary::new(data);
    let records = dict.lookup_char("了").expect("unit lookup should hit");
    assert_eq!(records.len(), 2);
    assert_eq!(records[0].pinyin, "le");
    assert_eq!(records[1].pinyin, "liǎo");
}

#[test]
fn char_lookup_holds_both_scripts_when_they_differ() {
    let dict = small_dictionary();
    let simplified = dict.lookup_char("国").expect("simplified form should hit");
    assert_eq!(simplified[0].pinyin, "guó");
    let traditional = dict.lookup_char("國").expect("traditional form should hit");
    assert_eq!(traditional[0].pinyin, "guó");
    assert!(dict.lookup_char("方").is_none());
}

#[test]
fn longest_match_prefers_the_longer_word() {
    let entries = vec![
        entry("中", "中", "zhōng", "ㄓㄨㄥ"),
        entry("中国", "中國", "zhōng guó", "ㄓㄨㄥ ㄍㄨㄛˊ"),
    ];
    let dict = Dictionary::new(process_dictionary(entries));
    let (len, records) = dict
        .find_longest_match("中国人", 0, false)
        .expect("a match should exist");
    assert_eq!(len, 2);
    assert_eq!(records[0].pinyin, "zhōng guó");
}

#[test]
fn longest_match_respects_the_start_position() {
    let dict = small_dictionary();
    let (len, records) = dict
        .find_longest_match("我爱中国", 2, false)
        .expect("a match should exist at offset 2");
    assert_eq!(len, 2);
    assert_eq!(records[0].pinyin, "zhōng guó");
    assert!(dict.find_longest_match("我爱中国", 0, false).is_none());
}

#[test]
fn longest_match_selects_the_mapping_by_script() {
    let dict = small_dictionary();
    let (len, _) = dict
        .find_longest_match("中國", 0, true)
        .expect("traditional mapping should hold the word");
    assert_eq!(len, 2);
    assert!(dict.find_longest_match("中國", 0, false).is_none());
}

#[test]
fn longest_match_past_the_end_is_none() {
    let dict = small_dictionary();
    assert!(dict.find_longest_match("中国", 2, false).is_none());
    assert!(dict.find_longest_match("", 0, false).is_none());
}

#[test]
fn detect_traditional_needs_a_strict_majority() {
    let dict = small_dictionary();
    // "國" is a single-character key of the traditional mapping only.
    assert!(dict.detect_traditional("國"));
    // "国" counts toward simplified only.
    assert!(!dict.detect_traditional("国"));
}

#[test]
fn detect_traditional_tie_resolves_to_simplified() {
    let dict = small_dictionary();
    // "了" is a key of both mappings: one count each, a tie.
    assert!(!dict.detect_traditional("了"));
    // No recognized character at all: zero counts on both sides.
    assert!(!dict.detect_traditional("abc"));
    assert!(!dict.detect_traditional(""));
    // One character on each side is still a tie.
    assert!(!dict.detect_traditional("国國"));
}

#[test]
fn word_map_built_by_hand_answers_lookups() {
    let mut words = WordMap::new();
    words.add_word(
        "你".chars().collect(),
        vec![record("你", "你", "nǐ", "ㄋㄧˇ")],
    );
    assert_eq!(words.len(), 1);
    let mut char_lookup = WordMap::new();
    char_lookup.add_word(
        "你".chars().collect(),
        vec![record("你", "你", "nǐ", "ㄋㄧˇ")],
    );
    let data = ProcessedData {
        simplified_words: words,
        traditional_words: WordMap::new(),
        char_lookup,
        stats: process_dictionary(Vec::new()).stats,
    };
    let dict = Dictionary::new(data);
    let (len, records) = dict
        .find_longest_match("你好", 0, false)
        .expect("the single character should match");
    assert_eq!(len, 1);
    assert_eq!(records[0].pinyin, "nǐ");
}

#[test]
fn upsert_appends_to_an_existing_word() {
    let mut words = WordMap::new();
    words.upsert("了".chars().collect(), record("了", "了", "le", "ㄌㄜ˙"));
    words.upsert("了".chars().collect(), record("了", "了", "liǎo", "ㄌㄧㄠˇ"));
    words.upsert("中".chars().collect(), record("中", "中", "zhōng", "ㄓㄨㄥ"));
    assert_eq!(words.len(), 2);
    let found = words.get(&['了']).expect("the word should be present");
    assert_eq!(found.len(), 2);
    assert_eq!(found[0].pinyin, "le");
    assert_eq!(found[1].pinyin, "liǎo");
    assert!(words.get(&['国']).is_none());
}

#[test]
fn empty_dictionary_has_empty_stats() {
    let data = process_dictionary(Vec::new());
    assert_eq!(data.stats.total_entries, 0);
    assert_eq!(data.stats.unique_simplified_chars, 0);
    assert_eq!(data.stats.unique_traditional_chars, 0);
    assert_eq!(data.stats.max_word_length, 0);
    assert_eq!(data.stats.multi_char_entries, 0);
}
