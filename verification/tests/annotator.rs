use zho_annotator::dict_processor::{process_dictionary, DictionaryEntry};
use zho_annotator::dictionary::{AnnotationData, Dictionary, ProcessedData, WordMap};
use zho_annotator::production_annotator::{
    AnnotationConfig, AnnotationStyle, OutputFormat, ProductionAnnotator, CONFIDENCE_MULTI,
    CONFIDENCE_PLAIN, CONFIDENCE_SINGLE,
};

fn entry(sm: &str, tr: &str, pinyin: &str, zhuyin: &str) -> DictionaryEntry {
    DictionaryEntry {
        sm: sm.to_string(),
        tr: tr.to_string(),
        pinyin: pinyin.to_string(),
        zhuyin: zhuyin.to_string(),
    }
}

fn record(sm: &str, tr: &str, pinyin: &str, zhuyin: &str) -> AnnotationData {
    AnnotationData {
        pinyin: pinyin.to_string(),
        zhuyin: zhuyin.to_string(),
        traditional: tr.to_string(),
        simplified: sm.to_string(),
    }
}

fn annotator_over(entries: Vec<DictionaryEntry>) -> ProductionAnnotator {
    ProductionAnnotator::new(
        Dictionary::new(process_dictionary(entries)),
        AnnotationConfig::default(),
    )
}

#[test]
fn default_config_values() {
    let config = AnnotationConfig::default();
    assert!(matches!(config.output_format, OutputFormat::Inline));
    assert!(matches!(config.annotation_style, AnnotationStyle::Pinyin));
    assert_eq!(config.confidence_threshold, 30);
    assert!(!config.show_alternatives);
    assert!(!config.show_confidence);
    assert!(!config.use_traditional);
}

#[test]
fn unmatched_then_single_reading_word() {
    // "我" and "爱" are absent from the dictionary; "中国" has one record.
    let annotator = annotator_over(vec![entry(
        "中国",
        "中國",
        "zhōng guó",
        "ㄓㄨㄥ ㄍㄨㄛˊ",
    )]);
    let segments = annotator.annotate("我爱中国");
    assert_eq!(segments.len(), 3);

    assert_eq!(segments[0].text, "我");
    assert_eq!(segments[0].pinyin, None);
    assert_eq!(segments[0].confidence, CONFIDENCE_PLAIN);
    assert!(segments[0].is_chinese);
    assert_eq!(segments[0].position, 0);

    assert_eq!(segments[1].text, "爱");
    assert_eq!(segments[1].pinyin, None);
    assert_eq!(segments[1].confidence, CONFIDENCE_PLAIN);
    assert_eq!(segments[1].position, 1);

    assert_eq!(segments[2].text, "中国");
    assert_eq!(segments[2].pinyin.as_deref(), Some("zhōng guó"));
    assert_eq!(segments[2].zhuyin.as_deref(), Some("ㄓㄨㄥ ㄍㄨㄛˊ"));
    assert_eq!(segments[2].confidence, CONFIDENCE_SINGLE);
    assert!(segments[2].is_chinese);
    assert_eq!(segments[2].position, 2);
    assert!(segments[2].alternatives.is_empty());
}

#[test]
fn polyphonic_word_is_disambiguated_deterministically() {
    // Two readings of "了"; the direct match finds the first record
    // whose simplified field equals the text, which is index 0.
    let annotator = annotator_over(vec![
        entry("了", "了", "le", "ㄌㄜ˙"),
        entry("了", "了", "liǎo", "ㄌㄧㄠˇ"),
    ]);
    let segments = annotator.annotate("了");
    assert_eq!(segments.len(), 1);
    assert_eq!(segments[0].text, "了");
    assert_eq!(segments[0].pinyin.as_deref(), Some("le"));
    assert_eq!(segments[0].confidence, CONFIDENCE_MULTI);
    assert_eq!(segments[0].alternatives, vec!["le", "liǎo"]);

    // The same inputs always choose the same reading.
    let again = annotator.annotate("了");
    assert_eq!(again[0].pinyin, segments[0].pinyin);
}

#[test]
fn empty_input_yields_no_segments() {
    let annotator = annotator_over(vec![entry("了", "了", "le", "ㄌㄜ˙")]);
    assert!(annotator.annotate("").is_empty());
}

#[test]
fn latin_character_is_not_chinese() {
    let annotator = annotator_over(Vec::new());
    let segments = annotator.annotate("a");
    assert_eq!(segments.len(), 1);
    assert_eq!(segments[0].text, "a");
    assert!(!segments[0].is_chinese);
    assert_eq!(segments[0].confidence, CONFIDENCE_PLAIN);
    assert_eq!(segments[0].pinyin, None);
    assert_eq!(segments[0].zhuyin, None);
}

#[test]
fn unmatched_cjk_character_is_chinese() {
    let annotator = annotator_over(Vec::new());
    let segments = annotator.annotate("中");
    assert_eq!(segments.len(), 1);
    assert!(segments[0].is_chinese);
    assert_eq!(segments[0].confidence, CONFIDENCE_PLAIN);
    assert_eq!(segments[0].pinyin, None);
}

#[test]
fn empty_record_list_falls_back_to_the_opposite_script() {
    // The simplified mapping matches the word but carries no records;
    // the traditional mapping supplies the annotation instead.
    let mut simplified_words = WordMap::new();
    simplified_words.add_word("叶".chars().collect(), Vec::new());
    let mut traditional_words = WordMap::new();
    traditional_words.add_word(
        "叶".chars().collect(),
        vec![record("叶", "葉", "yè", "ㄧㄝˋ")],
    );
    let data = ProcessedData {
        simplified_words,
        traditional_words,
        char_lookup: WordMap::new(),
        stats: process_dictionary(Vec::new()).stats,
    };
    let annotator =
        ProductionAnnotator::new(Dictionary::new(data), AnnotationConfig::default());
    let segments = annotator.annotate("叶");
    assert_eq!(segments.len(), 1);
    assert_eq!(segments[0].text, "叶");
    assert_eq!(segments[0].pinyin.as_deref(), Some("yè"));
    assert_eq!(segments[0].zhuyin.as_deref(), Some("ㄧㄝˋ"));
    assert_eq!(segments[0].confidence, CONFIDENCE_SINGLE);
    assert!(segments[0].is_chinese);
}

#[test]
fn match_with_no_records_anywhere_stays_unannotated() {
    let mut simplified_words = WordMap::new();
    simplified_words.add_word("叶".chars().collect(), Vec::new());
    let data = ProcessedData {
        simplified_words,
        traditional_words: WordMap::new(),
        char_lookup: WordMap::new(),
        stats: process_dictionary(Vec::new()).stats,
    };
    let annotator =
        ProductionAnnotator::new(Dictionary::new(data), AnnotationConfig::default());
    let segments = annotator.annotate("叶");
    assert_eq!(segments.len(), 1);
    assert_eq!(segments[0].pinyin, None);
    assert_eq!(segments[0].zhuyin, None);
    assert_eq!(segments[0].confidence, CONFIDENCE_PLAIN);
    assert!(segments[0].is_chinese);
}

#[test]
fn segments_partition_the_input() {
    let annotator = annotator_over(vec![
        entry("中国", "中國", "zhōng guó", "ㄓㄨㄥ ㄍㄨㄛˊ"),
        entry("了", "了", "le", "ㄌㄜ˙"),
    ]);
    let input = "我爱中国了, ok?";
    let segments = annotator.annotate(input);
    let rebuilt: String = segments.iter().map(|s| s.text.as_str()).collect();
    assert_eq!(rebuilt, input);
    let mut expected_position = 0;
    for segment in &segments {
        assert_eq!(segment.position, expected_position);
        let chars = segment.text.chars().count();
        assert!(chars >= 1);
        expected_position += chars;
    }
    assert_eq!(expected_position, input.chars().count());
}

#[test]
fn forced_traditional_script_skips_detection() {
    let mut config = AnnotationConfig::default();
    config.use_traditional = true;
    let annotator = ProductionAnnotator::new(
        Dictionary::new(process_dictionary(vec![entry(
            "中国",
            "中國",
            "zhōng guó",
            "ㄓㄨㄥ ㄍㄨㄛˊ",
        )])),
        config,
    );
    let segments = annotator.annotate("中國");
    assert_eq!(segments.len(), 1);
    assert_eq!(segments[0].text, "中國");
    assert_eq!(segments[0].pinyin.as_deref(), Some("zhōng guó"));
}

#[test]
fn detected_traditional_text_uses_the_traditional_mapping() {
    // "國" is a traditional-only single-character key, so detection
    // leans traditional and the traditional mapping is scanned.
    let annotator = annotator_over(vec![entry("国", "國", "guó", "ㄍㄨㄛˊ")]);
    let segments = annotator.annotate("國");
    assert_eq!(segments.len(), 1);
    assert_eq!(segments[0].pinyin.as_deref(), Some("guó"));
    assert_eq!(segments[0].confidence, CONFIDENCE_SINGLE);
}

#[test]
fn direct_matching_picks_the_record_of_the_active_script() {
    let annotator = annotator_over(Vec::new());
    let records = vec![
        record("发", "發", "fā", "ㄈㄚ"),
        record("发", "髮", "fà", "ㄈㄚˋ"),
    ];
    // Traditional text "髮" matches the second record's traditional field.
    assert_eq!(annotator.select_by_direct_matching(&records, "髮", true), 1);
    // Simplified text "发" matches the first record's simplified field.
    assert_eq!(annotator.select_by_direct_matching(&records, "发", false), 0);
}

#[test]
fn direct_matching_falls_back_to_canonical_readings() {
    let annotator = annotator_over(Vec::new());
    let records = vec![
        record("了", "了", "liǎo", "ㄌㄧㄠˇ"),
        record("了", "了", "le", "ㄌㄜ˙"),
    ];
    // No script field equals "x"; "le" is the first canonical reading.
    assert_eq!(annotator.select_by_direct_matching(&records, "x", false), 1);
}

#[test]
fn disambiguation_defaults_to_declaration_order() {
    let annotator = annotator_over(Vec::new());
    let records = vec![
        record("行", "行", "xíng", "ㄒㄧㄥˊ"),
        record("行", "行", "háng", "ㄏㄤˊ"),
    ];
    // No field match and no canonical reading: index 0.
    assert_eq!(annotator.select_by_direct_matching(&records, "x", false), 0);
    assert_eq!(annotator.select_best_pronunciation(&records), 0);
}

#[test]
fn best_pronunciation_prefers_the_allow_list() {
    let annotator = annotator_over(Vec::new());
    let records = vec![
        record("好", "好", "hào", "ㄏㄠˋ"),
        record("好", "好", "hǎo", "ㄏㄠˇ"),
    ];
    assert_eq!(annotator.select_best_pronunciation(&records), 1);
    assert_eq!(annotator.select_best_pronunciation(&Vec::new()), 0);
}

#[test]
fn is_chinese_char_covers_the_recognized_ranges() {
    let annotator = annotator_over(Vec::new());
    assert!(annotator.is_chinese_char('中'));
    assert!(annotator.is_chinese_char('㐀')); // Extension A start
    assert!(annotator.is_chinese_char('𠀀')); // Extension B start
    assert!(annotator.is_chinese_char('⼀')); // Kangxi radical
    assert!(!annotator.is_chinese_char('a'));
    assert!(!annotator.is_chinese_char('。'));
}

#[test]
fn get_stats_reports_the_dictionary_size() {
    let annotator = annotator_over(vec![
        entry("了", "了", "le", "ㄌㄜ˙"),
        entry("了", "了", "liǎo", "ㄌㄧㄠˇ"),
    ]);
    let (entries, mode) = annotator.get_stats();
    assert_eq!(entries, 2);
    assert_eq!(mode, "Dictionary-based annotation mode");
}

#[test]
fn set_config_swaps_the_configuration() {
    let mut annotator = annotator_over(vec![entry("国", "國", "guó", "ㄍㄨㄛˊ")]);
    let mut config = AnnotationConfig::default();
    config.use_traditional = true;
    config.confidence_threshold = 80;
    annotator.set_config(config);
    // The traditional mapping is now forced: "國" still annotates.
    let segments = annotator.annotate("國");
    assert_eq!(segments[0].pinyin.as_deref(), Some("guó"));
}
