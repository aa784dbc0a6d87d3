use abbrev_core::builder::{
    floor_candidates, import_fields, is_cyrillic_lemma, is_function_pos, is_russian_word, rebuilt_row,
    rnc_rows, tokenize,
};

#[test]
fn function_pos_set_is_indeclinable_closed_class() {
    assert!(is_function_pos("pr"));
    assert!(is_function_pos("conj"));
    // Declinable classes must be excluded (lemma ipm ≠ form count).
    assert!(!is_function_pos("s"));
    assert!(!is_function_pos("v"));
    assert!(!is_function_pos("a"));
    assert!(!is_function_pos("spro"));
}

#[test]
fn cyrillic_lemma_filter_drops_latin_and_empty() {
    assert!(is_cyrillic_lemma("при"));
    assert!(is_cyrillic_lemma("из-за"));
    assert!(!is_cyrillic_lemma("the"));
    assert!(!is_cyrillic_lemma(""));
}

#[test]
fn russian_word_filter_matches_lemma_filter() {
    assert!(is_russian_word("Ёжик"));
    assert!(!is_russian_word("ёж1"));
}

#[test]
fn tokenize_splits_on_non_letters_and_drops_lone_hyphens() {
    assert_eq!(
        tokenize("Привет, мир - кто-то!2ёж"),
        vec!["привет", "мир", "кто-то", "еж"]
    );
    assert!(tokenize("- , 123").is_empty());
}

#[test]
fn loose_rows_split_on_any_separator_and_skip_comments() {
    assert_eq!(
        import_fields("  Привет; привет ,\t120  "),
        Some(vec!["Привет".to_string(), "привет".to_string(), "120".to_string()])
    );
    assert_eq!(import_fields("мир 5"), Some(vec!["мир".to_string(), "5".to_string()]));
    assert_eq!(import_fields("   "), None);
    assert_eq!(import_fields("# source list"), None);
    assert_eq!(import_fields(";;,"), Some(Vec::new()));
}

const RNC_FIXTURE: &str = "\
Lemma\tPoS\tFreq(ipm)\tR\tD\tDoc
при\tpr\t1550.8\t100\t97\t1000
поскольку\tconj\t300.0\t90\t90\t500
стол\ts\t200.0\t80\t80\t400
the\ts\t9.9\t10\t10\t10
broken";

#[test]
fn dictionary_rows_drop_the_header_latin_and_short_lines() {
    let (rows, skipped) = rnc_rows(RNC_FIXTURE);
    assert_eq!(
        rows,
        vec![
            ("при".to_string(), "1550.8".to_string(), "pr".to_string()),
            ("поскольку".to_string(), "300.0".to_string(), "conj".to_string()),
            ("стол".to_string(), "200.0".to_string(), "s".to_string()),
        ]
    );
    assert_eq!(skipped, 2);
}

#[test]
fn floor_candidates_keep_short_function_words_only() {
    let table = "# header\nпри\t1550.8\tpr\nпоскольку\t300\tconj\nстол\t200\ts\nИЗ\t10\tpr \n";
    assert_eq!(
        floor_candidates(table, 4),
        vec![
            ("при".to_string(), "1550.8".to_string()),
            ("из".to_string(), "10".to_string())
        ]
    );
    assert_eq!(floor_candidates(table, 9).len(), 3);
}

#[test]
fn rebuilt_rows_keep_extra_columns() {
    assert_eq!(rebuilt_row("при\tпри\t100", 1551), "при\tпри\t1551");
    assert_eq!(rebuilt_row("стол\tстол\t100\tNOUN\tx", 7), "стол\tстол\t7\tNOUN\tx");
    assert_eq!(rebuilt_row("а\tб\t1", -3), "а\tб\t-3");
}
