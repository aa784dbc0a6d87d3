use abbrev_core::mask::Masker;

#[test]
fn parses_and_normalizes_lemmas() {
    // `ё` folds to `е` under normalize, and case is ignored.
    let m = Masker::from_list_str("# profanity\nдолбоёб\nХРЕНЬ\n").unwrap();
    assert!(m.is_masked_lemma("долбоеб"));
    assert!(m.is_masked_lemma("Долбоёб"));
    assert!(m.is_masked_lemma("хрень"));
    assert!(!m.is_masked_lemma("страховка"));
}

#[test]
fn rejects_multi_token_lines() {
    assert!(Masker::from_list_str("долбоёб лишнее").is_err());
    assert!(Masker::from_list_str("a\tb").is_err());
}

#[test]
fn empty_list_is_empty() {
    assert!(
        Masker::from_list_str("\n# only a comment\n")
            .unwrap()
            .is_empty()
    );
}

#[test]
fn masks_interior_keeping_head_and_tail() {
    // The motivating example, exactly: keep "дол", mask "боё" → "@#&",
    // keep final "б".
    assert_eq!(Masker::mask_form("долбоёб").as_deref(), Some("дол@#&б"));
}

#[test]
fn preserves_hyphens() {
    let masked = Masker::mask_form("иди-нахер").unwrap();
    // Hyphen stays at its position; only letters are masked.
    assert!(masked.contains('-'));
    assert_eq!(masked.chars().filter(|c| *c == '-').count(), 1);
    // First and last letters survive.
    assert!(masked.starts_with('и'));
    assert!(masked.ends_with('р'));
}

#[test]
fn too_short_to_mask_returns_none() {
    // Two letters: head(1) + tail(1) leaves nothing to mask.
    assert_eq!(Masker::mask_form("ну"), None);
}

#[test]
fn mask_error_names_the_line() {
    let e = Masker::from_list_str("хрень\nдолбоёб лишнее\n").err().unwrap();
    assert_eq!(e.line, 2);
    assert_eq!(e.describe(), format!("mask list line 2: {}", e.message));
}
