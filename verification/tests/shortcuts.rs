use abbrev_core::shortcuts::Shortcuts;

#[test]
fn parses_and_normalizes_keys() {
    let s = Shortcuts::from_tsv_str("спс\tспасибо\nМБ\tможет быть\nкрч\tкороче\n").unwrap();
    assert_eq!(s.get("спс")[0].form, "спасибо");
    assert_eq!(s.get("спс")[0].lemma, "спасибо");
    // Key is normalized, so uppercase input matches.
    assert_eq!(s.get("мб")[0].form, "может быть");
    assert!(s.get("нет").is_empty());
}

#[test]
fn lemma_column_is_optional() {
    let s = Shortcuts::from_tsv_str("чел\tчеловек\tчеловек\n").unwrap();
    assert_eq!(s.get("чел")[0].lemma, "человек");
}

#[test]
fn rejects_malformed() {
    assert!(Shortcuts::from_tsv_str("спс").is_err());
    assert!(Shortcuts::from_tsv_str("спс\tспасибо\tспасибо\tлишнее").is_err());
}

#[test]
fn same_key_lines_stack_in_order() {
    let s = Shortcuts::from_tsv_str("мб\tможет быть\nмб\tмабуть\n").unwrap();
    let e = s.get("мб");
    assert_eq!(e.len(), 2);
    assert_eq!(e[0].form, "может быть");
    assert_eq!(e[1].form, "мабуть");
    let err = Shortcuts::from_tsv_str("спс").err().unwrap();
    assert_eq!(err.describe(), "shortcuts line 1: expected `shorthand\\tform[\\tlemma]`, got `спс`");
}
