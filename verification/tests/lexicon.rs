use abbrev_core::lexicon::scan_lexicon;

#[test]
fn scans_rows_and_skips_comments() {
    let s = scan_lexicon("# comment\nпривет\tпривет\t220.5\n\n  мир \t мир\t 3 \n");
    assert!(s.error.is_none());
    assert_eq!(s.rows.len(), 2);
    assert_eq!(s.rows[0].line, 2);
    assert_eq!(s.rows[0].form, "привет");
    assert_eq!(s.rows[0].freq, "220.5");
    assert_eq!(s.rows[1].line, 4);
    assert_eq!(s.rows[1].form, "мир");
    assert_eq!(s.rows[1].freq, " 3");
}

#[test]
fn rejects_malformed_lines() {
    let s = scan_lexicon("привет");
    let e = s.error.unwrap();
    assert_eq!(e.line, 1);
    assert_eq!(e.message, "expected `form\\tlemma\\tfreq`, got `привет`");
    let s = scan_lexicon("а\tа\t1\nпривет\tпривет\t1.0\tлишнее");
    assert_eq!(s.rows.len(), 1);
    let e = s.error.unwrap();
    assert_eq!(e.line, 2);
    assert_eq!(e.describe(), "lexicon line 2: unexpected extra column in `привет\tпривет\t1.0\tлишнее`");
}
