use abbrev_core::tone::scan_markers;

#[test]
fn marker_rows_are_normalized_and_trimmed() {
    let scan = scan_markers("# markers\n Пожалуйста \t + \n\nблин\t-0.5\textra\n");
    assert!(scan.error.is_none());
    assert_eq!(scan.rows.len(), 2);
    assert_eq!(scan.rows[0].line, 2);
    assert_eq!(scan.rows[0].word, "пожалуйста");
    assert_eq!(scan.rows[0].sign, "+");
    assert_eq!(scan.rows[1].line, 4);
    assert_eq!(scan.rows[1].sign, "-0.5");
}

#[test]
fn a_line_without_a_sign_stops_the_scan() {
    let scan = scan_markers("да\t+\nслово\nнет\t-\n");
    assert_eq!(scan.rows.len(), 1);
    let e = scan.error.unwrap();
    assert_eq!(e.line, 2);
    assert_eq!(e.message, "expected `word\\tsign`, got `слово`");
    assert_eq!(e.describe(), "tone markers line 2: expected `word\\tsign`, got `слово`");
}
