use abbrev_core::expand::{expanded_lexicon, expansion_rows, lemma_freqs};

const HOLD: &str = "красный\tsing.femn\tкрасная|красной|красной|красную|красной|красной\n\
                    красный\tsing.masc\tкрасный|красного|красному|красный|красным|красном\n";

fn fill_for(lemma: &str, fill: u64) -> Vec<(String, u64)> {
    vec![(lemma.to_string(), fill)]
}

#[test]
fn adds_missing_cells_with_synthesized_tags() {
    let lex = "красная\tкрасный\t100\tADJF femn,sing,nomn\n";
    let rows = expansion_rows(lex, HOLD, &fill_for("красный", 25));
    assert!(rows.contains(&"красному\tкрасный\t25\tADJF masc,sing,datv".to_string()));
    assert!(rows.contains(&"красной\tкрасный\t25\tADJF femn,sing,gent".to_string()));
    // The present form is not added again, nor is a repeated cell.
    assert!(!rows.iter().any(|r| r.starts_with("красная\t")));
    assert_eq!(rows.iter().filter(|r| r.starts_with("красной\t")).count(), 1);
    // красный twice in its group (nomn, accs): once.
    assert_eq!(rows.iter().filter(|r| r.starts_with("красный\t")).count(), 1);
    let mut sorted = rows.clone();
    sorted.sort();
    assert_eq!(rows, sorted);
}

#[test]
fn nouns_and_plurals_get_their_tags() {
    let hold = "работа\tsing\tработа|работы|работе|работу|работой|работе\n\
                красный\tplur\tкрасные|красных|красным|красные|красными|красных\n\
                красный\tsing.masc\tкрасный||||\n";
    let fills = vec![("работа".to_string(), 7), ("красный".to_string(), 3)];
    let rows = expansion_rows("работа\tработа\t50\n", hold, &fills);
    assert!(rows.contains(&"работы\tработа\t7\tNOUN sing,gent".to_string()));
    assert!(rows.contains(&"красными\tкрасный\t3\tADJF plur,ablt".to_string()));
    assert!(rows.contains(&"красный\tкрасный\t3\tADJF masc,sing,nomn".to_string()));
}

#[test]
fn lemmas_without_a_fill_are_left_alone() {
    let rows = expansion_rows("", HOLD, &Vec::new());
    assert!(rows.is_empty());
}

#[test]
fn expanding_the_expansion_adds_nothing() {
    let lex = "# header\nкрасная\tкрасный\t100\tADJF femn,sing,nomn\n";
    let rows = expansion_rows(lex, HOLD, &fill_for("красный", 25));
    let out = expanded_lexicon(lex, &rows, "0.25");
    assert!(out.starts_with("# header\n# + 7 paradigm forms folded in by `lexicon-builder expand` (ratio 0.25)\n"));
    assert!(out.contains("красная\tкрасный\t100\tADJF femn,sing,nomn\n"));
    let again = expansion_rows(&out, HOLD, &fill_for("красный", 25));
    assert!(again.is_empty());
}

#[test]
fn lemma_frequencies_are_read_per_row() {
    let f = lemma_freqs("# c\nКрасная\tКрасный\t100\tADJF\nодно\n\nкрасной\tкрасный\tx\n");
    assert_eq!(
        f,
        vec![
            ("красный".to_string(), "100".to_string()),
            ("красный".to_string(), "x".to_string())
        ]
    );
}
