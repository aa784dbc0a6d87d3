use abbrev_core::builder::tokenize;
use abbrev_core::lm_builder::{sort_ranked, LmCounts};
use abbrev_core::ngram::BigramModel;

fn strings(v: &[&str]) -> Vec<String> {
    v.iter().map(|s| s.to_string()).collect()
}

fn counted(forms: &[&str], lines: &[&str]) -> LmCounts {
    let mut c = LmCounts::new(&strings(forms));
    for line in lines {
        c.add_tokens(&tokenize(line));
    }
    c
}

#[test]
fn vocabulary_is_normalized_and_deduplicated() {
    let c = counted(&["Привет", "привет", "мир"], &["привет мир", "ПРИВЕТ"]);
    assert_eq!(c.lines(), 2);
    assert_eq!(c.seen_words(), 2);
    let doc = c.document(&c.ranked_pairs(1, 10));
    assert!(doc.contains("u\tпривет\t2\n"), "{doc}");
    assert!(doc.contains("u\tмир\t1\n"), "{doc}");
    assert!(doc.contains("b\tпривет\tмир\t1\n"), "{doc}");
}

#[test]
fn unknown_words_break_adjacency() {
    let c = counted(&["привет", "мир"], &["привет zzz мир", "привет кот мир"]);
    // Latin is a separator, so «привет zzz мир» is adjacent; «кот» is an
    // out-of-vocabulary word and breaks the pair.
    let ranked = c.ranked_pairs(1, 10);
    assert_eq!(ranked.len(), 1);
    assert_eq!(ranked[0].1, 1);
}

#[test]
fn ranking_orders_by_count_then_key_and_respects_min_count_and_top() {
    let c = counted(
        &["а", "б", "в"],
        &["а б", "а б", "б в", "б в", "в а"],
    );
    let all = c.ranked_pairs(1, 10);
    assert_eq!(all.len(), 3);
    // а-б (ids 0,1) and б-в (ids 1,2) both twice; the smaller key first.
    assert_eq!(all[0], ((0u64 << 32) | 1, 2));
    assert_eq!(all[1], ((1u64 << 32) | 2, 2));
    assert_eq!(all[2], ((2u64 << 32) | 0, 1));
    assert_eq!(c.ranked_pairs(2, 10).len(), 2);
    assert_eq!(c.ranked_pairs(1, 1), vec![((0u64 << 32) | 1, 2)]);
    assert!(c.ranked_pairs(3, 10).is_empty());
}

#[test]
fn built_artifact_reads_back_as_a_language_model() {
    let c = counted(&["привет", "мир"], &["привет мир", "привет мир", "мир"]);
    let doc = c.document(&c.ranked_pairs(1, 10));
    assert!(doc.starts_with("#abbrev-lm v1"));
    let lm = BigramModel::from_tsv_str(&doc).unwrap();
    assert_eq!(lm.unigram("привет"), Some(2));
    assert_eq!(lm.unigram("мир"), Some(3));
    assert_eq!(lm.bigram("привет", "мир"), Some(2));
    assert_eq!(lm.total(), 5);
}

#[test]
fn merge_sort_ranks_by_count_desc_then_key() {
    let v = vec![(5, 1), (3, 7), (9, 7), (1, 1), (2, 4)];
    assert_eq!(sort_ranked(v), vec![(3, 7), (9, 7), (2, 4), (1, 1), (5, 1)]);
    assert!(sort_ranked(Vec::new()).is_empty());
}

#[test]
fn empty_lines_count_as_lines() {
    let mut c = LmCounts::new(&strings(&["да"]));
    c.add_tokens(&Vec::new());
    assert_eq!(c.lines(), 1);
    assert_eq!(c.consumed(), 1);
    assert_eq!(c.pruned(), 0);
    assert!(c.ranked_pairs(0, 10).is_empty());
}
