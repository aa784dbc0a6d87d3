use abbrev_core::ngram::BigramModel;

const LM: &str = "#abbrev-lm v1\n\
    u\tв\t1000\n\
    u\tну\t1000\n\
    u\tпривет\t200\n\
    u\tприват\t20\n\
    b\tв\tприват\t200\n\
    b\tну\tпривет\t150\n";

#[test]
fn rejects_malformed_artifact() {
    assert!(BigramModel::from_tsv_str("u\tслово").is_err());
    assert!(BigramModel::from_tsv_str("x\tслово\t5").is_err());
    assert!(BigramModel::from_tsv_str("b\tа\tб\tмного").is_err());
}

#[test]
fn counts_add_up_and_keys_are_normalized() {
    let lm = BigramModel::from_tsv_str(LM).unwrap();
    assert!(!lm.is_empty());
    assert_eq!(lm.total(), 2220);
    assert_eq!(lm.unigram("привет"), Some(200));
    assert_eq!(lm.bigram("в", "приват"), Some(200));
    assert_eq!(lm.bigram("в", "привет"), None);
    let twice = BigramModel::from_tsv_str("u\tЁж\t2\nu\tеж\t3\n").unwrap();
    assert_eq!(twice.unigram("еж"), Some(5));
    assert!(twice.is_empty());
}

#[test]
fn lm_errors_name_line_and_reason() {
    let e = BigramModel::from_tsv_str("# c\nu\tслово").err().unwrap();
    assert_eq!(e.line, 2);
    assert_eq!(e.message, "expected `u\\tword\\tcount`, got `u\tслово`");
    let e = BigramModel::from_tsv_str("b\tа\tб\tмного").err().unwrap();
    assert_eq!(e.message, "bad count `много`");
    let e = BigramModel::from_tsv_str("x\tслово\t5").err().unwrap();
    assert_eq!(e.describe(), "lm line 1: unknown record `x\tслово\t5`");
}
