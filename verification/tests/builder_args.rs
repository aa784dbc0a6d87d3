use abbrev_core::builder::{parse_bigram_args, parse_calibrate_args, parse_expand_args, parse_rnc_args};

fn args(v: &[&str]) -> Vec<String> {
    v.iter().map(|s| s.to_string()).collect()
}

#[test]
fn bigram_options_default_and_override() {
    let a = parse_bigram_args(&args(&["corpus.txt", "--lexicon", "lex.tsv", "-o", "lm.tsv"])).unwrap();
    assert_eq!(a.corpus, "corpus.txt");
    assert_eq!(a.lexicon, "lex.tsv");
    assert_eq!(a.output, "lm.tsv");
    assert_eq!(a.top, 150_000);
    assert_eq!(a.min_count, 3);
    let b = parse_bigram_args(&args(&[
        "--top", "10", "--min-count", "+2", "c", "--lexicon", "l", "--output", "o",
    ]))
    .unwrap();
    assert_eq!((b.top, b.min_count), (10, 2));
}

#[test]
fn bigram_options_report_bad_numbers_and_missing_paths() {
    assert_eq!(
        parse_bigram_args(&args(&["--top", "many"])).err().unwrap(),
        "--top needs a number"
    );
    assert_eq!(
        parse_bigram_args(&args(&["c", "--lexicon", "l", "--min-count"])).err().unwrap(),
        "--min-count needs a number"
    );
    assert_eq!(
        parse_bigram_args(&args(&["c", "--lexicon", "l", "-o"])).err().unwrap(),
        "usage: lexicon-builder bigrams <corpus.txt> --lexicon <lexicon.tsv> -o <lm.tsv>"
    );
}

#[test]
fn rnc_options_need_input_and_output() {
    assert_eq!(
        parse_rnc_args(&args(&["freq.csv", "-o", "out.tsv"])).unwrap(),
        ("freq.csv".to_string(), "out.tsv".to_string())
    );
    assert!(parse_rnc_args(&args(&["freq.csv"])).is_err());
}

#[test]
fn calibrate_options_read_max_len() {
    let c = parse_calibrate_args(&args(&["lex.tsv", "--rnc", "t.tsv", "-o", "o.tsv"])).unwrap();
    assert_eq!((c.lexicon.as_str(), c.rnc.as_str(), c.output.as_str(), c.max_len), ("lex.tsv", "t.tsv", "o.tsv", 4));
    let d = parse_calibrate_args(&args(&["--max-len", "6", "lex.tsv", "--rnc", "t.tsv", "-o", "o.tsv"])).unwrap();
    assert_eq!(d.max_len, 6);
    assert_eq!(
        parse_calibrate_args(&args(&["--max-len", "x"])).err().unwrap(),
        "--max-len needs a number"
    );
    assert_eq!(
        parse_calibrate_args(&args(&["lex.tsv", "-o", "o.tsv"])).err().unwrap(),
        "usage: lexicon-builder calibrate <lexicon.tsv> --rnc <rnc-freq.tsv> -o <out.tsv> [--max-len 4]"
    );
}

#[test]
fn expand_options_take_two_files_an_output_and_a_ratio() {
    let a = args(&["lex.tsv", "hold.tsv", "-o", "out.tsv", "--ratio", "0.5"]);
    let numbers: Vec<bool> = a.iter().map(|s| s.parse::<f64>().is_ok()).collect();
    let e = parse_expand_args(&a, &numbers).unwrap();
    assert_eq!((e.lexicon.as_str(), e.hold.as_str(), e.output.as_str()), ("lex.tsv", "hold.tsv", "out.tsv"));
    assert_eq!(e.ratio, Some(5));

    let a = args(&["lex.tsv", "hold.tsv", "-o", "out.tsv", "--ratio", "много"]);
    let numbers: Vec<bool> = a.iter().map(|s| s.parse::<f64>().is_ok()).collect();
    assert_eq!(parse_expand_args(&a, &numbers).err().unwrap(), "--ratio needs a number");

    let a = args(&["lex.tsv", "hold.tsv", "extra", "-o", "out.tsv"]);
    let numbers = vec![false; a.len()];
    assert_eq!(parse_expand_args(&a, &numbers).err().unwrap(), "unexpected argument extra");

    let a = args(&["lex.tsv", "hold.tsv"]);
    let numbers = vec![false; a.len()];
    assert!(parse_expand_args(&a, &numbers).err().unwrap().starts_with("usage: lexicon-builder expand"));
}
