use abbrev_core::cli::{parse_args, parse_bench_args, parse_snapshot_args};
use abbrev_core::tune::{Rng, parse_bench_cases, parse_cases, parse_tune_args};
use abbrev_core::snapshot::{fnv1a_64, snapshot_cases, snapshot_document};

fn args(v: &[&str]) -> Vec<String> {
    v.iter().map(|s| s.to_string()).collect()
}

#[test]
fn common_options_are_read_in_order() {
    let a = parse_args(&args(&[
        "cases.tsv",
        "--lexicon",
        "lex.tsv",
        "--shortcuts",
        "a.tsv",
        "--shortcuts",
        "b.tsv",
        "--limit",
        "7",
        "--context",
        "зайди  в",
    ]))
    .unwrap();
    assert_eq!(a.lexicon_path.as_deref(), Some("lex.tsv"));
    assert_eq!(a.shortcuts_paths, vec!["a.tsv", "b.tsv"]);
    assert_eq!(a.limit, 7);
    assert_eq!(a.context.previous_words, vec!["зайди", "в"]);
    assert_eq!(a.positional, vec!["cases.tsv"]);
    let d = parse_args(&args(&[])).unwrap();
    assert_eq!(d.limit, 5);
    assert!(d.lexicon_path.is_none());
}

#[test]
fn option_errors_are_reported() {
    assert_eq!(parse_args(&args(&["--lexicon"])).err().unwrap(), "--lexicon needs a path");
    assert_eq!(parse_args(&args(&["--limit", "много"])).err().unwrap(), "--limit needs a number");
    assert_eq!(parse_args(&args(&["--context"])).err().unwrap(), "--context needs a string");
}

#[test]
fn bench_and_snapshot_options() {
    let b = parse_bench_args(&args(&["--recency", "--noise", "3", "x.tsv"])).unwrap();
    assert!(b.recency);
    assert_eq!(b.noise, 3);
    assert_eq!(b.rest, vec!["x.tsv"]);
    assert_eq!(
        parse_bench_args(&args(&["--noise", "3"])).err().unwrap(),
        "--noise requires --recency"
    );
    assert_eq!(parse_bench_args(&args(&["--noise"])).err().unwrap(), "--noise needs a number");
    let (o, rest) = parse_snapshot_args(&args(&["-o", "snap.tsv", "cases.tsv"])).unwrap();
    assert_eq!(o.as_deref(), Some("snap.tsv"));
    assert_eq!(rest, vec!["cases.tsv"]);
    assert_eq!(parse_snapshot_args(&args(&["--output"])).err().unwrap(), "-o needs a path");
}

#[test]
fn tune_options_and_cases() {
    let t = parse_tune_args(&args(&["--train", "t.tsv", "--iters", "10", "--seed", "42"])).unwrap();
    assert_eq!(t.train_path, "t.tsv");
    assert_eq!(t.iters, 10);
    assert_eq!(t.seed, 42);
    assert!(t.valid_path.is_none());
    assert_eq!(parse_tune_args(&args(&[])).err().unwrap(), "tune needs --train <cases.tsv>");
    assert_eq!(
        parse_tune_args(&args(&["--bogus"])).err().unwrap(),
        "tune: unknown argument --bogus"
    );
    let cases = parse_cases("# c\nпрвт\tпривет\n\nтстрн\tтестирование\ttypo\tну в\nодно\n");
    assert_eq!(cases.len(), 2);
    assert_eq!(cases[0].tag, "untagged");
    assert_eq!(cases[1].tag, "typo");
    assert_eq!(cases[1].context.previous_words, vec!["ну", "в"]);
}

#[test]
fn xorshift_is_deterministic() {
    let mut r = Rng::new(0);
    assert_eq!(r.0, 1);
    let a = r.next();
    assert_eq!(a, 1082269761);
    let mut s = Rng::new(1);
    assert_eq!(s.next(), a);
}

#[test]
fn fnv_matches_reference_values() {
    assert_eq!(fnv1a_64(b""), 0xcbf29ce484222325);
    assert_eq!(fnv1a_64(b"a"), 0xaf63dc4c8601ec8c);
}

#[test]
fn snapshot_is_sorted_deduped_and_hashed() {
    let cases = snapshot_cases("# h\nпрвт\tпривет\n\nтстрн\tx\ty\tну в  \n");
    assert_eq!(cases, vec![("првт".to_string(), "".to_string()), ("тстрн".to_string(), "ну в".to_string())]);
    let rows = vec![
        ("б".to_string(), "".to_string(), "x:1.00".to_string()),
        ("а".to_string(), "".to_string(), "y:2.00".to_string()),
        ("б".to_string(), "".to_string(), "x:1.00".to_string()),
    ];
    let doc = snapshot_document(rows, 3);
    let body = "а\t\ty:2.00\nб\t\tx:1.00\n";
    let header = format!(
        "# engine snapshot: input\\tcontext\\tform:score|… (limit 3) — 2 cases, hash={:016x}\n",
        fnv1a_64(body.as_bytes())
    );
    assert_eq!(doc, header + body);
}

#[test]
fn bench_cases_default_tag_and_keep_context_absent() {
    let text = "# comment\n\nпрвт\tпривет\nмр\tмир\tdrop\tв этот\n";
    let cases = parse_bench_cases(text).unwrap();
    assert_eq!(cases.len(), 2);
    assert_eq!(cases[0].input, "првт");
    assert_eq!(cases[0].expected, "привет");
    assert_eq!(cases[0].tag, "untagged");
    assert!(cases[0].context.is_none());
    assert_eq!(cases[1].tag, "drop");
    assert_eq!(
        cases[1].context.as_ref().unwrap().previous_words,
        vec!["в".to_string(), "этот".to_string()]
    );
}

#[test]
fn bench_line_without_expected_is_an_error() {
    let err = parse_bench_cases("првт\tпривет\nодно\n").err().unwrap();
    assert_eq!(err, "bad bench line (need input\\texpected): одно");
}

#[test]
fn snapshot_ignores_row_order_and_repeats() {
    let row = |a: &str, b: &str, c: &str| (a.to_string(), b.to_string(), c.to_string());
    let one = vec![row("првт", "", "привет:1.00"), row("мр", "в", "мир:0.50")];
    let two = vec![
        row("мр", "в", "мир:0.50"),
        row("првт", "", "привет:1.00"),
        row("мр", "в", "мир:0.50"),
    ];
    assert_eq!(snapshot_document(one, 5), snapshot_document(two, 5));
}
