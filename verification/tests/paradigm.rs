use abbrev_core::morph::Case;
use abbrev_core::paradigm::{Gender, Number, Paradigms};

const SAMPLE: &str = "\
# header comment
работа\tplur\tработы|работ|работам|работы|работами|работах
работа\tsing\tработа|работы|работе|работу|работой|работе
тестирование\tsing\tтестирование|тестирования|тестированию|тестирование|тестированием|тестировании
ножницы\tplur\tножницы|ножниц|ножницам|ножницы|ножницами|ножницах";

#[test]
fn parses_and_orders_singular_first() {
    let p = Paradigms::from_tsv_str(SAMPLE);
    let groups = p.get("работа").unwrap();
    assert_eq!(groups.len(), 2);
    // Singular leads even though the file lists plural first.
    assert_eq!(groups[0].number, Number::Singular);
    assert_eq!(groups[1].number, Number::Plural);
    assert_eq!(groups[0].forms.len(), 6);
    assert_eq!(groups[0].forms[0].case, Case::Nom);
    assert_eq!(groups[0].forms[0].form, "работа");
    assert_eq!(groups[0].forms[5].case, Case::Loc);
    assert_eq!(groups[0].forms[5].form, "работе");
}

#[test]
fn defective_paradigms_keep_only_the_number_that_exists() {
    let p = Paradigms::from_tsv_str(SAMPLE);
    // Singularia tantum: only singular.
    let t = p.get("тестирование").unwrap();
    assert_eq!(t.len(), 1);
    assert_eq!(t[0].number, Number::Singular);
    // Pluralia tantum: only plural.
    let n = p.get("ножницы").unwrap();
    assert_eq!(n.len(), 1);
    assert_eq!(n[0].number, Number::Plural);
}

#[test]
fn flattened_forms_are_ordered_and_deduped() {
    let p = Paradigms::from_tsv_str(SAMPLE);
    let forms = p.forms("работа").unwrap();
    // Canonical order, first occurrence wins: работе (dat sing) appears
    // once though it fills both dative and locative singular.
    assert_eq!(
        forms,
        vec![
            "работа",
            "работы",
            "работе",
            "работу",
            "работой", // sing (loct работе deduped)
            "работ",
            "работам",
            "работами",
            "работах", // plur (работы deduped)
        ]
    );
}

#[test]
fn lookup_normalizes_lemma() {
    let p = Paradigms::from_tsv_str(SAMPLE);
    assert!(p.get("Работа").is_some());
    assert!(p.get("РАБОТА").is_some());
}

#[test]
fn malformed_rows_are_skipped_not_fatal() {
    let tsv = "\
bad\trow
работа\tsing\tработа|работы|работе|работу|работой|работе
oops\tsing\ttoo|few
дом\tweird\tдом|дома|дому|дом|домом|доме
работа\tplur\tработы|работ|работам|работы|работами|работах\textra";
    let p = Paradigms::from_tsv_str(tsv);
    // Only the one well-formed row survived.
    assert_eq!(p.len(), 1);
    assert_eq!(p.get("работа").unwrap().len(), 1);
    assert!(p.get("дом").is_none());
}

#[test]
fn unknown_lemma_yields_none() {
    let p = Paradigms::from_tsv_str(SAMPLE);
    assert!(p.get("несуществующее").is_none());
    assert!(p.forms("несуществующее").is_none());
}

// Adjective: three gendered singulars plus a genderless plural, listed in
// the file in the artifact's alphabetical group order (plur, then the
// sing.* keys) to exercise re-sorting.
const ADJ_SAMPLE: &str = "\
красный\tplur\tкрасные|красных|красным|красные|красными|красных
красный\tsing.femn\tкрасная|красной|красной|красную|красной|красной
красный\tsing.masc\tкрасный|красного|красному|красный|красным|красном
красный\tsing.neut\tкрасное|красного|красному|красное|красным|красном";

#[test]
fn adjective_groups_order_masc_femn_neut_then_plural() {
    let p = Paradigms::from_tsv_str(ADJ_SAMPLE);
    let g = p.get("красный").unwrap();
    assert_eq!(g.len(), 4);
    assert_eq!(
        g.iter().map(|x| (x.number, x.gender)).collect::<Vec<_>>(),
        vec![
            (Number::Singular, Some(Gender::Masculine)),
            (Number::Singular, Some(Gender::Feminine)),
            (Number::Singular, Some(Gender::Neuter)),
            (Number::Plural, None),
        ]
    );
    // Each gendered group keeps the full case order.
    assert_eq!(g[0].forms[0].case, Case::Nom);
    assert_eq!(g[0].forms[0].form, "красный");
    assert_eq!(g[1].forms[0].form, "красная");
    assert_eq!(g[2].forms[0].form, "красное");
}

#[test]
fn flattened_adjective_forms_dedupe_across_genders() {
    let p = Paradigms::from_tsv_str(ADJ_SAMPLE);
    let forms = p.forms("красный").unwrap();
    // First occurrence wins: красного (masc gen) is shared by neut gen and
    // appears once; the genderless plural follows the three singulars.
    assert_eq!(forms.first().unwrap(), "красный");
    assert_eq!(forms.last().unwrap(), "красными");
    assert_eq!(forms.iter().filter(|f| *f == "красного").count(), 1);
}

#[test]
fn gender_on_plural_is_rejected() {
    // `plur.masc` is semantically impossible; the lenient parser drops it.
    let p = Paradigms::from_tsv_str(
        "большой\tplur.masc\tбольшие|больших|большим|большие|большими|больших",
    );
    assert!(p.get("большой").is_none());
}

#[test]
fn defective_cells_are_omitted_and_empty_rows_skipped() {
    let p = Paradigms::from_tsv_str("мечта\tplur\t|мечтаний||||\nпусто\tsing\t|||||\n");
    let g = p.get("мечта").unwrap();
    assert_eq!(g[0].forms.len(), 1);
    assert_eq!(g[0].forms[0].case, Case::Gen);
    assert!(p.get("пусто").is_none());
    assert!(!p.is_empty());
}
