use abbrev_core::ffi::{
    case_label, number_label, AbbrevError, GrammaticalCase, GrammaticalGender, GrammaticalNumber, Register, to_ffi_case,
    to_ffi_group, to_ffi_register,
};
use abbrev_core::morph::Case;
use abbrev_core::paradigm::{Number, Paradigms};
use abbrev_core::tone;

#[test]
fn cases_and_registers_map_one_to_one() {
    assert_eq!(to_ffi_case(Case::Nom), GrammaticalCase::Nominative);
    assert_eq!(to_ffi_case(Case::Ins), GrammaticalCase::Instrumental);
    assert_eq!(to_ffi_case(Case::Loc), GrammaticalCase::Locative);
    assert_eq!(to_ffi_register(tone::Register::Crude), Register::Crude);
}

#[test]
fn groups_keep_number_gender_and_cells() {
    let p = Paradigms::from_tsv_str("красный\tsing.femn\tкрасная|||||красной\n");
    let g = to_ffi_group(&p.get("красный").unwrap()[0]);
    assert_eq!(g.number, GrammaticalNumber::Singular);
    assert_eq!(g.gender, Some(GrammaticalGender::Feminine));
    assert_eq!(g.forms.len(), 2);
    assert_eq!(g.forms[1].case, GrammaticalCase::Locative);
    assert_eq!(g.forms[1].form, "красной");
}

#[test]
fn errors_describe_their_artifact() {
    let e = AbbrevError::InvalidShortcuts { reason: "line 1".to_string() };
    assert_eq!(e.describe(), "invalid shortcuts: line 1");
}

#[test]
fn labels_render_russian_abbreviations() {
    assert_eq!(case_label(Case::Nom), "им.");
    assert_eq!(case_label(Case::Ins), "тв.");
    assert_eq!(case_label(Case::Loc), "пр.");
    assert_eq!(number_label(Number::Singular), "ед.");
    assert_eq!(number_label(Number::Plural), "мн.");
}
