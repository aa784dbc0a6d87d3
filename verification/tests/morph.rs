use abbrev_core::morph::{Case, case_of, compatible, governed_cases};

#[test]
fn reads_case_from_tag() {
    assert_eq!(case_of("NOUN,inan,femn,sing,loct"), Some(Case::Loc));
    assert_eq!(case_of("NOUN,inan,femn,sing,gent"), Some(Case::Gen));
    assert_eq!(case_of("VERB,impf,intr,sing,3per"), None);
    assert_eq!(case_of(""), None);
}

#[test]
fn preposition_governs_case_as_agreement() {
    // в + предложный → совместимо; в + родительный → нет.
    assert!(compatible("в", "NOUN,sing,loct"));
    assert!(!compatible("в", "NOUN,sing,gent"));
    // для + родительный → совместимо.
    assert!(compatible("для", "NOUN,sing,gent"));
    // не предлог → нейтрально.
    assert!(!compatible("очень", "NOUN,sing,loct"));
}

#[test]
fn non_preposition_governs_nothing() {
    assert!(governed_cases("очень").is_empty());
    assert!(governed_cases("для").contains(&Case::Gen));
}
