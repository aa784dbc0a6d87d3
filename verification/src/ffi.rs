//! The data shapes of the native (Kotlin/Swift) surface: plain records and
//! enums with explicit, spelled-out variants, and the conversions from the
//! core types into them.

use vstd::prelude::*;

use crate::morph::Case;
use crate::paradigm::{CaseForm as CoreCaseForm, Gender, Number, ParadigmGroup as CoreGroup};
use crate::text::{append_chars, chars_to_string, str_chars};
use crate::tone;

verus! {

#[derive(Debug, Clone, Copy, PartialEq, Eq, Structural)]
pub enum GrammaticalNumber {
    Singular,
    Plural,
}

#[derive(Debug, Clone, Copy, PartialEq, Eq, Structural)]
pub enum GrammaticalGender {
    Masculine,
    Feminine,
    Neuter,
}

#[derive(Debug, Clone, Copy, PartialEq, Eq, Structural)]
pub enum Register {
    Polite,
    Neutral,
    Crude,
}

#[derive(Debug, Clone, Copy, PartialEq, Eq, Structural)]
pub enum GrammaticalCase {
    Nominative,
    Genitive,
    Dative,
    Accusative,
    Instrumental,
    Locative,
}

/// One filled declension cell.
#[derive(Debug, Clone)]
pub struct CaseForm {
    pub case: GrammaticalCase,
    pub form: String,
}

/// A lemma's declension for one number (and, for adjectives, gender).
#[derive(Debug, Clone)]
pub struct ParadigmGroup {
    pub number: GrammaticalNumber,
    pub gender: Option<GrammaticalGender>,
    pub forms: Vec<CaseForm>,
}

/// Errors raised across the native surface, one per artifact kind.
#[derive(Debug, Clone, PartialEq, Eq)]
pub enum AbbrevError {
    InvalidLexicon { reason: String },
    InvalidLanguageModel { reason: String },
    InvalidShortcuts { reason: String },
    InvalidMaskList { reason: String },
    InvalidToneMarkers { reason: String },
}

pub open spec fn spec_error_text(e: AbbrevError) -> Seq<char> {
    match e {
        AbbrevError::InvalidLexicon { reason } => "invalid lexicon: "@ + reason@,
        AbbrevError::InvalidLanguageModel { reason } => "invalid language model: "@ + reason@,
        AbbrevError::InvalidShortcuts { reason } => "invalid shortcuts: "@ + reason@,
        AbbrevError::InvalidMaskList { reason } => "invalid mask list: "@ + reason@,
        AbbrevError::InvalidToneMarkers { reason } => "invalid tone markers: "@ + reason@,
    }
}

fn prefixed(prefix: &str, reason: &String) -> (r: String)
    ensures
        r@ == prefix@ + reason@,
{
    let mut v = str_chars(prefix);
    let rs = str_chars(reason.as_str());
    append_chars(&mut v, rs.as_slice());
    chars_to_string(v.as_slice())
}

impl AbbrevError {
    /// Human-readable text: the artifact kind, then the reason.
    pub fn describe(&self) -> (r: String)
        ensures
            r@ == spec_error_text(*self),
    {
        match self {
            AbbrevError::InvalidLexicon { reason } => prefixed("invalid lexicon: ", reason),
            AbbrevError::InvalidLanguageModel { reason } => prefixed(
                "invalid language model: ",
                reason,
            ),
            AbbrevError::InvalidShortcuts { reason } => prefixed("invalid shortcuts: ", reason),
            AbbrevError::InvalidMaskList { reason } => prefixed("invalid mask list: ", reason),
            AbbrevError::InvalidToneMarkers { reason } => prefixed(
                "invalid tone markers: ",
                reason,
            ),
        }
    }
}

pub open spec fn spec_ffi_case(case: Case) -> GrammaticalCase {
    match case {
        Case::Nom => GrammaticalCase::Nominative,
        Case::Gen => GrammaticalCase::Genitive,
        Case::Dat => GrammaticalCase::Dative,
        Case::Acc => GrammaticalCase::Accusative,
        Case::Ins => GrammaticalCase::Instrumental,
        Case::Loc => GrammaticalCase::Locative,
    }
}

pub open spec fn spec_ffi_number(n: Number) -> GrammaticalNumber {
    match n {
        Number::Singular => GrammaticalNumber::Singular,
        Number::Plural => GrammaticalNumber::Plural,
    }
}

pub open spec fn spec_ffi_gender(g: Option<Gender>) -> Option<GrammaticalGender> {
    match g {
        None => None,
        Some(Gender::Masculine) => Some(GrammaticalGender::Masculine),
        Some(Gender::Feminine) => Some(GrammaticalGender::Feminine),
        Some(Gender::Neuter) => Some(GrammaticalGender::Neuter),
    }
}

pub open spec fn spec_ffi_register(r: tone::Register) -> Register {
    match r {
        tone::Register::Polite => Register::Polite,
        tone::Register::Neutral => Register::Neutral,
        tone::Register::Crude => Register::Crude,
    }
}

/// The surface register for a core register.
pub fn to_ffi_register(r: tone::Register) -> (o: Register)
    ensures
        o == spec_ffi_register(r),
{
    match r {
        tone::Register::Polite => Register::Polite,
        tone::Register::Neutral => Register::Neutral,
        tone::Register::Crude => Register::Crude,
    }
}

/// The surface case for a core case.
pub fn to_ffi_case(case: Case) -> (c: GrammaticalCase)
    ensures
        c == spec_ffi_case(case),
{
    match case {
        Case::Nom => GrammaticalCase::Nominative,
        Case::Gen => GrammaticalCase::Genitive,
        Case::Dat => GrammaticalCase::Dative,
        Case::Acc => GrammaticalCase::Accusative,
        Case::Ins => GrammaticalCase::Instrumental,
        Case::Loc => GrammaticalCase::Locative,
    }
}

/// The surface record for a core paradigm group: same number, gender and
/// cells, in the same order.
pub fn to_ffi_group(group: &CoreGroup) -> (r: ParadigmGroup)
    ensures
        r.number == spec_ffi_number(group.number),
        r.gender == spec_ffi_gender(group.gender),
        r.forms@.len() == group.forms@.len(),
        forall|i: int|
            0 <= i < r.forms@.len() ==> (#[trigger] r.forms@[i]).case == spec_ffi_case(
                group.forms@[i].case,
            ) && r.forms@[i].form@ == group.forms@[i].form@,
{
    let number = match group.number {
        Number::Singular => GrammaticalNumber::Singular,
        Number::Plural => GrammaticalNumber::Plural,
    };
    let gender = match group.gender {
        None => None,
        Some(Gender::Masculine) => Some(GrammaticalGender::Masculine),
        Some(Gender::Feminine) => Some(GrammaticalGender::Feminine),
        Some(Gender::Neuter) => Some(GrammaticalGender::Neuter),
    };
    let mut forms: Vec<CaseForm> = Vec::new();
    let mut i: usize = 0;
    while i < group.forms.len()
        invariant
            i <= group.forms@.len(),
            forms@.len() == i,
            forall|k: int|
                0 <= k < i ==> (#[trigger] forms@[k]).case == spec_ffi_case(group.forms@[k].case)
                    && forms@[k].form@ == group.forms@[k].form@,
        decreases group.forms@.len() - i,
    {
        let cf: &CoreCaseForm = &group.forms[i];
        let f = str_chars(cf.form.as_str());
        forms.push(CaseForm { case: to_ffi_case(cf.case), form: chars_to_string(f.as_slice()) });
        i = i + 1;
    }
    ParadigmGroup { number, gender, forms }
}

/// The display abbreviation of a case, as the web surface renders it.
pub open spec fn spec_case_label(case: Case) -> Seq<char> {
    match case {
        Case::Nom => "им."@,
        Case::Gen => "род."@,
        Case::Dat => "дат."@,
        Case::Acc => "вин."@,
        Case::Ins => "тв."@,
        Case::Loc => "пр."@,
    }
}

/// Russian case abbreviation, ready to render: `им.`, `род.`, ...
pub fn case_label(case: Case) -> (r: &'static str)
    ensures
        r@ == spec_case_label(case),
{
    match case {
        Case::Nom => "им.",
        Case::Gen => "род.",
        Case::Dat => "дат.",
        Case::Acc => "вин.",
        Case::Ins => "тв.",
        Case::Loc => "пр.",
    }
}

/// The display abbreviation of a grammatical number.
pub open spec fn spec_number_label(n: Number) -> Seq<char> {
    match n {
        Number::Singular => "ед."@,
        Number::Plural => "мн."@,
    }
}

/// Number label, ready to render: `ед.` / `мн.`.
pub fn number_label(n: Number) -> (r: &'static str)
    ensures
        r@ == spec_number_label(n),
{
    match n {
        Number::Singular => "ед.",
        Number::Plural => "мн.",
    }
}

} // verus!
