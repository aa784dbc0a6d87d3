//! Lightweight Russian morphology: just enough grammemes to make case
//! agreement a ranking signal.
//!
//! The lexicon carries an optional OpenCorpora-style grammeme tag per form
//! (e.g. `NOUN,inan,femn,sing,loct`, produced offline by pymorphy3). At
//! ranking time the only thing we read is the **case**, and we check it
//! against the case a preceding preposition governs. This is a *soft*
//! signal: a match boosts, a mismatch is neutral (many prepositions govern
//! several cases, so we never penalize).

use vstd::prelude::*;

use crate::text::{chars_eq, split2, split2_chars, str_chars};

verus! {

/// Russian grammatical case.
#[derive(Debug, Clone, Copy, PartialEq, Eq, Structural)]
pub enum Case {
    Nom,
    Gen,
    Dat,
    Acc,
    Ins,
    Loc,
}

/// The case a single grammeme names, if it names one.
pub open spec fn grammeme_case(g: Seq<char>) -> Option<Case> {
    if g == seq!['n', 'o', 'm', 'n'] {
        Some(Case::Nom)
    } else if g == seq!['g', 'e', 'n', 't'] || g == seq!['g', 'e', 'n', '1'] || g == seq!['g', 'e', 'n', '2'] {
        Some(Case::Gen)
    } else if g == seq!['d', 'a', 't', 'v'] {
        Some(Case::Dat)
    } else if g == seq!['a', 'c', 'c', 's'] || g == seq!['a', 'c', 'c', '2'] {
        Some(Case::Acc)
    } else if g == seq!['a', 'b', 'l', 't'] {
        Some(Case::Ins)
    } else if g == seq!['l', 'o', 'c', 't'] || g == seq!['l', 'o', 'c', '1'] || g == seq!['l', 'o', 'c', '2'] {
        Some(Case::Loc)
    } else {
        None
    }
}

/// The case named by the first grammeme among `gs` that names one.
pub open spec fn first_case(gs: Seq<Seq<char>>) -> Option<Case>
    decreases gs.len(),
{
    if gs.len() == 0 {
        None
    } else {
        match grammeme_case(gs[0]) {
            Some(c) => Some(c),
            None => first_case(gs.drop_first()),
        }
    }
}

/// Case of a tag string: grammemes are separated by `,` or ` `.
pub open spec fn spec_case_of(tags: Seq<char>) -> Option<Case> {
    first_case(split2(tags, ',', ' '))
}

fn word_is(g: &[char], w: Vec<char>) -> (r: bool)
    ensures
        r == (g@ == w@),
{
    chars_eq(g, w.as_slice())
}

fn grammeme_case_exec(g: &[char]) -> (r: Option<Case>)
    ensures
        r == grammeme_case(g@),
{
    if word_is(g, vec!['n', 'o', 'm', 'n']) {
        Some(Case::Nom)
    } else if word_is(g, vec!['g', 'e', 'n', 't']) || word_is(g, vec!['g', 'e', 'n', '1']) || word_is(g, vec!['g', 'e', 'n', '2']) {
        Some(Case::Gen)
    } else if word_is(g, vec!['d', 'a', 't', 'v']) {
        Some(Case::Dat)
    } else if word_is(g, vec!['a', 'c', 'c', 's']) || word_is(g, vec!['a', 'c', 'c', '2']) {
        Some(Case::Acc)
    } else if word_is(g, vec!['a', 'b', 'l', 't']) {
        Some(Case::Ins)
    } else if word_is(g, vec!['l', 'o', 'c', 't']) || word_is(g, vec!['l', 'o', 'c', '1']) || word_is(g, vec!['l', 'o', 'c', '2']) {
        Some(Case::Loc)
    } else {
        None
    }
}

/// Extracts the case from an OpenCorpora-style grammeme tag string, if any.
/// Unknown / caseless tags (verbs, adverbs, empty) yield `None`.
pub fn case_of(tags: &str) -> (r: Option<Case>)
    ensures
        r == spec_case_of(tags@),
{
    let t = str_chars(tags);
    let gs = split2_chars(t.as_slice(), ',', ' ');
    let ghost sg = split2(tags@, ',', ' ');
    let mut i: usize = 0;
    assert(sg.subrange(0, sg.len() as int) =~= sg);
    while i < gs.len()
        invariant
            t@ == tags@,
            sg == split2(tags@, ',', ' '),
            gs@.len() == sg.len(),
            forall|k: int| 0 <= k < gs@.len() ==> #[trigger] gs@[k]@ == sg[k],
            i <= gs@.len(),
            first_case(sg) == first_case(sg.subrange(i as int, sg.len() as int)),
        decreases gs@.len() - i,
    {
        assert(sg.subrange(i as int, sg.len() as int)[0] == gs@[i as int]@);
        assert(sg.subrange(i as int, sg.len() as int).drop_first() =~= sg.subrange(i + 1, sg.len() as int));
        match grammeme_case_exec(gs[i].as_slice()) {
            Some(c) => {
                assert(grammeme_case(sg[i as int]) == Some(c));
                assert(sg.subrange(i as int, sg.len() as int).len() > 0);
                return Some(c);
            },
            None => {},
        }
        i = i + 1;
    }
    assert(sg.subrange(i as int, sg.len() as int) =~= Seq::<Seq<char>>::empty());
    None
}

/// Prepositions of government group `g`.
pub open spec fn preposition_group(g: nat) -> Seq<Seq<char>> {
    if g == 0 {
        seq![seq!['в'], seq!['в', 'о'], seq!['н', 'а']]
    } else if g == 1 {
        seq![seq!['о'], seq!['о', 'б'], seq!['о', 'б', 'о'], seq!['п', 'р', 'и']]
    } else if g == 2 {
        seq![seq!['д', 'л', 'я'], seq!['б', 'е', 'з'], seq!['б', 'е', 'з', 'о'], seq!['д', 'о'], seq!['и', 'з'], seq!['и', 'з', 'о'], seq!['и', 'з', '-', 'з', 'а'], seq!['и', 'з', '-', 'п', 'о', 'д'], seq!['о', 'т'], seq!['о', 'т', 'о'], seq!['у'], seq!['о', 'к', 'о', 'л', 'о'], seq!['в', 'о', 'з', 'л', 'е'], seq!['к', 'р', 'о', 'м', 'е'], seq!['р', 'а', 'д', 'и'], seq!['в', 'м', 'е', 'с', 'т', 'о'], seq!['в', 'о', 'к', 'р', 'у', 'г'], seq!['п', 'о', 'с', 'л', 'е'], seq!['п', 'р', 'о', 'т', 'и', 'в'], seq!['с', 'р', 'е', 'д', 'и'], seq!['с', 'в', 'е', 'р', 'х']]
    } else if g == 3 {
        seq![seq!['к'], seq!['к', 'о'], seq!['б', 'л', 'а', 'г', 'о', 'д', 'а', 'р', 'я'], seq!['в', 'о', 'п', 'р', 'е', 'к', 'и'], seq!['с', 'о', 'г', 'л', 'а', 'с', 'н', 'о'], seq!['н', 'а', 'в', 'с', 'т', 'р', 'е', 'ч', 'у']]
    } else if g == 4 {
        seq![seq!['п', 'о']]
    } else if g == 5 {
        seq![seq!['с'], seq!['с', 'о']]
    } else if g == 6 {
        seq![seq!['н', 'а', 'д'], seq!['н', 'а', 'д', 'о'], seq!['п', 'о', 'д'], seq!['п', 'о', 'д', 'о'], seq!['п', 'е', 'р', 'е', 'д'], seq!['п', 'е', 'р', 'е', 'д', 'о'], seq!['м', 'е', 'ж', 'д', 'у'], seq!['м', 'е', 'ж']]
    } else if g == 7 {
        seq![seq!['з', 'а']]
    } else {
        seq![seq!['п', 'р', 'о'], seq!['ч', 'е', 'р', 'е', 'з'], seq!['ч', 'е', 'р', 'е', 'з', 'о'], seq!['с', 'к', 'в', 'о', 'з', 'ь']]
    }
}

/// Cases governed by the prepositions of group `g`.
pub open spec fn group_cases(g: nat) -> Seq<Case> {
    if g == 0 {
        seq![Case::Loc, Case::Acc]
    } else if g == 1 {
        seq![Case::Loc]
    } else if g == 2 {
        seq![Case::Gen]
    } else if g == 3 {
        seq![Case::Dat]
    } else if g == 4 {
        seq![Case::Dat, Case::Loc, Case::Acc]
    } else if g == 5 {
        seq![Case::Ins, Case::Gen]
    } else if g == 6 {
        seq![Case::Ins]
    } else if g == 7 {
        seq![Case::Ins, Case::Acc]
    } else {
        seq![Case::Acc]
    }
}

/// The first group (in table order) whose prepositions include `p`.
pub open spec fn group_of(p: Seq<char>, from: nat) -> Option<nat>
    decreases 9 - from,
{
    if from >= 9 {
        None
    } else if preposition_group(from).contains(p) {
        Some(from)
    } else {
        group_of(p, from + 1)
    }
}

/// Cases a normalized preposition governs; empty for a non-preposition.
pub open spec fn spec_governed(p: Seq<char>) -> Seq<Case> {
    match group_of(p, 0) {
        Some(g) => group_cases(g),
        None => Seq::empty(),
    }
}

fn group_words(g: usize) -> (v: Vec<Vec<char>>)
    requires
        g < 9,
    ensures
        v@.len() == preposition_group(g as nat).len(),
        forall|i: int| 0 <= i < v@.len() ==> #[trigger] v@[i]@ == preposition_group(g as nat)[i],
{
    let v = if g == 0 {
        let v = vec![vec!['в'], vec!['в', 'о'], vec!['н', 'а']];
        assert(v@[0]@ =~= seq!['в']);
        assert(v@[1]@ =~= seq!['в', 'о']);
        assert(v@[2]@ =~= seq!['н', 'а']);
        v
    } else if g == 1 {
        let v = vec![vec!['о'], vec!['о', 'б'], vec!['о', 'б', 'о'], vec!['п', 'р', 'и']];
        assert(v@[0]@ =~= seq!['о']);
        assert(v@[1]@ =~= seq!['о', 'б']);
        assert(v@[2]@ =~= seq!['о', 'б', 'о']);
        assert(v@[3]@ =~= seq!['п', 'р', 'и']);
        v
    } else if g == 2 {
        let v = vec![vec!['д', 'л', 'я'], vec!['б', 'е', 'з'], vec!['б', 'е', 'з', 'о'], vec!['д', 'о'], vec!['и', 'з'], vec!['и', 'з', 'о'], vec!['и', 'з', '-', 'з', 'а'], vec!['и', 'з', '-', 'п', 'о', 'д'], vec!['о', 'т'], vec!['о', 'т', 'о'], vec!['у'], vec!['о', 'к', 'о', 'л', 'о'], vec!['в', 'о', 'з', 'л', 'е'], vec!['к', 'р', 'о', 'м', 'е'], vec!['р', 'а', 'д', 'и'], vec!['в', 'м', 'е', 'с', 'т', 'о'], vec!['в', 'о', 'к', 'р', 'у', 'г'], vec!['п', 'о', 'с', 'л', 'е'], vec!['п', 'р', 'о', 'т', 'и', 'в'], vec!['с', 'р', 'е', 'д', 'и'], vec!['с', 'в', 'е', 'р', 'х']];
        assert(v@[0]@ =~= seq!['д', 'л', 'я']);
        assert(v@[1]@ =~= seq!['б', 'е', 'з']);
        assert(v@[2]@ =~= seq!['б', 'е', 'з', 'о']);
        assert(v@[3]@ =~= seq!['д', 'о']);
        assert(v@[4]@ =~= seq!['и', 'з']);
        assert(v@[5]@ =~= seq!['и', 'з', 'о']);
        assert(v@[6]@ =~= seq!['и', 'з', '-', 'з', 'а']);
        assert(v@[7]@ =~= seq!['и', 'з', '-', 'п', 'о', 'д']);
        assert(v@[8]@ =~= seq!['о', 'т']);
        assert(v@[9]@ =~= seq!['о', 'т', 'о']);
        assert(v@[10]@ =~= seq!['у']);
        assert(v@[11]@ =~= seq!['о', 'к', 'о', 'л', 'о']);
        assert(v@[12]@ =~= seq!['в', 'о', 'з', 'л', 'е']);
        assert(v@[13]@ =~= seq!['к', 'р', 'о', 'м', 'е']);
        assert(v@[14]@ =~= seq!['р', 'а', 'д', 'и']);
        assert(v@[15]@ =~= seq!['в', 'м', 'е', 'с', 'т', 'о']);
        assert(v@[16]@ =~= seq!['в', 'о', 'к', 'р', 'у', 'г']);
        assert(v@[17]@ =~= seq!['п', 'о', 'с', 'л', 'е']);
        assert(v@[18]@ =~= seq!['п', 'р', 'о', 'т', 'и', 'в']);
        assert(v@[19]@ =~= seq!['с', 'р', 'е', 'д', 'и']);
        assert(v@[20]@ =~= seq!['с', 'в', 'е', 'р', 'х']);
        v
    } else if g == 3 {
        let v = vec![vec!['к'], vec!['к', 'о'], vec!['б', 'л', 'а', 'г', 'о', 'д', 'а', 'р', 'я'], vec!['в', 'о', 'п', 'р', 'е', 'к', 'и'], vec!['с', 'о', 'г', 'л', 'а', 'с', 'н', 'о'], vec!['н', 'а', 'в', 'с', 'т', 'р', 'е', 'ч', 'у']];
        assert(v@[0]@ =~= seq!['к']);
        assert(v@[1]@ =~= seq!['к', 'о']);
        assert(v@[2]@ =~= seq!['б', 'л', 'а', 'г', 'о', 'д', 'а', 'р', 'я']);
        assert(v@[3]@ =~= seq!['в', 'о', 'п', 'р', 'е', 'к', 'и']);
        assert(v@[4]@ =~= seq!['с', 'о', 'г', 'л', 'а', 'с', 'н', 'о']);
        assert(v@[5]@ =~= seq!['н', 'а', 'в', 'с', 'т', 'р', 'е', 'ч', 'у']);
        v
    } else if g == 4 {
        let v = vec![vec!['п', 'о']];
        assert(v@[0]@ =~= seq!['п', 'о']);
        v
    } else if g == 5 {
        let v = vec![vec!['с'], vec!['с', 'о']];
        assert(v@[0]@ =~= seq!['с']);
        assert(v@[1]@ =~= seq!['с', 'о']);
        v
    } else if g == 6 {
        let v = vec![vec!['н', 'а', 'д'], vec!['н', 'а', 'д', 'о'], vec!['п', 'о', 'д'], vec!['п', 'о', 'д', 'о'], vec!['п', 'е', 'р', 'е', 'д'], vec!['п', 'е', 'р', 'е', 'д', 'о'], vec!['м', 'е', 'ж', 'д', 'у'], vec!['м', 'е', 'ж']];
        assert(v@[0]@ =~= seq!['н', 'а', 'д']);
        assert(v@[1]@ =~= seq!['н', 'а', 'д', 'о']);
        assert(v@[2]@ =~= seq!['п', 'о', 'д']);
        assert(v@[3]@ =~= seq!['п', 'о', 'д', 'о']);
        assert(v@[4]@ =~= seq!['п', 'е', 'р', 'е', 'д']);
        assert(v@[5]@ =~= seq!['п', 'е', 'р', 'е', 'д', 'о']);
        assert(v@[6]@ =~= seq!['м', 'е', 'ж', 'д', 'у']);
        assert(v@[7]@ =~= seq!['м', 'е', 'ж']);
        v
    } else if g == 7 {
        let v = vec![vec!['з', 'а']];
        assert(v@[0]@ =~= seq!['з', 'а']);
        v
    } else {
        let v = vec![vec!['п', 'р', 'о'], vec!['ч', 'е', 'р', 'е', 'з'], vec!['ч', 'е', 'р', 'е', 'з', 'о'], vec!['с', 'к', 'в', 'о', 'з', 'ь']];
        assert(v@[0]@ =~= seq!['п', 'р', 'о']);
        assert(v@[1]@ =~= seq!['ч', 'е', 'р', 'е', 'з']);
        assert(v@[2]@ =~= seq!['ч', 'е', 'р', 'е', 'з', 'о']);
        assert(v@[3]@ =~= seq!['с', 'к', 'в', 'о', 'з', 'ь']);
        v
    };
    v
}

fn group_cases_exec(g: usize) -> (r: &'static [Case])
    requires
        g < 9,
    ensures
        r@ == group_cases(g as nat),
{
    if g == 0 {
        let r: &'static [Case] = &[Case::Loc, Case::Acc];
        assert(r@ =~= seq![Case::Loc, Case::Acc]);
        r
    } else if g == 1 {
        let r: &'static [Case] = &[Case::Loc];
        assert(r@ =~= seq![Case::Loc]);
        r
    } else if g == 2 {
        let r: &'static [Case] = &[Case::Gen];
        assert(r@ =~= seq![Case::Gen]);
        r
    } else if g == 3 {
        let r: &'static [Case] = &[Case::Dat];
        assert(r@ =~= seq![Case::Dat]);
        r
    } else if g == 4 {
        let r: &'static [Case] = &[Case::Dat, Case::Loc, Case::Acc];
        assert(r@ =~= seq![Case::Dat, Case::Loc, Case::Acc]);
        r
    } else if g == 5 {
        let r: &'static [Case] = &[Case::Ins, Case::Gen];
        assert(r@ =~= seq![Case::Ins, Case::Gen]);
        r
    } else if g == 6 {
        let r: &'static [Case] = &[Case::Ins];
        assert(r@ =~= seq![Case::Ins]);
        r
    } else if g == 7 {
        let r: &'static [Case] = &[Case::Ins, Case::Acc];
        assert(r@ =~= seq![Case::Ins, Case::Acc]);
        r
    } else {
        let r: &'static [Case] = &[Case::Acc];
        assert(r@ =~= seq![Case::Acc]);
        r
    }
}

fn contains_word(words: &Vec<Vec<char>>, p: &[char]) -> (r: bool)
    ensures
        r == exists|i: int| 0 <= i < words@.len() && #[trigger] words@[i]@ == p@,
{
    let mut i: usize = 0;
    while i < words.len()
        invariant
            i <= words@.len(),
            forall|k: int| 0 <= k < i ==> #[trigger] words@[k]@ != p@,
        decreases words@.len() - i,
    {
        if chars_eq(words[i].as_slice(), p) {
            return true;
        }
        i = i + 1;
    }
    false
}

/// Cases a preposition can govern. A soft whitelist: multi-case prepositions
/// list every plausible case, so the signal rewards agreement without
/// punishing the ambiguous ones. The argument must be normalized
/// (lowercase, `ё→е`).
pub fn governed_cases(prep: &str) -> (r: &'static [Case])
    ensures
        r@ == spec_governed(prep@),
{
    let p = str_chars(prep);
    let mut g: usize = 0;
    while g < 9
        invariant
            p@ == prep@,
            g <= 9,
            group_of(prep@, 0) == group_of(prep@, g as nat),
        decreases 9 - g,
    {
        let words = group_words(g);
        if contains_word(&words, p.as_slice()) {
            proof {
                let k = choose|k: int| 0 <= k < words@.len() && #[trigger] words@[k]@ == p@;
                assert(preposition_group(g as nat)[k] == prep@);
                assert(preposition_group(g as nat).contains(prep@));
            }
            return group_cases_exec(g);
        }
        proof {
            if preposition_group(g as nat).contains(prep@) {
                let k = choose|k: int| 0 <= k < preposition_group(g as nat).len() && preposition_group(g as nat)[k] == prep@;
                assert(words@[k]@ == p@);
            }
        }
        g = g + 1;
    }
    let r: &'static [Case] = &[];
    assert(r@ =~= Seq::<Case>::empty());
    r
}

/// Whether the case of `tags` is one the preposition `prev` governs.
/// False whenever there is no preposition, no case, or no match.
pub open spec fn spec_compatible(prev: Seq<char>, tags: Seq<char>) -> bool {
    match spec_case_of(tags) {
        Some(c) => spec_governed(prev).contains(c),
        None => false,
    }
}

/// Agreement test behind the morphology ranking signal: `true` if `tags`'
/// case is one the preposition `prev` governs. The signal's weight is
/// `1.0` exactly when this holds and `0.0` otherwise — never negative, so it
/// can only help.
pub fn compatible(prev: &str, tags: &str) -> (r: bool)
    ensures
        r == spec_compatible(prev@, tags@),
{
    let governed = governed_cases(prev);
    if governed.len() == 0 {
        proof {
            match spec_case_of(tags@) {
                Some(c) => {
                    assert(!spec_governed(prev@).contains(c));
                },
                None => {},
            }
        }
        return false;
    }
    match case_of(tags) {
        Some(c) => {
            let mut i: usize = 0;
            while i < governed.len()
                invariant
                    governed@ == spec_governed(prev@),
                    spec_case_of(tags@) == Some(c),
                    i <= governed@.len(),
                    forall|k: int| 0 <= k < i ==> governed@[k] != c,
                decreases governed@.len() - i,
            {
                if governed[i] == c {
                    assert(governed@[i as int] == c);
                    assert(spec_governed(prev@).contains(c));
                    return true;
                }
                i = i + 1;
            }
            assert(!spec_governed(prev@).contains(c));
            false
        },
        None => false,
    }
}


/// `в`, `во` and `на` govern the locative and the accusative and nothing
/// else: a word agrees with them exactly when its tag names one of those
/// two cases (`в работе`, `на работу`).
pub proof fn lemma_v_na_govern_loc_acc(p: Seq<char>, tags: Seq<char>)
    requires
        p == seq!['в'] || p == seq!['в', 'о'] || p == seq!['н', 'а'],
    ensures
        spec_compatible(p, tags) <==> (spec_case_of(tags) == Some(Case::Loc) || spec_case_of(tags)
            == Some(Case::Acc)),
{
    let g0 = preposition_group(0);
    if p == seq!['в'] {
        assert(g0[0] == p);
    } else if p == seq!['в', 'о'] {
        assert(g0[1] == p);
    } else {
        assert(g0[2] == p);
    }
    assert(g0.contains(p));
    assert(group_of(p, 0) == Some(0nat));
    let cs = spec_governed(p);
    assert(cs =~= seq![Case::Loc, Case::Acc]);
    assert(cs[0] == Case::Loc && cs[1] == Case::Acc);
    match spec_case_of(tags) {
        Some(c) => {
            if cs.contains(c) {
                let k = choose|k: int| 0 <= k < cs.len() && cs[k] == c;
            }
        },
        None => {},
    }
}


/// `о`, `об`, `обо` and `при` govern the locative alone: a word agrees
/// with them exactly when its tag names the locative (`о работе`).
pub proof fn lemma_o_pri_govern_loc(p: Seq<char>, tags: Seq<char>)
    requires
        p == seq!['о'] || p == seq!['о', 'б'] || p == seq!['о', 'б', 'о'] || p == seq!['п', 'р', 'и'],
    ensures
        spec_compatible(p, tags) <==> spec_case_of(tags) == Some(Case::Loc),
{
    let g1 = preposition_group(1);
    if p == seq!['о'] {
        assert(g1[0] == p);
    } else if p == seq!['о', 'б'] {
        assert(g1[1] == p);
    } else if p == seq!['о', 'б', 'о'] {
        assert(g1[2] == p);
    } else {
        assert(g1[3] == p);
    }
    let g0 = preposition_group(0);
    assert forall|k: int| 0 <= k < g0.len() implies g0[k] != p by {
        if k == 0 {
            assert(g0[0] =~= seq!['в']);
            if p.len() == 1 {
                assert(p[0] == 'о');
            }
        } else if k == 1 {
            assert(g0[1] =~= seq!['в', 'о']);
            if p.len() == 2 {
                assert(p[0] == 'о');
            }
        } else {
            assert(g0[2] =~= seq!['н', 'а']);
            if p.len() == 2 {
                assert(p[0] == 'о');
            }
        }
    }
    assert(!g0.contains(p));
    assert(g1.contains(p));
    assert(group_of(p, 1) == Some(1nat));
    assert(group_of(p, 0) == Some(1nat));
    let cs = spec_governed(p);
    assert(cs[0] == Case::Loc && cs.len() == 1);
    match spec_case_of(tags) {
        Some(c) => {
            if cs.contains(c) {
                let k = choose|k: int| 0 <= k < cs.len() && cs[k] == c;
            }
        },
        None => {},
    }
}

} // verus!
