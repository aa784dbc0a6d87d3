//! Build-time–generated declension paradigms for the hold-popup.
//!
//! The lexicon only carries the surface forms that appear in the frequency
//! source, so the lexicon's forms of a lemma are an incomplete,
//! frequency-ordered pile. This module loads the *complete* declension
//! generated offline so the "hold a suggestion to see its forms" UI can show
//! an ordered grid instead: case × number for nouns, and case × gender (in
//! the singular) for adjectives and adjectival pronouns.
//!
//! The shell passes the artifact in as a string. Parsing is **lenient** — a
//! malformed row is skipped, never fatal — because this is a display-only
//! enhancement, not the retrieval-critical lexicon.

use vstd::prelude::*;

use crate::alphabet::{normalize_chars, spec_normalize};
use crate::morph::Case;
use crate::strmap::{StrMap, lemma_key_index_push};
use crate::text::{
    chars_eq, chars_to_string, lines, lines_chars, split, split_chars, str_chars, trim_end,
    trim_end_chars,
};

verus! {

/// Grammatical number of a paradigm group.
#[derive(Debug, Clone, Copy, PartialEq, Eq, Structural)]
pub enum Number {
    Singular,
    Plural,
}

/// Grammatical gender of a paradigm group. Only the *singular* of an
/// adjective-shaped lexeme splits by gender; nouns carry lexical gender (so
/// a single group suffices) and the plural never distinguishes gender —
/// both leave this `None`.
#[derive(Debug, Clone, Copy, PartialEq, Eq, Structural)]
pub enum Gender {
    Masculine,
    Feminine,
    Neuter,
}

/// One filled declension cell: a case and the surface form filling it.
#[derive(Debug, Clone, PartialEq)]
pub struct CaseForm {
    pub case: Case,
    pub form: String,
}

impl View for CaseForm {
    type V = (Case, Seq<char>);

    open spec fn view(&self) -> (Case, Seq<char>) {
        (self.case, self.form@)
    }
}

/// A lemma's declension for one number (and, for adjectives, gender), in
/// canonical case order (nominative → genitive → dative → accusative →
/// instrumental → locative). Cases with no form (defective paradigms) are
/// omitted.
#[derive(Debug, Clone, PartialEq)]
pub struct ParadigmGroup {
    pub number: Number,
    /// Gender of an adjectival singular group; `None` for nouns and any
    /// plural (see [`Gender`]).
    pub gender: Option<Gender>,
    pub forms: Vec<CaseForm>,
}

/// Abstract paradigm group: number, gender and the filled cells.
pub type GroupView = (Number, Option<Gender>, Seq<(Case, Seq<char>)>);

pub open spec fn cell_views(s: Seq<CaseForm>) -> Seq<(Case, Seq<char>)> {
    s.map_values(|c: CaseForm| c@)
}

impl View for ParadigmGroup {
    type V = GroupView;

    open spec fn view(&self) -> GroupView {
        (self.number, self.gender, cell_views(self.forms@))
    }
}

pub open spec fn group_views(s: Seq<ParadigmGroup>) -> Seq<GroupView> {
    s.map_values(|g: ParadigmGroup| g@)
}

/// Sort rank putting the singular before the plural.
pub open spec fn spec_number_rank(number: Number) -> nat {
    match number {
        Number::Singular => 0,
        Number::Plural => 1,
    }
}

/// Sort rank ordering a singular's gendered groups masc → femn → neut, with
/// the genderless group (nouns) first.
pub open spec fn spec_gender_rank(gender: Option<Gender>) -> nat {
    match gender {
        None => 0,
        Some(Gender::Masculine) => 1,
        Some(Gender::Feminine) => 2,
        Some(Gender::Neuter) => 3,
    }
}

/// Combined sort key: number first, then gender.
pub open spec fn group_rank(g: GroupView) -> nat {
    spec_number_rank(g.0) * 4 + spec_gender_rank(g.1)
}

fn number_rank(number: Number) -> (r: u8)
    ensures
        r == spec_number_rank(number),
{
    match number {
        Number::Singular => 0,
        Number::Plural => 1,
    }
}

fn gender_rank(gender: Option<Gender>) -> (r: u8)
    ensures
        r == spec_gender_rank(gender),
{
    match gender {
        None => 0,
        Some(Gender::Masculine) => 1,
        Some(Gender::Feminine) => 2,
        Some(Gender::Neuter) => 3,
    }
}

fn rank_of(g: &ParadigmGroup) -> (r: u8)
    ensures
        r == group_rank(g@),
{
    number_rank(g.number) * 4 + gender_rank(g.gender)
}

/// Index of the first element of `s` whose rank exceeds `r` (or `s.len()`).
pub open spec fn first_above(s: Seq<GroupView>, r: nat) -> nat
    decreases s.len(),
{
    if s.len() == 0 {
        0
    } else if group_rank(s[0]) > r {
        0
    } else {
        1 + first_above(s.drop_first(), r)
    }
}

/// Stable insertion: `x` goes after every element ranked at most as high.
pub open spec fn insert_stable(s: Seq<GroupView>, x: GroupView) -> Seq<GroupView> {
    s.insert(first_above(s, group_rank(x)) as int, x)
}

/// Stable sort by rank (equal ranks keep their order).
pub open spec fn sort_stable(s: Seq<GroupView>) -> Seq<GroupView>
    decreases s.len(),
{
    if s.len() == 0 {
        s
    } else {
        insert_stable(sort_stable(s.drop_last()), s.last())
    }
}

proof fn lemma_first_above_bound(s: Seq<GroupView>, r: nat)
    ensures
        first_above(s, r) <= s.len(),
    decreases s.len(),
{
    if s.len() > 0 {
        lemma_first_above_bound(s.drop_first(), r);
    }
}

pub proof fn lemma_sort_stable_len(s: Seq<GroupView>)
    ensures
        sort_stable(s).len() == s.len(),
    decreases s.len(),
{
    if s.len() > 0 {
        lemma_sort_stable_len(s.drop_last());
        lemma_first_above_bound(sort_stable(s.drop_last()), group_rank(s.last()));
    }
}

/// Stable sort of groups by rank, by insertion.
fn sort_groups(groups: Vec<ParadigmGroup>) -> (r: Vec<ParadigmGroup>)
    ensures
        group_views(r@) == sort_stable(group_views(groups@)),
{
    let ghost all = group_views(groups@);
    let mut src = groups;
    let mut out: Vec<ParadigmGroup> = Vec::new();
    let ghost mut done: nat = 0;
    assert(all.take(0) =~= Seq::<GroupView>::empty());
    while src.len() > 0
        invariant
            done + src@.len() == all.len(),
            group_views(src@) == all.skip(done as int),
            group_views(out@) == sort_stable(all.take(done as int)),
        decreases src@.len(),
    {
        let ghost src_old = src@;
        let x = src.remove(0);
        proof {
            assert(group_views(src_old)[0] == all.skip(done as int)[0]);
            assert(x@ == all[done as int]);
        }
        let rx = rank_of(&x);
        let ghost sorted = group_views(out@);
        // position: first element ranked strictly above x
        let mut j: usize = 0;
        assert(sorted.skip(0) =~= sorted);
        while j < out.len() && rank_of(&out[j]) <= rx
            invariant
                j <= out@.len(),
                sorted == group_views(out@),
                sorted.len() == out@.len(),
                rx == group_rank(x@),
                first_above(sorted, group_rank(x@)) == j + first_above(
                    sorted.skip(j as int),
                    group_rank(x@),
                ),
            decreases out@.len() - j,
        {
            proof {
                let ss = sorted.skip(j as int);
                assert(ss[0] == sorted[j as int]);
                assert(sorted[j as int] == out@[j as int]@);
                assert(ss.drop_first() =~= sorted.skip(j + 1));
            }
            j = j + 1;
        }
        proof {
            if j < out@.len() {
                assert(sorted.skip(j as int)[0] == out@[j as int]@);
                assert(group_rank(sorted.skip(j as int)[0]) > group_rank(x@));
            } else {
                assert(sorted.skip(j as int) =~= Seq::<GroupView>::empty());
            }
        }
        out.insert(j, x);
        proof {
            assert(all.take((done + 1) as int).drop_last() =~= all.take(done as int));
            assert(all.take((done + 1) as int).last() == x@);
            assert(group_views(out@) =~= sorted.insert(j as int, x@));
            assert(src@ =~= src_old.subrange(1, src_old.len() as int));
            assert forall|k: int| 0 <= k < src@.len() implies group_views(src@)[k] == all.skip(
                (done + 1) as int,
            )[k] by {
                assert(group_views(src_old)[k + 1] == all.skip(done as int)[k + 1]);
            }
            assert(group_views(src@) =~= all.skip((done + 1) as int));
            done = done + 1;
        }
    }
    assert(all.take(done as int) =~= all);
    out
}

/// Column order of the artifact's pipe-joined forms field.
pub open spec fn case_order(i: nat) -> Case {
    if i == 0 {
        Case::Nom
    } else if i == 1 {
        Case::Gen
    } else if i == 2 {
        Case::Dat
    } else if i == 3 {
        Case::Acc
    } else if i == 4 {
        Case::Ins
    } else {
        Case::Loc
    }
}

fn case_order_exec(i: usize) -> (c: Case)
    ensures
        c == case_order(i as nat),
{
    if i == 0 {
        Case::Nom
    } else if i == 1 {
        Case::Gen
    } else if i == 2 {
        Case::Dat
    } else if i == 3 {
        Case::Acc
    } else if i == 4 {
        Case::Ins
    } else {
        Case::Loc
    }
}

/// The filled cells among the first `k` columns, in column order.
pub open spec fn filled_cells(cells: Seq<Seq<char>>, k: nat) -> Seq<(Case, Seq<char>)>
    decreases k,
{
    if k == 0 {
        Seq::empty()
    } else {
        let r = filled_cells(cells, (k - 1) as nat);
        if cells[k - 1].len() > 0 {
            r.push((case_order((k - 1) as nat), cells[k - 1]))
        } else {
            r
        }
    }
}

/// Parses a group key into `(number, gender)`. Accepts `sing`/`plur` and
/// the gendered singulars `sing.masc`/`sing.femn`/`sing.neut`.
pub open spec fn spec_parse_group(g: Seq<char>) -> Option<(Number, Option<Gender>)> {
    if g == seq!['s', 'i', 'n', 'g'] {
        Some((Number::Singular, None))
    } else if g == seq!['p', 'l', 'u', 'r'] {
        Some((Number::Plural, None))
    } else if g == seq!['s', 'i', 'n', 'g', '.', 'm', 'a', 's', 'c'] {
        Some((Number::Singular, Some(Gender::Masculine)))
    } else if g == seq!['s', 'i', 'n', 'g', '.', 'f', 'e', 'm', 'n'] {
        Some((Number::Singular, Some(Gender::Feminine)))
    } else if g == seq!['s', 'i', 'n', 'g', '.', 'n', 'e', 'u', 't'] {
        Some((Number::Singular, Some(Gender::Neuter)))
    } else {
        None
    }
}

fn is_word(g: &[char], w: Vec<char>) -> (r: bool)
    ensures
        r == (g@ == w@),
{
    chars_eq(g, w.as_slice())
}

fn parse_group(g: &[char]) -> (r: Option<(Number, Option<Gender>)>)
    ensures
        r == spec_parse_group(g@),
{
    if is_word(g, vec!['s', 'i', 'n', 'g']) {
        Some((Number::Singular, None))
    } else if is_word(g, vec!['p', 'l', 'u', 'r']) {
        Some((Number::Plural, None))
    } else if is_word(g, vec!['s', 'i', 'n', 'g', '.', 'm', 'a', 's', 'c']) {
        Some((Number::Singular, Some(Gender::Masculine)))
    } else if is_word(g, vec!['s', 'i', 'n', 'g', '.', 'f', 'e', 'm', 'n']) {
        Some((Number::Singular, Some(Gender::Feminine)))
    } else if is_word(g, vec!['s', 'i', 'n', 'g', '.', 'n', 'e', 'u', 't']) {
        Some((Number::Singular, Some(Gender::Neuter)))
    } else {
        None
    }
}

/// Lemma (normalized) → groups in file order, before sorting.
pub type ParadigmMap = Map<Seq<char>, Seq<GroupView>>;

/// Effect of one artifact line: `lemma<TAB>group<TAB>f1|…|f6`. Comment and
/// blank lines are skipped, and so is any malformed row.
pub open spec fn paradigm_step(m: ParadigmMap, raw: Seq<char>) -> ParadigmMap {
    let line = trim_end(raw);
    if line.len() == 0 || line[0] == '#' {
        m
    } else {
        let parts = split(line, '\t');
        if parts.len() != 3 {
            m
        } else {
            match spec_parse_group(parts[1]) {
                None => m,
                Some((number, gender)) => {
                    let cells = split(parts[2], '|');
                    if cells.len() != 6 {
                        m
                    } else {
                        let forms = filled_cells(cells, 6);
                        if forms.len() == 0 {
                            m
                        } else {
                            let key = spec_normalize(parts[0]);
                            let prev = if m.contains_key(key) {
                                m[key]
                            } else {
                                Seq::empty()
                            };
                            m.insert(key, prev.push((number, gender, forms)))
                        }
                    }
                },
            }
        }
    }
}

pub open spec fn paradigm_fold(ls: Seq<Seq<char>>, n: nat) -> ParadigmMap
    decreases n,
{
    if n == 0 {
        Map::empty()
    } else {
        paradigm_step(paradigm_fold(ls, (n - 1) as nat), ls[n - 1])
    }
}

/// What `from_tsv_str` computes: each lemma's groups in canonical order
/// (singular before plural; within the singular masc → femn → neut, the
/// genderless group first), rows of equal rank in file order.
pub open spec fn spec_parse_paradigms(tsv: Seq<char>) -> ParadigmMap {
    let m = paradigm_fold(lines(tsv), lines(tsv).len());
    Map::new(|k: Seq<char>| m.contains_key(k), |k: Seq<char>| sort_stable(m[k]))
}

/// Concatenation of the groups' cells.
pub open spec fn all_cells(gs: Seq<GroupView>) -> Seq<Seq<char>>
    decreases gs.len(),
{
    if gs.len() == 0 {
        Seq::empty()
    } else {
        all_cells(gs.drop_last()) + gs.last().2.map_values(|c: (Case, Seq<char>)| c.1)
    }
}

/// First occurrences only, in order.
pub open spec fn dedup_first(s: Seq<Seq<char>>) -> Seq<Seq<char>>
    decreases s.len(),
{
    if s.len() == 0 {
        s
    } else {
        let d = dedup_first(s.drop_last());
        if d.contains(s.last()) {
            d
        } else {
            d.push(s.last())
        }
    }
}

/// Lemma → declension groups (singular first). Keyed by normalized lemma.
pub struct Paradigms {
    by_lemma: StrMap<Vec<ParadigmGroup>>,
}

pub open spec fn paradigm_view(m: StrMap<Vec<ParadigmGroup>>) -> ParadigmMap {
    Map::new(|k: Seq<char>| m.contains(k), |k: Seq<char>| group_views(m.value(k)@))
}

impl Paradigms {
    pub closed spec fn wf(&self) -> bool {
        self.by_lemma.wf()
    }

    /// Normalized lemma → its groups, in canonical order.
    pub closed spec fn view(&self) -> ParadigmMap {
        paradigm_view(self.by_lemma)
    }

    /// Number of lemmas with a paradigm.
    pub closed spec fn spec_len(&self) -> nat {
        self.by_lemma.size()
    }

    /// No paradigms.
    pub fn new() -> (p: Self)
        ensures
            p.wf(),
            p.view() == ParadigmMap::empty(),
    {
        let p = Paradigms { by_lemma: StrMap::new() };
        assert(p.view() =~= ParadigmMap::empty());
        p
    }

    fn add(m: &mut StrMap<Vec<ParadigmGroup>>, key: Vec<char>, g: ParadigmGroup)
        requires
            old(m).wf(),
        ensures
            final(m).wf(),
            paradigm_view(*final(m)) == paradigm_view(*old(m)).insert(
                key@,
                (if paradigm_view(*old(m)).contains_key(key@) {
                    paradigm_view(*old(m))[key@]
                } else {
                    Seq::empty()
                }).push(g@),
            ),
    {
        let ghost old_map = *m;
        let ghost gv = g@;
        proof {
            m.lemma_wf();
        }
        match m.find(key.as_slice()) {
            Some(i) => {
                let mut v = m.replace_at(i, Vec::new());
                v.push(g);
                m.replace_at(i, v);
                proof {
                    m.lemma_wf();
                    assert(group_views(v@) =~= group_views(old_map.value(key@)@).push(gv));
                    assert(paradigm_view(*m) =~= paradigm_view(old_map).insert(
                        key@,
                        group_views(old_map.value(key@)@).push(gv),
                    ));
                }
            },
            None => {
                let ghost kv = key@;
                let mut v: Vec<ParadigmGroup> = Vec::new();
                v.push(g);
                m.push(key, v);
                proof {
                    m.lemma_wf();
                    assert forall|k: Seq<char>| #[trigger]
                        m.index_of(k) == (match old_map.index_of(k) {
                            Some(i) => Some(i),
                            None => if kv == k {
                                Some(old_map.size() as int)
                            } else {
                                None
                            },
                        }) by {
                        lemma_key_index_push(old_map.keys_view(), m.keys_view().last(), k);
                        assert(old_map.keys_view().push(m.keys_view().last()) == m.keys_view());
                    }
                    assert(group_views(v@) =~= Seq::<GroupView>::empty().push(gv));
                    assert(paradigm_view(*m) =~= paradigm_view(old_map).insert(
                        kv,
                        Seq::<GroupView>::empty().push(gv),
                    ));
                }
            },
        }
    }

    /// Parses one row into `(normalized lemma, group)`, or `None` for a row
    /// the lenient parser skips.
    fn parse_row(raw: &[char]) -> (r: Option<(Vec<char>, ParadigmGroup)>)
        ensures
            ({
                let m0 = ParadigmMap::empty();
                match r {
                    Some((k, g)) => paradigm_step(m0, raw@) == m0.insert(
                        k@,
                        Seq::<GroupView>::empty().push(g@),
                    ) && forall|m: ParadigmMap| #[trigger]
                        paradigm_step(m, raw@) == m.insert(
                            k@,
                            (if m.contains_key(k@) {
                                m[k@]
                            } else {
                                Seq::empty()
                            }).push(g@),
                        ),
                    None => forall|m: ParadigmMap| #[trigger] paradigm_step(m, raw@) == m,
                }
            }),
    {
        let line = trim_end_chars(raw);
        if line.len() == 0 || line[0] == '#' {
            return None;
        }
        let parts = split_chars(line.as_slice(), '\t');
        if parts.len() != 3 {
            return None;
        }
        let (number, gender) = match parse_group(parts[1].as_slice()) {
            Some(p) => p,
            None => {
                return None;
            },
        };
        let cells = split_chars(parts[2].as_slice(), '|');
        if cells.len() != 6 {
            return None;
        }
        let ghost sc = split(split(trim_end(raw@), '\t')[2], '|');
        let mut forms: Vec<CaseForm> = Vec::new();
        let mut k: usize = 0;
        while k < 6
            invariant
                cells@.len() == 6,
                sc.len() == 6,
                forall|q: int| 0 <= q < 6 ==> #[trigger] cells@[q]@ == sc[q],
                k <= 6,
                cell_views(forms@) == filled_cells(sc, k as nat),
            decreases 6 - k,
        {
            if cells[k].len() > 0 {
                let f = CaseForm {
                    case: case_order_exec(k),
                    form: chars_to_string(cells[k].as_slice()),
                };
                forms.push(f);
                assert(cell_views(forms@) =~= filled_cells(sc, (k + 1) as nat));
            } else {
                assert(cell_views(forms@) =~= filled_cells(sc, (k + 1) as nat));
            }
            k = k + 1;
        }
        if forms.len() == 0 {
            return None;
        }
        let key = normalize_chars(parts[0].as_slice());
        Some((key, ParadigmGroup { number, gender, forms }))
    }

    /// Parses the hold-groups TSV: `lemma<TAB>group<TAB>f1|f2|...|f6`, where
    /// `group` is a group key (`sing`/`plur`, or `sing.masc`/`sing.femn`/
    /// `sing.neut` for an adjective's gendered singular) and the six
    /// pipe-separated forms are in case order (an empty slot = no such form).
    /// Comment (`#`) and blank lines are skipped, as is any malformed row
    /// (lenient by design).
    pub fn from_tsv_str(tsv: &str) -> (r: Self)
        ensures
            r.wf(),
            r.view() == spec_parse_paradigms(tsv@),
    {
        let t = str_chars(tsv);
        let ls = lines_chars(t.as_slice());
        let ghost sl = lines(tsv@);
        let mut m: StrMap<Vec<ParadigmGroup>> = StrMap::new();
        assert(paradigm_view(m) =~= ParadigmMap::empty());
        let mut i: usize = 0;
        while i < ls.len()
            invariant
                t@ == tsv@,
                sl == lines(tsv@),
                ls@.len() == sl.len(),
                forall|k: int| 0 <= k < ls@.len() ==> #[trigger] ls@[k]@ == sl[k],
                i <= ls@.len(),
                m.wf(),
                paradigm_fold(sl, i as nat) == paradigm_view(m),
            decreases ls@.len() - i,
        {
            assert(ls@[i as int]@ == sl[i as int]);
            match Self::parse_row(ls[i].as_slice()) {
                Some((k, g)) => {
                    let ghost before = paradigm_view(m);
                    Self::add(&mut m, k, g);
                    assert(paradigm_step(before, sl[i as int]) == paradigm_view(m));
                },
                None => {
                    assert(paradigm_step(paradigm_view(m), sl[i as int]) == paradigm_view(m));
                },
            }
            i = i + 1;
        }
        // Canonical order, regardless of file order.
        let ghost unsorted = paradigm_view(m);
        let mut j: usize = 0;
        proof {
            m.lemma_wf();
        }
        while j < m.len()
            invariant
                m.wf(),
                j <= m.size(),
                forall|k: Seq<char>| #[trigger] m.contains(k) == unsorted.contains_key(k),
                forall|q: int|
                    0 <= q < j ==> #[trigger] group_views(m.vals_view()[q]@) == sort_stable(
                        unsorted[m.keys_view()[q]@],
                    ),
                forall|q: int|
                    j <= q < m.size() ==> #[trigger] group_views(m.vals_view()[q]@)
                        == unsorted[m.keys_view()[q]@],
            decreases m.size() - j,
        {
            proof {
                m.lemma_wf();
            }
            let ghost m0 = m;
            let v = m.replace_at(j, Vec::new());
            let sorted = sort_groups(v);
            m.replace_at(j, sorted);
            proof {
                assert(m.keys_view() == m0.keys_view());
                assert forall|k: Seq<char>| #[trigger] m.contains(k) == unsorted.contains_key(k) by {
                    assert(m.index_of(k) == m0.index_of(k));
                    assert(m0.contains(k) == unsorted.contains_key(k));
                }
            }
            j = j + 1;
        }
        let r = Paradigms { by_lemma: m };
        proof {
            m.lemma_wf();
            assert forall|k: Seq<char>| #[trigger] paradigm_view(m).contains_key(k) implies
                paradigm_view(m)[k] == sort_stable(unsorted[k]) by {
                let q = m.index_of(k)->0;
                assert(m.keys_view()[q]@ == k);
            }
            assert(r.view() =~= spec_parse_paradigms(tsv@));
        }
        r
    }

    /// Declension groups for `lemma` (normalized internally), or `None` when
    /// the lemma has no paradigm (e.g. a verb/adverb, or absent from the
    /// artifact).
    pub fn get(&self, lemma: &str) -> (r: Option<&[ParadigmGroup]>)
        requires
            self.wf(),
        ensures
            r matches Some(s) ==> self.view().contains_key(spec_normalize(lemma@))
                && group_views(s@) == self.view()[spec_normalize(lemma@)],
            r is None ==> !self.view().contains_key(spec_normalize(lemma@)),
    {
        let l = str_chars(lemma);
        let k = normalize_chars(l.as_slice());
        proof {
            self.by_lemma.lemma_wf();
        }
        match self.by_lemma.find(k.as_slice()) {
            Some(i) => Some(self.by_lemma.value_at(i).as_slice()),
            None => None,
        }
    }

    /// Flattened forms in canonical order (singular cases, then plural),
    /// de-duplicated keeping first occurrence — the ordered replacement for
    /// the frequency-sorted lexicon pile in the hold UI.
    pub fn forms(&self, lemma: &str) -> (r: Option<Vec<String>>)
        requires
            self.wf(),
        ensures
            r matches Some(v) ==> self.view().contains_key(spec_normalize(lemma@)) && v@.map_values(
                |s: String| s@,
            ) == dedup_first(all_cells(self.view()[spec_normalize(lemma@)])),
            r is None ==> !self.view().contains_key(spec_normalize(lemma@)),
    {
        let groups = match self.get(lemma) {
            Some(g) => g,
            None => {
                return None;
            },
        };
        let ghost gv = group_views(groups@);
        let mut out: Vec<String> = Vec::new();
        let mut seen: Vec<Vec<char>> = Vec::new();
        let mut gi: usize = 0;
        assert(gv.take(0) =~= Seq::<GroupView>::empty());
        while gi < groups.len()
            invariant
                gv == group_views(groups@),
                gi <= groups@.len(),
                out@.len() == seen@.len(),
                forall|q: int| 0 <= q < out@.len() ==> #[trigger] out@[q]@ == seen@[q]@,
                seen@.map_values(|s: Vec<char>| s@) == dedup_first(all_cells(gv.take(gi as int))),
            decreases groups@.len() - gi,
        {
            let g = &groups[gi];
            let ghost before = all_cells(gv.take(gi as int));
            let ghost cells = gv[gi as int].2.map_values(|c: (Case, Seq<char>)| c.1);
            assert(gv.take(gi + 1).drop_last() =~= gv.take(gi as int));
            assert(all_cells(gv.take(gi + 1)) == before + cells);
            let mut ci: usize = 0;
            assert(before + cells.take(0) =~= before);
            while ci < g.forms.len()
                invariant
                    gv == group_views(groups@),
                    gi < groups@.len(),
                    *g == groups@[gi as int],
                    cells == gv[gi as int].2.map_values(|c: (Case, Seq<char>)| c.1),
                    cells.len() == g.forms@.len(),
                    ci <= g.forms@.len(),
                    out@.len() == seen@.len(),
                    forall|q: int| 0 <= q < out@.len() ==> #[trigger] out@[q]@ == seen@[q]@,
                    seen@.map_values(|s: Vec<char>| s@) == dedup_first(
                        before + cells.take(ci as int),
                    ),
                decreases g.forms@.len() - ci,
            {
                let f = str_chars(g.forms[ci].form.as_str());
                assert(f@ == cells[ci as int]);
                let ghost prefix = before + cells.take(ci as int);
                assert((before + cells.take(ci + 1)).drop_last() =~= prefix);
                assert((before + cells.take(ci + 1)).last() == f@);
                let mut found = false;
                let mut q: usize = 0;
                while q < seen.len()
                    invariant
                        q <= seen@.len(),
                        !found ==> forall|p: int| 0 <= p < q ==> seen@[p]@ != f@,
                        found ==> exists|p: int| 0 <= p < seen@.len() && seen@[p]@ == f@,
                    decreases seen@.len() - q,
                {
                    if chars_eq(seen[q].as_slice(), f.as_slice()) {
                        found = true;
                    }
                    q = q + 1;
                }
                let ghost sv = seen@.map_values(|s: Vec<char>| s@);
                if found {
                    proof {
                        let p = choose|p: int| 0 <= p < seen@.len() && seen@[p]@ == f@;
                        assert(sv[p] == f@);
                        assert(dedup_first(prefix).contains(f@));
                    }
                } else {
                    proof {
                        assert(!sv.contains(f@)) by {
                            if sv.contains(f@) {
                                let p = choose|p: int| 0 <= p < sv.len() && sv[p] == f@;
                                assert(seen@[p]@ == f@);
                            }
                        }
                    }
                    out.push(chars_to_string(f.as_slice()));
                    seen.push(f);
                    assert(seen@.map_values(|s: Vec<char>| s@) =~= sv.push(f@));
                }
                ci = ci + 1;
            }
            assert(cells.take(g.forms@.len() as int) =~= cells);
            gi = gi + 1;
        }
        assert(gv.take(groups@.len() as int) =~= gv);
        proof {
            assert(out@.map_values(|s: String| s@) =~= seen@.map_values(|s: Vec<char>| s@));
        }
        Some(out)
    }

    pub fn is_empty(&self) -> (r: bool)
        requires
            self.wf(),
        ensures
            r == (self.view().dom() == Set::<Seq<char>>::empty()),
    {
        proof {
            self.by_lemma.lemma_wf();
            if self.by_lemma.size() > 0 {
                let k = self.by_lemma.keys_view()[0]@;
                assert(self.view().dom().contains(k));
            } else {
                assert(self.view().dom() =~= Set::<Seq<char>>::empty());
            }
        }
        self.by_lemma.len() == 0
    }

    /// Number of lemmas with a paradigm.
    pub fn len(&self) -> (r: usize)
        requires
            self.wf(),
        ensures
            r == self.spec_len(),
            r == self.view().dom().len(),
    {
        proof {
            self.by_lemma.lemma_wf();
            lemma_dom_len(self.by_lemma);
        }
        self.by_lemma.len()
    }
}

/// The keys of a well-formed map, as a set, have as many elements as the map
/// holds keys.
proof fn lemma_dom_len(m: StrMap<Vec<ParadigmGroup>>)
    requires
        m.wf(),
    ensures
        paradigm_view(m).dom().len() == m.size(),
{
    m.lemma_wf();
    let ks = m.keys_view().map_values(|k: Vec<char>| k@);
    assert forall|a: int, b: int| 0 <= a < b < ks.len() implies ks[a] != ks[b] by {}
    ks.unique_seq_to_set();
    assert(paradigm_view(m).dom() =~= ks.to_set()) by {
        assert forall|k: Seq<char>| paradigm_view(m).dom().contains(k) implies ks.to_set().contains(
            k,
        ) by {
            let q = m.index_of(k)->0;
            assert(ks[q] == k);
        }
        assert forall|k: Seq<char>| ks.to_set().contains(k) implies paradigm_view(
            m,
        ).dom().contains(k) by {
            let q = choose|q: int| 0 <= q < ks.len() && ks[q] == k;
            assert(m.index_of(m.keys_view()[q]@) == Some(q));
        }
    }
}


impl Default for Paradigms {
    fn default() -> (r: Self)
        ensures
            r.wf(),
            r.view() == ParadigmMap::empty(),
    {
        Self::new()
    }
}

/// Keeping first occurrences lists every element once and loses none: the
/// hold list of a lemma shows each of its paradigm's forms exactly once.
pub proof fn lemma_dedup_first(s: Seq<Seq<char>>)
    ensures
        dedup_first(s).no_duplicates(),
        forall|x: Seq<char>| #[trigger] dedup_first(s).contains(x) <==> s.contains(x),
    decreases s.len(),
{
    if s.len() > 0 {
        let d = dedup_first(s.drop_last());
        lemma_dedup_first(s.drop_last());
        assert forall|x: Seq<char>| #[trigger] dedup_first(s).contains(x) <==> s.contains(x) by {
            if s.contains(x) && x != s.last() {
                let i = choose|i: int| 0 <= i < s.len() && s[i] == x;
                assert(s[s.len() - 1] == s.last());
                assert(i != s.len() - 1);
                assert(s.drop_last()[i] == x);
                assert(s.drop_last().contains(x));
                assert(d.contains(x));
                let k = choose|k: int| 0 <= k < d.len() && d[k] == x;
                if !d.contains(s.last()) {
                    assert(d.push(s.last())[k] == d[k]);
                }
                assert(dedup_first(s)[k] == x);
            }
            if s.contains(x) && x == s.last() {
                if d.contains(x) {
                } else {
                    assert(dedup_first(s)[d.len() as int] == x);
                }
            }
            if dedup_first(s).contains(x) {
                let k = choose|k: int| 0 <= k < dedup_first(s).len() && dedup_first(s)[k] == x;
                if k < d.len() {
                    assert(d[k] == x);
                    assert(d.contains(x));
                    let i = choose|i: int| 0 <= i < s.drop_last().len() && s.drop_last()[i] == x;
                    assert(s[i] == x);
                } else {
                    assert(s[s.len() - 1] == x);
                }
            }
        }
        if !d.contains(s.last()) {
            assert forall|a: int, b: int| 0 <= a < b < d.push(s.last()).len() implies d.push(s.last())[a]
                != d.push(s.last())[b] by {
                if b == d.len() {
                    if d[a] == s.last() {
                        assert(d.contains(s.last()));
                    }
                }
            }
        }
    }
}

proof fn lemma_first_above(s: Seq<GroupView>, r: nat)
    ensures
        first_above(s, r) <= s.len(),
        forall|i: int| 0 <= i < first_above(s, r) ==> group_rank(#[trigger] s[i]) <= r,
        first_above(s, r) < s.len() ==> group_rank(s[first_above(s, r) as int]) > r,
    decreases s.len(),
{
    if s.len() > 0 && group_rank(s[0]) <= r {
        lemma_first_above(s.drop_first(), r);
        assert forall|i: int| 0 <= i < first_above(s, r) implies group_rank(#[trigger] s[i]) <= r by {
            if i > 0 {
                assert(s[i] == s.drop_first()[i - 1]);
            }
        }
    }
}

/// Groups come out in rank order: singular before plural, and within a
/// number the genderless group, then masculine, feminine, neuter. The
/// sort keeps every group: it rearranges them.
pub proof fn lemma_sort_stable_ordered(s: Seq<GroupView>)
    ensures
        forall|i: int, j: int|
            0 <= i < j < sort_stable(s).len() ==> group_rank(#[trigger] sort_stable(s)[i]) <= group_rank(
                #[trigger] sort_stable(s)[j],
            ),
        sort_stable(s).to_multiset() == s.to_multiset(),
    decreases s.len(),
{
    broadcast use vstd::seq_lib::group_to_multiset_ensures;

    if s.len() > 0 {
        let t = sort_stable(s.drop_last());
        let x = s.last();
        lemma_sort_stable_ordered(s.drop_last());
        lemma_first_above(t, group_rank(x));
        let p = first_above(t, group_rank(x)) as int;
        let u = t.insert(p, x);
        assert(u == sort_stable(s));
        assert forall|i: int, j: int| 0 <= i < j < u.len() implies group_rank(#[trigger] u[i]) <= group_rank(
            #[trigger] u[j],
        ) by {
            if j < p {
                assert(u[i] == t[i] && u[j] == t[j]);
            } else if j == p {
                assert(u[i] == t[i]);
            } else if i < p {
                assert(u[i] == t[i] && u[j] == t[j - 1]);
            } else if i == p {
                assert(u[j] == t[j - 1]);
                assert(group_rank(t[p]) > group_rank(x));
                if j - 1 > p {
                    assert(group_rank(t[p]) <= group_rank(t[j - 1]));
                }
            } else {
                assert(u[i] == t[i - 1] && u[j] == t[j - 1]);
            }
        }
        vstd::seq_lib::to_multiset_insert(t, p, x);
        assert(s =~= s.drop_last().push(x));
    }
}

} // verus!
