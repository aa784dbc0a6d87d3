//! Assembly of the suggestion strip: conventional shortcuts first, then
//! ranked candidates, deduplicated by normalized surface form (or, for the
//! grouped strip, by normalized lemma), capped at the limit, with masked
//! twins offered next to censored words when masking is on.
//!
//! Scores stay with the caller: a candidate refers to its score by a slot
//! (`None` for a shortcut, which always outranks the lexicon), and a masked
//! twin shares the slot of the word it masks.

use vstd::prelude::*;

use crate::alphabet::{known_lower, to_lower, normalize_chars, spec_normalize};
use crate::mask::{lemma_mask_hides_a_letter, Masker, spec_mask_form};
use crate::shortcuts::{Expansion, Shortcuts, expansion_views};
use crate::text::{chars_eq, chars_to_string, str_chars, trim, trim_chars};
use crate::tone::Register;

verus! {

/// One strip entry: surface form, lemma, and the slot of its score.
#[derive(Debug, Clone, PartialEq, Eq)]
pub struct Candidate {
    pub form: String,
    pub lemma: String,
    pub slot: Option<usize>,
}

/// Abstract candidate: form, lemma, score slot.
pub type CandView = (Seq<char>, Seq<char>, Option<usize>);

impl Candidate {
    pub open spec fn view(&self) -> CandView {
        (self.form@, self.lemma@, self.slot)
    }
}

pub open spec fn cand_views(s: Seq<Candidate>) -> Seq<CandView> {
    s.map_values(|c: Candidate| c.view())
}

/// Whether masking should emit twins: enabled, a non-empty censor list,
/// and — when tone-gated — a polite window. With no tone markers loaded
/// there is nothing to gate on, so masking stays on.
pub open spec fn spec_masking_active(
    mask: bool,
    mask_when_polite: bool,
    censor_empty: bool,
    tone_empty: bool,
    register: Register,
) -> bool {
    mask && !censor_empty && (!mask_when_polite || tone_empty || register == Register::Polite)
}

pub fn masking_active(
    mask: bool,
    mask_when_polite: bool,
    masker: &Masker,
    tone_empty: bool,
    register: Register,
) -> (r: bool)
    requires
        masker.wf(),
    ensures
        r == spec_masking_active(
            mask,
            mask_when_polite,
            masker.view() == Set::<Seq<char>>::empty(),
            tone_empty,
            register,
        ),
{
    if !mask || masker.is_empty() {
        return false;
    }
    !mask_when_polite || tone_empty || register == Register::Polite
}

/// The first `limit` entries of `s`.
pub open spec fn truncated<A>(s: Seq<A>, limit: nat) -> Seq<A> {
    if limit < s.len() {
        s.take(limit as int)
    } else {
        s
    }
}

/// The masked spelling offered next to `c`, if its lemma is censored and
/// its form long enough to mask.
pub open spec fn twin_of(censored: Set<Seq<char>>, c: CandView) -> Option<Seq<char>> {
    if censored.contains(spec_normalize(c.1)) {
        spec_mask_form(c.0)
    } else {
        None
    }
}

/// The strip after the first `n` items with twins inserted, and the
/// normalized forms shown so far. A twin is its own lemma and shares its
/// word's score slot; a twin whose normalized spelling is already shown is
/// dropped.
pub open spec fn twin_fold(items: Seq<CandView>, censored: Set<Seq<char>>, n: nat) -> (
    Seq<CandView>,
    Set<Seq<char>>,
)
    decreases n,
{
    if n == 0 {
        (Seq::empty(), Set::empty())
    } else {
        let (o, seen) = twin_fold(items, censored, (n - 1) as nat);
        let it = items[n - 1];
        let seen1 = seen.insert(spec_normalize(it.0));
        let o1 = o.push(it);
        match twin_of(censored, it) {
            Some(f) => if seen1.contains(spec_normalize(f)) {
                (o1, seen1)
            } else {
                (o1.push((f, f, it.2)), seen1.insert(spec_normalize(f)))
            },
            None => (o1, seen1),
        }
    }
}

/// The final strip: twins inserted when masking is active, then capped.
pub open spec fn spec_mask_strip(
    items: Seq<CandView>,
    limit: nat,
    active: bool,
    censored: Set<Seq<char>>,
) -> Seq<CandView> {
    if !active {
        truncated(items, limit)
    } else {
        truncated(twin_fold(items, censored, items.len()).0, limit)
    }
}

/// The set of a sequence grown by one element.
pub proof fn lemma_to_set_push<A>(s: Seq<A>, x: A)
    ensures
        s.push(x).to_set() == s.to_set().insert(x),
{
    assert forall|a: A| #[trigger] s.push(x).to_set().contains(a) == s.to_set().insert(x).contains(a) by {
        if s.push(x).contains(a) {
            let i = choose|i: int| 0 <= i < s.push(x).len() && s.push(x)[i] == a;
            if i < s.len() {
                assert(s[i] == a);
                assert(s.contains(a));
            }
        }
        if s.contains(a) {
            let i = choose|i: int| 0 <= i < s.len() && s[i] == a;
            assert(s.push(x)[i] == a);
        }
        if a == x {
            assert(s.push(x)[s.len() as int] == x);
        }
    }
    assert(s.push(x).to_set() =~= s.to_set().insert(x));
}

/// Whether `k` is among the first `n` entries of `seen`.
fn seen_contains(seen: &Vec<Vec<char>>, k: &[char]) -> (r: bool)
    ensures
        r == seen@.map_values(|v: Vec<char>| v@).contains(k@),
{
    let ghost sv = seen@.map_values(|v: Vec<char>| v@);
    let mut i: usize = 0;
    while i < seen.len()
        invariant
            sv == seen@.map_values(|v: Vec<char>| v@),
            i <= seen@.len(),
            forall|j: int| 0 <= j < i ==> sv[j] != k@,
        decreases seen@.len() - i,
    {
        if chars_eq(seen[i].as_slice(), k) {
            assert(sv[i as int] == k@);
            return true;
        }
        i = i + 1;
    }
    false
}

fn normalized(s: &String) -> (r: Vec<char>)
    ensures
        r@ == spec_normalize(s@),
        forall|i: int|
            0 <= i < s@.len() && known_lower(#[trigger] s@[i]) is Some ==> to_lower(s@[i])
                == known_lower(s@[i])->0,
{
    let c = str_chars(s.as_str());
    normalize_chars(c.as_slice())
}

fn copy_string(s: &String) -> (r: String)
    ensures
        r@ == s@,
{
    let c = str_chars(s.as_str());
    chars_to_string(c.as_slice())
}

fn truncate_vec<A>(v: Vec<A>, limit: usize) -> (r: Vec<A>)
    ensures
        r@ == truncated(v@, limit as nat),
{
    let mut v = v;
    let ghost all = v@;
    v.truncate(limit);
    assert(v@ =~= truncated(all, limit as nat));
    v
}

/// Inserts a masked twin right after every candidate whose lemma is
/// censored (when masking is active), then caps the strip at `limit`.
/// The original stays in place — masking offers, never substitutes.
pub fn mask_strip(items: Vec<Candidate>, limit: usize, active: bool, masker: &Masker) -> (r: Vec<
    Candidate,
>)
    requires
        masker.wf(),
    ensures
        cand_views(r@) == spec_mask_strip(cand_views(items@), limit as nat, active, masker.view()),
        plain_strip(cand_views(items@)) ==> distinct_forms(cand_views(r@)),
{
    if !active {
        let r = truncate_vec(items, limit);
        proof {
            assert(cand_views(r@) =~= truncated(cand_views(items@), limit as nat));
            if plain_strip(cand_views(items@)) {
                lemma_truncated_distinct(cand_views(items@), limit as nat);
            }
        }
        return r;
    }
    let ghost iv = cand_views(items@);
    let ghost censored = masker.view();
    let mut out: Vec<Candidate> = Vec::new();
    let mut seen: Vec<Vec<char>> = Vec::new();
    let mut i: usize = 0;
    while i < items.len()
        invariant
            iv == cand_views(items@),
            censored == masker.view(),
            masker.wf(),
            i <= items@.len(),
            cand_views(out@) == twin_fold(iv, censored, i as nat).0,
            seen@.map_values(|v: Vec<char>| v@).to_set() == twin_fold(iv, censored, i as nat).1,
            seen@.map_values(|v: Vec<char>| v@).to_set() == forms_shown(cand_views(out@)),
            plain_strip(iv) ==> distinct_forms(cand_views(out@)),
            plain_strip(iv) ==> forall|k: int|
                0 <= k < out@.len() ==> shown_before(iv, i as int, #[trigger] cand_views(out@)[k]),
        decreases items@.len() - i,
    {
        let s = &items[i];
        assert(s.view() == iv[i as int]);
        let ghost sv0 = seen@.map_values(|v: Vec<char>| v@);
        let ghost o0 = cand_views(out@);
        let twin = if masker.is_masked_lemma(s.lemma.as_str()) {
            Masker::mask_form(s.form.as_str())
        } else {
            None
        };
        let nf = normalized(&s.form);
        seen.push(nf);
        let ghost sv1 = seen@.map_values(|v: Vec<char>| v@);
        assert(sv1 =~= sv0.push(spec_normalize(s.form@)));
        proof {
            lemma_to_set_push(sv0, spec_normalize(s.form@));
        }
        out.push(s.clone_candidate());
        assert(cand_views(out@) =~= o0.push(iv[i as int]));
        proof {
            lemma_forms_shown_push(o0, iv[i as int]);
            if plain_strip(iv) {
                lemma_forms_shown(o0, spec_normalize(iv[i as int].0));
                if forms_shown(o0).contains(spec_normalize(iv[i as int].0)) {
                    let k = choose|k: int| 0 <= k < o0.len() && spec_normalize(#[trigger] o0[k].0) == spec_normalize(iv[i as int].0);
                    assert(shown_before(iv, i as int, o0[k]));
                    if spec_normalize(o0[k].0).contains('@') {
                        assert(!spec_normalize(iv[i as int].0).contains('@'));
                    } else {
                        let j = choose|j: int| 0 <= j < i && spec_normalize(#[trigger] iv[j].0) == spec_normalize(o0[k].0);
                        assert(spec_normalize(iv[j].0) != spec_normalize(iv[i as int].0));
                    }
                }
                lemma_push_distinct_forms(o0, iv[i as int]);
                let o = cand_views(out@);
                assert forall|k: int| 0 <= k < out@.len() implies shown_before(iv, i + 1, #[trigger] cand_views(out@)[k]) by {
                    if k < o0.len() {
                        assert(o[k] == o0[k]);
                        assert(shown_before(iv, i as int, o0[k]));
                    } else {
                        assert(o[k] == iv[i as int]);
                    }
                }
            }
        }
        match twin {
            Some(form) => {
                let nt = normalized(&form);
                proof {
                    lemma_mask_hides_a_letter(s.form@);
                    let p = choose|p: int| 0 <= p < form@.len() && form@[p] == '@';
                    assert(known_lower(form@[p]) == Some('@'));
                    assert(nt@[p] == '@');
                    assert(nt@.contains('@'));
                }
                if !seen_contains(&seen, nt.as_slice()) {
                    let ghost o1 = cand_views(out@);
                    seen.push(nt);
                    proof {
                        lemma_to_set_push(sv1, spec_normalize(form@));
                        assert(seen@.map_values(|v: Vec<char>| v@) =~= sv1.push(spec_normalize(form@)));
                    }
                    let t = Candidate { form: copy_string(&form), lemma: form, slot: s.slot };
                    out.push(t);
                    assert(cand_views(out@) =~= o1.push((form@, form@, s.slot)));
                    proof {
                        let tw = (form@, form@, s.slot);
                        lemma_forms_shown_push(o1, tw);
                        if plain_strip(iv) {
                            lemma_push_distinct_forms(o1, tw);
                            let o = cand_views(out@);
                            assert forall|k: int| 0 <= k < out@.len() implies shown_before(iv, i + 1, #[trigger] cand_views(out@)[k]) by {
                                if k < o1.len() {
                                    assert(o[k] == o1[k]);
                                } else {
                                    assert(o[k] == tw);
                                }
                            }
                        }
                    }
                } else {
                    proof {
                        assert(sv1.to_set().contains(spec_normalize(form@)));
                    }
                }
            },
            None => {},
        }
        i = i + 1;
    }
    let r = truncate_vec(out, limit);
    proof {
        assert(cand_views(r@) =~= truncated(twin_fold(iv, censored, iv.len()).0, limit as nat));
        if plain_strip(iv) {
            lemma_truncated_distinct(cand_views(out@), limit as nat);
        }
    }
    r
}

/// A strip the masking can keep distinct: no two entries share a normalized
/// form, and no normalized form holds the mask symbol `@` that every masked
/// twin carries.
pub open spec fn plain_strip(s: Seq<CandView>) -> bool {
    &&& distinct_forms(s)
    &&& forall|i: int| 0 <= i < s.len() ==> !spec_normalize(#[trigger] s[i].0).contains('@')
}

/// No two groups share a normalized lemma.
pub open spec fn distinct_group_lemmas(s: Seq<GroupCandView>) -> bool {
    forall|i: int, j: int|
        0 <= i < j < s.len() ==> spec_normalize(#[trigger] s[i].0) != spec_normalize(#[trigger] s[j].0)
}

/// Groups the masking can keep distinct: one per normalized lemma, and no
/// normalized lemma holds the mask symbol `@` that every masked twin
/// carries.
pub open spec fn plain_groups(s: Seq<GroupCandView>) -> bool {
    &&& distinct_group_lemmas(s)
    &&& forall|i: int| 0 <= i < s.len() ==> !spec_normalize(#[trigger] s[i].0).contains('@')
}

/// A group of the masked grouped strip, after the first `i` groups: its
/// normalized lemma is one of those groups' or a twin's spelling in `twins`.
pub open spec fn group_shown_before(gs: Seq<GroupCandView>, i: int, twins: Set<Seq<char>>, g: GroupCandView) -> bool {
    (spec_normalize(g.0).contains('@') && twins.contains(spec_normalize(g.0))) || exists|j: int|
        0 <= j < i && spec_normalize(#[trigger] gs[j].0) == spec_normalize(g.0)
}

proof fn lemma_truncated_groups(s: Seq<GroupCandView>, limit: nat)
    requires
        distinct_group_lemmas(s),
    ensures
        distinct_group_lemmas(truncated(s, limit)),
{
    let t = truncated(s, limit);
    assert forall|i: int, j: int| 0 <= i < j < t.len() implies spec_normalize(#[trigger] t[i].0)
        != spec_normalize(#[trigger] t[j].0) by {
        assert(t[i] == s[i] && t[j] == s[j]);
    }
}

/// An entry of the masked strip, after the first `i` items: its normalized
/// form is one of those items' or holds the mask symbol.
pub open spec fn shown_before(items: Seq<CandView>, i: int, c: CandView) -> bool {
    spec_normalize(c.0).contains('@') || exists|j: int|
        0 <= j < i && spec_normalize(#[trigger] items[j].0) == spec_normalize(c.0)
}

proof fn lemma_forms_shown_push(s: Seq<CandView>, c: CandView)
    ensures
        forms_shown(s.push(c)) == forms_shown(s).insert(spec_normalize(c.0)),
{
    let f = |x: CandView| spec_normalize(x.0);
    assert(s.push(c).map_values(f) =~= s.map_values(f).push(spec_normalize(c.0)));
    lemma_to_set_push(s.map_values(f), spec_normalize(c.0));
}

proof fn lemma_truncated_distinct(s: Seq<CandView>, limit: nat)
    requires
        distinct_forms(s),
    ensures
        distinct_forms(truncated(s, limit)),
{
    let t = truncated(s, limit);
    assert forall|i: int, j: int| 0 <= i < j < t.len() implies spec_normalize(#[trigger] t[i].0)
        != spec_normalize(#[trigger] t[j].0) by {
        assert(t[i] == s[i] && t[j] == s[j]);
    }
}

impl Candidate {
    /// An owned copy.
    pub fn clone_candidate(&self) -> (r: Candidate)
        ensures
            r.view() == self.view(),
    {
        Candidate { form: copy_string(&self.form), lemma: copy_string(&self.lemma), slot: self.slot }
    }
}


/// Normalized surface forms shown in `s`.
pub open spec fn forms_shown(s: Seq<CandView>) -> Set<Seq<char>> {
    s.map_values(|c: CandView| spec_normalize(c.0)).to_set()
}

/// Normalized lemmas shown in `s`.
pub open spec fn lemmas_shown(s: Seq<CandView>) -> Set<Seq<char>> {
    s.map_values(|c: CandView| spec_normalize(c.1)).to_set()
}

/// The shortcut candidates of the first `n` expansions: each expansion
/// whose normalized form is not shown yet, with no score slot.
pub open spec fn shortcut_fold(es: Seq<(Seq<char>, Seq<char>)>, n: nat) -> Seq<CandView>
    decreases n,
{
    if n == 0 {
        Seq::empty()
    } else {
        let o = shortcut_fold(es, (n - 1) as nat);
        let e = es[n - 1];
        if forms_shown(o).contains(spec_normalize(e.0)) {
            o
        } else {
            o.push((e.0, e.1, None))
        }
    }
}

/// The expansions the shortcut table holds for a typed input.
pub open spec fn expansions_for(sc: Map<Seq<char>, Seq<(Seq<char>, Seq<char>)>>, input: Seq<char>) -> Seq<
    (Seq<char>, Seq<char>),
> {
    let key = spec_normalize(trim(input));
    if sc.contains_key(key) {
        sc[key]
    } else {
        Seq::empty()
    }
}

/// Adds ranked candidates after `out` while the strip has room, skipping
/// any whose normalized form is already shown.
pub open spec fn extend_from(out: Seq<CandView>, ranked: Seq<CandView>, i: nat, limit: nat) -> Seq<
    CandView,
>
    decreases ranked.len() - i,
{
    if i >= ranked.len() || out.len() >= limit {
        out
    } else if forms_shown(out).contains(spec_normalize(ranked[i as int].0)) {
        extend_from(out, ranked, i + 1, limit)
    } else {
        extend_from(out.push(ranked[i as int]), ranked, i + 1, limit)
    }
}

/// Whether the normalized form of some candidate of `s` is `k`.
fn shows_form(s: &Vec<Candidate>, k: &[char]) -> (r: bool)
    ensures
        r == forms_shown(cand_views(s@)).contains(k@),
{
    let ghost f = |c: CandView| spec_normalize(c.0);
    let ghost fv = cand_views(s@).map_values(f);
    let mut i: usize = 0;
    while i < s.len()
        invariant
            fv == cand_views(s@).map_values(f),
            f == (|c: CandView| spec_normalize(c.0)),
            i <= s@.len(),
            forall|j: int| 0 <= j < i ==> fv[j] != k@,
        decreases s@.len() - i,
    {
        let n = normalized(&s[i].form);
        assert(fv[i as int] == n@);
        if chars_eq(n.as_slice(), k) {
            return true;
        }
        i = i + 1;
    }
    proof {
        if fv.contains(k@) {
            let j = choose|j: int| 0 <= j < fv.len() && fv[j] == k@;
            assert(fv[j] != k@);
        }
    }
    false
}

/// Whether the normalized lemma of some candidate of `s` is `k`.
fn shows_lemma(s: &Vec<Candidate>, k: &[char]) -> (r: bool)
    ensures
        r == lemmas_shown(cand_views(s@)).contains(k@),
{
    let ghost f = |c: CandView| spec_normalize(c.1);
    let ghost fv = cand_views(s@).map_values(f);
    let mut i: usize = 0;
    while i < s.len()
        invariant
            fv == cand_views(s@).map_values(f),
            f == (|c: CandView| spec_normalize(c.1)),
            i <= s@.len(),
            forall|j: int| 0 <= j < i ==> fv[j] != k@,
        decreases s@.len() - i,
    {
        let n = normalized(&s[i].lemma);
        assert(fv[i as int] == n@);
        if chars_eq(n.as_slice(), k) {
            return true;
        }
        i = i + 1;
    }
    proof {
        if fv.contains(k@) {
            let j = choose|j: int| 0 <= j < fv.len() && fv[j] == k@;
            assert(fv[j] != k@);
        }
    }
    false
}

/// Conventional-shortcut candidates for a typed input: the expansions of
/// its normalized, trimmed spelling, each normalized form once, in table
/// order. They bypass the fuzzy minimum length.
pub fn shortcut_strip(input: &str, shortcuts: &Shortcuts) -> (r: Vec<Candidate>)
    requires
        shortcuts.wf(),
    ensures
        cand_views(r@) == ({
            let es = expansions_for(shortcuts.view(), input@);
            shortcut_fold(es, es.len())
        }),
{
    let raw = str_chars(input);
    let t = trim_chars(raw.as_slice());
    let k = normalize_chars(t.as_slice());
    let key = chars_to_string(k.as_slice());
    let exps = shortcuts.get(key.as_str());
    let ghost es = expansion_views(exps@);
    assert(es == expansions_for(shortcuts.view(), input@));
    let mut out: Vec<Candidate> = Vec::new();
    let mut i: usize = 0;
    while i < exps.len()
        invariant
            es == expansion_views(exps@),
            i <= exps@.len(),
            cand_views(out@) == shortcut_fold(es, i as nat),
        decreases exps@.len() - i,
    {
        let e: &Expansion = &exps[i];
        assert(e@ == es[i as int]);
        let nf = normalized(&e.form);
        if !shows_form(&out, nf.as_slice()) {
            let ghost before = cand_views(out@);
            out.push(Candidate { form: copy_string(&e.form), lemma: copy_string(&e.lemma), slot: None });
            assert(cand_views(out@) =~= before.push((e.form@, e.lemma@, None)));
        }
        i = i + 1;
    }
    out
}

/// Adds `ranked` after `out` until the strip holds `limit` entries,
/// skipping candidates whose normalized form is already shown.
pub fn extend_strip(out: Vec<Candidate>, ranked: Vec<Candidate>, limit: usize) -> (r: Vec<Candidate>)
    ensures
        cand_views(r@) == extend_from(cand_views(out@), cand_views(ranked@), 0, limit as nat),
{
    let ghost rv = cand_views(ranked@);
    let ghost target = extend_from(cand_views(out@), rv, 0, limit as nat);
    let mut out = out;
    let mut i: usize = 0;
    while i < ranked.len() && out.len() < limit
        invariant
            rv == cand_views(ranked@),
            i <= ranked@.len(),
            target == extend_from(cand_views(out@), rv, i as nat, limit as nat),
        decreases ranked@.len() - i,
    {
        let c = &ranked[i];
        assert(c.view() == rv[i as int]);
        let nf = normalized(&c.form);
        if !shows_form(&out, nf.as_slice()) {
            let ghost before = cand_views(out@);
            out.push(c.clone_candidate());
            assert(cand_views(out@) =~= before.push(rv[i as int]));
        }
        i = i + 1;
    }
    out
}

/// Group leaders from shortcut expansions: the first expansion of each
/// normalized lemma, in table order, at most `limit`.
pub open spec fn leaders_fold(es: Seq<(Seq<char>, Seq<char>)>, n: nat, limit: nat) -> Seq<CandView>
    decreases n,
{
    if n == 0 {
        Seq::empty()
    } else {
        let o = leaders_fold(es, (n - 1) as nat, limit);
        let e = es[n - 1];
        if o.len() >= limit || lemmas_shown(o).contains(spec_normalize(e.1)) {
            o
        } else {
            o.push((e.0, e.1, None))
        }
    }
}

/// Adds ranked candidates as group leaders while there is room: the first
/// candidate of each normalized lemma not led yet.
pub open spec fn leaders_from(out: Seq<CandView>, ranked: Seq<CandView>, i: nat, limit: nat) -> Seq<
    CandView,
>
    decreases ranked.len() - i,
{
    if i >= ranked.len() || out.len() >= limit {
        out
    } else if lemmas_shown(out).contains(spec_normalize(ranked[i as int].1)) {
        leaders_from(out, ranked, i + 1, limit)
    } else {
        leaders_from(out.push(ranked[i as int]), ranked, i + 1, limit)
    }
}

/// Group leaders among a typed input's shortcut expansions: one per
/// normalized lemma, in table order, at most `limit`.
pub fn shortcut_leaders(input: &str, shortcuts: &Shortcuts, limit: usize) -> (r: Vec<Candidate>)
    requires
        shortcuts.wf(),
    ensures
        cand_views(r@) == ({
            let es = expansions_for(shortcuts.view(), input@);
            leaders_fold(es, es.len(), limit as nat)
        }),
{
    let raw = str_chars(input);
    let t = trim_chars(raw.as_slice());
    let k = normalize_chars(t.as_slice());
    let key = chars_to_string(k.as_slice());
    let exps = shortcuts.get(key.as_str());
    let ghost es = expansion_views(exps@);
    let mut out: Vec<Candidate> = Vec::new();
    let mut i: usize = 0;
    while i < exps.len()
        invariant
            es == expansion_views(exps@),
            i <= exps@.len(),
            cand_views(out@) == leaders_fold(es, i as nat, limit as nat),
        decreases exps@.len() - i,
    {
        let e: &Expansion = &exps[i];
        assert(e@ == es[i as int]);
        let nl = normalized(&e.lemma);
        if out.len() < limit && !shows_lemma(&out, nl.as_slice()) {
            let ghost before = cand_views(out@);
            out.push(Candidate { form: copy_string(&e.form), lemma: copy_string(&e.lemma), slot: None });
            assert(cand_views(out@) =~= before.push((e.form@, e.lemma@, None)));
        }
        i = i + 1;
    }
    out
}

/// Adds group leaders from `ranked` until there are `limit` groups.
pub fn extend_leaders(out: Vec<Candidate>, ranked: Vec<Candidate>, limit: usize) -> (r: Vec<Candidate>)
    ensures
        cand_views(r@) == leaders_from(cand_views(out@), cand_views(ranked@), 0, limit as nat),
{
    let ghost rv = cand_views(ranked@);
    let ghost target = leaders_from(cand_views(out@), rv, 0, limit as nat);
    let mut out = out;
    let mut i: usize = 0;
    while i < ranked.len() && out.len() < limit
        invariant
            rv == cand_views(ranked@),
            i <= ranked@.len(),
            target == leaders_from(cand_views(out@), rv, i as nat, limit as nat),
        decreases ranked@.len() - i,
    {
        let c = &ranked[i];
        assert(c.view() == rv[i as int]);
        let nl = normalized(&c.lemma);
        if !shows_lemma(&out, nl.as_slice()) {
            let ghost before = cand_views(out@);
            out.push(c.clone_candidate());
            assert(cand_views(out@) =~= before.push(rv[i as int]));
        }
        i = i + 1;
    }
    out
}

/// A strip group: the lemma, its best candidate and the sibling forms.
pub struct GroupCandidate {
    pub lemma: String,
    pub best: Candidate,
    pub variants: Vec<String>,
}

/// Abstract group: lemma, best candidate, variants.
pub type GroupCandView = (Seq<char>, CandView, Seq<Seq<char>>);

impl GroupCandidate {
    pub open spec fn view(&self) -> GroupCandView {
        (self.lemma@, self.best.view(), self.variants@.map_values(|s: String| s@))
    }
}

pub open spec fn group_cand_views(s: Seq<GroupCandidate>) -> Seq<GroupCandView> {
    s.map_values(|g: GroupCandidate| g.view())
}

/// Groups after the first `n` with twin groups inserted, and the twins'
/// normalized spellings so far. A twin group is a single form, its own
/// lemma, with no variants.
pub open spec fn group_twin_fold(gs: Seq<GroupCandView>, censored: Set<Seq<char>>, n: nat) -> (
    Seq<GroupCandView>,
    Set<Seq<char>>,
)
    decreases n,
{
    if n == 0 {
        (Seq::empty(), Set::empty())
    } else {
        let (o, seen) = group_twin_fold(gs, censored, (n - 1) as nat);
        let g = gs[n - 1];
        let o1 = o.push(g);
        let twin = if censored.contains(spec_normalize(g.0)) {
            spec_mask_form(g.1.0)
        } else {
            None
        };
        match twin {
            Some(f) => if seen.contains(spec_normalize(f)) {
                (o1, seen)
            } else {
                (o1.push((f, (f, f, g.1.2), Seq::empty())), seen.insert(spec_normalize(f)))
            },
            None => (o1, seen),
        }
    }
}

pub open spec fn spec_mask_groups(
    gs: Seq<GroupCandView>,
    limit: nat,
    active: bool,
    censored: Set<Seq<char>>,
) -> Seq<GroupCandView> {
    if !active {
        truncated(gs, limit)
    } else {
        truncated(group_twin_fold(gs, censored, gs.len()).0, limit)
    }
}

/// Grouped counterpart of `mask_strip`: inserts a masked twin group after
/// every group whose lemma is censored (twins deduplicated among
/// themselves by normalized spelling), then caps at `limit`.
pub fn mask_groups(groups: Vec<GroupCandidate>, limit: usize, active: bool, masker: &Masker) -> (r: Vec<
    GroupCandidate,
>)
    requires
        masker.wf(),
    ensures
        group_cand_views(r@) == spec_mask_groups(
            group_cand_views(groups@),
            limit as nat,
            active,
            masker.view(),
        ),
        plain_groups(group_cand_views(groups@)) ==> distinct_group_lemmas(group_cand_views(r@)),
{
    if !active {
        let r = truncate_vec(groups, limit);
        proof {
            assert(group_cand_views(r@) =~= truncated(group_cand_views(groups@), limit as nat));
            if plain_groups(group_cand_views(groups@)) {
                lemma_truncated_groups(group_cand_views(groups@), limit as nat);
            }
        }
        return r;
    }
    let ghost gv = group_cand_views(groups@);
    let ghost censored = masker.view();
    let mut out: Vec<GroupCandidate> = Vec::new();
    let mut seen: Vec<Vec<char>> = Vec::new();
    let mut src = groups;
    let mut i: usize = 0;
    let ghost n = gv.len();
    assert(group_cand_views(src@) =~= gv.skip(0));
    let total: usize = src.len();
    assert(n == total);
    while src.len() > 0
        invariant
            censored == masker.view(),
            masker.wf(),
            i + src@.len() == n,
            n == gv.len(),
            n <= usize::MAX,
            group_cand_views(src@) == gv.skip(i as int),
            group_cand_views(out@) == group_twin_fold(gv, censored, i as nat).0,
            seen@.map_values(|v: Vec<char>| v@).to_set() == group_twin_fold(gv, censored, i as nat).1,
            plain_groups(gv) ==> distinct_group_lemmas(group_cand_views(out@)),
            plain_groups(gv) ==> forall|k: int|
                0 <= k < out@.len() ==> group_shown_before(
                    gv,
                    i as int,
                    seen@.map_values(|v: Vec<char>| v@).to_set(),
                    #[trigger] group_cand_views(out@)[k],
                ),
        decreases src@.len(),
    {
        let ghost src_old = src@;
        let g = src.remove(0);
        proof {
            assert(group_cand_views(src_old)[0] == gv.skip(i as int)[0]);
            assert(g.view() == gv[i as int]);
        }
        let ghost o0 = group_cand_views(out@);
        let twin = if masker.is_masked_lemma(g.lemma.as_str()) {
            Masker::mask_form(g.best.form.as_str())
        } else {
            None
        };
        let slot = g.best.slot;
        let ghost sset = seen@.map_values(|v: Vec<char>| v@).to_set();
        out.push(g);
        assert(group_cand_views(out@) =~= o0.push(gv[i as int]));
        proof {
            if plain_groups(gv) {
                let o = group_cand_views(out@);
                let x = gv[i as int];
                assert(!spec_normalize(x.0).contains('@'));
                assert forall|a: int, b: int| 0 <= a < b < o.len() implies spec_normalize(#[trigger] o[a].0)
                    != spec_normalize(#[trigger] o[b].0) by {
                    if b < o0.len() {
                        assert(o[a] == o0[a] && o[b] == o0[b]);
                    } else {
                        assert(o[a] == o0[a] && o[b] == x);
                        assert(group_shown_before(gv, i as int, sset, o0[a]));
                        if !spec_normalize(o0[a].0).contains('@') {
                            let j = choose|j: int| 0 <= j < i && spec_normalize(#[trigger] gv[j].0) == spec_normalize(o0[a].0);
                            assert(spec_normalize(gv[j].0) != spec_normalize(gv[i as int].0));
                        }
                    }
                }
                assert forall|k: int| 0 <= k < out@.len() implies group_shown_before(gv, i + 1, sset, #[trigger] group_cand_views(out@)[k]) by {
                    if k < o0.len() {
                        assert(o[k] == o0[k]);
                        assert(group_shown_before(gv, i as int, sset, o0[k]));
                    } else {
                        assert(o[k] == x);
                    }
                }
            }
        }
        match twin {
            Some(form) => {
                let nt = normalized(&form);
                proof {
                    lemma_mask_hides_a_letter(g.best.form@);
                    let p = choose|p: int| 0 <= p < form@.len() && form@[p] == '@';
                    assert(known_lower(form@[p]) == Some('@'));
                    assert(nt@[p] == '@');
                    assert(nt@.contains('@'));
                }
                let ghost sv1 = seen@.map_values(|v: Vec<char>| v@);
                if !seen_contains(&seen, nt.as_slice()) {
                    let ghost o1 = group_cand_views(out@);
                    seen.push(nt);
                    proof {
                        lemma_to_set_push(sv1, spec_normalize(form@));
                        assert(seen@.map_values(|v: Vec<char>| v@) =~= sv1.push(spec_normalize(form@)));
                    }
                    let t = GroupCandidate {
                        lemma: copy_string(&form),
                        best: Candidate { form: copy_string(&form), lemma: form, slot },
                        variants: Vec::new(),
                    };
                    let ghost tv = t.view();
                    out.push(t);
                    proof {
                        assert(tv.2 =~= Seq::<Seq<char>>::empty());
                        assert(group_cand_views(out@) =~= o1.push(tv));
                        let s2 = seen@.map_values(|v: Vec<char>| v@).to_set();
                        assert(s2 == sv1.to_set().insert(spec_normalize(form@)));
                        if plain_groups(gv) {
                            let o = group_cand_views(out@);
                            assert(tv.0 == form@);
                            assert forall|a: int, b: int| 0 <= a < b < o.len() implies spec_normalize(#[trigger] o[a].0)
                                != spec_normalize(#[trigger] o[b].0) by {
                                if b < o1.len() {
                                    assert(o[a] == o1[a] && o[b] == o1[b]);
                                } else {
                                    assert(o[a] == o1[a] && o[b] == tv);
                                    assert(group_shown_before(gv, i + 1, sv1.to_set(), o1[a]));
                                    if spec_normalize(o1[a].0).contains('@') {
                                        assert(sv1.to_set().contains(spec_normalize(o1[a].0)));
                                    } else {
                                        assert(spec_normalize(form@).contains('@'));
                                    }
                                }
                            }
                            assert forall|k: int| 0 <= k < out@.len() implies group_shown_before(gv, i + 1, s2, #[trigger] group_cand_views(out@)[k]) by {
                                if k < o1.len() {
                                    assert(o[k] == o1[k]);
                                    assert(group_shown_before(gv, i + 1, sv1.to_set(), o1[k]));
                                } else {
                                    assert(o[k] == tv);
                                }
                            }
                        }
                    }
                }
            },
            None => {},
        }
        proof {
            assert(src@ =~= src_old.subrange(1, src_old.len() as int));
            let snew = group_cand_views(src@);
            assert forall|k: int| 0 <= k < snew.len() implies #[trigger] snew[k] == gv.skip(
                i + 1,
            )[k] by {
                assert(group_cand_views(src_old)[k + 1] == gv.skip(i as int)[k + 1]);
            }
            assert(snew =~= gv.skip(i + 1));
        }
        i = i + 1;
    }
    assert(i == n);
    let r = truncate_vec(out, limit);
    proof {
        assert(group_cand_views(r@) =~= truncated(group_twin_fold(gv, censored, gv.len()).0, limit as nat));
        if plain_groups(gv) {
            lemma_truncated_groups(group_cand_views(out@), limit as nat);
        }
    }
    r
}

/// The lemma's forms other than `best`, in order (exact spelling).
pub fn variants_without(forms: Vec<String>, best: &str) -> (r: Vec<String>)
    ensures
        r@.map_values(|s: String| s@) == forms@.map_values(|s: String| s@).filter(
            |f: Seq<char>| f != best@,
        ),
{
    let ghost fv = forms@.map_values(|s: String| s@);
    let b = str_chars(best);
    let mut out: Vec<String> = Vec::new();
    let mut i: usize = 0;
    assert(fv.take(0).filter(|f: Seq<char>| f != best@) =~= Seq::<Seq<char>>::empty());
    while i < forms.len()
        invariant
            fv == forms@.map_values(|s: String| s@),
            b@ == best@,
            i <= forms@.len(),
            out@.map_values(|s: String| s@) == fv.take(i as int).filter(|f: Seq<char>| f != best@),
        decreases forms@.len() - i,
    {
        let f = str_chars(forms[i].as_str());
        assert(f@ == fv[i as int]);
        assert(fv.take(i + 1).drop_last() =~= fv.take(i as int));
        let ghost before = out@.map_values(|s: String| s@);
        if !chars_eq(f.as_slice(), b.as_slice()) {
            out.push(chars_to_string(f.as_slice()));
            assert(out@.map_values(|s: String| s@) =~= before.push(f@));
        }
        proof {
            fv.take(i as int).lemma_filter_push(fv[i as int], |f: Seq<char>| f != best@);
            assert(fv.take(i as int).push(fv[i as int]) =~= fv.take(i + 1));
        }
        i = i + 1;
    }
    assert(fv.take(forms@.len() as int) =~= fv);
    out
}


// ---------------------------------------------------------------------------
// Laws
// ---------------------------------------------------------------------------

/// No two entries share a normalized surface form.
pub open spec fn distinct_forms(s: Seq<CandView>) -> bool {
    forall|i: int, j: int|
        0 <= i < j < s.len() ==> spec_normalize(#[trigger] s[i].0) != spec_normalize(#[trigger] s[j].0)
}

/// No two entries share a normalized lemma.
pub open spec fn distinct_lemmas(s: Seq<CandView>) -> bool {
    forall|i: int, j: int|
        0 <= i < j < s.len() ==> spec_normalize(#[trigger] s[i].1) != spec_normalize(#[trigger] s[j].1)
}

proof fn lemma_forms_shown(s: Seq<CandView>, k: Seq<char>)
    ensures
        forms_shown(s).contains(k) <==> exists|i: int| 0 <= i < s.len() && spec_normalize(#[trigger] s[i].0) == k,
{
    let f = |c: CandView| spec_normalize(c.0);
    let m = s.map_values(f);
    if m.contains(k) {
        let i = choose|i: int| 0 <= i < m.len() && m[i] == k;
        assert(spec_normalize(s[i].0) == k);
    }
    if exists|i: int| 0 <= i < s.len() && spec_normalize(#[trigger] s[i].0) == k {
        let i = choose|i: int| 0 <= i < s.len() && spec_normalize(#[trigger] s[i].0) == k;
        assert(m[i] == k);
    }
}

proof fn lemma_lemmas_shown(s: Seq<CandView>, k: Seq<char>)
    ensures
        lemmas_shown(s).contains(k) <==> exists|i: int| 0 <= i < s.len() && spec_normalize(#[trigger] s[i].1) == k,
{
    let f = |c: CandView| spec_normalize(c.1);
    let m = s.map_values(f);
    if m.contains(k) {
        let i = choose|i: int| 0 <= i < m.len() && m[i] == k;
        assert(spec_normalize(s[i].1) == k);
    }
    if exists|i: int| 0 <= i < s.len() && spec_normalize(#[trigger] s[i].1) == k {
        let i = choose|i: int| 0 <= i < s.len() && spec_normalize(#[trigger] s[i].1) == k;
        assert(m[i] == k);
    }
}

proof fn lemma_push_distinct_forms(s: Seq<CandView>, c: CandView)
    requires
        distinct_forms(s),
        !forms_shown(s).contains(spec_normalize(c.0)),
    ensures
        distinct_forms(s.push(c)),
{
    lemma_forms_shown(s, spec_normalize(c.0));
    assert forall|i: int, j: int| 0 <= i < j < s.push(c).len() implies spec_normalize(
        #[trigger] s.push(c)[i].0,
    ) != spec_normalize(#[trigger] s.push(c)[j].0) by {
        if j < s.len() {
            assert(s.push(c)[i] == s[i] && s.push(c)[j] == s[j]);
        } else {
            assert(s.push(c)[i] == s[i]);
        }
    }
}

proof fn lemma_push_distinct_lemmas(s: Seq<CandView>, c: CandView)
    requires
        distinct_lemmas(s),
        !lemmas_shown(s).contains(spec_normalize(c.1)),
    ensures
        distinct_lemmas(s.push(c)),
{
    lemma_lemmas_shown(s, spec_normalize(c.1));
    assert forall|i: int, j: int| 0 <= i < j < s.push(c).len() implies spec_normalize(
        #[trigger] s.push(c)[i].1,
    ) != spec_normalize(#[trigger] s.push(c)[j].1) by {
        if j < s.len() {
            assert(s.push(c)[i] == s[i] && s.push(c)[j] == s[j]);
        } else {
            assert(s.push(c)[i] == s[i]);
        }
    }
}

/// The shortcut part of the flat strip never shows one normalized form
/// twice.
pub proof fn lemma_shortcut_strip_distinct(es: Seq<(Seq<char>, Seq<char>)>, n: nat)
    requires
        n <= es.len(),
    ensures
        distinct_forms(shortcut_fold(es, n)),
    decreases n,
{
    if n > 0 {
        lemma_shortcut_strip_distinct(es, (n - 1) as nat);
        let o = shortcut_fold(es, (n - 1) as nat);
        let e = es[n - 1];
        if !forms_shown(o).contains(spec_normalize(e.0)) {
            lemma_push_distinct_forms(o, (e.0, e.1, None));
        }
    }
}

/// Filling the flat strip with ranked candidates keeps every normalized
/// form shown at most once, and adds nothing once the strip is full.
pub proof fn lemma_extend_strip_distinct(out: Seq<CandView>, ranked: Seq<CandView>, i: nat, limit: nat)
    requires
        distinct_forms(out),
    ensures
        distinct_forms(extend_from(out, ranked, i, limit)),
        extend_from(out, ranked, i, limit).len() <= if out.len() > limit {
            out.len()
        } else {
            limit
        },
        extend_from(out, ranked, i, limit).len() >= out.len(),
        extend_from(out, ranked, i, limit).take(out.len() as int) == out,
    decreases ranked.len() - i,
{
    if i < ranked.len() && out.len() < limit {
        let c = ranked[i as int];
        if forms_shown(out).contains(spec_normalize(c.0)) {
            lemma_extend_strip_distinct(out, ranked, i + 1, limit);
        } else {
            lemma_push_distinct_forms(out, c);
            lemma_extend_strip_distinct(out.push(c), ranked, i + 1, limit);
            let r = extend_from(out, ranked, i, limit);
            assert(r == extend_from(out.push(c), ranked, i + 1, limit));
            assert(r.take(out.push(c).len() as int) == out.push(c));
            assert(r.len() >= out.len() + 1);
            assert forall|k: int| 0 <= k < out.len() implies r.take(out.len() as int)[k] == out[k] by {
                assert(r.take(out.push(c).len() as int)[k] == out.push(c)[k]);
            }
            assert(r.take(out.len() as int) =~= out);
        }
    } else {
        assert(out.take(out.len() as int) =~= out);
    }
}

/// Shortcut group leaders never share a normalized lemma and never exceed
/// the limit.
pub proof fn lemma_shortcut_leaders_distinct(es: Seq<(Seq<char>, Seq<char>)>, n: nat, limit: nat)
    requires
        n <= es.len(),
    ensures
        distinct_lemmas(leaders_fold(es, n, limit)),
        leaders_fold(es, n, limit).len() <= limit,
    decreases n,
{
    if n > 0 {
        lemma_shortcut_leaders_distinct(es, (n - 1) as nat, limit);
        let o = leaders_fold(es, (n - 1) as nat, limit);
        let e = es[n - 1];
        if !(o.len() >= limit || lemmas_shown(o).contains(spec_normalize(e.1))) {
            lemma_push_distinct_lemmas(o, (e.0, e.1, None));
        }
    }
}

/// The grouped strip holds one group per normalized lemma, at most
/// `limit` of them once the leaders started within the limit.
pub proof fn lemma_extend_leaders_distinct(out: Seq<CandView>, ranked: Seq<CandView>, i: nat, limit: nat)
    requires
        distinct_lemmas(out),
        out.len() <= limit,
    ensures
        distinct_lemmas(leaders_from(out, ranked, i, limit)),
        leaders_from(out, ranked, i, limit).len() <= limit,
        leaders_from(out, ranked, i, limit).len() >= out.len(),
        leaders_from(out, ranked, i, limit).take(out.len() as int) == out,
    decreases ranked.len() - i,
{
    if i < ranked.len() && out.len() < limit {
        let c = ranked[i as int];
        if lemmas_shown(out).contains(spec_normalize(c.1)) {
            lemma_extend_leaders_distinct(out, ranked, i + 1, limit);
        } else {
            lemma_push_distinct_lemmas(out, c);
            lemma_extend_leaders_distinct(out.push(c), ranked, i + 1, limit);
            let r = leaders_from(out, ranked, i, limit);
            assert(r == leaders_from(out.push(c), ranked, i + 1, limit));
            assert(r.take(out.push(c).len() as int) == out.push(c));
            assert(r.len() >= out.len() + 1);
            assert forall|k: int| 0 <= k < out.len() implies r.take(out.len() as int)[k] == out[k] by {
                assert(r.take(out.push(c).len() as int)[k] == out.push(c)[k]);
            }
            assert(r.take(out.len() as int) =~= out);
        }
    } else {
        assert(out.take(out.len() as int) =~= out);
    }
}

/// With masking off (or nothing censored) the strip is only capped: no
/// entry is added, dropped or reordered.
pub proof fn lemma_mask_off_is_truncation(items: Seq<CandView>, limit: nat, censored: Set<Seq<char>>)
    ensures
        spec_mask_strip(items, limit, false, censored) == truncated(items, limit),
        spec_mask_strip(items, limit, true, Set::<Seq<char>>::empty()) == truncated(items, limit),
{
    lemma_twin_fold_uncensored(items, items.len());
}

proof fn lemma_twin_fold_uncensored(items: Seq<CandView>, n: nat)
    requires
        n <= items.len(),
    ensures
        twin_fold(items, Set::<Seq<char>>::empty(), n).0 == items.take(n as int),
    decreases n,
{
    if n > 0 {
        lemma_twin_fold_uncensored(items, (n - 1) as nat);
        assert(items.take(n as int) =~= items.take(n - 1).push(items[n - 1]));
    } else {
        assert(items.take(0) =~= Seq::<CandView>::empty());
    }
    if n == items.len() {
        assert(items.take(n as int) =~= items);
    }
}

proof fn lemma_twin_fold_grows(items: Seq<CandView>, censored: Set<Seq<char>>, i: nat, n: nat)
    requires
        i <= n <= items.len(),
    ensures
        twin_fold(items, censored, i).0.len() <= twin_fold(items, censored, n).0.len(),
        twin_fold(items, censored, i).0 == twin_fold(items, censored, n).0.take(
            twin_fold(items, censored, i).0.len() as int,
        ),
    decreases n - i,
{
    if i < n {
        lemma_twin_fold_grows(items, censored, i, (n - 1) as nat);
        let a = twin_fold(items, censored, i).0;
        let b = twin_fold(items, censored, (n - 1) as nat).0;
        let c = twin_fold(items, censored, n).0;
        assert(b == c.take(b.len() as int));
        assert(a == c.take(a.len() as int)) by {
            assert(a =~= b.take(a.len() as int));
            assert(b.take(a.len() as int) =~= c.take(a.len() as int));
        }
    } else {
        let a = twin_fold(items, censored, i).0;
        assert(a.take(a.len() as int) =~= a);
    }
}

/// Masking offers, never substitutes: every candidate stays in the masked
/// strip, in its order, at the position it reaches once the twins inserted
/// before it are counted.
pub proof fn lemma_masking_keeps_originals(items: Seq<CandView>, censored: Set<Seq<char>>, i: nat, j: nat)
    requires
        i < j < items.len(),
    ensures
        twin_fold(items, censored, i).0.len() < twin_fold(items, censored, j).0.len(),
        twin_fold(items, censored, items.len()).0[twin_fold(items, censored, i).0.len() as int]
            == items[i as int],
        twin_fold(items, censored, items.len()).0[twin_fold(items, censored, j).0.len() as int]
            == items[j as int],
{
    let n = items.len();
    lemma_twin_fold_grows(items, censored, (i + 1) as nat, j);
    lemma_twin_fold_grows(items, censored, (i + 1) as nat, n);
    lemma_twin_fold_grows(items, censored, (j + 1) as nat, n);
    let fi = twin_fold(items, censored, i).0;
    let fi1 = twin_fold(items, censored, (i + 1) as nat).0;
    let fj = twin_fold(items, censored, j).0;
    let fj1 = twin_fold(items, censored, (j + 1) as nat).0;
    let fall = twin_fold(items, censored, n).0;
    assert(fi1[fi.len() as int] == items[i as int]);
    assert(fj1[fj.len() as int] == items[j as int]);
    assert(fall.take(fi1.len() as int)[fi.len() as int] == fi1[fi.len() as int]);
    assert(fall.take(fj1.len() as int)[fj.len() as int] == fj1[fj.len() as int]);
}

proof fn lemma_group_twin_fold_grows(gs: Seq<GroupCandView>, censored: Set<Seq<char>>, i: nat, n: nat)
    requires
        i <= n <= gs.len(),
    ensures
        group_twin_fold(gs, censored, i).0.len() <= group_twin_fold(gs, censored, n).0.len(),
        group_twin_fold(gs, censored, i).0 == group_twin_fold(gs, censored, n).0.take(
            group_twin_fold(gs, censored, i).0.len() as int,
        ),
    decreases n - i,
{
    if i < n {
        lemma_group_twin_fold_grows(gs, censored, i, (n - 1) as nat);
        let a = group_twin_fold(gs, censored, i).0;
        let b = group_twin_fold(gs, censored, (n - 1) as nat).0;
        let c = group_twin_fold(gs, censored, n).0;
        assert(b == c.take(b.len() as int));
        assert(a == c.take(a.len() as int)) by {
            assert(a =~= b.take(a.len() as int));
            assert(b.take(a.len() as int) =~= c.take(a.len() as int));
        }
    } else {
        let a = group_twin_fold(gs, censored, i).0;
        assert(a.take(a.len() as int) =~= a);
    }
}

/// The grouped strip too only offers twins: every group stays, in its
/// order, at the position it reaches once the twin groups inserted before
/// it are counted.
pub proof fn lemma_group_masking_keeps_originals(gs: Seq<GroupCandView>, censored: Set<Seq<char>>, i: nat, j: nat)
    requires
        i < j < gs.len(),
    ensures
        group_twin_fold(gs, censored, i).0.len() < group_twin_fold(gs, censored, j).0.len(),
        group_twin_fold(gs, censored, gs.len()).0[group_twin_fold(gs, censored, i).0.len() as int]
            == gs[i as int],
        group_twin_fold(gs, censored, gs.len()).0[group_twin_fold(gs, censored, j).0.len() as int]
            == gs[j as int],
{
    let n = gs.len();
    lemma_group_twin_fold_grows(gs, censored, (i + 1) as nat, j);
    lemma_group_twin_fold_grows(gs, censored, (i + 1) as nat, n);
    lemma_group_twin_fold_grows(gs, censored, (j + 1) as nat, n);
    let fi = group_twin_fold(gs, censored, i).0;
    let fi1 = group_twin_fold(gs, censored, (i + 1) as nat).0;
    let fj = group_twin_fold(gs, censored, j).0;
    let fj1 = group_twin_fold(gs, censored, (j + 1) as nat).0;
    let fall = group_twin_fold(gs, censored, n).0;
    assert(fi1[fi.len() as int] == gs[i as int]);
    assert(fj1[fj.len() as int] == gs[j as int]);
    assert(fall.take(fi1.len() as int)[fi.len() as int] == fi1[fi.len() as int]);
    assert(fall.take(fj1.len() as int)[fj.len() as int] == fj1[fj.len() as int]);
}

/// Shortcuts lead the strip: ranked candidates are only added after what
/// is already shown, and only while the strip has room.
pub proof fn lemma_extend_keeps_head(out: Seq<CandView>, ranked: Seq<CandView>, i: nat, limit: nat)
    ensures
        out.len() <= extend_from(out, ranked, i, limit).len(),
        forall|k: int| 0 <= k < out.len() ==> #[trigger] extend_from(out, ranked, i, limit)[k] == out[k],
        extend_from(out, ranked, i, limit).len() <= if out.len() > limit {
            out.len()
        } else {
            limit
        },
    decreases ranked.len() - i,
{
    if !(i >= ranked.len() || out.len() >= limit) {
        if forms_shown(out).contains(spec_normalize(ranked[i as int].0)) {
            lemma_extend_keeps_head(out, ranked, i + 1, limit);
        } else {
            let o2 = out.push(ranked[i as int]);
            lemma_extend_keeps_head(o2, ranked, i + 1, limit);
            assert forall|k: int| 0 <= k < out.len() implies #[trigger] extend_from(out, ranked, i, limit)[k]
                == out[k] by {
                assert(o2[k] == out[k]);
            }
        }
    }
}

/// Shortcut groups lead the grouped strip: ranked leaders are only added
/// after the shortcut leaders, and only while the strip has room.
pub proof fn lemma_leaders_keep_head(out: Seq<CandView>, ranked: Seq<CandView>, i: nat, limit: nat)
    ensures
        out.len() <= leaders_from(out, ranked, i, limit).len(),
        forall|k: int| 0 <= k < out.len() ==> #[trigger] leaders_from(out, ranked, i, limit)[k] == out[k],
        leaders_from(out, ranked, i, limit).len() <= if out.len() > limit {
            out.len()
        } else {
            limit
        },
    decreases ranked.len() - i,
{
    if !(i >= ranked.len() || out.len() >= limit) {
        if lemmas_shown(out).contains(spec_normalize(ranked[i as int].1)) {
            lemma_leaders_keep_head(out, ranked, i + 1, limit);
        } else {
            let o2 = out.push(ranked[i as int]);
            lemma_leaders_keep_head(o2, ranked, i + 1, limit);
            assert forall|k: int| 0 <= k < out.len() implies #[trigger] leaders_from(out, ranked, i, limit)[k]
                == out[k] by {
                assert(o2[k] == out[k]);
            }
        }
    }
}


/// Ranked candidates all fill the strip while it has room, whatever their
/// lemmas: when the normalized forms of the ranked candidates are pairwise
/// distinct and none is shown yet, the strip is `out` followed by the next
/// ranked candidates, as many as fit under `limit`.
pub proof fn lemma_extend_strip_fills(out: Seq<CandView>, ranked: Seq<CandView>, i: nat, limit: nat)
    requires
        i <= ranked.len(),
        forall|j: int, k: int|
            i <= j < k < ranked.len() ==> spec_normalize(#[trigger] ranked[j].0) != spec_normalize(
                #[trigger] ranked[k].0,
            ),
        forall|j: int, k: int|
            0 <= j < out.len() && i <= k < ranked.len() ==> spec_normalize(#[trigger] out[j].0)
                != spec_normalize(#[trigger] ranked[k].0),
    ensures
        extend_from(out, ranked, i, limit) == (if out.len() >= limit {
            out
        } else if limit - out.len() < ranked.len() - i {
            out + ranked.subrange(i as int, i + limit - out.len())
        } else {
            out + ranked.subrange(i as int, ranked.len() as int)
        }),
    decreases ranked.len() - i,
{
    if i < ranked.len() && out.len() < limit {
        let c = ranked[i as int];
        assert(!forms_shown(out).contains(spec_normalize(c.0))) by {
            if forms_shown(out).contains(spec_normalize(c.0)) {
                let f = |x: CandView| spec_normalize(x.0);
                let j = choose|j: int| 0 <= j < out.len() && out.map_values(f)[j] == spec_normalize(c.0);
                assert(spec_normalize(out[j].0) != spec_normalize(ranked[i as int].0));
            }
        }
        let o2 = out.push(c);
        assert forall|j: int, k: int|
            0 <= j < o2.len() && i + 1 <= k < ranked.len() implies spec_normalize(#[trigger] o2[j].0)
                != spec_normalize(#[trigger] ranked[k].0) by {
            if j < out.len() {
                assert(o2[j] == out[j]);
            } else {
                assert(o2[j] == ranked[i as int]);
            }
        }
        lemma_extend_strip_fills(o2, ranked, i + 1, limit);
        if limit - out.len() < ranked.len() - i {
            assert(o2 + ranked.subrange((i + 1) as int, i + limit - out.len()) =~= out + ranked.subrange(
                i as int,
                i + limit - out.len(),
            ));
        } else {
            assert(o2 + ranked.subrange((i + 1) as int, ranked.len() as int) =~= out + ranked.subrange(
                i as int,
                ranked.len() as int,
            ));
        }
    } else if out.len() < limit {
        assert(ranked.subrange(i as int, ranked.len() as int) =~= Seq::<CandView>::empty());
        assert(out + Seq::<CandView>::empty() =~= out);
    }
}

} // verus!
