//! Folding missing paradigm forms back into an engine lexicon: which cells
//! of the generated declension tables the lexicon lacks, the rows that add
//! them (form, lemma, frequency, grammeme tag), and the expanded lexicon
//! text. The synthetic frequency of each lemma is a floating-point
//! computation over its present forms' frequencies and comes in as an
//! argument; only forms absent from the lexicon are added, so expanding an
//! expanded lexicon adds nothing.

use vstd::prelude::*;
use vstd::relations::{sorted_by, total_ordering};

use crate::alphabet::{normalize_chars, spec_normalize};
use crate::index::prefix_map::PrefixMap;
use crate::text::{
    all_ws, append_chars, chars_eq, chars_to_string, copy_range, decimal, is_digit, is_prefix, is_ws,
    lemma_concat_free, lemma_decimal_clean, lemma_decimal_digits, lemma_join_free, lemma_lex_total,
    lemma_lex_transitive, lemma_lines_concat, lemma_lines_free, lemma_lines_push, lemma_split_concat,
    lemma_split_free, lemma_split_keeps_free, lemma_split_nonempty, lemma_trim_empty, lex_le,
    lex_less, lines, lines_chars, push_decimal, split, split_chars, starts_with, str_chars, strip_cr,
    trim, trim_chars,
};

verus! {

// ---------------------------------------------------------------------------
// Sorting lines
// ---------------------------------------------------------------------------

/// `str` order as a relation: `a` sorts no later than `b`.
pub open spec fn text_leq() -> spec_fn(Seq<char>, Seq<char>) -> bool {
    |a: Seq<char>, b: Seq<char>| lex_le(a, b)
}

pub open spec fn text_views(v: Seq<Vec<char>>) -> Seq<Seq<char>> {
    v.map_values(|x: Vec<char>| x@)
}

pub proof fn lemma_text_leq_total()
    ensures
        total_ordering(text_leq()),
{
    let r = text_leq();
    assert forall|x: Seq<char>| #[trigger] r(x, x) by {}
    assert forall|x: Seq<char>, y: Seq<char>| #[trigger] r(x, y) && #[trigger] r(y, x) implies x == y by {
        lemma_lex_total(x, y);
    }
    assert forall|x: Seq<char>, y: Seq<char>, z: Seq<char>| #[trigger] r(x, y) && #[trigger] r(y, z) implies r(x, z) by {
        if x != y && y != z {
            lemma_lex_transitive(x, y, z);
        }
    }
    assert forall|x: Seq<char>, y: Seq<char>| #[trigger] r(x, y) || #[trigger] r(y, x) by {
        lemma_lex_total(x, y);
    }
}

proof fn lemma_lex_le_trans(a: Seq<char>, b: Seq<char>, c: Seq<char>)
    requires
        lex_le(a, b),
        lex_le(b, c),
    ensures
        lex_le(a, c),
{
    if a != b && b != c {
        lemma_lex_transitive(a, b, c);
    }
}

fn text_le(a: &Vec<char>, b: &Vec<char>) -> (r: bool)
    ensures
        r == lex_le(a@, b@),
{
    if lex_less(b.as_slice(), a.as_slice()) {
        proof {
            lemma_lex_total(a@, b@);
        }
        false
    } else {
        proof {
            lemma_lex_total(a@, b@);
        }
        true
    }
}

fn merge_lines(a: Vec<Vec<char>>, b: Vec<Vec<char>>) -> (r: Vec<Vec<char>>)
    requires
        sorted_by(text_views(a@), text_leq()),
        sorted_by(text_views(b@), text_leq()),
    ensures
        sorted_by(text_views(r@), text_leq()),
        text_views(r@).to_multiset() == text_views(a@).to_multiset().add(text_views(b@).to_multiset()),
{
    broadcast use vstd::seq_lib::group_to_multiset_ensures;

    proof {
        lemma_text_leq_total();
    }
    let ghost av = text_views(a@);
    let ghost bv = text_views(b@);
    let mut out: Vec<Vec<char>> = Vec::new();
    let mut ai: usize = 0;
    let mut bi: usize = 0;
    assert(av.take(0) =~= Seq::<Seq<char>>::empty());
    assert(bv.take(0) =~= Seq::<Seq<char>>::empty());
    while ai < a.len() || bi < b.len()
        invariant
            total_ordering(text_leq()),
            av == text_views(a@),
            bv == text_views(b@),
            ai <= av.len(),
            bi <= bv.len(),
            sorted_by(av, text_leq()),
            sorted_by(bv, text_leq()),
            sorted_by(text_views(out@), text_leq()),
            out@.len() == ai + bi,
            text_views(out@).to_multiset() == av.take(ai as int).to_multiset().add(
                bv.take(bi as int).to_multiset(),
            ),
            out@.len() > 0 ==> forall|k: int| ai <= k < av.len() ==> #[trigger] lex_le(text_views(out@).last(), av[k]),
            out@.len() > 0 ==> forall|k: int| bi <= k < bv.len() ==> #[trigger] lex_le(text_views(out@).last(), bv[k]),
        decreases av.len() + bv.len() - ai - bi,
    {
        let take_a = if ai >= a.len() {
            false
        } else if bi >= b.len() {
            true
        } else {
            text_le(&a[ai], &b[bi])
        };
        let ghost before = text_views(out@);
        if take_a {
            let x = copy_range(a[ai].as_slice(), 0, a[ai].len());
            assert(x@ =~= av[ai as int]);
            out.push(x);
            proof {
                let ov = text_views(out@);
                assert(ov =~= before.push(av[ai as int]));
                assert(av.take(ai + 1) =~= av.take(ai as int).push(av[ai as int]));
                vstd::seq_lib::to_multiset_build(before, av[ai as int]);
                vstd::seq_lib::to_multiset_build(av.take(ai as int), av[ai as int]);
                assert(ov.to_multiset() =~= av.take(ai + 1).to_multiset().add(bv.take(bi as int).to_multiset()));
                let x = av[ai as int];
                assert forall|p: int, q: int| 0 <= p < q < ov.len() implies #[trigger] (text_leq())(ov[p], ov[q]) by {
                    if q == ov.len() - 1 {
                        if p < before.len() - 1 {
                            assert((text_leq())(before[p], before.last()));
                            lemma_lex_le_trans(before[p], before.last(), x);
                        }
                    } else {
                        assert((text_leq())(before[p], before[q]));
                    }
                }
                assert forall|k: int| ai + 1 <= k < av.len() implies #[trigger] lex_le(ov.last(), av[k]) by {
                    assert((text_leq())(av[ai as int], av[k]));
                }
                assert forall|k: int| bi <= k < bv.len() implies #[trigger] lex_le(ov.last(), bv[k]) by {
                    assert((text_leq())(bv[bi as int], bv[k]) || k == bi);
                    lemma_lex_total(x, bv[bi as int]);
                    lemma_lex_le_trans(x, bv[bi as int], bv[k]);
                }
            }
            ai = ai + 1;
        } else {
            let x = copy_range(b[bi].as_slice(), 0, b[bi].len());
            assert(x@ =~= bv[bi as int]);
            out.push(x);
            proof {
                let ov = text_views(out@);
                assert(ov =~= before.push(bv[bi as int]));
                assert(bv.take(bi + 1) =~= bv.take(bi as int).push(bv[bi as int]));
                vstd::seq_lib::to_multiset_build(before, bv[bi as int]);
                vstd::seq_lib::to_multiset_build(bv.take(bi as int), bv[bi as int]);
                assert(ov.to_multiset() =~= av.take(ai as int).to_multiset().add(bv.take(bi + 1).to_multiset()));
                let x = bv[bi as int];
                assert forall|p: int, q: int| 0 <= p < q < ov.len() implies #[trigger] (text_leq())(ov[p], ov[q]) by {
                    if q == ov.len() - 1 {
                        if p < before.len() - 1 {
                            assert((text_leq())(before[p], before.last()));
                            lemma_lex_le_trans(before[p], before.last(), x);
                        }
                    } else {
                        assert((text_leq())(before[p], before[q]));
                    }
                }
                assert forall|k: int| bi + 1 <= k < bv.len() implies #[trigger] lex_le(ov.last(), bv[k]) by {
                    assert((text_leq())(bv[bi as int], bv[k]));
                }
                assert forall|k: int| ai <= k < av.len() implies #[trigger] lex_le(ov.last(), av[k]) by {
                    assert((text_leq())(av[ai as int], av[k]) || k == ai);
                    lemma_lex_total(x, av[ai as int]);
                    lemma_lex_le_trans(x, av[ai as int], av[k]);
                }
            }
            bi = bi + 1;
        }
    }
    assert(av.take(av.len() as int) =~= av);
    assert(bv.take(bv.len() as int) =~= bv);
    out
}

/// Sorts lines into `str` order (a merge sort).
pub fn sort_lines(v: Vec<Vec<char>>) -> (r: Vec<Vec<char>>)
    ensures
        text_views(r@) == text_views(v@).sort_by(text_leq()),
    decreases v@.len(),
{
    let r = sort_lines_rec(v);
    proof {
        lemma_text_leq_total();
        text_views(v@).lemma_sort_by_ensures(text_leq());
        vstd::seq_lib::lemma_sorted_unique(text_views(r@), text_views(v@).sort_by(text_leq()), text_leq());
    }
    r
}

fn sort_lines_rec(v: Vec<Vec<char>>) -> (r: Vec<Vec<char>>)
    ensures
        sorted_by(text_views(r@), text_leq()),
        text_views(r@).to_multiset() == text_views(v@).to_multiset(),
    decreases v@.len(),
{
    broadcast use vstd::seq_lib::group_to_multiset_ensures;

    if v.len() <= 1 {
        return v;
    }
    let mid = v.len() / 2;
    let mut left = v;
    let ghost all = left@;
    let right = left.split_off(mid);
    proof {
        assert(all =~= left@ + right@);
        assert(text_views(all) =~= text_views(left@) + text_views(right@));
        vstd::seq_lib::lemma_multiset_commutative(text_views(left@), text_views(right@));
    }
    let l = sort_lines_rec(left);
    let r = sort_lines_rec(right);
    merge_lines(l, r)
}

// ---------------------------------------------------------------------------
// The two inputs
// ---------------------------------------------------------------------------

/// A comment line: it starts with `#`.
pub open spec fn is_comment(l: Seq<char>) -> bool {
    l.len() > 0 && l[0] == '#'
}

/// A blank line: nothing but whitespace.
pub open spec fn is_blank(l: Seq<char>) -> bool {
    trim(l).len() == 0
}

/// A data line: neither a comment nor blank.
pub open spec fn is_data(l: Seq<char>) -> bool {
    !is_comment(l) && !is_blank(l)
}

/// A data line with at least three tab-separated fields.
pub open spec fn is_row(l: Seq<char>) -> bool {
    is_data(l) && split(l, '\t').len() >= 3
}

/// The normalized forms of the lexicon rows among the first `n` lines.
pub open spec fn present_fold(ls: Seq<Seq<char>>, n: nat) -> Set<Seq<char>>
    decreases n,
{
    if n == 0 {
        Set::empty()
    } else {
        let p = present_fold(ls, (n - 1) as nat);
        if is_row(ls[n - 1]) {
            p.insert(spec_normalize(split(ls[n - 1], '\t')[0]))
        } else {
            p
        }
    }
}

/// The forms a lexicon already has.
pub open spec fn present_forms(lex: Seq<char>) -> Set<Seq<char>> {
    present_fold(lines(lex), lines(lex).len())
}

/// The normalized lemma and the frequency text of each row among the
/// first `n` lines, in order.
pub open spec fn lemma_freqs_fold(ls: Seq<Seq<char>>, n: nat) -> Seq<(Seq<char>, Seq<char>)>
    decreases n,
{
    if n == 0 {
        Seq::empty()
    } else {
        let p = lemma_freqs_fold(ls, (n - 1) as nat);
        let l = ls[n - 1];
        if is_row(l) {
            p.push((spec_normalize(split(l, '\t')[1]), split(l, '\t')[2]))
        } else {
            p
        }
    }
}

/// Each lexicon row's normalized lemma and its frequency text, in order.
pub open spec fn lemma_freqs_of(lex: Seq<char>) -> Seq<(Seq<char>, Seq<char>)> {
    lemma_freqs_fold(lines(lex), lines(lex).len())
}

/// One paradigm line: normalized lemma, group label, normalized cells.
pub type Entry = (Seq<char>, Seq<char>, Seq<Seq<char>>);

pub open spec fn entry_of(l: Seq<char>) -> Entry {
    let f = split(l, '\t');
    (spec_normalize(f[0]), f[1], split(f[2], '|').map_values(|c: Seq<char>| spec_normalize(c)))
}

/// The paradigm entries among the first `n` lines, in order.
pub open spec fn entries_fold(ls: Seq<Seq<char>>, n: nat) -> Seq<Entry>
    decreases n,
{
    if n == 0 {
        Seq::empty()
    } else {
        let p = entries_fold(ls, (n - 1) as nat);
        if is_row(ls[n - 1]) {
            p.push(entry_of(ls[n - 1]))
        } else {
            p
        }
    }
}

/// The paradigm lines of a hold-groups text, in order.
pub open spec fn entries_of(hold: Seq<char>) -> Seq<Entry> {
    entries_fold(lines(hold), lines(hold).len())
}

/// Lemmas with an adjectival singular group (`sing.<gender>`) among the
/// first `n` entries.
pub open spec fn adjective_fold(es: Seq<Entry>, n: nat) -> Set<Seq<char>>
    decreases n,
{
    if n == 0 {
        Set::empty()
    } else {
        let a = adjective_fold(es, (n - 1) as nat);
        if is_prefix("sing."@, es[n - 1].1) {
            a.insert(es[n - 1].0)
        } else {
            a
        }
    }
}

/// The synthetic frequency given for a lemma: the first one listed.
pub open spec fn fill_of(fills: Seq<(Seq<char>, u64)>, lemma: Seq<char>) -> Option<u64>
    decreases fills.len(),
{
    if fills.len() == 0 {
        None
    } else {
        match fill_of(fills.drop_last(), lemma) {
            Some(x) => Some(x),
            None => if fills.last().0 == lemma {
                Some(fills.last().1)
            } else {
                None
            },
        }
    }
}

/// The grammeme name of the `j`th paradigm cell.
pub open spec fn case_name(j: int) -> Seq<char> {
    if j == 0 {
        "nomn"@
    } else if j == 1 {
        "gent"@
    } else if j == 2 {
        "datv"@
    } else if j == 3 {
        "accs"@
    } else if j == 4 {
        "ablt"@
    } else {
        "loct"@
    }
}

/// The tag of cell `j` of a group: an adjective's singular group names
/// its gender, its other groups the plural; a noun's names its group.
pub open spec fn cell_tag(adjective: bool, group: Seq<char>, j: int) -> Seq<char> {
    if adjective {
        if is_prefix("sing."@, group) {
            "ADJF "@ + group.skip(5) + ",sing,"@ + case_name(j)
        } else {
            "ADJF plur,"@ + case_name(j)
        }
    } else {
        "NOUN "@ + group + seq![','] + case_name(j)
    }
}

/// `form<TAB>lemma<TAB>fill<TAB>tag`.
pub open spec fn row_text(form: Seq<char>, lemma: Seq<char>, fill: u64, tag: Seq<char>) -> Seq<char> {
    form + seq!['\t'] + lemma + seq!['\t'] + decimal(fill as nat) + seq!['\t'] + tag
}

/// Rows so far and the (lemma, form) pairs already added.
pub type Added = (Seq<Seq<char>>, Set<(Seq<char>, Seq<char>)>);

/// Adds the missing cells among the first `j` (of at most six) of one
/// entry.
pub open spec fn cells_fold(
    e: Entry,
    j: nat,
    present: Set<Seq<char>>,
    adjective: bool,
    fill: u64,
    acc: Added,
) -> Added
    decreases j,
{
    if j == 0 {
        acc
    } else {
        let prev = cells_fold(e, (j - 1) as nat, present, adjective, fill, acc);
        let form = e.2[j - 1];
        if form.len() == 0 || present.contains(form) || prev.1.contains((e.0, form)) {
            prev
        } else {
            (
                prev.0.push(row_text(form, e.0, fill, cell_tag(adjective, e.1, j - 1))),
                prev.1.insert((e.0, form)),
            )
        }
    }
}

/// How many cells of an entry count: at most the six cases.
pub open spec fn cell_count(e: Entry) -> nat {
    if e.2.len() < 6 {
        e.2.len()
    } else {
        6
    }
}

/// The rows added for the first `n` entries: entries of lemmas with a
/// synthetic frequency contribute their cells absent from the lexicon,
/// each (lemma, form) once.
pub open spec fn rows_fold(
    es: Seq<Entry>,
    n: nat,
    present: Set<Seq<char>>,
    adjectives: Set<Seq<char>>,
    fills: Seq<(Seq<char>, u64)>,
) -> Added
    decreases n,
{
    if n == 0 {
        (Seq::empty(), Set::empty())
    } else {
        let prev = rows_fold(es, (n - 1) as nat, present, adjectives, fills);
        let e = es[n - 1];
        match fill_of(fills, e.0) {
            None => prev,
            Some(fill) => cells_fold(e, cell_count(e), present, adjectives.contains(e.0), fill, prev),
        }
    }
}

/// The rows that fold the missing paradigm forms into the lexicon, in
/// `str` order.
pub open spec fn expansion_rows_of(lex: Seq<char>, hold: Seq<char>, fills: Seq<(Seq<char>, u64)>) -> Seq<Seq<char>> {
    let es = entries_of(hold);
    rows_fold(es, es.len(), present_forms(lex), adjective_fold(es, es.len()), fills).0.sort_by(text_leq())
}

// ---------------------------------------------------------------------------
// Reading the inputs
// ---------------------------------------------------------------------------

fn is_row_exec(l: &Vec<char>) -> (r: Option<Vec<Vec<char>>>)
    ensures
        r is Some <==> is_row(l@),
        r matches Some(f) ==> f@.len() == split(l@, '\t').len() && forall|k: int|
            0 <= k < f@.len() ==> #[trigger] f@[k]@ == split(l@, '\t')[k],
{
    if l.len() > 0 && l[0] == '#' {
        return None;
    }
    let t = trim_chars(l.as_slice());
    if t.len() == 0 {
        return None;
    }
    let f = split_chars(l.as_slice(), '\t');
    if f.len() < 3 {
        None
    } else {
        Some(f)
    }
}

pub open spec fn freq_views(v: Seq<(String, String)>) -> Seq<(Seq<char>, Seq<char>)> {
    v.map_values(|p: (String, String)| (p.0@, p.1@))
}

/// Each lexicon row's normalized lemma and frequency text, in row order.
pub fn lemma_freqs(lex: &str) -> (r: Vec<(String, String)>)
    ensures
        freq_views(r@) == lemma_freqs_of(lex@),
{
    let t = str_chars(lex);
    let ls = lines_chars(t.as_slice());
    let ghost sl = lines(lex@);
    let mut out: Vec<(String, String)> = Vec::new();
    let mut i: usize = 0;
    assert(freq_views(out@) =~= lemma_freqs_fold(sl, 0));
    while i < ls.len()
        invariant
            t@ == lex@,
            sl == lines(lex@),
            ls@.len() == sl.len(),
            forall|k: int| 0 <= k < ls@.len() ==> #[trigger] ls@[k]@ == sl[k],
            i <= ls@.len(),
            freq_views(out@) == lemma_freqs_fold(sl, i as nat),
        decreases ls@.len() - i,
    {
        let ghost before = freq_views(out@);
        assert(ls@[i as int]@ == sl[i as int]);
        match is_row_exec(&ls[i]) {
            Some(f) => {
                let lemma = normalize_chars(f[1].as_slice());
                let pair = (chars_to_string(lemma.as_slice()), chars_to_string(f[2].as_slice()));
                out.push(pair);
                proof {
                    assert(freq_views(out@) =~= before.push(
                        (spec_normalize(split(sl[i as int], '\t')[1]), split(sl[i as int], '\t')[2]),
                    ));
                }
            },
            None => {},
        }
        i = i + 1;
    }
    out
}

/// A set of keys held in a prefix map, each under a single posting.
pub open spec fn key_table(m: Map<Seq<char>, Seq<(u32, u32)>>, keys: Set<Seq<char>>) -> bool {
    m == Map::new(|k: Seq<char>| keys.contains(k), |k: Seq<char>| seq![(0u32, 0u32)])
}

fn has_key(m: &PrefixMap, k: &Vec<char>) -> (r: bool)
    requires
        m.wf(),
        forall|q: Seq<char>| #[trigger] m.view().contains_key(q) ==> m.view()[q].len() > 0,
    ensures
        r == m.view().contains_key(k@),
{
    let key = chars_to_string(k.as_slice());
    m.exact(key.as_str(), 1).len() > 0
}

fn present_table(ls: &Vec<Vec<char>>, Ghost(sl): Ghost<Seq<Seq<char>>>) -> (m: PrefixMap)
    requires
        ls@.len() == sl.len(),
        forall|k: int| 0 <= k < ls@.len() ==> #[trigger] ls@[k]@ == sl[k],
    ensures
        m.wf(),
        key_table(m.view(), present_fold(sl, sl.len())),
{
    let mut m = PrefixMap::new();
    let mut i: usize = 0;
    assert(m.view() =~= Map::new(|k: Seq<char>| present_fold(sl, 0).contains(k), |k: Seq<char>| seq![(0u32, 0u32)]));
    while i < ls.len()
        invariant
            ls@.len() == sl.len(),
            forall|k: int| 0 <= k < ls@.len() ==> #[trigger] ls@[k]@ == sl[k],
            i <= ls@.len(),
            m.wf(),
            key_table(m.view(), present_fold(sl, i as nat)),
        decreases ls@.len() - i,
    {
        assert(ls@[i as int]@ == sl[i as int]);
        match is_row_exec(&ls[i]) {
            Some(f) => {
                let form = normalize_chars(f[0].as_slice());
                if !has_key(&m, &form) {
                    m.insert_chars(form, 0, 0);
                }
                proof {
                    assert(m.view() =~= Map::new(|k: Seq<char>| present_fold(sl, (i + 1) as nat).contains(k), |k: Seq<char>| seq![(0u32, 0u32)]));
                }
            },
            None => {},
        }
        i = i + 1;
    }
    m
}

pub type ExecEntry = (Vec<char>, Vec<char>, Vec<Vec<char>>);

pub open spec fn entry_view(e: ExecEntry) -> Entry {
    (e.0@, e.1@, text_views(e.2@))
}

pub open spec fn entry_views(v: Seq<ExecEntry>) -> Seq<Entry> {
    v.map_values(|e: ExecEntry| entry_view(e))
}

fn read_entries(ls: &Vec<Vec<char>>, Ghost(sl): Ghost<Seq<Seq<char>>>) -> (r: Vec<ExecEntry>)
    requires
        ls@.len() == sl.len(),
        forall|k: int| 0 <= k < ls@.len() ==> #[trigger] ls@[k]@ == sl[k],
    ensures
        entry_views(r@) == entries_fold(sl, sl.len()),
{
    let mut out: Vec<ExecEntry> = Vec::new();
    let mut i: usize = 0;
    assert(entry_views(out@) =~= entries_fold(sl, 0));
    while i < ls.len()
        invariant
            ls@.len() == sl.len(),
            forall|k: int| 0 <= k < ls@.len() ==> #[trigger] ls@[k]@ == sl[k],
            i <= ls@.len(),
            entry_views(out@) == entries_fold(sl, i as nat),
        decreases ls@.len() - i,
    {
        let ghost before = entry_views(out@);
        assert(ls@[i as int]@ == sl[i as int]);
        match is_row_exec(&ls[i]) {
            Some(f) => {
                let lemma = normalize_chars(f[0].as_slice());
                let group = copy_range(f[1].as_slice(), 0, f[1].len());
                let raw = split_chars(f[2].as_slice(), '|');
                let mut cells: Vec<Vec<char>> = Vec::new();
                let mut j: usize = 0;
                while j < raw.len()
                    invariant
                        j <= raw@.len(),
                        cells@.len() == j,
                        forall|q: int| 0 <= q < j ==> #[trigger] cells@[q]@ == spec_normalize(raw@[q]@),
                    decreases raw@.len() - j,
                {
                    cells.push(normalize_chars(raw[j].as_slice()));
                    j = j + 1;
                }
                let e = (lemma, group, cells);
                proof {
                    let ev = entry_view(e);
                    let want = entry_of(sl[i as int]);
                    assert(group@ =~= f@[1]@);
                    assert(text_views(cells@) =~= split(f@[2]@, '|').map_values(|c: Seq<char>| spec_normalize(c)));
                    assert(ev == want);
                }
                out.push(e);
                proof {
                    assert(entry_views(out@) =~= before.push(entry_of(sl[i as int])));
                }
            },
            None => {},
        }
        i = i + 1;
    }
    out
}

fn adjective_table(es: &Vec<ExecEntry>) -> (m: PrefixMap)
    ensures
        m.wf(),
        key_table(m.view(), adjective_fold(entry_views(es@), es@.len())),
{
    let ghost ev = entry_views(es@);
    let mut m = PrefixMap::new();
    let sing = str_chars("sing.");
    let mut i: usize = 0;
    assert(m.view() =~= Map::new(|k: Seq<char>| adjective_fold(ev, 0).contains(k), |k: Seq<char>| seq![(0u32, 0u32)]));
    while i < es.len()
        invariant
            ev == entry_views(es@),
            sing@ == "sing."@,
            i <= es@.len(),
            m.wf(),
            key_table(m.view(), adjective_fold(ev, i as nat)),
        decreases es@.len() - i,
    {
        assert(ev[i as int] == entry_view(es@[i as int]));
        if starts_with(es[i].1.as_slice(), sing.as_slice()) {
            let lemma = copy_range(es[i].0.as_slice(), 0, es[i].0.len());
            assert(lemma@ =~= es@[i as int].0@);
            if !has_key(&m, &lemma) {
                m.insert_chars(lemma, 0, 0);
            }
        }
        proof {
            assert(m.view() =~= Map::new(|k: Seq<char>| adjective_fold(ev, (i + 1) as nat).contains(k), |k: Seq<char>| seq![(0u32, 0u32)]));
        }
        i = i + 1;
    }
    m
}

pub open spec fn fill_views(v: Seq<(String, u64)>) -> Seq<(Seq<char>, u64)> {
    v.map_values(|p: (String, u64)| (p.0@, p.1))
}

/// The fill table: each lemma under the position of its first fill.
pub open spec fn fill_table(m: Map<Seq<char>, Seq<(u32, u32)>>, fills: Seq<(Seq<char>, u64)>) -> bool {
    &&& forall|k: Seq<char>| #[trigger] m.contains_key(k) <==> fill_of(fills, k) is Some
    &&& forall|k: Seq<char>|
        #[trigger] m.contains_key(k) ==> m[k].len() == 1 && m[k][0].1 < fills.len() && fills[m[k][0].1 as int].1
            == fill_of(fills, k)->0 && fills[m[k][0].1 as int].0 == k
}

proof fn lemma_fill_of_prefix(fills: Seq<(Seq<char>, u64)>, n: nat, k: Seq<char>)
    requires
        n < fills.len(),
    ensures
        fill_of(fills.take(n + 1 as int), k) == (match fill_of(fills.take(n as int), k) {
            Some(x) => Some(x),
            None => if fills[n as int].0 == k {
                Some(fills[n as int].1)
            } else {
                None
            },
        }),
{
    assert(fills.take(n + 1 as int).drop_last() =~= fills.take(n as int));
}

fn fills_table(fills: &Vec<(String, u64)>) -> (m: PrefixMap)
    requires
        fills@.len() <= u32::MAX,
    ensures
        m.wf(),
        fill_table(m.view(), fill_views(fills@)),
{
    let ghost fv = fill_views(fills@);
    let mut m = PrefixMap::new();
    let mut i: usize = 0;
    assert(fv.take(0) =~= Seq::<(Seq<char>, u64)>::empty());
    while i < fills.len()
        invariant
            fv == fill_views(fills@),
            fills@.len() <= u32::MAX,
            i <= fills@.len(),
            m.wf(),
            forall|k: Seq<char>| #[trigger] m.view().contains_key(k) <==> fill_of(fv.take(i as int), k) is Some,
            forall|k: Seq<char>|
                #[trigger] m.view().contains_key(k) ==> m.view()[k].len() == 1 && m.view()[k][0].1 < i
                    && fv[m.view()[k][0].1 as int].1 == fill_of(fv.take(i as int), k)->0
                    && fv[m.view()[k][0].1 as int].0 == k,
        decreases fills@.len() - i,
    {
        let key = str_chars(fills[i].0.as_str());
        proof {
            assert forall|k: Seq<char>| true implies #[trigger] fill_of(fv.take(i + 1), k) == (match fill_of(fv.take(i as int), k) {
                Some(x) => Some(x),
                None => if fv[i as int].0 == k {
                    Some(fv[i as int].1)
                } else {
                    None
                },
            }) by {
                lemma_fill_of_prefix(fv, i as nat, k);
            }
        }
        if !has_key(&m, &key) {
            m.insert_chars(key, i as u32, 0);
        }
        i = i + 1;
    }
    assert(fv.take(fv.len() as int) =~= fv);
    m
}

// ---------------------------------------------------------------------------
// The added rows
// ---------------------------------------------------------------------------

fn case_chars(j: usize) -> (r: Vec<char>)
    requires
        j < 6,
    ensures
        r@ == case_name(j as int),
{
    if j == 0 {
        str_chars("nomn")
    } else if j == 1 {
        str_chars("gent")
    } else if j == 2 {
        str_chars("datv")
    } else if j == 3 {
        str_chars("accs")
    } else if j == 4 {
        str_chars("ablt")
    } else {
        str_chars("loct")
    }
}

fn row_line(form: &Vec<char>, lemma: &Vec<char>, fill: u64, adjective: bool, group: &Vec<char>, j: usize) -> (r: Vec<char>)
    requires
        j < 6,
    ensures
        r@ == row_text(form@, lemma@, fill, cell_tag(adjective, group@, j as int)),
{
    let mut out = copy_range(form.as_slice(), 0, form.len());
    out.push('\t');
    append_chars(&mut out, lemma.as_slice());
    out.push('\t');
    push_decimal(&mut out, fill);
    out.push('\t');
    let ghost head = out@;
    let case = case_chars(j);
    if adjective {
        let sing = str_chars("sing.");
        proof {
            reveal_strlit("sing.");
        }
        if starts_with(group.as_slice(), sing.as_slice()) {
            let a = str_chars("ADJF ");
            append_chars(&mut out, a.as_slice());
            let gender = copy_range(group.as_slice(), 5, group.len());
            append_chars(&mut out, gender.as_slice());
            let b = str_chars(",sing,");
            append_chars(&mut out, b.as_slice());
            append_chars(&mut out, case.as_slice());
            proof {
                assert(gender@ =~= group@.skip(5));
                assert(out@ =~= head + ("ADJF "@ + group@.skip(5) + ",sing,"@ + case_name(j as int)));
            }
        } else {
            let a = str_chars("ADJF plur,");
            append_chars(&mut out, a.as_slice());
            append_chars(&mut out, case.as_slice());
            proof {
                assert(out@ =~= head + ("ADJF plur,"@ + case_name(j as int)));
            }
        }
    } else {
        let a = str_chars("NOUN ");
        append_chars(&mut out, a.as_slice());
        append_chars(&mut out, group.as_slice());
        out.push(',');
        append_chars(&mut out, case.as_slice());
        proof {
            assert(out@ =~= head + ("NOUN "@ + group@ + seq![','] + case_name(j as int)));
        }
    }
    proof {
        assert(out@ =~= row_text(form@, lemma@, fill, cell_tag(adjective, group@, j as int)));
    }
    out
}

fn contains_text(list: &Vec<Vec<char>>, f: &Vec<char>) -> (r: bool)
    ensures
        r == text_views(list@).contains(f@),
{
    let mut i: usize = 0;
    while i < list.len()
        invariant
            i <= list@.len(),
            forall|k: int| 0 <= k < i ==> list@[k]@ != f@,
        decreases list@.len() - i,
    {
        if chars_eq(list[i].as_slice(), f.as_slice()) {
            assert(text_views(list@)[i as int] == f@);
            return true;
        }
        i = i + 1;
    }
    proof {
        if text_views(list@).contains(f@) {
            let k = text_views(list@).index_of(f@);
            assert(list@[k]@ == f@);
        }
    }
    false
}

/// Each lemma's added forms are kept at its fill's position.
pub open spec fn seen_table(
    fills: Map<Seq<char>, Seq<(u32, u32)>>,
    lists: Seq<Seq<Seq<char>>>,
    seen: Set<(Seq<char>, Seq<char>)>,
) -> bool {
    forall|l: Seq<char>, f: Seq<char>|
        #[trigger] seen.contains((l, f)) <==> (fills.contains_key(l) && lists[fills[l][0].1 as int].contains(f))
}

pub open spec fn list_views(v: Seq<Vec<Vec<char>>>) -> Seq<Seq<Seq<char>>> {
    v.map_values(|l: Vec<Vec<char>>| text_views(l@))
}

pub open spec fn string_views(v: Seq<String>) -> Seq<Seq<char>> {
    v.map_values(|s: String| s@)
}

/// The rows that fold the paradigm cells missing from the lexicon into it,
/// sorted: for every paradigm line of a lemma with a fill, each of its
/// first six cells that is non-empty, absent from the lexicon and not yet
/// added for the lemma becomes `form<TAB>lemma<TAB>fill<TAB>tag`.
pub fn expansion_rows(lex: &str, hold: &str, fills: &Vec<(String, u64)>) -> (r: Vec<String>)
    requires
        fills@.len() <= u32::MAX,
    ensures
        string_views(r@) == expansion_rows_of(lex@, hold@, fill_views(fills@)),
{
    let lt = str_chars(lex);
    let lls = lines_chars(lt.as_slice());
    let present = present_table(&lls, Ghost(lines(lex@)));
    let ht = str_chars(hold);
    let hls = lines_chars(ht.as_slice());
    let es = read_entries(&hls, Ghost(lines(hold@)));
    let adj = adjective_table(&es);
    let ft = fills_table(fills);
    let ghost esv = entry_views(es@);
    let ghost pres = present_fold(lines(lex@), lines(lex@).len());
    let ghost adjs = adjective_fold(esv, esv.len());
    let ghost fv = fill_views(fills@);
    let mut lists: Vec<Vec<Vec<char>>> = Vec::new();
    let mut q: usize = 0;
    while q < fills.len()
        invariant
            q <= fills@.len(),
            lists@.len() == q,
            forall|x: int| 0 <= x < q ==> (#[trigger] lists@[x])@ == Seq::<Vec<char>>::empty(),
        decreases fills@.len() - q,
    {
        lists.push(Vec::new());
        q = q + 1;
    }
    let mut rows: Vec<Vec<char>> = Vec::new();
    let mut n: usize = 0;
    proof {
        assert(text_views(rows@) =~= Seq::<Seq<char>>::empty());
        assert forall|l: Seq<char>, f: Seq<char>| #[trigger] rows_fold(esv, 0, pres, adjs, fv).1.contains((l, f)) <==> (ft.view().contains_key(l) && list_views(lists@)[ft.view()[l][0].1 as int].contains(f)) by {
            if ft.view().contains_key(l) {
                let x = ft.view()[l][0].1 as int;
                assert(list_views(lists@)[x] =~= Seq::<Seq<char>>::empty());
            }
        }
    }
    while n < es.len()
        invariant
            esv == entry_views(es@),
            entries_of(hold@) == esv,
            pres == present_forms(lex@),
            adjs == adjective_fold(esv, esv.len()),
            fv == fill_views(fills@),
            present.wf(),
            key_table(present.view(), pres),
            adj.wf(),
            key_table(adj.view(), adjs),
            ft.wf(),
            fill_table(ft.view(), fv),
            n <= es@.len(),
            lists@.len() == fills@.len(),
            seen_table(ft.view(), list_views(lists@), rows_fold(esv, n as nat, pres, adjs, fv).1),
            text_views(rows@) == rows_fold(esv, n as nat, pres, adjs, fv).0,
        decreases es@.len() - n,
    {
        let ghost prev = rows_fold(esv, n as nat, pres, adjs, fv);
        let ghost ev = esv[n as int];
        assert(ev == entry_view(es@[n as int]));
        let lemma_s = chars_to_string(es[n].0.as_slice());
        let hit = ft.exact(lemma_s.as_str(), 1);
        if hit.len() > 0 {
            proof {
                assert(ft.view().contains_key(ev.0));
                assert(hit@[0] == ft.view()[ev.0][0].1);
            }
            let slot = hit[0] as usize;
            let fill = fills[slot].1;
            proof {
                assert(fv[slot as int].1 == fills@[slot as int].1);
                assert(fill_of(fv, ev.0) == Some(fill));
            }
            let adjective = has_key(&adj, &es[n].0);
            let ghost before_lists = list_views(lists@);
            let mut cur: Vec<Vec<char>> = Vec::new();
            lists.set_and_swap(slot, &mut cur);
            proof {
                assert forall|f: Seq<char>| prev.1.contains((ev.0, f)) <==> text_views(cur@).contains(f) by {
                    assert(before_lists[slot as int] == text_views(cur@));
                }
            }
            let count = if es[n].2.len() < 6 {
                es[n].2.len()
            } else {
                6
            };
            let mut j: usize = 0;
            while j < count
                invariant
                    n < es@.len(),
                    j <= count,
                    count == cell_count(ev),
                    ev == entry_view(es@[n as int]),
                    present.wf(),
                    key_table(present.view(), pres),
                    adjective == adjs.contains(ev.0),
                    text_views(rows@) == cells_fold(ev, j as nat, pres, adjective, fill, prev).0,
                    forall|f: Seq<char>| #[trigger] cells_fold(ev, j as nat, pres, adjective, fill, prev).1.contains((ev.0, f)) <==> text_views(cur@).contains(f),
                    forall|l: Seq<char>, f: Seq<char>| l != ev.0 ==> (#[trigger] cells_fold(ev, j as nat, pres, adjective, fill, prev).1.contains((l, f)) <==> prev.1.contains((l, f))),
                decreases count - j,
            {
                let form = &es[n].2[j];
                assert(form@ == ev.2[j as int]);
                if form.len() > 0 && !has_key(&present, form) && !contains_text(&cur, form) {
                    let line = row_line(form, &es[n].0, fill, adjective, &es[n].1, j);
                    rows.push(line);
                    let ghost cv = text_views(cur@);
                    let fc = copy_range(form.as_slice(), 0, form.len());
                    assert(fc@ =~= form@);
                    cur.push(fc);
                    proof {
                        assert(text_views(cur@) =~= cv.push(form@));
                        assert forall|f: Seq<char>| text_views(cur@).contains(f) == (cv.contains(f) || f == form@) by {
                            if text_views(cur@).contains(f) {
                                let x = text_views(cur@).index_of(f);
                                if x < cv.len() {
                                    assert(cv[x] == f);
                                }
                            }
                            if cv.contains(f) {
                                let x = cv.index_of(f);
                                assert(text_views(cur@)[x] == f);
                            }
                            if f == form@ {
                                assert(text_views(cur@)[cv.len() as int] == f);
                            }
                        }
                    }
                }
                proof {
                    assert(text_views(rows@) =~= cells_fold(ev, (j + 1) as nat, pres, adjective, fill, prev).0);
                }
                j = j + 1;
            }
            lists.set_and_swap(slot, &mut cur);
            proof {
                let next = rows_fold(esv, (n + 1) as nat, pres, adjs, fv);
                assert(next == cells_fold(ev, cell_count(ev), pres, adjective, fill, prev));
                let lv = list_views(lists@);
                assert(lv =~= before_lists.update(slot as int, lv[slot as int]));
                assert forall|l: Seq<char>, f: Seq<char>| #[trigger] next.1.contains((l, f)) <==> (ft.view().contains_key(l) && lv[ft.view()[l][0].1 as int].contains(f)) by {
                    if l != ev.0 {
                        if ft.view().contains_key(l) {
                            assert(ft.view()[l][0].1 != slot) by {
                                assert(fv[ft.view()[l][0].1 as int].0 == l);
                                assert(fv[slot as int].0 == ev.0);
                            }
                        }
                    }
                }
            }
        } else {
            proof {
                assert(!ft.view().contains_key(ev.0));
                assert(rows_fold(esv, (n + 1) as nat, pres, adjs, fv) == prev);
            }
        }
        n = n + 1;
    }
    let sorted = sort_lines(rows);
    let mut out: Vec<String> = Vec::new();
    let mut k: usize = 0;
    while k < sorted.len()
        invariant
            k <= sorted@.len(),
            string_views(out@) == text_views(sorted@).take(k as int),
        decreases sorted@.len() - k,
    {
        let line = chars_to_string(sorted[k].as_slice());
        let ghost before = string_views(out@);
        out.push(line);
        proof {
            assert(text_views(sorted@)[k as int] == sorted@[k as int]@);
            assert(string_views(out@) =~= before.push(line@));
            assert(string_views(out@) =~= text_views(sorted@).take(k + 1));
        }
        k = k + 1;
    }
    proof {
        assert(text_views(sorted@).take(sorted@.len() as int) =~= text_views(sorted@));
    }
    out
}

// ---------------------------------------------------------------------------
// The expanded lexicon
// ---------------------------------------------------------------------------

/// The comment lines among the first `n`, each ended by a newline.
pub open spec fn comment_text(ls: Seq<Seq<char>>, n: nat) -> Seq<char>
    decreases n,
{
    if n == 0 {
        Seq::empty()
    } else {
        let p = comment_text(ls, (n - 1) as nat);
        if is_comment(ls[n - 1]) {
            p + ls[n - 1] + seq!['\n']
        } else {
            p
        }
    }
}

/// The data lines among the first `n`, verbatim, each ended by a newline.
pub open spec fn data_text(ls: Seq<Seq<char>>, n: nat) -> Seq<char>
    decreases n,
{
    if n == 0 {
        Seq::empty()
    } else {
        let p = data_text(ls, (n - 1) as nat);
        if is_data(ls[n - 1]) {
            p + ls[n - 1] + seq!['\n']
        } else {
            p
        }
    }
}

/// The first `n` lines, each ended by a newline.
pub open spec fn lines_text(rows: Seq<Seq<char>>, n: nat) -> Seq<char>
    decreases n,
{
    if n == 0 {
        Seq::empty()
    } else {
        lines_text(rows, (n - 1) as nat) + rows[n - 1] + seq!['\n']
    }
}

/// The expanded lexicon: the original comments, a note of what was added,
/// the original rows verbatim, then the added rows.
pub open spec fn expanded_text(lex: Seq<char>, added: Seq<Seq<char>>, ratio: Seq<char>) -> Seq<char> {
    let ls = lines(lex);
    comment_text(ls, ls.len()) + "# + "@ + decimal(added.len()) + " paradigm forms folded in by `lexicon-builder expand` (ratio "@
        + ratio + ")\n"@ + data_text(ls, ls.len()) + lines_text(added, added.len())
}

/// The expanded lexicon text for the rows added; `ratio` is how the
/// frequency ratio reads.
pub fn expanded_lexicon(lex: &str, added: &Vec<String>, ratio: &str) -> (r: String)
    ensures
        r@ == expanded_text(lex@, string_views(added@), ratio@),
{
    let t = str_chars(lex);
    let ls = lines_chars(t.as_slice());
    let ghost sl = lines(lex@);
    let mut head: Vec<char> = Vec::new();
    let mut body: Vec<char> = Vec::new();
    let mut i: usize = 0;
    while i < ls.len()
        invariant
            t@ == lex@,
            sl == lines(lex@),
            ls@.len() == sl.len(),
            forall|k: int| 0 <= k < ls@.len() ==> #[trigger] ls@[k]@ == sl[k],
            i <= ls@.len(),
            head@ == comment_text(sl, i as nat),
            body@ == data_text(sl, i as nat),
        decreases ls@.len() - i,
    {
        let l = &ls[i];
        assert(l@ == sl[i as int]);
        if l.len() > 0 && l[0] == '#' {
            append_chars(&mut head, l.as_slice());
            head.push('\n');
        } else {
            let tr = trim_chars(l.as_slice());
            if tr.len() > 0 {
                append_chars(&mut body, l.as_slice());
                body.push('\n');
            }
        }
        i = i + 1;
    }
    let mut out = head;
    let note = str_chars("# + ");
    append_chars(&mut out, note.as_slice());
    push_decimal(&mut out, added.len() as u64);
    let mid = str_chars(" paradigm forms folded in by `lexicon-builder expand` (ratio ");
    append_chars(&mut out, mid.as_slice());
    let rv = str_chars(ratio);
    append_chars(&mut out, rv.as_slice());
    let close = str_chars(")\n");
    append_chars(&mut out, close.as_slice());
    append_chars(&mut out, body.as_slice());
    let ghost before = out@;
    let mut k: usize = 0;
    while k < added.len()
        invariant
            k <= added@.len(),
            out@ == before + lines_text(string_views(added@), k as nat),
        decreases added@.len() - k,
    {
        let a = str_chars(added[k].as_str());
        append_chars(&mut out, a.as_slice());
        out.push('\n');
        proof {
            assert(string_views(added@)[k as int] == added@[k as int]@);
            assert(out@ =~= before + lines_text(string_views(added@), (k + 1) as nat));
        }
        k = k + 1;
    }
    proof {
        assert(out@ =~= expanded_text(lex@, string_views(added@), ratio@));
    }
    chars_to_string(out.as_slice())
}

// ---------------------------------------------------------------------------
// Laws
// ---------------------------------------------------------------------------

/// A row adds `form` under `lemma`: it spells the form, the lemma, the
/// lemma's fill and a tag, the form is non-empty and absent from the
/// lexicon, and the lemma has that fill.
pub open spec fn adds_absent(
    row: Seq<char>,
    present: Set<Seq<char>>,
    fills: Seq<(Seq<char>, u64)>,
    seen: Set<(Seq<char>, Seq<char>)>,
) -> bool {
    exists|form: Seq<char>, lemma: Seq<char>, fill: u64, tag: Seq<char>|
        #![trigger row_text(form, lemma, fill, tag)]
        row == row_text(form, lemma, fill, tag) && form.len() > 0 && !present.contains(form)
            && fill_of(fills, lemma) == Some(fill) && seen.contains((lemma, form))
}

proof fn lemma_cells_fold_absent(
    e: Entry,
    j: nat,
    present: Set<Seq<char>>,
    adjective: bool,
    fill: u64,
    acc: Added,
    fills: Seq<(Seq<char>, u64)>,
)
    requires
        j <= e.2.len(),
        fill_of(fills, e.0) == Some(fill),
        acc.1.finite(),
        acc.0.len() == acc.1.len(),
        forall|i: int| 0 <= i < acc.0.len() ==> adds_absent(#[trigger] acc.0[i], present, fills, acc.1),
    ensures
        cells_fold(e, j, present, adjective, fill, acc).1.finite(),
        cells_fold(e, j, present, adjective, fill, acc).0.len() == cells_fold(e, j, present, adjective, fill, acc).1.len(),
        forall|i: int|
            0 <= i < cells_fold(e, j, present, adjective, fill, acc).0.len() ==> adds_absent(
                #[trigger] cells_fold(e, j, present, adjective, fill, acc).0[i],
                present,
                fills,
                cells_fold(e, j, present, adjective, fill, acc).1,
            ),
        acc.1.subset_of(cells_fold(e, j, present, adjective, fill, acc).1),
    decreases j,
{
    if j > 0 {
        lemma_cells_fold_absent(e, (j - 1) as nat, present, adjective, fill, acc, fills);
        let prev = cells_fold(e, (j - 1) as nat, present, adjective, fill, acc);
        let form = e.2[j - 1];
        if !(form.len() == 0 || present.contains(form) || prev.1.contains((e.0, form))) {
            let row = row_text(form, e.0, fill, cell_tag(adjective, e.1, j - 1));
            let next = cells_fold(e, j, present, adjective, fill, acc);
            assert(next.0 == prev.0.push(row));
            assert(next.1 == prev.1.insert((e.0, form)));
            assert forall|i: int| 0 <= i < next.0.len() implies adds_absent(#[trigger] next.0[i], present, fills, next.1) by {
                if i < prev.0.len() {
                    assert(next.0[i] == prev.0[i]);
                    assert(adds_absent(prev.0[i], present, fills, prev.1));
                    let (f, l, fl, t) = choose|f: Seq<char>, l: Seq<char>, fl: u64, t: Seq<char>|
                        #![trigger row_text(f, l, fl, t)]
                        prev.0[i] == row_text(f, l, fl, t) && f.len() > 0 && !present.contains(f)
                            && fill_of(fills, l) == Some(fl) && prev.1.contains((l, f));
                    assert(next.1.contains((l, f)));
                    assert(row_text(f, l, fl, t) == next.0[i]);
                } else {
                    assert(next.0[i] == row);
                    assert(row == row_text(form, e.0, fill, cell_tag(adjective, e.1, j - 1)));
                }
            }
        }
    }
}

proof fn lemma_rows_fold_absent(
    es: Seq<Entry>,
    n: nat,
    present: Set<Seq<char>>,
    adjectives: Set<Seq<char>>,
    fills: Seq<(Seq<char>, u64)>,
)
    requires
        n <= es.len(),
    ensures
        rows_fold(es, n, present, adjectives, fills).1.finite(),
        rows_fold(es, n, present, adjectives, fills).0.len() == rows_fold(es, n, present, adjectives, fills).1.len(),
        forall|i: int|
            0 <= i < rows_fold(es, n, present, adjectives, fills).0.len() ==> adds_absent(
                #[trigger] rows_fold(es, n, present, adjectives, fills).0[i],
                present,
                fills,
                rows_fold(es, n, present, adjectives, fills).1,
            ),
    decreases n,
{
    if n > 0 {
        lemma_rows_fold_absent(es, (n - 1) as nat, present, adjectives, fills);
        let e = es[n - 1];
        let prev = rows_fold(es, (n - 1) as nat, present, adjectives, fills);
        match fill_of(fills, e.0) {
            None => {},
            Some(fill) => {
                lemma_cells_fold_absent(e, cell_count(e), present, adjectives.contains(e.0), fill, prev, fills);
            },
        }
    } else {
        assert(Set::<(Seq<char>, Seq<char>)>::empty().len() == 0);
    }
}

/// Expanding adds only forms the lexicon lacks: every added row spells a
/// non-empty form absent from the lexicon, a lemma with a fill and that
/// fill, and no (lemma, form) pair is added twice.
pub proof fn lemma_expansion_adds_only_absent_forms(lex: Seq<char>, hold: Seq<char>, fills: Seq<(Seq<char>, u64)>)
    ensures
        ({
            let es = entries_of(hold);
            let added = rows_fold(es, es.len(), present_forms(lex), adjective_fold(es, es.len()), fills);
            &&& added.0.len() == added.1.len()
            &&& expansion_rows_of(lex, hold, fills).len() == added.0.len()
            &&& forall|i: int|
                0 <= i < expansion_rows_of(lex, hold, fills).len() ==> adds_absent(
                    #[trigger] expansion_rows_of(lex, hold, fills)[i],
                    present_forms(lex),
                    fills,
                    added.1,
                )
        }),
{
    broadcast use vstd::seq_lib::group_to_multiset_ensures;

    let es = entries_of(hold);
    let added = rows_fold(es, es.len(), present_forms(lex), adjective_fold(es, es.len()), fills);
    lemma_rows_fold_absent(es, es.len(), present_forms(lex), adjective_fold(es, es.len()), fills);
    lemma_text_leq_total();
    added.0.lemma_sort_by_ensures(text_leq());
    let r = expansion_rows_of(lex, hold, fills);
    assert(r.len() == added.0.len()) by {
        assert(r.to_multiset().len() == added.0.to_multiset().len());
    }
    assert forall|i: int| 0 <= i < r.len() implies adds_absent(#[trigger] r[i], present_forms(lex), fills, added.1) by {
        assert(r.contains(r[i]));
        assert(r.to_multiset().contains(r[i]));
        assert(added.0.to_multiset().contains(r[i]));
        assert(added.0.contains(r[i]));
        let k = added.0.index_of(r[i]);
        assert(added.0[k] == r[i]);
    }
}

// ---------------------------------------------------------------------------
// Expanding twice
// ---------------------------------------------------------------------------

/// A paradigm cell that a lexicon row carries back unchanged: spelled as
/// normalization leaves it, with neither tab nor newline, and not opening
/// a comment line.
pub open spec fn rereadable_cell(c: Seq<char>) -> bool {
    &&& spec_normalize(c) == c
    &&& !c.contains('\t')
    &&& !c.contains('\n')
    &&& (c.len() == 0 || c[0] != '#')
}

/// Every entry that can add rows (one with a synthetic frequency) has a
/// lemma without newline and rereadable cells among those that count.
pub open spec fn rereadable_entries(es: Seq<Entry>, fills: Seq<(Seq<char>, u64)>) -> bool {
    forall|n: int|
        0 <= n < es.len() && fill_of(fills, #[trigger] es[n].0) is Some ==> {
            &&& !es[n].0.contains('\n')
            &&& forall|j: int| 0 <= j < cell_count(es[n]) ==> rereadable_cell(#[trigger] es[n].2[j])
        }
}

/// `r` is a lexicon line, read back as itself, whose form is `f`.
pub open spec fn good_row(r: Seq<char>, f: Seq<char>) -> bool {
    &&& !r.contains('\n')
    &&& strip_cr(r) == r
    &&& is_row(r)
    &&& split(r, '\t')[0] == f
    &&& spec_normalize(f) == f
}

/// A cell's tag holds no newline and does not end in a carriage return.
proof fn lemma_cell_tag(adjective: bool, group: Seq<char>, j: int)
    requires
        !group.contains('\n'),
        0 <= j < 6,
    ensures
        cell_tag(adjective, group, j).len() > 0,
        !cell_tag(adjective, group, j).contains('\n'),
        cell_tag(adjective, group, j).last() != '\r',
{
    reveal_strlit("nomn");
    reveal_strlit("gent");
    reveal_strlit("datv");
    reveal_strlit("accs");
    reveal_strlit("ablt");
    reveal_strlit("loct");
    reveal_strlit("ADJF ");
    reveal_strlit(",sing,");
    reveal_strlit("ADJF plur,");
    reveal_strlit("NOUN ");
    reveal_strlit("sing.");
    let cn = case_name(j);
    assert(cn.len() == 4);
    assert(!cn.contains('\n'));
    assert(cn.last() != '\r');
    let t = cell_tag(adjective, group, j);
    assert(t.last() == cn.last()) by {
        assert(t[t.len() - 1] == cn[cn.len() - 1]);
    }
    if adjective {
        if is_prefix("sing."@, group) {
            let g = group.skip(5);
            assert(group.len() >= 5);
            assert(!g.contains('\n')) by {
                if g.contains('\n') {
                    let i = choose|i: int| 0 <= i < g.len() && g[i] == '\n';
                    assert(group[i + 5] == '\n');
                }
            }
            assert(!"ADJF "@.contains('\n'));
            assert(!",sing,"@.contains('\n'));
            lemma_concat_free("ADJF "@, g, '\n');
            lemma_concat_free("ADJF "@ + g, ",sing,"@, '\n');
            lemma_concat_free("ADJF "@ + g + ",sing,"@, cn, '\n');
        } else {
            assert(!"ADJF plur,"@.contains('\n'));
            lemma_concat_free("ADJF plur,"@, cn, '\n');
        }
    } else {
        assert(!"NOUN "@.contains('\n'));
        assert(!seq![','].contains('\n'));
        lemma_concat_free("NOUN "@, group, '\n');
        lemma_concat_free("NOUN "@ + group, seq![','], '\n');
        lemma_concat_free("NOUN "@ + group + seq![','], cn, '\n');
    }
}

/// A row added for a rereadable cell reads back as a row of that form.
proof fn lemma_row_text_good(form: Seq<char>, lemma: Seq<char>, fill: u64, tag: Seq<char>)
    requires
        form.len() > 0,
        rereadable_cell(form),
        !lemma.contains('\n'),
        tag.len() > 0,
        !tag.contains('\n'),
        tag.last() != '\r',
    ensures
        good_row(row_text(form, lemma, fill, tag), form),
{
    let d = decimal(fill as nat);
    lemma_decimal_clean(fill as nat);
    lemma_decimal_digits(fill as nat);
    let r = row_text(form, lemma, fill, tag);
    let rest = lemma + seq!['\t'] + d + seq!['\t'] + tag;
    assert(r =~= form + seq!['\t'] + rest);
    lemma_split_concat(form, rest, '\t');
    lemma_split_free(form, '\t');
    assert(rest =~= lemma + seq!['\t'] + (d + seq!['\t'] + tag));
    lemma_split_concat(lemma, d + seq!['\t'] + tag, '\t');
    lemma_split_nonempty(lemma, '\t');
    lemma_split_nonempty(d + seq!['\t'] + tag, '\t');
    assert(split(r, '\t')[0] == form);
    assert(split(r, '\t').len() >= 3);
    assert(r[0] == form[0]);
    let at: int = (form.len() + 1 + lemma.len() + 1) as int;
    assert(r[at] == d[0]);
    assert(is_digit(d[0]));
    lemma_trim_empty(r);
    assert(!all_ws(r)) by {
        assert(!is_ws(r[at]));
    }
    lemma_join_free(form, lemma, '\t', '\n');
    lemma_join_free(form + seq!['\t'] + lemma, d, '\t', '\n');
    lemma_join_free(form + seq!['\t'] + lemma + seq!['\t'] + d, tag, '\t', '\n');
    assert(r.last() == tag.last()) by {
        assert(r[r.len() - 1] == tag[tag.len() - 1]);
    }
}

/// A lexicon row stays a row with the same form when a trailing carriage
/// return is dropped.
proof fn lemma_strip_cr_row(l: Seq<char>)
    requires
        is_row(l),
    ensures
        is_row(strip_cr(l)),
        split(strip_cr(l), '\t')[0] == split(l, '\t')[0],
{
    if l.len() > 0 && l.last() == '\r' {
        let l0 = l.drop_last();
        lemma_split_nonempty(l0, '\t');
        assert(split(l, '\t').len() == split(l0, '\t').len());
        assert(l0.len() > 0) by {
            if l0.len() == 0 {
                assert(split(l0, '\t') =~= seq![Seq::<char>::empty()]);
            }
        }
        assert(l0[0] == l[0]);
        lemma_trim_empty(l);
        lemma_trim_empty(l0);
        if all_ws(l0) {
            assert forall|i: int| 0 <= i < l.len() implies is_ws(#[trigger] l[i]) by {
                if i < l0.len() {
                    assert(l[i] == l0[i]);
                }
            }
        }
    }
}

/// A row among the lines puts its form among the present forms.
proof fn lemma_present_has(ls: Seq<Seq<char>>, n: nat, i: int)
    requires
        0 <= i < n <= ls.len(),
        is_row(ls[i]),
    ensures
        present_fold(ls, n).contains(spec_normalize(split(ls[i], '\t')[0])),
    decreases n,
{
    if i < n - 1 {
        lemma_present_has(ls, (n - 1) as nat, i);
    }
}

/// A present form comes from a row among the lines.
proof fn lemma_present_source(ls: Seq<Seq<char>>, n: nat, x: Seq<char>)
    requires
        n <= ls.len(),
        present_fold(ls, n).contains(x),
    ensures
        exists|i: int| 0 <= i < n && is_row(#[trigger] ls[i]) && spec_normalize(split(ls[i], '\t')[0]) == x,
    decreases n,
{
    let l = ls[n - 1];
    if is_row(l) && spec_normalize(split(l, '\t')[0]) == x {
        assert(is_row(ls[n - 1]));
    } else {
        lemma_present_source(ls, (n - 1) as nat, x);
        let i = choose|i: int| 0 <= i < n - 1 && is_row(#[trigger] ls[i]) && spec_normalize(split(ls[i], '\t')[0]) == x;
        assert(is_row(ls[i]));
    }
}

/// The data lines of the text come back as its lines.
proof fn lemma_data_text_lines(ls: Seq<Seq<char>>, n: nat)
    requires
        n <= ls.len(),
        forall|i: int| 0 <= i < ls.len() ==> !(#[trigger] ls[i]).contains('\n'),
    ensures
        data_text(ls, n).len() == 0 || data_text(ls, n).last() == '\n',
        forall|i: int| 0 <= i < n && is_data(#[trigger] ls[i]) ==> lines(data_text(ls, n)).contains(strip_cr(ls[i])),
    decreases n,
{
    if n > 0 {
        lemma_data_text_lines(ls, (n - 1) as nat);
        let prev = data_text(ls, (n - 1) as nat);
        let l = ls[n - 1];
        if is_data(l) {
            lemma_lines_push(prev, l);
            let lp = lines(prev);
            assert(lines(data_text(ls, n)) == lp.push(strip_cr(l)));
            assert forall|i: int| 0 <= i < n && is_data(#[trigger] ls[i]) implies lines(data_text(ls, n)).contains(strip_cr(ls[i])) by {
                if i < n - 1 {
                    let k = choose|k: int| 0 <= k < lp.len() && lp[k] == strip_cr(ls[i]);
                    assert(lp.push(strip_cr(l))[k] == strip_cr(ls[i]));
                } else {
                    assert(lp.push(strip_cr(l))[lp.len() as int] == strip_cr(l));
                }
            }
        }
    }
}

/// The added rows come back as lines.
proof fn lemma_lines_text_lines(rows: Seq<Seq<char>>, n: nat)
    requires
        n <= rows.len(),
        forall|i: int| 0 <= i < rows.len() ==> !(#[trigger] rows[i]).contains('\n'),
    ensures
        forall|i: int| 0 <= i < n ==> lines(lines_text(rows, n)).contains(strip_cr(#[trigger] rows[i])),
    decreases n,
{
    if n > 0 {
        lemma_lines_text_lines(rows, (n - 1) as nat);
        let prev = lines_text(rows, (n - 1) as nat);
        assert(prev.len() == 0 || prev.last() == '\n') by {
            if n - 1 > 0 {
                assert(prev.last() == '\n');
            }
        }
        lemma_lines_push(prev, rows[n - 1]);
        let lp = lines(prev);
        assert forall|i: int| 0 <= i < n implies lines(lines_text(rows, n)).contains(strip_cr(#[trigger] rows[i])) by {
            if i < n - 1 {
                let k = choose|k: int| 0 <= k < lp.len() && lp[k] == strip_cr(rows[i]);
                assert(lp.push(strip_cr(rows[n - 1]))[k] == strip_cr(rows[i]));
            } else {
                assert(lp.push(strip_cr(rows[n - 1]))[lp.len() as int] == strip_cr(rows[i]));
            }
        }
    }
}

/// One entry's cells only add: earlier rows and pairs stay.
proof fn lemma_cells_fold_grows(e: Entry, j: nat, present: Set<Seq<char>>, adjective: bool, fill: u64, acc: Added)
    ensures
        acc.1.subset_of(cells_fold(e, j, present, adjective, fill, acc).1),
        acc.0.len() <= cells_fold(e, j, present, adjective, fill, acc).0.len(),
        forall|i: int| 0 <= i < acc.0.len() ==> #[trigger] cells_fold(e, j, present, adjective, fill, acc).0[i] == acc.0[i],
    decreases j,
{
    if j > 0 {
        lemma_cells_fold_grows(e, (j - 1) as nat, present, adjective, fill, acc);
        let prev = cells_fold(e, (j - 1) as nat, present, adjective, fill, acc);
        let next = cells_fold(e, j, present, adjective, fill, acc);
        assert forall|i: int| 0 <= i < acc.0.len() implies #[trigger] next.0[i] == acc.0[i] by {
            assert(prev.0[i] == acc.0[i]);
        }
    }
}

/// After an entry's cells, each of them is empty, present, or added.
proof fn lemma_cells_fold_cover(e: Entry, j: nat, present: Set<Seq<char>>, adjective: bool, fill: u64, acc: Added)
    requires
        j <= e.2.len(),
    ensures
        forall|k: int|
            0 <= k < j ==> (#[trigger] e.2[k]).len() == 0 || present.contains(e.2[k]) || cells_fold(
                e,
                j,
                present,
                adjective,
                fill,
                acc,
            ).1.contains((e.0, e.2[k])),
    decreases j,
{
    if j > 0 {
        lemma_cells_fold_cover(e, (j - 1) as nat, present, adjective, fill, acc);
    }
}

/// Every pair an entry's cells add has a row that reads back with its form.
proof fn lemma_cells_fold_good(e: Entry, j: nat, present: Set<Seq<char>>, adjective: bool, fill: u64, acc: Added)
    requires
        j <= cell_count(e),
        !e.0.contains('\n'),
        !e.1.contains('\n'),
        forall|k: int| 0 <= k < j ==> rereadable_cell(#[trigger] e.2[k]),
        forall|p: (Seq<char>, Seq<char>)|
            #[trigger] acc.1.contains(p) ==> exists|i: int| 0 <= i < acc.0.len() && good_row(#[trigger] acc.0[i], p.1),
        forall|i: int| 0 <= i < acc.0.len() ==> !(#[trigger] acc.0[i]).contains('\n'),
    ensures
        forall|i: int|
            0 <= i < cells_fold(e, j, present, adjective, fill, acc).0.len() ==> !(
            #[trigger] cells_fold(e, j, present, adjective, fill, acc).0[i]).contains('\n'),
        forall|p: (Seq<char>, Seq<char>)|
            #[trigger] cells_fold(e, j, present, adjective, fill, acc).1.contains(p) ==> exists|i: int|
                0 <= i < cells_fold(e, j, present, adjective, fill, acc).0.len() && good_row(
                    #[trigger] cells_fold(e, j, present, adjective, fill, acc).0[i],
                    p.1,
                ),
    decreases j,
{
    if j > 0 {
        lemma_cells_fold_good(e, (j - 1) as nat, present, adjective, fill, acc);
        let prev = cells_fold(e, (j - 1) as nat, present, adjective, fill, acc);
        let form = e.2[j - 1];
        if !(form.len() == 0 || present.contains(form) || prev.1.contains((e.0, form))) {
            let tag = cell_tag(adjective, e.1, j - 1);
            lemma_cell_tag(adjective, e.1, j - 1);
            assert(rereadable_cell(e.2[j - 1]));
            let row = row_text(form, e.0, fill, tag);
            lemma_row_text_good(form, e.0, fill, tag);
            let next = cells_fold(e, j, present, adjective, fill, acc);
            assert(next.0 == prev.0.push(row));
            assert forall|p: (Seq<char>, Seq<char>)| #[trigger] next.1.contains(p) implies exists|i: int|
                0 <= i < next.0.len() && good_row(#[trigger] next.0[i], p.1) by {
                if p == (e.0, form) {
                    assert(next.0[prev.0.len() as int] == row);
                } else {
                    assert(prev.1.contains(p));
                    let i = choose|i: int| 0 <= i < prev.0.len() && good_row(#[trigger] prev.0[i], p.1);
                    assert(next.0[i] == prev.0[i]);
                }
            }
            assert forall|i: int| 0 <= i < next.0.len() implies !(#[trigger] next.0[i]).contains('\n') by {
                if i < prev.0.len() {
                    assert(next.0[i] == prev.0[i]);
                }
            }
        }
    }
}

/// With every counted cell empty or present, an entry adds nothing.
proof fn lemma_cells_fold_noop(e: Entry, j: nat, present: Set<Seq<char>>, adjective: bool, fill: u64, acc: Added)
    requires
        j <= e.2.len(),
        forall|k: int| 0 <= k < j ==> (#[trigger] e.2[k]).len() == 0 || present.contains(e.2[k]),
    ensures
        cells_fold(e, j, present, adjective, fill, acc) == acc,
    decreases j,
{
    if j > 0 {
        lemma_cells_fold_noop(e, (j - 1) as nat, present, adjective, fill, acc);
    }
}

/// The rows of the first `n` entries: each added pair has a row that reads
/// back with its form, and each counted cell of an entry with a fill is
/// empty, present or added.
proof fn lemma_rows_fold_cover(
    es: Seq<Entry>,
    n: nat,
    present: Set<Seq<char>>,
    adjectives: Set<Seq<char>>,
    fills: Seq<(Seq<char>, u64)>,
)
    requires
        n <= es.len(),
        rereadable_entries(es, fills),
        forall|m: int| 0 <= m < es.len() ==> !(#[trigger] es[m]).1.contains('\n'),
    ensures
        ({
            let r = rows_fold(es, n, present, adjectives, fills);
            &&& forall|p: (Seq<char>, Seq<char>)|
                #[trigger] r.1.contains(p) ==> exists|i: int| 0 <= i < r.0.len() && good_row(#[trigger] r.0[i], p.1)
            &&& forall|i: int| 0 <= i < r.0.len() ==> !(#[trigger] r.0[i]).contains('\n')
            &&& forall|m: int, k: int|
                0 <= m < n && fill_of(fills, es[m].0) is Some && 0 <= k < cell_count(es[m]) ==> (
                #[trigger] es[m].2[k]).len() == 0 || present.contains(es[m].2[k]) || r.1.contains(
                    (es[m].0, es[m].2[k]),
                )
        }),
    decreases n,
{
    if n > 0 {
        lemma_rows_fold_cover(es, (n - 1) as nat, present, adjectives, fills);
        let prev = rows_fold(es, (n - 1) as nat, present, adjectives, fills);
        let e = es[n - 1];
        let r = rows_fold(es, n, present, adjectives, fills);
        match fill_of(fills, e.0) {
            None => {},
            Some(fill) => {
                let adj = adjectives.contains(e.0);
                assert(fill_of(fills, es[n - 1].0) is Some);
                assert(!e.1.contains('\n'));
                lemma_cells_fold_good(e, cell_count(e), present, adj, fill, prev);
                lemma_cells_fold_cover(e, cell_count(e), present, adj, fill, prev);
                lemma_cells_fold_grows(e, cell_count(e), present, adj, fill, prev);
                assert forall|m: int, k: int|
                    0 <= m < n && fill_of(fills, es[m].0) is Some && 0 <= k < cell_count(es[m]) implies (
                    #[trigger] es[m].2[k]).len() == 0 || present.contains(es[m].2[k]) || r.1.contains(
                        (es[m].0, es[m].2[k]),
                    ) by {
                    if m < n - 1 {
                        if prev.1.contains((es[m].0, es[m].2[k])) {
                            assert(r.1.contains((es[m].0, es[m].2[k])));
                        }
                    } else {
                        assert(e.2[k] == es[m].2[k]);
                    }
                }
            },
        }
    }
}

/// With every counted cell of the entries with a fill empty or present,
/// no rows are added.
proof fn lemma_rows_fold_noop(
    es: Seq<Entry>,
    n: nat,
    present: Set<Seq<char>>,
    adjectives: Set<Seq<char>>,
    fills: Seq<(Seq<char>, u64)>,
)
    requires
        n <= es.len(),
        forall|m: int, k: int|
            0 <= m < n && fill_of(fills, es[m].0) is Some && 0 <= k < cell_count(es[m]) ==> (
            #[trigger] es[m].2[k]).len() == 0 || present.contains(es[m].2[k]),
    ensures
        rows_fold(es, n, present, adjectives, fills) == (
            Seq::<Seq<char>>::empty(),
            Set::<(Seq<char>, Seq<char>)>::empty(),
        ),
    decreases n,
{
    if n > 0 {
        lemma_rows_fold_noop(es, (n - 1) as nat, present, adjectives, fills);
        let e = es[n - 1];
        match fill_of(fills, e.0) {
            None => {},
            Some(fill) => {
                assert forall|k: int| 0 <= k < cell_count(e) implies (#[trigger] e.2[k]).len() == 0
                    || present.contains(e.2[k]) by {
                    assert(es[n - 1].2[k] == e.2[k]);
                }
                lemma_cells_fold_noop(
                    e,
                    cell_count(e),
                    present,
                    adjectives.contains(e.0),
                    fill,
                    rows_fold(es, (n - 1) as nat, present, adjectives, fills),
                );
            },
        }
    }
}

/// The group label of a paradigm line holds no newline.
proof fn lemma_entries_labels(ls: Seq<Seq<char>>, n: nat)
    requires
        n <= ls.len(),
        forall|i: int| 0 <= i < ls.len() ==> !(#[trigger] ls[i]).contains('\n'),
    ensures
        forall|m: int| 0 <= m < entries_fold(ls, n).len() ==> !(#[trigger] entries_fold(ls, n)[m]).1.contains('\n'),
    decreases n,
{
    if n > 0 {
        lemma_entries_labels(ls, (n - 1) as nat);
        let l = ls[n - 1];
        if is_row(l) {
            lemma_split_keeps_free(l, '\t', '\n');
            assert(!split(l, '\t')[1].contains('\n'));
            let p = entries_fold(ls, (n - 1) as nat);
            assert forall|m: int| 0 <= m < entries_fold(ls, n).len() implies !(#[trigger] entries_fold(
                ls,
                n,
            )[m]).1.contains('\n') by {
                if m < p.len() {
                    assert(entries_fold(ls, n)[m] == p[m]);
                } else {
                    assert(entries_fold(ls, n)[m] == entry_of(l));
                    assert(entry_of(l).1 == split(l, '\t')[1]);
                }
            }
        } else {
            assert(entries_fold(ls, n) == entries_fold(ls, (n - 1) as nat));
        }
    }
}

/// The expanded lexicon keeps every form the lexicon had, and each added
/// row that reads back with its form puts that form among its own.
proof fn lemma_expanded_present(lex: Seq<char>, added: Seq<Seq<char>>, ratio: Seq<char>)
    requires
        forall|i: int| 0 <= i < added.len() ==> !(#[trigger] added[i]).contains('\n'),
    ensures
        present_forms(lex).subset_of(present_forms(expanded_text(lex, added, ratio))),
        forall|i: int, f: Seq<char>|
            0 <= i < added.len() && #[trigger] good_row(added[i], f) ==> present_forms(
                expanded_text(lex, added, ratio),
            ).contains(f),
{
    let ls = lines(lex);
    let lex2 = expanded_text(lex, added, ratio);
    let l2 = lines(lex2);
    let c = comment_text(ls, ls.len());
    let h = c + "# + "@ + decimal(added.len()) + " paradigm forms folded in by `lexicon-builder expand` (ratio "@
        + ratio + ")\n"@;
    let d = data_text(ls, ls.len());
    let t = lines_text(added, added.len());
    assert(lex2 =~= h + (d + t));
    reveal_strlit(")\n");
    assert(h.last() == '\n') by {
        assert(h[h.len() - 1] == ")\n"@[1]);
    }
    lemma_lines_concat(h, d + t);
    lemma_lines_free(lex);
    lemma_data_text_lines(ls, ls.len());
    lemma_lines_concat(d, t);
    lemma_lines_text_lines(added, added.len());
    let lh = lines(h);
    let ld = lines(d);
    let lt = lines(t);
    assert(l2 == lh + (ld + lt));
    assert forall|x: Seq<char>| present_forms(lex).contains(x) implies present_forms(lex2).contains(x) by {
        lemma_present_source(ls, ls.len(), x);
        let i = choose|i: int| 0 <= i < ls.len() && is_row(#[trigger] ls[i]) && spec_normalize(split(ls[i], '\t')[0]) == x;
        assert(is_row(ls[i]));
        lemma_strip_cr_row(ls[i]);
        let k = choose|k: int| 0 <= k < ld.len() && ld[k] == strip_cr(ls[i]);
        let at = lh.len() + k;
        assert(l2[at] == strip_cr(ls[i]));
        lemma_present_has(l2, l2.len(), at);
    }
    assert forall|i: int, f: Seq<char>|
        0 <= i < added.len() && #[trigger] good_row(added[i], f) implies present_forms(lex2).contains(f) by {
        assert(lt.contains(strip_cr(added[i])));
        let k = choose|k: int| 0 <= k < lt.len() && lt[k] == strip_cr(added[i]);
        let at = lh.len() + ld.len() + k;
        assert(l2[at] == added[i]);
        lemma_present_has(l2, l2.len(), at);
    }
}

/// Every counted cell of the entries with a synthetic frequency is empty
/// or already a form of the lexicon.
pub open spec fn cells_present(es: Seq<Entry>, present: Set<Seq<char>>, fills: Seq<(Seq<char>, u64)>) -> bool {
    forall|m: int, k: int|
        0 <= m < es.len() && fill_of(fills, es[m].0) is Some && 0 <= k < cell_count(es[m]) ==> (
        #[trigger] es[m].2[k]).len() == 0 || present.contains(es[m].2[k])
}

/// Expanding adds nothing when every cell that could be added is already
/// present, whatever the synthetic frequencies.
pub proof fn lemma_expansion_of_complete(lex: Seq<char>, hold: Seq<char>, fills: Seq<(Seq<char>, u64)>)
    requires
        cells_present(entries_of(hold), present_forms(lex), fills),
    ensures
        expansion_rows_of(lex, hold, fills) == Seq::<Seq<char>>::empty(),
{
    broadcast use vstd::seq_lib::group_to_multiset_ensures;

    let es = entries_of(hold);
    let adj = adjective_fold(es, es.len());
    lemma_rows_fold_noop(es, es.len(), present_forms(lex), adj, fills);
    let r = rows_fold(es, es.len(), present_forms(lex), adj, fills);
    lemma_text_leq_total();
    r.0.lemma_sort_by_ensures(text_leq());
    let out = expansion_rows_of(lex, hold, fills);
    assert(out.to_multiset().len() == 0);
    assert(out =~= Seq::<Seq<char>>::empty());
}

/// Expanding is idempotent: expanding the expanded lexicon again adds no
/// rows, whatever its note says of the ratio and whatever synthetic
/// frequencies the second run computes, as long as it gives one only to
/// lemmas that had one in the first run (the lemmas of the lexicon, which
/// expanding does not add to). This holds when every paradigm entry with a
/// synthetic frequency has a lemma without newline and, among the cells
/// that count, only cells a lexicon row carries back unchanged.
pub proof fn lemma_expansion_idempotent(
    lex: Seq<char>,
    hold: Seq<char>,
    fills: Seq<(Seq<char>, u64)>,
    again: Seq<(Seq<char>, u64)>,
    ratio: Seq<char>,
)
    requires
        rereadable_entries(entries_of(hold), fills),
        forall|l: Seq<char>| #[trigger] fill_of(again, l) is Some ==> fill_of(fills, l) is Some,
    ensures
        expansion_rows_of(expanded_text(lex, expansion_rows_of(lex, hold, fills), ratio), hold, again)
            == Seq::<Seq<char>>::empty(),
{
    broadcast use vstd::seq_lib::group_to_multiset_ensures;

    let es = entries_of(hold);
    let adj = adjective_fold(es, es.len());
    let p1 = present_forms(lex);
    let r1 = rows_fold(es, es.len(), p1, adj, fills);
    let added = expansion_rows_of(lex, hold, fills);
    let lex2 = expanded_text(lex, added, ratio);
    let p2 = present_forms(lex2);
    lemma_lines_free(hold);
    lemma_entries_labels(lines(hold), lines(hold).len());
    lemma_rows_fold_cover(es, es.len(), p1, adj, fills);
    lemma_text_leq_total();
    r1.0.lemma_sort_by_ensures(text_leq());
    assert(added.to_multiset() == r1.0.to_multiset());
    assert forall|i: int| 0 <= i < added.len() implies !(#[trigger] added[i]).contains('\n') by {
        assert(added.to_multiset().contains(added[i]));
        assert(r1.0.contains(added[i]));
        let k = choose|k: int| 0 <= k < r1.0.len() && r1.0[k] == added[i];
    }
    lemma_expanded_present(lex, added, ratio);
    assert forall|m: int, k: int|
        0 <= m < es.len() && fill_of(again, es[m].0) is Some && 0 <= k < cell_count(es[m]) implies (
        #[trigger] es[m].2[k]).len() == 0 || p2.contains(es[m].2[k]) by {
        assert(fill_of(fills, es[m].0) is Some);
        let cell = es[m].2[k];
        if cell.len() > 0 && !p1.contains(cell) {
            let pr = (es[m].0, cell);
            assert(r1.1.contains(pr));
            let i = choose|i: int| 0 <= i < r1.0.len() && good_row(#[trigger] r1.0[i], pr.1);
            assert(r1.0.to_multiset().contains(r1.0[i]));
            assert(added.contains(r1.0[i]));
            let a = choose|a: int| 0 <= a < added.len() && added[a] == r1.0[i];
            assert(good_row(added[a], cell));
        }
    }
    assert(cells_present(es, p2, again));
    lemma_expansion_of_complete(lex2, hold, again);
}

} // verus!
