//! Local personalization: the engine learns from confirmed suggestions and
//! is penalized by reverted ones.
//!
//! Two principles, both load-bearing for the product roadmap:
//!
//! * **A tap is not a success.** The history tracks `confirmed` vs
//!   `reverted` separately, and the ranking prior is *net* evidence — it can
//!   go negative for pairs the user keeps rejecting.
//! * **Stay mergeable.** Everything is a sum of counters, so two devices'
//!   histories merge by summing per pair. This keeps cross-device sync to
//!   "move an opaque blob + merge", with no conflict resolution.
//!
//! Privacy model: the history never leaves the device. The core only offers
//! TSV import/export and merge; *where* it is stored is the shell's call.

use vstd::prelude::*;
use vstd::relations::sorted_by;

use crate::expand::{lemma_text_leq_total, text_leq};
use crate::strmap::{StrMap, lemma_key_index_push};
use crate::text::{
    append_chars, chars_eq, chars_to_string, copy_range, decimal, lex_le, lex_less, lex_lt, lines, lines_chars,
    all_digits, is_digit, lemma_decimal_digits, lemma_lex_total, lemma_lex_transitive,
    lemma_decimal_clean, lemma_parse_decimal, lemma_split_append, lemma_split_free,
    lemma_split_nonempty, parse_u64, parse_uint, push_decimal, split,
    split_chars, str_chars, strip_cr, trim, trim_chars, trim_end, trim_start,
};

verus! {

/// An (input skeleton, form) pair, as character sequences.
pub type PairKey = (Seq<char>, Seq<char>);

/// Confirmed and reverted counts of one pair.
pub type Counts = (u32, u32);

/// Confirmed/reverted counts for one (input skeleton → form) pair.
#[derive(Clone, Copy)]
struct PairStats {
    confirmed: u32,
    reverted: u32,
}

struct PairEntry {
    skeleton: Vec<char>,
    form: Vec<char>,
    stats: PairStats,
}

spec fn entry_view(e: PairEntry) -> (PairKey, Counts) {
    ((e.skeleton@, e.form@), (e.stats.confirmed, e.stats.reverted))
}

/// Position of the first entry with key `k`.
pub open spec fn pair_index(es: Seq<(PairKey, Counts)>, k: PairKey) -> Option<int>
    decreases es.len(),
{
    if es.len() == 0 {
        None
    } else {
        match pair_index(es.drop_last(), k) {
            Some(i) => Some(i),
            None => if es.last().0 == k {
                Some(es.len() - 1)
            } else {
                None
            },
        }
    }
}

/// The map a list of entries stands for.
pub open spec fn pairs_of(es: Seq<(PairKey, Counts)>) -> Map<PairKey, Counts> {
    Map::new(|k: PairKey| pair_index(es, k) is Some, |k: PairKey| es[pair_index(es, k)->0].1)
}

/// No key occurs twice.
pub open spec fn distinct_keys(es: Seq<(PairKey, Counts)>) -> bool {
    forall|a: int, b: int| 0 <= a < b < es.len() ==> es[a].0 != es[b].0
}

pub proof fn lemma_pair_index(es: Seq<(PairKey, Counts)>, k: PairKey)
    ensures
        pair_index(es, k) is Some ==> {
            let i = pair_index(es, k)->0;
            &&& 0 <= i < es.len()
            &&& es[i].0 == k
            &&& forall|j: int| 0 <= j < i ==> es[j].0 != k
        },
        pair_index(es, k) is None ==> forall|j: int| 0 <= j < es.len() ==> es[j].0 != k,
    decreases es.len(),
{
    if es.len() > 0 {
        let d = es.drop_last();
        lemma_pair_index(d, k);
        assert forall|j: int| 0 <= j < d.len() implies d[j] == es[j] by {}
        if pair_index(d, k) is None && es.last().0 != k {
            assert forall|j: int| 0 <= j < es.len() implies es[j].0 != k by {
                if j < d.len() {
                    assert(d[j].0 != k);
                }
            }
        }
    }
}

pub proof fn lemma_pair_index_at(es: Seq<(PairKey, Counts)>, i: int)
    requires
        0 <= i < es.len(),
        distinct_keys(es),
    ensures
        pair_index(es, es[i].0) == Some(i),
{
    lemma_pair_index(es, es[i].0);
    let j = pair_index(es, es[i].0)->0;
    if j < i {
        assert(es[j].0 != es[i].0);
    }
}

/// Counts of `k`, zero when absent.
pub open spec fn counts_of(m: Map<PairKey, Counts>, k: PairKey) -> Counts {
    if m.contains_key(k) {
        m[k]
    } else {
        (0u32, 0u32)
    }
}

/// Confirmed popularity of `f`, zero when absent.
pub open spec fn form_of(m: Map<Seq<char>, u32>, f: Seq<char>) -> u32 {
    if m.contains_key(f) {
        m[f]
    } else {
        0u32
    }
}

/// Pointwise sum of two pair maps, over the union of their keys.
pub open spec fn sum_counts(a: Map<PairKey, Counts>, b: Map<PairKey, Counts>) -> Map<
    PairKey,
    Counts,
> {
    Map::new(
        |k: PairKey| a.contains_key(k) || b.contains_key(k),
        |k: PairKey|
            (
                (counts_of(a, k).0 + counts_of(b, k).0) as u32,
                (counts_of(a, k).1 + counts_of(b, k).1) as u32,
            ),
    )
}

/// Every per-pair sum fits a counter.
pub open spec fn sums_fit(a: Map<PairKey, Counts>, b: Map<PairKey, Counts>) -> bool {
    forall|k: PairKey|
        #![trigger counts_of(a, k), counts_of(b, k)]
        counts_of(a, k).0 + counts_of(b, k).0 <= u32::MAX && counts_of(a, k).1 + counts_of(b, k).1
            <= u32::MAX
}

/// `forms` after adding, entry by entry, each entry's confirmations to its
/// form's popularity (entries with none leave it alone).
pub open spec fn add_confirmed(forms: Map<Seq<char>, u32>, es: Seq<(PairKey, Counts)>) -> Map<
    Seq<char>,
    u32,
>
    decreases es.len(),
{
    if es.len() == 0 {
        forms
    } else {
        let m = add_confirmed(forms, es.drop_last());
        let e = es.last();
        if e.1.0 > 0 {
            m.insert(e.0.1, (form_of(m, e.0.1) + e.1.0) as u32)
        } else {
            m
        }
    }
}

/// No step of `add_confirmed` overflows a counter.
pub open spec fn confirmed_fits(forms: Map<Seq<char>, u32>, es: Seq<(PairKey, Counts)>) -> bool
    decreases es.len(),
{
    if es.len() == 0 {
        true
    } else {
        confirmed_fits(forms, es.drop_last()) && form_of(
            add_confirmed(forms, es.drop_last()),
            es.last().0.1,
        ) + es.last().1.0 <= u32::MAX
    }
}

proof fn lemma_confirmed_fits_take(forms: Map<Seq<char>, u32>, es: Seq<(PairKey, Counts)>, j: int)
    requires
        confirmed_fits(forms, es),
        0 <= j <= es.len(),
    ensures
        confirmed_fits(forms, es.take(j)),
    decreases es.len(),
{
    if j < es.len() {
        assert(es.take(j) =~= es.drop_last().take(j));
        lemma_confirmed_fits_take(forms, es.drop_last(), j);
    } else {
        assert(es.take(j) =~= es);
    }
}

proof fn lemma_pairs_of_push(es: Seq<(PairKey, Counts)>, e: (PairKey, Counts))
    ensures
        forall|q: PairKey| #[trigger]
            pair_index(es.push(e), q) == (match pair_index(es, q) {
                Some(i) => Some(i),
                None => if e.0 == q {
                    Some(es.len() as int)
                } else {
                    None
                },
            }),
        pair_index(es, e.0) is None ==> pairs_of(es.push(e)) == pairs_of(es).insert(e.0, e.1),
{
    assert(es.push(e).drop_last() =~= es);
    if pair_index(es, e.0) is None {
        assert forall|q: PairKey| #[trigger] pairs_of(es.push(e)).contains_key(q) implies pairs_of(
            es.push(e),
        )[q] == pairs_of(es).insert(e.0, e.1)[q] by {
            lemma_pair_index(es, q);
            if q != e.0 {
                let j = pair_index(es, q)->0;
                assert(es.push(e)[j] == es[j]);
            }
        }
        assert(pairs_of(es.push(e)) =~= pairs_of(es).insert(e.0, e.1));
    }
}

proof fn lemma_pairs_of_take(es: Seq<(PairKey, Counts)>, i: int)
    requires
        distinct_keys(es),
        0 <= i < es.len(),
    ensures
        pair_index(es.take(i), es[i].0) is None,
        es.take(i + 1) == es.take(i).push(es[i]),
        pairs_of(es.take(i + 1)) == pairs_of(es.take(i)).insert(es[i].0, es[i].1),
        counts_of(pairs_of(es), es[i].0) == es[i].1,
{
    lemma_pair_index(es.take(i), es[i].0);
    assert(es.take(i + 1) =~= es.take(i).push(es[i]));
    lemma_pairs_of_push(es.take(i), es[i]);
    lemma_pair_index_at(es, i);
}


/// The counts a row's columns carry: a confirmed count in the third column
/// (a `u32`, surrounding whitespace allowed) and an optional reverted count
/// in the fourth (zero when absent or malformed); `None` when the row has
/// fewer than three columns or no valid confirmed count.
pub open spec fn row_counts(parts: Seq<Seq<char>>) -> Option<(nat, nat)> {
    if parts.len() < 3 {
        None
    } else {
        match parse_uint(trim(parts[2]), u32::MAX as nat) {
            None => None,
            Some(c) => Some(
                (
                    c,
                    if parts.len() > 3 {
                        match parse_uint(trim(parts[3]), u32::MAX as nat) {
                            Some(r) => r,
                            None => 0,
                        }
                    } else {
                        0
                    },
                ),
            ),
        }
    }
}

/// Pairs and form popularity, as restored so far.
pub type HistoryState = (Map<PairKey, Counts>, Map<Seq<char>, u32>);

/// Effect of one line `skeleton<TAB>form<TAB>confirmed[<TAB>reverted]` on
/// the restored state: the pair's counts are set, and the form's
/// popularity trades the pair's former confirmed count for the new one, so
/// it stays the sum over the pairs even when a pair is listed twice. Other
/// lines are skipped.
pub open spec fn history_step(st: HistoryState, line: Seq<char>) -> HistoryState {
    let parts = split(line, '\t');
    let k = (parts[0], parts[1]);
    match row_counts(parts) {
        None => st,
        Some((c, r)) => (
            st.0.insert(k, (c as u32, r as u32)),
            restore_form(st.1, parts[1], counts_of(st.0, k).0 as nat, c),
        ),
    }
}

/// The popularity update of one line fits a counter.
pub open spec fn step_fits(st: HistoryState, line: Seq<char>) -> bool {
    let parts = split(line, '\t');
    match row_counts(parts) {
        None => true,
        Some((c, r)) => form_of(st.1, parts[1]) - counts_of(st.0, (parts[0], parts[1])).0 + c
            <= u32::MAX,
    }
}

pub open spec fn history_fold(ls: Seq<Seq<char>>, n: nat) -> HistoryState
    decreases n,
{
    if n == 0 {
        (Map::empty(), Map::empty())
    } else {
        history_step(history_fold(ls, (n - 1) as nat), ls[n - 1])
    }
}

pub open spec fn history_fits(ls: Seq<Seq<char>>, n: nat) -> bool
    decreases n,
{
    if n == 0 {
        true
    } else {
        history_fits(ls, (n - 1) as nat) && step_fits(history_fold(ls, (n - 1) as nat), ls[n - 1])
    }
}

/// What `from_tsv` restores from a blob.
pub open spec fn spec_from_tsv(tsv: Seq<char>) -> HistoryState {
    history_fold(lines(tsv), lines(tsv).len())
}

/// Restoring the blob never overflows a popularity counter.
pub open spec fn from_tsv_fits(tsv: Seq<char>) -> bool {
    history_fits(lines(tsv), lines(tsv).len())
}

/// Whether a pair carries any evidence at all.
pub open spec fn has_evidence(c: Counts) -> bool {
    c.0 > 0 || c.1 > 0
}

/// One serialized pair: `skeleton<TAB>form<TAB>confirmed<TAB>reverted`.
pub open spec fn format_row(e: (PairKey, Counts)) -> Seq<char> {
    e.0.0 + seq!['\t'] + e.0.1 + seq!['\t'] + decimal(e.1.0 as nat) + seq!['\t'] + decimal(
        e.1.1 as nat,
    )
}

/// The rows of the entries that carry evidence, in entry order.
pub open spec fn evidence_rows(es: Seq<(PairKey, Counts)>) -> Seq<Seq<char>>
    decreases es.len(),
{
    if es.len() == 0 {
        Seq::empty()
    } else {
        let r = evidence_rows(es.drop_last());
        if has_evidence(es.last().1) {
            r.push(format_row(es.last()))
        } else {
            r
        }
    }
}

/// Index of the first row of `s` that sorts strictly after `x`.
pub open spec fn first_after(s: Seq<Seq<char>>, x: Seq<char>) -> nat
    decreases s.len(),
{
    if s.len() == 0 {
        0
    } else if lex_lt(x, s[0]) {
        0
    } else {
        1 + first_after(s.drop_first(), x)
    }
}

/// Rows sorted by `str` order, by insertion.
pub open spec fn sort_rows(s: Seq<Seq<char>>) -> Seq<Seq<char>>
    decreases s.len(),
{
    if s.len() == 0 {
        s
    } else {
        let t = sort_rows(s.drop_last());
        t.insert(first_after(t, s.last()) as int, s.last())
    }
}

/// Rows joined by newlines (`[..].join("\n")`).
pub open spec fn join_lines(rs: Seq<Seq<char>>) -> Seq<char>
    decreases rs.len(),
{
    if rs.len() == 0 {
        Seq::empty()
    } else if rs.len() == 1 {
        rs[0]
    } else {
        join_lines(rs.drop_last()) + seq!['\n'] + rs.last()
    }
}

proof fn lemma_first_after_bound(s: Seq<Seq<char>>, x: Seq<char>)
    ensures
        first_after(s, x) <= s.len(),
    decreases s.len(),
{
    if s.len() > 0 {
        lemma_first_after_bound(s.drop_first(), x);
    }
}

proof fn lemma_sort_rows_len(s: Seq<Seq<char>>)
    ensures
        sort_rows(s).len() == s.len(),
    decreases s.len(),
{
    if s.len() > 0 {
        lemma_sort_rows_len(s.drop_last());
        lemma_first_after_bound(sort_rows(s.drop_last()), s.last());
    }
}


/// `str::parse::<u32>()`, as an `Option`.
fn parse_u32(s: &[char]) -> (r: Option<u32>)
    ensures
        r matches Some(v) ==> parse_uint(s@, u32::MAX as nat) == Some(v as nat),
        r is None ==> parse_uint(s@, u32::MAX as nat) is None,
{
    match parse_u64(s) {
        Some(v) => if v <= u32::MAX as u64 {
            Some(v as u32)
        } else {
            None
        },
        None => None,
    }
}


proof fn lemma_history_fits_prefix(ls: Seq<Seq<char>>, n: nat, m: nat)
    requires
        history_fits(ls, n),
        m <= n,
    ensures
        history_fits(ls, m),
    decreases n,
{
    if m < n {
        lemma_history_fits_prefix(ls, (n - 1) as nat, m);
    }
}


/// Sorts rows by `str` order, by insertion.
fn sort_row_vec(rows: Vec<Vec<char>>) -> (r: Vec<Vec<char>>)
    ensures
        r@.map_values(|v: Vec<char>| v@) == sort_rows(rows@.map_values(|v: Vec<char>| v@)),
{
    let ghost all = rows@.map_values(|v: Vec<char>| v@);
    let mut src = rows;
    let mut out: Vec<Vec<char>> = Vec::new();
    let ghost mut done: nat = 0;
    assert(all.take(0) =~= Seq::<Seq<char>>::empty());
    while src.len() > 0
        invariant
            done + src@.len() == all.len(),
            src@.map_values(|v: Vec<char>| v@) == all.skip(done as int),
            out@.map_values(|v: Vec<char>| v@) == sort_rows(all.take(done as int)),
        decreases src@.len(),
    {
        let ghost src_old = src@;
        let x = src.remove(0);
        proof {
            assert(src_old.map_values(|v: Vec<char>| v@)[0] == all.skip(done as int)[0]);
            assert(x@ == all[done as int]);
        }
        let ghost sorted = out@.map_values(|v: Vec<char>| v@);
        let mut j: usize = 0;
        assert(sorted.skip(0) =~= sorted);
        while j < out.len() && !lex_less(x.as_slice(), out[j].as_slice())
            invariant
                j <= out@.len(),
                sorted == out@.map_values(|v: Vec<char>| v@),
                sorted.len() == out@.len(),
                first_after(sorted, x@) == j + first_after(sorted.skip(j as int), x@),
            decreases out@.len() - j,
        {
            proof {
                let ss = sorted.skip(j as int);
                assert(ss[0] == sorted[j as int]);
                assert(sorted[j as int] == out@[j as int]@);
                assert(ss.drop_first() =~= sorted.skip(j + 1));
            }
            j = j + 1;
        }
        proof {
            if j < out@.len() {
                assert(sorted.skip(j as int)[0] == out@[j as int]@);
            } else {
                assert(sorted.skip(j as int) =~= Seq::<Seq<char>>::empty());
            }
        }
        let ghost xv = x@;
        out.insert(j, x);
        proof {
            assert(all.take((done + 1) as int).drop_last() =~= all.take(done as int));
            assert(all.take((done + 1) as int).last() == xv);
            assert(out@.map_values(|v: Vec<char>| v@) =~= sorted.insert(j as int, xv));
            assert(src@ =~= src_old.subrange(1, src_old.len() as int));
            let snew = src@.map_values(|v: Vec<char>| v@);
            assert forall|k: int| 0 <= k < snew.len() implies #[trigger] snew[k] == all.skip(
                (done + 1) as int,
            )[k] by {
                assert(src_old.map_values(|v: Vec<char>| v@)[k + 1] == all.skip(done as int)[k
                    + 1]);
            }
            assert(src@.map_values(|v: Vec<char>| v@) =~= all.skip((done + 1) as int));
            done = done + 1;
        }
    }
    assert(all.take(done as int) =~= all);
    out
}

/// Rows joined by newlines.
fn join_row_vec(rows: &Vec<Vec<char>>) -> (r: Vec<char>)
    ensures
        r@ == join_lines(rows@.map_values(|v: Vec<char>| v@)),
{
    let ghost all = rows@.map_values(|v: Vec<char>| v@);
    let mut out: Vec<char> = Vec::new();
    let mut i: usize = 0;
    assert(all.take(0) =~= Seq::<Seq<char>>::empty());
    while i < rows.len()
        invariant
            all == rows@.map_values(|v: Vec<char>| v@),
            i <= rows@.len(),
            out@ == join_lines(all.take(i as int)),
        decreases rows@.len() - i,
    {
        assert(all.take(i + 1).drop_last() =~= all.take(i as int));
        assert(all.take(i + 1).last() == rows@[i as int]@);
        if i > 0 {
            out.push('\n');
        } else {
            assert(out@ =~= Seq::<char>::empty());
        }
        append_chars(&mut out, rows[i].as_slice());
        proof {
            if i == 0 {
                assert(out@ =~= all.take(1)[0]);
            } else {
                assert(out@ =~= join_lines(all.take(i as int)) + seq!['\n'] + rows@[i as int]@);
            }
        }
        i = i + 1;
    }
    assert(all.take(rows@.len() as int) =~= all);
    out
}


/// Per-user acceptance history: counts per pair, plus each form's global
/// confirmed popularity.
pub struct UserHistory {
    pairs: Vec<PairEntry>,
    by_form: StrMap<u32>,
}

impl UserHistory {
    /// The pairs, in storage order.
    pub closed spec fn entries(&self) -> Seq<(PairKey, Counts)> {
        self.pairs@.map_values(|e: PairEntry| entry_view(e))
    }

    /// Counts per (input skeleton, form) pair.
    pub open spec fn pairs(&self) -> Map<PairKey, Counts> {
        pairs_of(self.entries())
    }

    /// Confirmed popularity per form.
    pub closed spec fn forms(&self) -> Map<Seq<char>, u32> {
        Map::new(|f: Seq<char>| self.by_form.contains(f), |f: Seq<char>| self.by_form.value(f))
    }

    pub closed spec fn wf(&self) -> bool {
        &&& distinct_keys(self.entries())
        &&& self.by_form.wf()
    }

    /// What every history offers: its entries are its pairs, each once.
    pub proof fn lemma_entries(&self)
        requires
            self.wf(),
        ensures
            distinct_keys(self.entries()),
            forall|i: int|
                0 <= i < self.entries().len() ==> #[trigger] self.pairs().contains_key(
                    self.entries()[i].0,
                ) && self.pairs()[self.entries()[i].0] == self.entries()[i].1,
            forall|k: PairKey| #[trigger]
                self.pairs().contains_key(k) ==> exists|i: int|
                    0 <= i < self.entries().len() && self.entries()[i].0 == k
                        && self.entries()[i].1 == self.pairs()[k],
    {
        let es = self.entries();
        assert forall|i: int| 0 <= i < es.len() implies #[trigger] self.pairs().contains_key(
            es[i].0,
        ) && self.pairs()[es[i].0] == es[i].1 by {
            lemma_pair_index_at(es, i);
            assert(pairs_of(es).contains_key(es[i].0));
            assert(pairs_of(es)[es[i].0] == es[pair_index(es, es[i].0)->0].1);
        }
        assert forall|k: PairKey| #[trigger] self.pairs().contains_key(k) implies exists|i: int|
            0 <= i < es.len() && es[i].0 == k && es[i].1 == self.pairs()[k] by {
            lemma_pair_index(es, k);
        }
    }

    /// The empty history.
    pub fn new() -> (h: Self)
        ensures
            h.wf(),
            h.pairs() == Map::<PairKey, Counts>::empty(),
            h.forms() == Map::<Seq<char>, u32>::empty(),
    {
        let h = UserHistory { pairs: Vec::new(), by_form: StrMap::new() };
        assert(h.pairs() =~= Map::<PairKey, Counts>::empty());
        assert(h.forms() =~= Map::<Seq<char>, u32>::empty());
        h
    }

    /// Position of the pair `(skel, form)`.
    fn find_pair(&self, skel: &[char], form: &[char]) -> (r: Option<usize>)
        requires
            self.wf(),
        ensures
            r matches Some(i) ==> pair_index(self.entries(), (skel@, form@)) == Some(i as int),
            r is None ==> pair_index(self.entries(), (skel@, form@)) is None,
    {
        let ghost es = self.entries();
        let mut i: usize = 0;
        while i < self.pairs.len()
            invariant
                es == self.entries(),
                distinct_keys(es),
                i <= es.len(),
                forall|j: int| 0 <= j < i ==> es[j].0 != (skel@, form@),
            decreases es.len() - i,
        {
            let e = &self.pairs[i];
            assert(es[i as int] == entry_view(*e));
            if chars_eq(e.skeleton.as_slice(), skel) && chars_eq(e.form.as_slice(), form) {
                proof {
                    lemma_pair_index_at(es, i as int);
                }
                return Some(i);
            }
            i = i + 1;
        }
        proof {
            lemma_pair_index(es, (skel@, form@));
        }
        None
    }

    /// Sets the counts of the pair `(skel, form)`, creating it when absent.
    fn put(&mut self, skel: &[char], form: &[char], c: u32, r: u32)
        requires
            old(self).wf(),
        ensures
            final(self).wf(),
            final(self).forms() == old(self).forms(),
            final(self).pairs() == old(self).pairs().insert((skel@, form@), (c, r)),
    {
        let ghost k = (skel@, form@);
        let ghost es = self.entries();
        proof {
            lemma_pair_index(es, k);
        }
        match self.find_pair(skel, form) {
            Some(i) => {
                let mut e = self.pairs.remove(i);
                e.stats = PairStats { confirmed: c, reverted: r };
                self.pairs.insert(i, e);
                proof {
                    let nv = (c, r);
                    assert(self.entries() =~= es.update(i as int, (k, nv)));
                    assert forall|q: PairKey| #[trigger] pair_index(self.entries(), q)
                        == pair_index(es, q) by {
                        lemma_pair_index(es, q);
                        lemma_pair_index(self.entries(), q);
                        if pair_index(es, q) is Some {
                            lemma_pair_index_at(self.entries(), pair_index(es, q)->0);
                        }
                        if pair_index(self.entries(), q) is Some {
                            lemma_pair_index_at(es, pair_index(self.entries(), q)->0);
                        }
                    }
                    assert(pair_index(es, k) == Some(i as int));
                    assert forall|q: PairKey| #[trigger] self.pairs().contains_key(q)
                        == old(self).pairs().insert(k, nv).contains_key(q) by {}
                    assert forall|q: PairKey| #[trigger] self.pairs().contains_key(q) implies
                        self.pairs()[q] == old(self).pairs().insert(k, nv)[q] by {
                        lemma_pair_index(es, q);
                        let j = pair_index(es, q)->0;
                        if q != k {
                            assert(j != i);
                            assert(self.entries()[j] == es[j]);
                        }
                    }
                    assert(self.pairs() =~= old(self).pairs().insert(k, nv));
                }
            },
            None => {
                let e = PairEntry {
                    skeleton: copy_range(skel, 0, skel.len()),
                    form: copy_range(form, 0, form.len()),
                    stats: PairStats { confirmed: c, reverted: r },
                };
                self.pairs.push(e);
                proof {
                    assert(skel@.subrange(0, skel@.len() as int) =~= skel@);
                    assert(form@.subrange(0, form@.len() as int) =~= form@);
                    let nv = (c, r);
                    assert(self.entries() =~= es.push((k, nv)));
                    assert forall|q: PairKey| #[trigger] pair_index(self.entries(), q) == (
                    match pair_index(es, q) {
                        Some(i) => Some(i),
                        None => if k == q {
                            Some(es.len() as int)
                        } else {
                            None
                        },
                    }) by {
                        assert(self.entries().drop_last() =~= es);
                    }
                    assert forall|q: PairKey| #[trigger] self.pairs().contains_key(q) implies
                        self.pairs()[q] == old(self).pairs().insert(k, nv)[q] by {
                        lemma_pair_index(es, q);
                        if q != k {
                            let j = pair_index(es, q)->0;
                            assert(self.entries()[j] == es[j]);
                        }
                    }
                    assert(self.pairs() =~= old(self).pairs().insert(k, nv));
                }
            },
        }
    }

    /// Counts of the pair `(skel, form)`, zero when absent.
    fn lookup(&self, skel: &[char], form: &[char]) -> (r: (u32, u32))
        requires
            self.wf(),
        ensures
            r == counts_of(self.pairs(), (skel@, form@)),
    {
        match self.find_pair(skel, form) {
            Some(i) => {
                proof {
                    lemma_pair_index(self.entries(), (skel@, form@));
                }
                let e = &self.pairs[i];
                proof {
                    assert(self.entries()[i as int] == entry_view(*e));
                }
                (e.stats.confirmed, e.stats.reverted)
            },
            None => (0, 0),
        }
    }

    /// Adds `dc` confirmations and `dr` reverts to the pair `(skel, form)`,
    /// creating it when absent.
    fn bump(&mut self, skel: &[char], form: &[char], dc: u32, dr: u32)
        requires
            old(self).wf(),
            counts_of(old(self).pairs(), (skel@, form@)).0 + dc <= u32::MAX,
            counts_of(old(self).pairs(), (skel@, form@)).1 + dr <= u32::MAX,
        ensures
            final(self).wf(),
            final(self).forms() == old(self).forms(),
            final(self).pairs() == old(self).pairs().insert(
                (skel@, form@),
                (
                    (counts_of(old(self).pairs(), (skel@, form@)).0 + dc) as u32,
                    (counts_of(old(self).pairs(), (skel@, form@)).1 + dr) as u32,
                ),
            ),
    {
        let (c0, r0) = self.lookup(skel, form);
        self.put(skel, form, c0 + dc, r0 + dr);
    }

    /// Adds `amount` to the confirmed popularity of `form`.
    fn add_form(&mut self, form: &[char], amount: u32)
        requires
            old(self).wf(),
            form_of(old(self).forms(), form@) + amount <= u32::MAX,
        ensures
            final(self).wf(),
            final(self).pairs() == old(self).pairs(),
            final(self).entries() == old(self).entries(),
            final(self).forms() == old(self).forms().insert(
                form@,
                (form_of(old(self).forms(), form@) + amount) as u32,
            ),
    {
        let ghost old_map = self.by_form;
        proof {
            self.by_form.lemma_wf();
        }
        match self.by_form.find(form) {
            Some(i) => {
                let v = *self.by_form.value_at(i);
                self.by_form.replace_at(i, v + amount);
                proof {
                    self.by_form.lemma_wf();
                    assert(self.forms() =~= old(self).forms().insert(form@, (v + amount) as u32));
                }
            },
            None => {
                let fv = copy_range(form, 0, form.len());
                assert(fv@ =~= form@);
                self.by_form.push(fv, amount);
                proof {
                    self.by_form.lemma_wf();
                    assert forall|k: Seq<char>| #[trigger]
                        self.by_form.index_of(k) == (match old_map.index_of(k) {
                            Some(i) => Some(i),
                            None => if form@ == k {
                                Some(old_map.size() as int)
                            } else {
                                None
                            },
                        }) by {
                        lemma_key_index_push(
                            old_map.keys_view(),
                            self.by_form.keys_view().last(),
                            k,
                        );
                        assert(old_map.keys_view().push(self.by_form.keys_view().last())
                            == self.by_form.keys_view());
                    }
                    assert(self.forms() =~= old(self).forms().insert(form@, amount));
                }
            },
        }
    }

    /// Sets the confirmed popularity of `form` to `value`.
    fn set_form(&mut self, form: &[char], value: u32)
        requires
            old(self).wf(),
        ensures
            final(self).wf(),
            final(self).pairs() == old(self).pairs(),
            final(self).entries() == old(self).entries(),
            final(self).forms() == old(self).forms().insert(form@, value),
    {
        let ghost old_map = self.by_form;
        proof {
            self.by_form.lemma_wf();
        }
        match self.by_form.find(form) {
            Some(i) => {
                self.by_form.replace_at(i, value);
                proof {
                    self.by_form.lemma_wf();
                    assert(self.forms() =~= old(self).forms().insert(form@, value));
                }
            },
            None => {
                let fv = copy_range(form, 0, form.len());
                assert(fv@ =~= form@);
                self.by_form.push(fv, value);
                proof {
                    self.by_form.lemma_wf();
                    assert forall|k: Seq<char>| #[trigger]
                        self.by_form.index_of(k) == (match old_map.index_of(k) {
                            Some(i) => Some(i),
                            None => if form@ == k {
                                Some(old_map.size() as int)
                            } else {
                                None
                            },
                        }) by {
                        lemma_key_index_push(
                            old_map.keys_view(),
                            self.by_form.keys_view().last(),
                            k,
                        );
                        assert(old_map.keys_view().push(self.by_form.keys_view().last())
                            == self.by_form.keys_view());
                    }
                    assert(self.forms() =~= old(self).forms().insert(form@, value));
                }
            },
        }
    }

    /// Records that the user **confirmed** `form` for `input_skeleton`
    /// (picked it and kept it). Positive evidence.
    pub fn confirm(&mut self, input_skeleton: &str, form: &str)
        requires
            old(self).wf(),
            counts_of(old(self).pairs(), (input_skeleton@, form@)).0 < u32::MAX,
            form_of(old(self).forms(), form@) < u32::MAX,
        ensures
            final(self).wf(),
            final(self).pairs() == old(self).pairs().insert(
                (input_skeleton@, form@),
                (
                    (counts_of(old(self).pairs(), (input_skeleton@, form@)).0 + 1) as u32,
                    counts_of(old(self).pairs(), (input_skeleton@, form@)).1,
                ),
            ),
            final(self).forms() == old(self).forms().insert(
                form@,
                (form_of(old(self).forms(), form@) + 1) as u32,
            ),
    {
        let s = str_chars(input_skeleton);
        let f = str_chars(form);
        self.bump(s.as_slice(), f.as_slice(), 1, 0);
        assert(form_of(self.forms(), f@) == form_of(old(self).forms(), form@));
        self.add_form(f.as_slice(), 1);
    }

    /// Records that the user **reverted** `form` for `input_skeleton`
    /// (undid/edited it after it was inserted). Negative evidence — it does
    /// not raise global form popularity.
    pub fn reject(&mut self, input_skeleton: &str, form: &str)
        requires
            old(self).wf(),
            counts_of(old(self).pairs(), (input_skeleton@, form@)).1 < u32::MAX,
        ensures
            final(self).wf(),
            final(self).pairs() == old(self).pairs().insert(
                (input_skeleton@, form@),
                (
                    counts_of(old(self).pairs(), (input_skeleton@, form@)).0,
                    (counts_of(old(self).pairs(), (input_skeleton@, form@)).1 + 1) as u32,
                ),
            ),
            final(self).forms() == old(self).forms(),
    {
        let s = str_chars(input_skeleton);
        let f = str_chars(form);
        self.bump(s.as_slice(), f.as_slice(), 0, 1);
    }

    /// Merges another history into this one by summing counters per pair —
    /// the operation behind cross-device sync. It is additive, not
    /// set-union, so callers must merge *deltas* or distinct devices, not
    /// the same blob twice.
    #[verifier::spinoff_prover]
    #[verifier::rlimit(40)]
    pub fn merge(&mut self, other: &UserHistory)
        requires
            old(self).wf(),
            other.wf(),
            sums_fit(old(self).pairs(), other.pairs()),
            confirmed_fits(old(self).forms(), other.entries()),
        ensures
            final(self).wf(),
            final(self).pairs() == sum_counts(old(self).pairs(), other.pairs()),
            final(self).forms() == add_confirmed(old(self).forms(), other.entries()),
    {
        let ghost es = other.entries();
        let ghost p0 = self.pairs();
        let ghost f0 = self.forms();
        assert(es.take(0) =~= Seq::<(PairKey, Counts)>::empty());
        assert(sum_counts(p0, pairs_of(es.take(0))) =~= p0);
        let mut i: usize = 0;
        while i < other.pairs.len()
            invariant
                es == other.entries(),
                other.wf(),
                distinct_keys(es),
                sums_fit(p0, pairs_of(es)),
                confirmed_fits(f0, es),
                i <= es.len(),
                self.wf(),
                self.pairs() == sum_counts(p0, pairs_of(es.take(i as int))),
                self.forms() == add_confirmed(f0, es.take(i as int)),
            decreases es.len() - i,
        {
            let e = &other.pairs[i];
            let ghost k = es[i as int].0;
            proof {
                assert(es[i as int] == entry_view(*e));
                lemma_pairs_of_take(es, i as int);
                lemma_pair_index(es.take(i as int), k);
                assert(counts_of(pairs_of(es.take(i as int)), k) == (0u32, 0u32));
                assert(counts_of(self.pairs(), k) == counts_of(p0, k));
                assert(counts_of(pairs_of(es), k) == es[i as int].1);
            }
            self.bump(e.skeleton.as_slice(), e.form.as_slice(), e.stats.confirmed, e.stats.reverted);
            proof {
                assert(self.pairs() =~= sum_counts(p0, pairs_of(es.take(i + 1))));
                lemma_confirmed_fits_take(f0, es, i + 1);
                assert(es.take(i + 1).drop_last() =~= es.take(i as int));
            }
            if e.stats.confirmed > 0 {
                self.add_form(e.form.as_slice(), e.stats.confirmed);
            }
            proof {
                assert(self.forms() == add_confirmed(f0, es.take(i + 1)));
            }
            i = i + 1;
        }
        proof {
            assert(es.take(es.len() as int) =~= es);
        }
    }

    /// Serializes to `skeleton<TAB>form<TAB>confirmed<TAB>reverted` lines
    /// (stable order). Pairs with no evidence are omitted.
    pub fn to_tsv(&self) -> (r: String)
        requires
            self.wf(),
        ensures
            r@ == join_lines(sort_rows(evidence_rows(self.entries()))),
    {
        let ghost es = self.entries();
        let mut rows: Vec<Vec<char>> = Vec::new();
        let mut i: usize = 0;
        assert(es.take(0) =~= Seq::<(PairKey, Counts)>::empty());
        while i < self.pairs.len()
            invariant
                es == self.entries(),
                i <= es.len(),
                rows@.map_values(|v: Vec<char>| v@) == evidence_rows(es.take(i as int)),
            decreases es.len() - i,
        {
            let e = &self.pairs[i];
            assert(es[i as int] == entry_view(*e));
            assert(es.take(i + 1).drop_last() =~= es.take(i as int));
            let ghost before = rows@.map_values(|v: Vec<char>| v@);
            if e.stats.confirmed > 0 || e.stats.reverted > 0 {
                let mut row: Vec<char> = Vec::new();
                append_chars(&mut row, e.skeleton.as_slice());
                row.push('\t');
                append_chars(&mut row, e.form.as_slice());
                row.push('\t');
                push_decimal(&mut row, e.stats.confirmed as u64);
                row.push('\t');
                push_decimal(&mut row, e.stats.reverted as u64);
                assert(row@ =~= format_row(es[i as int]));
                rows.push(row);
                assert(rows@.map_values(|v: Vec<char>| v@) =~= before.push(format_row(es[i as int])));
            }
            i = i + 1;
        }
        assert(es.take(es.len() as int) =~= es);
        let sorted = sort_row_vec(rows);
        let joined = join_row_vec(&sorted);
        chars_to_string(joined.as_slice())
    }

    /// Restores from `to_tsv` output. Accepts the legacy 3-column format
    /// (`skeleton<TAB>form<TAB>count`, treated as confirmed) so old
    /// persisted blobs still load. Malformed lines are skipped.
    pub fn from_tsv(tsv: &str) -> (h: Self)
        requires
            from_tsv_fits(tsv@),
        ensures
            h.wf(),
            (h.pairs(), h.forms()) == spec_from_tsv(tsv@),
            forms_match(h.pairs(), h.forms()),
    {
        match Self::try_from_tsv(tsv) {
            Some(h) => h,
            None => {
                assert(false);
                UserHistory::new()
            },
        }
    }

    /// `from_tsv` for any blob: `None` exactly when restoring it would
    /// overflow a popularity counter.
    pub fn try_from_tsv(tsv: &str) -> (r: Option<Self>)
        ensures
            r is Some <==> from_tsv_fits(tsv@),
            r matches Some(h) ==> h.wf() && (h.pairs(), h.forms()) == spec_from_tsv(tsv@)
                && forms_match(h.pairs(), h.forms()),
    {
        let t = str_chars(tsv);
        let ls = lines_chars(t.as_slice());
        let ghost sl = lines(tsv@);
        let mut h = UserHistory::new();
        let mut i: usize = 0;
        while i < ls.len()
            invariant
                t@ == tsv@,
                sl == lines(tsv@),
                ls@.len() == sl.len(),
                forall|k: int| 0 <= k < ls@.len() ==> #[trigger] ls@[k]@ == sl[k],
                history_fits(sl, i as nat),
                i <= ls@.len(),
                h.wf(),
                (h.pairs(), h.forms()) == history_fold(sl, i as nat),
            decreases ls@.len() - i,
        {
            let ghost line = sl[i as int];
            assert(ls@[i as int]@ == line);
            let parts = split_chars(ls[i].as_slice(), '\t');
            if parts.len() >= 3 {
                let c = parse_u32(trim_chars(parts[2].as_slice()).as_slice());
                match c {
                    Some(c) => {
                        let rv = if parts.len() > 3 {
                            match parse_u32(trim_chars(parts[3].as_slice()).as_slice()) {
                                Some(r) => r,
                                None => 0,
                            }
                        } else {
                            0
                        };
                        let (c0, _r0) = h.lookup(parts[0].as_slice(), parts[1].as_slice());
                        let f = self::form_count_chars(&h, parts[1].as_slice());
                        proof {
                            lemma_history_fold_match(sl, i as nat);
                            lemma_forms_match_below(h.pairs(), h.forms(), (parts@[0]@, parts@[1]@));
                        }
                        let base = f - c0;
                        if base > u32::MAX - c {
                            proof {
                                assert(!step_fits(history_fold(sl, i as nat), line));
                                assert(!history_fits(sl, (i + 1) as nat));
                                if history_fits(sl, sl.len()) {
                                    lemma_history_fits_prefix(sl, sl.len(), (i + 1) as nat);
                                }
                            }
                            return None;
                        }
                        h.put(parts[0].as_slice(), parts[1].as_slice(), c, rv);
                        if c0 > 0 || c > 0 {
                            h.set_form(parts[1].as_slice(), base + c);
                        }
                    },
                    None => {},
                }
            }
            i = i + 1;
        }
        proof {
            lemma_history_fold_match(sl, sl.len());
        }
        Some(h)
    }

    /// The entries, in storage order: skeleton, form, confirmed, reverted.
    pub fn entries_vec(&self) -> (r: Vec<(String, String, u32, u32)>)
        ensures
            r@.len() == self.entries().len(),
            forall|i: int|
                0 <= i < r@.len() ==> ((#[trigger] r@[i]).0@, r@[i].1@) == self.entries()[i].0 && (
                r@[i].2, r@[i].3) == self.entries()[i].1,
    {
        let mut out: Vec<(String, String, u32, u32)> = Vec::new();
        let mut i: usize = 0;
        while i < self.pairs.len()
            invariant
                i <= self.entries().len(),
                out@.len() == i,
                forall|k: int|
                    0 <= k < i ==> ((#[trigger] out@[k]).0@, out@[k].1@) == self.entries()[k].0 && (
                    out@[k].2, out@[k].3) == self.entries()[k].1,
            decreases self.entries().len() - i,
        {
            let e = &self.pairs[i];
            assert(self.entries()[i as int] == entry_view(*e));
            out.push(
                (
                    chars_to_string(e.skeleton.as_slice()),
                    chars_to_string(e.form.as_slice()),
                    e.stats.confirmed,
                    e.stats.reverted,
                ),
            );
            i = i + 1;
        }
        out
    }

    /// Confirmed and reverted counts of the pair, zero when unseen — the
    /// pair evidence the ranking prior is computed from.
    pub fn pair_counts(&self, input_skeleton: &str, form: &str) -> (r: (u32, u32))
        requires
            self.wf(),
        ensures
            r == counts_of(self.pairs(), (input_skeleton@, form@)),
    {
        let s = str_chars(input_skeleton);
        let f = str_chars(form);
        self.lookup(s.as_slice(), f.as_slice())
    }

    /// Global confirmed popularity of `form`, zero when unseen.
    pub fn form_count(&self, form: &str) -> (r: u32)
        requires
            self.wf(),
        ensures
            r == form_of(self.forms(), form@),
    {
        let f = str_chars(form);
        proof {
            self.by_form.lemma_wf();
        }
        match self.by_form.find(f.as_slice()) {
            Some(i) => *self.by_form.value_at(i),
            None => 0,
        }
    }
}


/// Confirmed popularity of the form spelled by `f`.
fn form_count_chars(h: &UserHistory, f: &[char]) -> (r: u32)
    requires
        h.wf(),
    ensures
        r == form_of(h.forms(), f@),
{
    proof {
        h.by_form.lemma_wf();
    }
    match h.by_form.find(f) {
        Some(i) => *h.by_form.value_at(i),
        None => 0,
    }
}

// ---------------------------------------------------------------------------
// Laws
// ---------------------------------------------------------------------------

proof fn lemma_first_after(s: Seq<Seq<char>>, x: Seq<char>)
    ensures
        first_after(s, x) <= s.len(),
        forall|i: int| 0 <= i < first_after(s, x) ==> !lex_lt(x, #[trigger] s[i]),
        first_after(s, x) < s.len() ==> lex_lt(x, s[first_after(s, x) as int]),
    decreases s.len(),
{
    if s.len() > 0 && !lex_lt(x, s[0]) {
        lemma_first_after(s.drop_first(), x);
        assert forall|i: int| 0 <= i < first_after(s, x) implies !lex_lt(x, #[trigger] s[i]) by {
            if i > 0 {
                assert(s[i] == s.drop_first()[i - 1]);
            }
        }
    }
}

/// Sorted by `str` order.
pub open spec fn rows_sorted(s: Seq<Seq<char>>) -> bool {
    forall|i: int, j: int| 0 <= i < j < s.len() ==> lex_le(#[trigger] s[i], #[trigger] s[j])
}

/// Sorting rows keeps exactly the same rows (with multiplicity) and puts
/// them in `str` order.
pub proof fn lemma_sort_rows(s: Seq<Seq<char>>)
    ensures
        sort_rows(s).to_multiset() == s.to_multiset(),
        sort_rows(s).len() == s.len(),
        rows_sorted(sort_rows(s)),
    decreases s.len(),
{
    broadcast use vstd::seq_lib::group_to_multiset_ensures;

    if s.len() > 0 {
        let d = s.drop_last();
        let y = s.last();
        let t = sort_rows(d);
        lemma_sort_rows(d);
        lemma_first_after(t, y);
        let p = first_after(t, y) as int;
        let u = t.insert(p, y);
        assert(u.remove(p) =~= t);
        assert(u[p] == y);
        assert(u.to_multiset().remove(y) == t.to_multiset());
        assert(u.to_multiset().count(y) > 0) by {
            assert(u.contains(y));
        }
        assert(u.to_multiset() =~= t.to_multiset().insert(y));
        assert(s =~= d.push(y));
        assert(s.to_multiset() =~= d.to_multiset().insert(y));
        assert forall|i: int, j: int| 0 <= i < j < u.len() implies lex_le(
            #[trigger] u[i],
            #[trigger] u[j],
        ) by {
            if i < p && j < p {
                assert(lex_le(t[i], t[j]));
            } else if i < p && j == p {
                lemma_lex_total(y, t[i]);
            } else if i < p && j > p {
                assert(lex_le(t[i], t[j - 1]));
            } else if i == p {
                // y < t[p] <= t[j - 1]
                if p < t.len() {
                    if j - 1 > p {
                        assert(lex_le(t[p], t[j - 1]));
                    }
                    if lex_lt(t[p], t[j - 1]) {
                        lemma_lex_transitive(y, t[p], t[j - 1]);
                    }
                }
            } else {
                assert(lex_le(t[i - 1], t[j - 1]));
            }
        }
    }
}

/// `lines` reads newline-joined rows back, when no row is empty, holds a
/// newline or ends with a carriage return.
proof fn lemma_lines_join(rs: Seq<Seq<char>>)
    requires
        forall|i: int| 0 <= i < rs.len() ==> #[trigger] rs[i].len() > 0 && !rs[i].contains('\n')
            && rs[i].last() != '\r',
    ensures
        lines(join_lines(rs)) == rs,
{
    if rs.len() == 0 {
        assert(split(Seq::<char>::empty(), '\n') =~= seq![Seq::<char>::empty()]);
        assert(lines(join_lines(rs)) =~= rs);
    } else {
        lemma_split_join(rs);
        let p = split(join_lines(rs), '\n');
        assert(p.take(p.len() - 1).map_values(|l: Seq<char>| strip_cr(l)) =~= rs.drop_last());
        assert(rs.drop_last().push(rs.last()) =~= rs);
    }
}

/// Splitting on a separator that no piece holds gives the pieces back.
proof fn lemma_split_join(rs: Seq<Seq<char>>)
    requires
        rs.len() > 0,
        forall|i: int| 0 <= i < rs.len() ==> !(#[trigger] rs[i]).contains('\n'),
    ensures
        split(join_lines(rs), '\n') == rs,
    decreases rs.len(),
{
    if rs.len() == 1 {
        lemma_split_free(rs[0], '\n');
        assert(seq![rs[0]] =~= rs);
    } else {
        let d = rs.drop_last();
        lemma_split_join(d);
        lemma_split_append(join_lines(d), rs.last(), '\n');
        assert(d.push(rs.last()) =~= rs);
    }
}

/// No key of `m` holds a tab or a newline — the separators of the blob.
pub open spec fn keys_tab_free(m: Map<PairKey, Counts>) -> bool {
    forall|k: PairKey|
        #[trigger] m.contains_key(k) ==> !k.0.contains('\t') && !k.0.contains('\n')
            && !k.1.contains('\t') && !k.1.contains('\n')
}

/// The pairs that carry evidence.
pub open spec fn evidence_pairs(m: Map<PairKey, Counts>) -> Map<PairKey, Counts> {
    Map::new(|k: PairKey| m.contains_key(k) && has_evidence(m[k]), |k: PairKey| m[k])
}

proof fn lemma_row_split(e: (PairKey, Counts))
    requires
        !e.0.0.contains('\t'),
        !e.0.1.contains('\t'),
    ensures
        split(format_row(e), '\t') == seq![
            e.0.0,
            e.0.1,
            decimal(e.1.0 as nat),
            decimal(e.1.1 as nat),
        ],
{
    let a = e.0.0;
    let b = e.0.1;
    let c = decimal(e.1.0 as nat);
    let d = decimal(e.1.1 as nat);
    lemma_decimal_clean(e.1.0 as nat);
    lemma_decimal_clean(e.1.1 as nat);
    lemma_split_free(a, '\t');
    lemma_split_append(a, b, '\t');
    lemma_split_append(a + seq!['\t'] + b, c, '\t');
    lemma_split_append(a + seq!['\t'] + b + seq!['\t'] + c, d, '\t');
    assert(seq![a].push(b).push(c).push(d) =~= seq![a, b, c, d]);
}

proof fn lemma_row_clean(e: (PairKey, Counts))
    requires
        !e.0.0.contains('\n'),
        !e.0.1.contains('\n'),
    ensures
        format_row(e).len() > 0,
        !format_row(e).contains('\n'),
        format_row(e).last() != '\r',
{
    let a = e.0.0;
    let b = e.0.1;
    let c = decimal(e.1.0 as nat);
    let d = decimal(e.1.1 as nat);
    lemma_decimal_clean(e.1.0 as nat);
    lemma_decimal_clean(e.1.1 as nat);
    let r = format_row(e);
    assert(r.last() == d.last());
    assert(!r.contains('\n')) by {
        if r.contains('\n') {
            let i = choose|i: int| 0 <= i < r.len() && r[i] == '\n';
            let la = a.len() as int;
            let lb = b.len() as int;
            let lc = c.len() as int;
            if i < la {
                assert(a[i] == '\n');
            } else if i == la {
            } else if i < la + 1 + lb {
                assert(b[i - la - 1] == '\n');
            } else if i == la + 1 + lb {
            } else if i < la + 2 + lb + lc {
                assert(c[i - la - 2 - lb] == '\n');
            } else if i == la + 2 + lb + lc {
            } else {
                assert(d[i - la - 3 - lb - lc] == '\n');
            }
        }
    }
}

/// Restoring one serialized row sets that pair's counts and adds its
/// confirmations to its form.
proof fn lemma_step_row(st: HistoryState, e: (PairKey, Counts))
    requires
        !e.0.0.contains('\t'),
        !e.0.1.contains('\t'),
    ensures
        history_step(st, format_row(e)).0 == st.0.insert(e.0, e.1),
        history_step(st, format_row(e)).1 == restore_form(
            st.1,
            e.0.1,
            counts_of(st.0, e.0).0 as nat,
            e.1.0 as nat,
        ),
        step_fits(st, format_row(e)) == (form_of(st.1, e.0.1) - counts_of(st.0, e.0).0 + e.1.0
            <= u32::MAX),
{
    lemma_row_split(e);
    lemma_decimal_clean(e.1.0 as nat);
    lemma_decimal_clean(e.1.1 as nat);
    lemma_parse_decimal(e.1.0 as nat, u32::MAX as nat);
    lemma_parse_decimal(e.1.1 as nat, u32::MAX as nat);
    let parts = split(format_row(e), '\t');
    assert(parts[0] == e.0.0 && parts[1] == e.0.1);
    assert(row_counts(parts) == Some((e.1.0 as nat, e.1.1 as nat)));
    assert((e.0.0, e.0.1) == e.0);
}

/// Positions of the entries that carry evidence, in order.
spec fn evidence_src(es: Seq<(PairKey, Counts)>) -> Seq<int>
    decreases es.len(),
{
    if es.len() == 0 {
        Seq::empty()
    } else {
        let r = evidence_src(es.drop_last());
        if has_evidence(es.last().1) {
            r.push(es.len() - 1)
        } else {
            r
        }
    }
}

proof fn lemma_evidence_rows(es: Seq<(PairKey, Counts)>)
    ensures
        evidence_src(es).len() == evidence_rows(es).len(),
        forall|i: int|
            0 <= i < evidence_rows(es).len() ==> 0 <= #[trigger] evidence_src(es)[i] < es.len()
                && has_evidence(es[evidence_src(es)[i]].1) && evidence_rows(es)[i] == format_row(
                es[evidence_src(es)[i]],
            ),
        forall|j: int|
            0 <= j < es.len() && has_evidence(es[j].1) ==> evidence_rows(es).contains(
                #[trigger] format_row(es[j]),
            ),
    decreases es.len(),
{
    if es.len() > 0 {
        let d = es.drop_last();
        lemma_evidence_rows(d);
        let r = evidence_rows(d);
        let sr = evidence_src(d);
        assert forall|i: int| 0 <= i < evidence_rows(es).len() implies 0 <= #[trigger] evidence_src(
            es,
        )[i] < es.len() && has_evidence(es[evidence_src(es)[i]].1) && evidence_rows(es)[i]
            == format_row(es[evidence_src(es)[i]]) by {
            if i < r.len() {
                assert(sr[i] == evidence_src(es)[i]);
                assert(es[sr[i]] == d[sr[i]]);
                assert(evidence_rows(es)[i] == r[i]);
            }
        }
        assert forall|j: int| 0 <= j < es.len() && has_evidence(es[j].1) implies evidence_rows(
            es,
        ).contains(#[trigger] format_row(es[j])) by {
            if j < d.len() {
                assert(es[j] == d[j]);
                assert(r.contains(format_row(d[j])));
                let i = choose|i: int| 0 <= i < r.len() && r[i] == format_row(d[j]);
                assert(evidence_rows(es)[i] == r[i]);
            } else {
                let n = evidence_rows(es).len() - 1;
                assert(evidence_rows(es)[n] == format_row(es[j]));
            }
        }
    }
}

proof fn lemma_fold_rows(h: &UserHistory, rs: Seq<Seq<char>>, src: Seq<int>, n: nat)
    requires
        h.wf(),
        keys_tab_free(h.pairs()),
        n <= rs.len(),
        src.len() == rs.len(),
        forall|i: int|
            0 <= i < rs.len() ==> 0 <= #[trigger] src[i] < h.entries().len() && has_evidence(
                h.entries()[src[i]].1,
            ) && rs[i] == format_row(h.entries()[src[i]]),
    ensures
        forall|q: PairKey| #[trigger]
            history_fold(rs, n).0.contains_key(q) ==> h.pairs().contains_key(q) && has_evidence(
                h.pairs()[q],
            ) && history_fold(rs, n).0[q] == h.pairs()[q],
        forall|i: int, j: int|
            #![trigger rs[i], h.entries()[j]]
            0 <= i < n && 0 <= j < h.entries().len() && rs[i] == format_row(h.entries()[j])
                ==> history_fold(rs, n).0.contains_key(h.entries()[j].0),
    decreases n,
{
    if n > 0 {
        let es = h.entries();
        lemma_fold_rows(h, rs, src, (n - 1) as nat);
        h.lemma_entries();
        let prev = history_fold(rs, (n - 1) as nat);
        let j0 = src[n - 1];
        let e = es[j0];
        assert(h.pairs().contains_key(e.0) && h.pairs()[e.0] == e.1);
        lemma_step_row(prev, e);
        assert(history_fold(rs, n).0 == prev.0.insert(e.0, e.1));
        assert forall|i: int, j: int|
            #![trigger rs[i], es[j]]
            0 <= i < n && 0 <= j < es.len() && rs[i] == format_row(es[j]) implies history_fold(
                rs,
                n,
            ).0.contains_key(es[j].0) by {
            if i == n - 1 {
                assert(h.pairs().contains_key(es[j].0));
                lemma_row_split(es[j]);
                lemma_row_split(e);
                assert(split(format_row(es[j]), '\t')[0] == es[j].0.0);
                assert(split(format_row(e), '\t')[0] == e.0.0);
                assert(split(format_row(es[j]), '\t')[1] == es[j].0.1);
                assert(split(format_row(e), '\t')[1] == e.0.1);
                assert(es[j].0 == e.0);
            } else {
                assert(prev.0.contains_key(es[j].0));
            }
        }
    }
}

/// Restoring a history from its serialization gives back exactly the pairs
/// that carry evidence, each with its confirmed and reverted counts — as
/// long as no skeleton or form holds the blob's separators.
pub proof fn lemma_tsv_roundtrip(h: &UserHistory)
    requires
        h.wf(),
        keys_tab_free(h.pairs()),
    ensures
        spec_from_tsv(join_lines(sort_rows(evidence_rows(h.entries())))).0 == evidence_pairs(
            h.pairs(),
        ),
{
    broadcast use vstd::seq_lib::group_to_multiset_ensures;

    let es = h.entries();
    let ev = evidence_rows(es);
    let evs = evidence_src(es);
    let rs = sort_rows(ev);
    lemma_sort_rows(ev);
    lemma_evidence_rows(es);
    h.lemma_entries();
    let pos = Seq::new(rs.len(), |i: int| choose|k: int| 0 <= k < ev.len() && ev[k] == rs[i]);
    let src = Seq::new(rs.len(), |i: int| evs[pos[i]]);
    assert forall|i: int| 0 <= i < rs.len() implies 0 <= #[trigger] src[i] < es.len()
        && has_evidence(es[src[i]].1) && rs[i] == format_row(es[src[i]]) by {
        assert(rs.contains(rs[i]));
        assert(rs.to_multiset().count(rs[i]) > 0);
        assert(ev.contains(rs[i]));
        let k = pos[i];
        assert(0 <= k < ev.len() && ev[k] == rs[i]);
        assert(evs[k] == src[i]);
    }
    assert forall|i: int| 0 <= i < rs.len() implies #[trigger] rs[i].len() > 0 && !rs[i].contains(
        '\n',
    ) && rs[i].last() != '\r' by {
        assert(0 <= src[i] < es.len());
        assert(h.pairs().contains_key(es[src[i]].0));
        lemma_row_clean(es[src[i]]);
    }
    lemma_lines_join(rs);
    lemma_fold_rows(h, rs, src, rs.len());
    let m = spec_from_tsv(join_lines(rs)).0;
    assert(m == history_fold(rs, rs.len()).0);
    assert forall|q: PairKey| #[trigger] evidence_pairs(h.pairs()).contains_key(q) implies m.contains_key(q) by {
        let j = choose|j: int|
            0 <= j < es.len() && es[j].0 == q && es[j].1 == h.pairs()[q];
        assert(ev.contains(format_row(es[j])));
        assert(ev.to_multiset().count(format_row(es[j])) > 0);
        assert(rs.contains(format_row(es[j])));
        let i = choose|i: int| 0 <= i < rs.len() && rs[i] == format_row(es[j]);
        assert(rs[i] == format_row(es[j]));
    }
    assert(m =~= evidence_pairs(h.pairs()));
}

/// Merging sums counters per pair, so the order in which two histories are
/// merged into the same base does not change the pair counts.
pub proof fn lemma_merge_commutes(a: &UserHistory, b: &UserHistory)
    ensures
        sum_counts(a.pairs(), b.pairs()) == sum_counts(b.pairs(), a.pairs()),
{
    assert(sum_counts(a.pairs(), b.pairs()) =~= sum_counts(b.pairs(), a.pairs()));
}

/// Merging is associative on pair counts, wherever the sums fit.
pub proof fn lemma_merge_associates(a: &UserHistory, b: &UserHistory, c: &UserHistory)
    requires
        sums_fit(a.pairs(), b.pairs()),
        sums_fit(b.pairs(), c.pairs()),
        sums_fit(sum_counts(a.pairs(), b.pairs()), c.pairs()),
    ensures
        sum_counts(sum_counts(a.pairs(), b.pairs()), c.pairs()) == sum_counts(
            a.pairs(),
            sum_counts(b.pairs(), c.pairs()),
        ),
{
    let (x, y, z) = (a.pairs(), b.pairs(), c.pairs());
    assert forall|k: PairKey| #[trigger] sum_counts(sum_counts(x, y), z).contains_key(k) implies
        sum_counts(sum_counts(x, y), z)[k] == sum_counts(x, sum_counts(y, z))[k] by {
        assert(counts_of(x, k).0 + counts_of(y, k).0 <= u32::MAX);
        assert(counts_of(y, k).0 + counts_of(z, k).0 <= u32::MAX);
        assert(counts_of(sum_counts(x, y), k).0 + counts_of(z, k).0 <= u32::MAX);
    }
    assert(sum_counts(sum_counts(x, y), z) =~= sum_counts(x, sum_counts(y, z)));
}

/// Merging an empty history changes nothing.
pub proof fn lemma_merge_empty(a: &UserHistory, e: &UserHistory)
    requires
        e.pairs() == Map::<PairKey, Counts>::empty(),
        e.entries().len() == 0,
    ensures
        sum_counts(a.pairs(), e.pairs()) == a.pairs(),
        add_confirmed(a.forms(), e.entries()) == a.forms(),
{
    assert(sum_counts(a.pairs(), e.pairs()) =~= a.pairs());
}


/// Removing an entry takes its confirmations off its form's total.
proof fn lemma_total_remove(es: Seq<(PairKey, Counts)>, j: int, x: Seq<char>)
    requires
        0 <= j < es.len(),
    ensures
        confirmed_total(es, x) == confirmed_total(es.remove(j), x) + (if es[j].0.1 == x {
            es[j].1.0 as nat
        } else {
            0nat
        }),
    decreases es.len(),
{
    let d = es.drop_last();
    if j == es.len() - 1 {
        assert(es.remove(j) =~= d);
    } else {
        lemma_total_remove(d, j, x);
        assert(es.remove(j).drop_last() =~= d.remove(j));
        assert(es.remove(j).last() == es.last());
        assert(d[j] == es[j]);
    }
}

/// A list of distinct keys stands for a map that holds each entry, and
/// nothing else.
proof fn lemma_pairs_of_entries(es: Seq<(PairKey, Counts)>)
    requires
        distinct_keys(es),
    ensures
        forall|i: int| 0 <= i < es.len() ==> #[trigger] pairs_of(es).contains_key(es[i].0) && pairs_of(es)[es[i].0] == es[i].1,
        forall|q: PairKey| #[trigger] pairs_of(es).contains_key(q) ==> exists|i: int| 0 <= i < es.len() && es[i].0 == q,
{
    assert forall|i: int| 0 <= i < es.len() implies #[trigger] pairs_of(es).contains_key(es[i].0) && pairs_of(es)[es[i].0] == es[i].1 by {
        lemma_pair_index_at(es, i);
    }
    assert forall|q: PairKey| #[trigger] pairs_of(es).contains_key(q) implies exists|i: int| 0 <= i < es.len() && es[i].0 == q by {
        lemma_pair_index(es, q);
    }
}

/// Removing an entry of distinct keys removes its key from the map.
proof fn lemma_pairs_of_remove(es: Seq<(PairKey, Counts)>, j: int)
    requires
        distinct_keys(es),
        0 <= j < es.len(),
    ensures
        distinct_keys(es.remove(j)),
        pairs_of(es.remove(j)) == pairs_of(es).remove(es[j].0),
{
    let r = es.remove(j);
    assert forall|a: int, b: int| 0 <= a < b < r.len() implies r[a].0 != r[b].0 by {
        let a2 = if a < j { a } else { a + 1 };
        let b2 = if b < j { b } else { b + 1 };
        assert(r[a] == es[a2] && r[b] == es[b2]);
    }
    lemma_pairs_of_entries(es);
    lemma_pairs_of_entries(r);
    assert forall|q: PairKey| #[trigger] pairs_of(r).contains_key(q) <==> pairs_of(es).remove(es[j].0).contains_key(q) by {
        if pairs_of(r).contains_key(q) {
            let i = choose|i: int| 0 <= i < r.len() && r[i].0 == q;
            let i2 = if i < j { i } else { i + 1 };
            assert(r[i] == es[i2]);
            assert(pairs_of(es).contains_key(es[i2].0));
        }
        if pairs_of(es).remove(es[j].0).contains_key(q) {
            let i = choose|i: int| 0 <= i < es.len() && es[i].0 == q;
            assert(i != j);
            let i2 = if i < j { i } else { i - 1 };
            assert(r[i2] == es[i]);
            assert(pairs_of(r).contains_key(r[i2].0));
        }
    }
    assert forall|q: PairKey| #[trigger] pairs_of(r).contains_key(q) implies pairs_of(r)[q] == pairs_of(es)[q] by {
        let i = choose|i: int| 0 <= i < r.len() && r[i].0 == q;
        let i2 = if i < j { i } else { i + 1 };
        assert(r[i] == es[i2]);
    }
    assert(pairs_of(r) =~= pairs_of(es).remove(es[j].0));
}

/// Two lists of distinct keys that stand for the same map give every form
/// the same total.
proof fn lemma_total_same(e1: Seq<(PairKey, Counts)>, e2: Seq<(PairKey, Counts)>, x: Seq<char>)
    requires
        distinct_keys(e1),
        distinct_keys(e2),
        pairs_of(e1) == pairs_of(e2),
    ensures
        confirmed_total(e1, x) == confirmed_total(e2, x),
    decreases e1.len(),
{
    lemma_pairs_of_entries(e1);
    lemma_pairs_of_entries(e2);
    if e1.len() == 0 {
        if e2.len() > 0 {
            assert(pairs_of(e2).contains_key(e2[0].0));
            let i = choose|i: int| 0 <= i < e1.len() && e1[i].0 == e2[0].0;
        }
        assert(e2.len() == 0);
    } else {
        let n = e1.len() - 1;
        let e = e1[n];
        assert(pairs_of(e1).contains_key(e.0));
        let j = choose|j: int| 0 <= j < e2.len() && e2[j].0 == e.0;
        assert(pairs_of(e2)[e2[j].0] == e2[j].1);
        assert(e2[j].1 == e.1);
        lemma_pairs_of_remove(e1, n);
        lemma_pairs_of_remove(e2, j);
        assert(e1.remove(n) =~= e1.drop_last());
        lemma_total_same(e1.drop_last(), e2.remove(j), x);
        lemma_total_remove(e2, j, x);
        assert(e1.last() == e);
    }
}

/// Popularity is determined by the pairs: two popularity tables that both
/// match the same pairs agree on every form. So histories with equal pairs,
/// however they were built (merged in either order or grouping, or
/// restored from their serialization), have equal popularity.
pub proof fn lemma_popularity_determined(
    pairs: Map<PairKey, Counts>,
    f1: Map<Seq<char>, u32>,
    f2: Map<Seq<char>, u32>,
)
    requires
        forms_match(pairs, f1),
        forms_match(pairs, f2),
    ensures
        same_popularity(f1, f2),
{
    let e1 = choose|es: Seq<(PairKey, Counts)>|
        #![trigger pairs_of(es)]
        distinct_keys(es) && pairs_of(es) == pairs && forall|x: Seq<char>|
            #[trigger] form_of(f1, x) == confirmed_total(es, x);
    let e2 = choose|es: Seq<(PairKey, Counts)>|
        #![trigger pairs_of(es)]
        distinct_keys(es) && pairs_of(es) == pairs && forall|x: Seq<char>|
            #[trigger] form_of(f2, x) == confirmed_total(es, x);
    assert forall|x: Seq<char>| #[trigger] form_of(f1, x) == form_of(f2, x) by {
        lemma_total_same(e1, e2, x);
    }
}

/// The entries that carry evidence, in order.
pub open spec fn evidence_entries(es: Seq<(PairKey, Counts)>) -> Seq<(PairKey, Counts)>
    decreases es.len(),
{
    if es.len() == 0 {
        es
    } else {
        let r = evidence_entries(es.drop_last());
        if has_evidence(es.last().1) {
            r.push(es.last())
        } else {
            r
        }
    }
}

proof fn lemma_evidence_entries(es: Seq<(PairKey, Counts)>)
    requires
        distinct_keys(es),
    ensures
        distinct_keys(evidence_entries(es)),
        pairs_of(evidence_entries(es)) == evidence_pairs(pairs_of(es)),
        forall|x: Seq<char>| #[trigger] confirmed_total(evidence_entries(es), x) == confirmed_total(es, x),
        forall|i: int| 0 <= i < evidence_entries(es).len() ==> es.contains(#[trigger] evidence_entries(es)[i]),
    decreases es.len(),
{
    if es.len() == 0 {
        assert(evidence_pairs(pairs_of(es)) =~= pairs_of(es));
    } else {
        let d = es.drop_last();
        let e = es.last();
        assert(distinct_keys(d));
        lemma_evidence_entries(d);
        let r = evidence_entries(d);
        assert(es =~= d.push(e));
        lemma_pair_index(d, e.0);
        assert(pair_index(d, e.0) is None) by {
            if pair_index(d, e.0) is Some {
                let i = pair_index(d, e.0)->0;
                assert(es[i].0 == es[es.len() - 1].0);
            }
        }
        lemma_pairs_of_push(d, e);
        assert forall|i: int| 0 <= i < r.len() implies r[i].0 != e.0 by {
            assert(d.contains(r[i]));
            let q = choose|q: int| 0 <= q < d.len() && d[q] == r[i];
            assert(d[q].0 != e.0);
        }
        if has_evidence(e.1) {
            let r2 = r.push(e);
            lemma_pair_index(r, e.0);
            lemma_pairs_of_push(r, e);
            assert(distinct_keys(r2)) by {
                assert forall|a: int, b: int| 0 <= a < b < r2.len() implies r2[a].0 != r2[b].0 by {
                    if b < r.len() {
                        assert(r2[a] == r[a] && r2[b] == r[b]);
                    } else {
                        assert(r2[a] == r[a]);
                    }
                }
            }
            assert(r2.drop_last() =~= r);
            assert(pairs_of(r2) =~= evidence_pairs(pairs_of(es)));
            assert forall|x: Seq<char>| #[trigger] confirmed_total(r2, x) == confirmed_total(es, x) by {
                assert(confirmed_total(r, x) == confirmed_total(d, x));
                assert(r2.last() == e);
            }
            assert forall|i: int| 0 <= i < r2.len() implies es.contains(#[trigger] r2[i]) by {
                if i < r.len() {
                    assert(d.contains(r[i]));
                    let q = choose|q: int| 0 <= q < d.len() && d[q] == r[i];
                    assert(es[q] == d[q]);
                } else {
                    assert(es[es.len() - 1] == e);
                }
            }
        } else {
            assert(pairs_of(r) =~= evidence_pairs(pairs_of(es)));
            assert forall|x: Seq<char>| #[trigger] confirmed_total(r, x) == confirmed_total(es, x) by {
                assert(confirmed_total(r, x) == confirmed_total(d, x));
                assert(e.1.0 == 0);
            }
            assert forall|i: int| 0 <= i < r.len() implies es.contains(#[trigger] r[i]) by {
                assert(d.contains(r[i]));
                let q = choose|q: int| 0 <= q < d.len() && d[q] == r[i];
                assert(es[q] == d[q]);
            }
        }
    }
}

/// Restoring a history from its serialization gives back its popularity:
/// when the history's popularity matches its pairs, every form's
/// popularity after the round trip is what it was.
pub proof fn lemma_tsv_roundtrip_popularity(h: &UserHistory)
    requires
        h.wf(),
        keys_tab_free(h.pairs()),
        forms_match(h.pairs(), h.forms()),
        from_tsv_fits(join_lines(sort_rows(evidence_rows(h.entries())))),
    ensures
        same_popularity(spec_from_tsv(join_lines(sort_rows(evidence_rows(h.entries())))).1, h.forms()),
{
    let text = join_lines(sort_rows(evidence_rows(h.entries())));
    lemma_tsv_roundtrip(h);
    lemma_history_fold_match(lines(text), lines(text).len());
    let es = choose|es: Seq<(PairKey, Counts)>|
        #![trigger pairs_of(es)]
        distinct_keys(es) && pairs_of(es) == h.pairs() && forall|x: Seq<char>|
            #[trigger] form_of(h.forms(), x) == confirmed_total(es, x);
    lemma_evidence_entries(es);
    let ev = evidence_entries(es);
    assert(pairs_of(ev) == evidence_pairs(h.pairs()));
    assert forall|x: Seq<char>| #[trigger] form_of(h.forms(), x) == confirmed_total(ev, x) by {
        assert(form_of(h.forms(), x) == confirmed_total(es, x));
    }
    assert(forms_match(evidence_pairs(h.pairs()), h.forms()));
    lemma_popularity_determined(evidence_pairs(h.pairs()), spec_from_tsv(text).1, h.forms());
}

/// Merging two histories into a base in either order gives the same pairs
/// and the same popularity, when the base's popularity matches its pairs
/// and no counter overflows either way.
pub proof fn lemma_merge_order_free(
    pairs: Map<PairKey, Counts>,
    forms: Map<Seq<char>, u32>,
    a: &UserHistory,
    b: &UserHistory,
)
    requires
        a.wf(),
        b.wf(),
        forms_match(pairs, forms),
        sums_fit(pairs, a.pairs()),
        sums_fit(sum_counts(pairs, a.pairs()), b.pairs()),
        confirmed_fits(forms, a.entries()),
        confirmed_fits(add_confirmed(forms, a.entries()), b.entries()),
        sums_fit(pairs, b.pairs()),
        sums_fit(sum_counts(pairs, b.pairs()), a.pairs()),
        confirmed_fits(forms, b.entries()),
        confirmed_fits(add_confirmed(forms, b.entries()), a.entries()),
    ensures
        sum_counts(sum_counts(pairs, a.pairs()), b.pairs()) == sum_counts(
            sum_counts(pairs, b.pairs()),
            a.pairs(),
        ),
        same_popularity(
            add_confirmed(add_confirmed(forms, a.entries()), b.entries()),
            add_confirmed(add_confirmed(forms, b.entries()), a.entries()),
        ),
{
    a.lemma_entries();
    b.lemma_entries();
    let (x, y) = (a.pairs(), b.pairs());
    lemma_merge_keeps_forms(pairs, forms, a.entries());
    lemma_merge_keeps_forms(sum_counts(pairs, x), add_confirmed(forms, a.entries()), b.entries());
    lemma_merge_keeps_forms(pairs, forms, b.entries());
    lemma_merge_keeps_forms(sum_counts(pairs, y), add_confirmed(forms, b.entries()), a.entries());
    let m1 = sum_counts(sum_counts(pairs, x), y);
    let m2 = sum_counts(sum_counts(pairs, y), x);
    assert forall|k: PairKey| #[trigger] m1.contains_key(k) implies m1[k] == m2[k] by {
        assert(counts_of(pairs, k).0 + counts_of(x, k).0 <= u32::MAX);
        assert(counts_of(pairs, k).0 + counts_of(y, k).0 <= u32::MAX);
        assert(counts_of(sum_counts(pairs, x), k).0 + counts_of(y, k).0 <= u32::MAX);
        assert(counts_of(sum_counts(pairs, y), k).0 + counts_of(x, k).0 <= u32::MAX);
    }
    assert(m1 =~= m2);
    lemma_popularity_determined(
        m1,
        add_confirmed(add_confirmed(forms, a.entries()), b.entries()),
        add_confirmed(add_confirmed(forms, b.entries()), a.entries()),
    );
}

/// Rows of entries with distinct, separator-free keys are distinct.
proof fn lemma_evidence_rows_distinct(es: Seq<(PairKey, Counts)>)
    requires
        distinct_keys(es),
        forall|i: int| 0 <= i < es.len() ==> !(#[trigger] es[i]).0.0.contains('\t') && !es[i].0.1.contains('\t'),
    ensures
        evidence_rows(es).no_duplicates(),
    decreases es.len(),
{
    if es.len() > 0 {
        let d = es.drop_last();
        let e = es.last();
        assert forall|i: int| 0 <= i < d.len() implies !(#[trigger] d[i]).0.0.contains('\t') && !d[i].0.1.contains('\t') by {
            assert(d[i] == es[i]);
        }
        lemma_evidence_rows_distinct(d);
        lemma_evidence_rows(d);
        let r = evidence_rows(d);
        if has_evidence(e.1) {
            let x = format_row(e);
            assert(!es[es.len() - 1].0.0.contains('\t'));
            lemma_row_split(e);
            assert forall|i: int| 0 <= i < r.len() implies r[i] != x by {
                let q = evidence_src(d)[i];
                assert(r[i] == format_row(d[q]));
                assert(d[q] == es[q]);
                lemma_row_split(d[q]);
                if r[i] == x {
                    assert(split(r[i], '\t')[0] == d[q].0.0);
                    assert(split(x, '\t')[0] == e.0.0);
                    assert(split(r[i], '\t')[1] == d[q].0.1);
                    assert(split(x, '\t')[1] == e.0.1);
                    assert(d[q].0 == e.0);
                    assert(es[q].0 != es[es.len() - 1].0);
                }
            }
            assert forall|a: int, b: int| 0 <= a < b < r.push(x).len() implies r.push(x)[a] != r.push(x)[b] by {
                if b == r.len() {
                    assert(r[a] != x);
                } else {
                    assert(r.push(x)[a] == r[a] && r.push(x)[b] == r[b]);
                }
            }
        }
    }
}

/// The serialization depends only on the pairs that carry evidence: two
/// histories that agree on those write the same text. So a history
/// restored from its serialization writes it back unchanged, and two
/// histories with the same pairs (merged in either order or grouping)
/// write the same text.
pub proof fn lemma_text_determined(a: &UserHistory, b: &UserHistory)
    requires
        a.wf(),
        b.wf(),
        keys_tab_free(a.pairs()),
        keys_tab_free(b.pairs()),
        evidence_pairs(a.pairs()) == evidence_pairs(b.pairs()),
    ensures
        join_lines(sort_rows(evidence_rows(a.entries()))) == join_lines(
            sort_rows(evidence_rows(b.entries())),
        ),
{
    broadcast use vstd::seq_lib::group_to_multiset_ensures;

    let ea = a.entries();
    let eb = b.entries();
    a.lemma_entries();
    b.lemma_entries();
    assert forall|i: int| 0 <= i < ea.len() implies !(#[trigger] ea[i]).0.0.contains('\t') && !ea[i].0.1.contains('\t') by {
        assert(a.pairs().contains_key(ea[i].0));
    }
    assert forall|i: int| 0 <= i < eb.len() implies !(#[trigger] eb[i]).0.0.contains('\t') && !eb[i].0.1.contains('\t') by {
        assert(b.pairs().contains_key(eb[i].0));
    }
    lemma_evidence_rows_distinct(ea);
    lemma_evidence_rows_distinct(eb);
    lemma_evidence_rows(ea);
    lemma_evidence_rows(eb);
    let ra = evidence_rows(ea);
    let rb = evidence_rows(eb);
    assert forall|x: Seq<char>| ra.contains(x) implies rb.contains(x) by {
        let i = choose|i: int| 0 <= i < ra.len() && ra[i] == x;
        let q = evidence_src(ea)[i];
        let k = ea[q].0;
        assert(a.pairs().contains_key(k));
        assert(evidence_pairs(a.pairs()).contains_key(k));
        assert(evidence_pairs(b.pairs()).contains_key(k));
        assert(b.pairs().contains_key(k));
        let j = choose|j: int| 0 <= j < eb.len() && eb[j].0 == k && eb[j].1 == b.pairs()[k];
        assert(evidence_pairs(a.pairs())[k] == a.pairs()[k]);
        assert(evidence_pairs(b.pairs())[k] == b.pairs()[k]);
        assert(a.pairs()[ea[q].0] == ea[q].1);
        assert(eb[j] == ea[q]);
        assert(rb.contains(format_row(eb[j])));
    }
    assert forall|x: Seq<char>| rb.contains(x) implies ra.contains(x) by {
        let i = choose|i: int| 0 <= i < rb.len() && rb[i] == x;
        let q = evidence_src(eb)[i];
        let k = eb[q].0;
        assert(b.pairs().contains_key(k));
        assert(evidence_pairs(b.pairs()).contains_key(k));
        assert(evidence_pairs(a.pairs()).contains_key(k));
        assert(a.pairs().contains_key(k));
        let j = choose|j: int| 0 <= j < ea.len() && ea[j].0 == k && ea[j].1 == a.pairs()[k];
        assert(evidence_pairs(a.pairs())[k] == a.pairs()[k]);
        assert(evidence_pairs(b.pairs())[k] == b.pairs()[k]);
        assert(b.pairs()[eb[q].0] == eb[q].1);
        assert(ea[j] == eb[q]);
        assert(ra.contains(format_row(ea[j])));
    }
    ra.lemma_multiset_has_no_duplicates();
    rb.lemma_multiset_has_no_duplicates();
    assert forall|x: Seq<char>| ra.to_multiset().count(x) == rb.to_multiset().count(x) by {
        if ra.contains(x) {
            assert(ra.to_multiset().contains(x));
            assert(rb.to_multiset().contains(x));
        } else {
            assert(!ra.to_multiset().contains(x));
            assert(!rb.to_multiset().contains(x));
        }
    }
    assert(ra.to_multiset() =~= rb.to_multiset());
    lemma_sort_rows(ra);
    lemma_sort_rows(rb);
    let sa = sort_rows(ra);
    let sb = sort_rows(rb);
    lemma_text_leq_total();
    assert(sorted_by(sa, text_leq())) by {
        assert forall|i: int, j: int| 0 <= i < j < sa.len() implies #[trigger] text_leq()(sa[i], sa[j]) by {
            assert(lex_le(sa[i], sa[j]));
        }
    }
    assert(sorted_by(sb, text_leq())) by {
        assert forall|i: int, j: int| 0 <= i < j < sb.len() implies #[trigger] text_leq()(sb[i], sb[j]) by {
            assert(lex_le(sb[i], sb[j]));
        }
    }
    vstd::seq_lib::lemma_sorted_unique(sa, sb, text_leq());
    assert(sa == sb);
}

/// A history restored from a history's serialization writes the same text
/// back: `to_tsv(from_tsv(to_tsv(h))) == to_tsv(h)`.
pub proof fn lemma_tsv_roundtrip_text(h: &UserHistory, r: &UserHistory)
    requires
        h.wf(),
        r.wf(),
        keys_tab_free(h.pairs()),
        r.pairs() == spec_from_tsv(join_lines(sort_rows(evidence_rows(h.entries())))).0,
    ensures
        join_lines(sort_rows(evidence_rows(r.entries()))) == join_lines(
            sort_rows(evidence_rows(h.entries())),
        ),
{
    lemma_tsv_roundtrip(h);
    assert(evidence_pairs(r.pairs()) =~= evidence_pairs(h.pairs()));
    assert(keys_tab_free(r.pairs()));
    lemma_text_determined(r, h);
}

impl Default for UserHistory {
    fn default() -> (r: Self)
        ensures
            r.wf(),
            r.pairs() == Map::<PairKey, Counts>::empty(),
            r.forms() == Map::<Seq<char>, u32>::empty(),
    {
        Self::new()
    }
}

// ---------------------------------------------------------------------------
// Form popularity follows the confirmations
// ---------------------------------------------------------------------------

/// `m` with `d` more confirmations for `f`; no entry is made for none.
pub open spec fn bump_form(m: Map<Seq<char>, u32>, f: Seq<char>, d: u32) -> Map<Seq<char>, u32> {
    if d > 0 {
        m.insert(f, (form_of(m, f) + d) as u32)
    } else {
        m
    }
}

/// The confirmations of the entries whose form is `x`, added up.
pub open spec fn confirmed_total(es: Seq<(PairKey, Counts)>, x: Seq<char>) -> nat
    decreases es.len(),
{
    if es.len() == 0 {
        0
    } else {
        confirmed_total(es.drop_last(), x) + (if es.last().0.1 == x {
            es.last().1.0 as nat
        } else {
            0nat
        })
    }
}

/// The popularity of each form is the sum of the confirmations of its
/// pairs (a form absent from `forms` counts zero).
pub open spec fn forms_match(pairs: Map<PairKey, Counts>, forms: Map<Seq<char>, u32>) -> bool {
    exists|es: Seq<(PairKey, Counts)>|
        #![trigger pairs_of(es)]
        distinct_keys(es) && pairs_of(es) == pairs && forall|x: Seq<char>|
            #[trigger] form_of(forms, x) == confirmed_total(es, x)
}

/// The popularity of `f` after one of its pairs goes from `old` to `new`
/// confirmations; nothing is recorded when both are zero.
pub open spec fn restore_form(m: Map<Seq<char>, u32>, f: Seq<char>, old: nat, new: nat) -> Map<
    Seq<char>,
    u32,
> {
    if old == 0 && new == 0 {
        m
    } else {
        m.insert(f, (form_of(m, f) - old + new) as u32)
    }
}

/// Setting one entry's confirmations changes its form's total by the
/// difference; an entry never exceeds its form's total.
proof fn lemma_total_update(es: Seq<(PairKey, Counts)>, i: int, v: Counts, x: Seq<char>)
    requires
        0 <= i < es.len(),
    ensures
        es[i].1.0 <= confirmed_total(es, es[i].0.1),
        confirmed_total(es.update(i, (es[i].0, v)), x) == confirmed_total(es, x) - (if es[i].0.1 == x {
            es[i].1.0 as int
        } else {
            0
        }) + (if es[i].0.1 == x {
            v.0 as int
        } else {
            0
        }),
    decreases es.len(),
{
    let es2 = es.update(i, (es[i].0, v));
    let d = es.drop_last();
    if i == es.len() - 1 {
        assert(es2.drop_last() =~= d);
    } else {
        lemma_total_update(d, i, v, x);
        assert(es2.drop_last() =~= d.update(i, (d[i].0, v)));
        assert(d[i] == es[i]);
    }
}

/// Whether two popularity tables agree on every form.
pub open spec fn same_popularity(a: Map<Seq<char>, u32>, b: Map<Seq<char>, u32>) -> bool {
    forall|x: Seq<char>| #[trigger] form_of(a, x) == form_of(b, x)
}

proof fn lemma_forms_match_same(pairs: Map<PairKey, Counts>, f1: Map<Seq<char>, u32>, f2: Map<Seq<char>, u32>)
    requires
        forms_match(pairs, f1),
        same_popularity(f1, f2),
    ensures
        forms_match(pairs, f2),
{
    let es = choose|es: Seq<(PairKey, Counts)>|
        #![trigger pairs_of(es)]
        distinct_keys(es) && pairs_of(es) == pairs && forall|x: Seq<char>|
            #[trigger] form_of(f1, x) == confirmed_total(es, x);
    assert forall|x: Seq<char>| #[trigger] form_of(f2, x) == confirmed_total(es, x) by {
        assert(form_of(f1, x) == form_of(f2, x));
    }
}

/// Setting one entry's counts sets them in the map the list stands for.
proof fn lemma_pairs_of_update(es: Seq<(PairKey, Counts)>, i: int, v: Counts)
    requires
        distinct_keys(es),
        0 <= i < es.len(),
    ensures
        distinct_keys(es.update(i, (es[i].0, v))),
        pairs_of(es.update(i, (es[i].0, v))) == pairs_of(es).insert(es[i].0, v),
{
    let k = es[i].0;
    let es2 = es.update(i, (k, v));
    assert forall|q: PairKey| #[trigger] pair_index(es2, q) == pair_index(es, q) by {
        lemma_pair_index(es, q);
        lemma_pair_index(es2, q);
        if pair_index(es, q) is Some {
            lemma_pair_index_at(es2, pair_index(es, q)->0);
        }
        if pair_index(es2, q) is Some {
            lemma_pair_index_at(es, pair_index(es2, q)->0);
        }
    }
    lemma_pair_index_at(es, i);
    assert forall|q: PairKey| #[trigger] pairs_of(es2).contains_key(q) implies pairs_of(es2)[q]
        == pairs_of(es).insert(k, v)[q] by {
        lemma_pair_index(es, q);
        let j = pair_index(es, q)->0;
        if q != k {
            assert(j != i);
            assert(es2[j] == es[j]);
        }
    }
    assert(pairs_of(es2) =~= pairs_of(es).insert(k, v));
}

/// Setting a pair's counts, and moving its form's popularity from the old
/// confirmations to the new ones, keeps the forms matching the pairs.
proof fn lemma_forms_match_set(pairs: Map<PairKey, Counts>, forms: Map<Seq<char>, u32>, k: PairKey, v: Counts)
    requires
        forms_match(pairs, forms),
        form_of(forms, k.1) - counts_of(pairs, k).0 + v.0 <= u32::MAX,
    ensures
        counts_of(pairs, k).0 <= form_of(forms, k.1),
        forms_match(pairs.insert(k, v), restore_form(forms, k.1, counts_of(pairs, k).0 as nat, v.0 as nat)),
{
    let es = choose|es: Seq<(PairKey, Counts)>|
        #![trigger pairs_of(es)]
        distinct_keys(es) && pairs_of(es) == pairs && forall|x: Seq<char>|
            #[trigger] form_of(forms, x) == confirmed_total(es, x);
    let c0 = counts_of(pairs, k).0;
    let nf = restore_form(forms, k.1, c0 as nat, v.0 as nat);
    lemma_pair_index(es, k);
    match pair_index(es, k) {
        Some(i) => {
            assert(es[i].1 == counts_of(pairs, k));
            lemma_pairs_of_update(es, i, v);
            let es2 = es.update(i, (es[i].0, v));
            lemma_total_update(es, i, v, k.1);
            assert(form_of(forms, k.1) == confirmed_total(es, k.1));
            assert forall|x: Seq<char>| #[trigger] form_of(nf, x) == confirmed_total(es2, x) by {
                lemma_total_update(es, i, v, x);
                assert(form_of(forms, x) == confirmed_total(es, x));
            }
            assert(pairs_of(es2) == pairs.insert(k, v));
        },
        None => {
            let es2 = es.push((k, v));
            assert(counts_of(pairs, k) == (0u32, 0u32));
            lemma_pairs_of_push(es, (k, v));
            assert(es2.drop_last() =~= es);
            assert(distinct_keys(es2)) by {
                assert forall|a: int, b: int| 0 <= a < b < es2.len() implies es2[a].0 != es2[b].0 by {
                    if b < es.len() {
                        assert(es2[a] == es[a] && es2[b] == es[b]);
                    } else {
                        assert(es2[a] == es[a]);
                    }
                }
            }
            assert forall|x: Seq<char>| #[trigger] form_of(nf, x) == confirmed_total(es2, x) by {
                assert(form_of(forms, x) == confirmed_total(es, x));
            }
            assert(pairs_of(es2) == pairs.insert(k, v));
        },
    }
}

/// A pair's confirmations never exceed its form's popularity.
proof fn lemma_forms_match_below(pairs: Map<PairKey, Counts>, forms: Map<Seq<char>, u32>, k: PairKey)
    requires
        forms_match(pairs, forms),
    ensures
        counts_of(pairs, k).0 <= form_of(forms, k.1),
{
    let es = choose|es: Seq<(PairKey, Counts)>|
        #![trigger pairs_of(es)]
        distinct_keys(es) && pairs_of(es) == pairs && forall|x: Seq<char>|
            #[trigger] form_of(forms, x) == confirmed_total(es, x);
    lemma_pair_index(es, k);
    if let Some(i) = pair_index(es, k) {
        lemma_total_update(es, i, es[i].1, k.1);
        assert(form_of(forms, k.1) == confirmed_total(es, k.1));
    }
}

/// Restoring keeps each form's popularity the sum of the confirmations of
/// the pairs restored so far.
proof fn lemma_history_fold_match(ls: Seq<Seq<char>>, n: nat)
    requires
        n <= ls.len(),
        history_fits(ls, n),
    ensures
        forms_match(history_fold(ls, n).0, history_fold(ls, n).1),
    decreases n,
{
    if n == 0 {
        lemma_forms_match_empty();
    } else {
        lemma_history_fold_match(ls, (n - 1) as nat);
        let st = history_fold(ls, (n - 1) as nat);
        let parts = split(ls[n - 1], '\t');
        match row_counts(parts) {
            None => {},
            Some((c, r)) => {
                let k = (parts[0], parts[1]);
                lemma_forms_match_set(st.0, st.1, k, (c as u32, r as u32));
            },
        }
    }
}

/// Adding counts to one pair, and its confirmations to its form, keeps the
/// forms matching the pairs.
proof fn lemma_forms_match_add(pairs: Map<PairKey, Counts>, forms: Map<Seq<char>, u32>, k: PairKey, d: Counts)
    requires
        forms_match(pairs, forms),
        form_of(forms, k.1) + d.0 <= u32::MAX,
        counts_of(pairs, k).0 + d.0 <= u32::MAX,
        counts_of(pairs, k).1 + d.1 <= u32::MAX,
    ensures
        forms_match(
            pairs.insert(
                k,
                ((counts_of(pairs, k).0 + d.0) as u32, (counts_of(pairs, k).1 + d.1) as u32),
            ),
            bump_form(forms, k.1, d.0),
        ),
{
    let c = counts_of(pairs, k);
    let v = ((c.0 + d.0) as u32, (c.1 + d.1) as u32);
    lemma_forms_match_set(pairs, forms, k, v);
    let nf = restore_form(forms, k.1, c.0 as nat, v.0 as nat);
    assert(same_popularity(nf, bump_form(forms, k.1, d.0)));
    lemma_forms_match_same(pairs.insert(k, v), nf, bump_form(forms, k.1, d.0));
}

/// A new history's forms match its pairs: it has none of either.
pub proof fn lemma_forms_match_empty()
    ensures
        forms_match(Map::<PairKey, Counts>::empty(), Map::<Seq<char>, u32>::empty()),
{
    let es = Seq::<(PairKey, Counts)>::empty();
    assert(pairs_of(es) =~= Map::<PairKey, Counts>::empty());
    assert forall|x: Seq<char>| #[trigger] form_of(Map::<Seq<char>, u32>::empty(), x) == confirmed_total(es, x) by {}
}

/// A confirmation keeps each form's popularity the sum of its pairs'
/// confirmations: the pair gains one, and so does its form.
pub proof fn lemma_confirm_keeps_forms(pairs: Map<PairKey, Counts>, forms: Map<Seq<char>, u32>, k: PairKey)
    requires
        forms_match(pairs, forms),
        counts_of(pairs, k).0 < u32::MAX,
        form_of(forms, k.1) < u32::MAX,
    ensures
        forms_match(
            pairs.insert(k, ((counts_of(pairs, k).0 + 1) as u32, counts_of(pairs, k).1)),
            forms.insert(k.1, (form_of(forms, k.1) + 1) as u32),
        ),
{
    lemma_forms_match_add(pairs, forms, k, (1u32, 0u32));
    assert((counts_of(pairs, k).1 + 0) as u32 == counts_of(pairs, k).1);
}

/// A revert keeps each form's popularity the sum of its pairs'
/// confirmations: only the pair's reverts change.
pub proof fn lemma_reject_keeps_forms(pairs: Map<PairKey, Counts>, forms: Map<Seq<char>, u32>, k: PairKey)
    requires
        forms_match(pairs, forms),
        counts_of(pairs, k).1 < u32::MAX,
    ensures
        forms_match(pairs.insert(k, (counts_of(pairs, k).0, (counts_of(pairs, k).1 + 1) as u32)), forms),
{
    lemma_forms_match_add(pairs, forms, k, (0u32, 1u32));
    assert((counts_of(pairs, k).0 + 0) as u32 == counts_of(pairs, k).0);
}

/// Merging keeps each form's popularity the sum of its pairs'
/// confirmations: the pairs add up key by key, and each merged pair's
/// confirmations are added to its form.
pub proof fn lemma_merge_keeps_forms(
    pairs: Map<PairKey, Counts>,
    forms: Map<Seq<char>, u32>,
    other: Seq<(PairKey, Counts)>,
)
    requires
        forms_match(pairs, forms),
        distinct_keys(other),
        sums_fit(pairs, pairs_of(other)),
        confirmed_fits(forms, other),
    ensures
        forms_match(sum_counts(pairs, pairs_of(other)), add_confirmed(forms, other)),
{
    lemma_merge_prefix(pairs, forms, other, other.len());
    assert(other.take(other.len() as int) =~= other);
}

proof fn lemma_merge_prefix(
    pairs: Map<PairKey, Counts>,
    forms: Map<Seq<char>, u32>,
    other: Seq<(PairKey, Counts)>,
    j: nat,
)
    requires
        j <= other.len(),
        forms_match(pairs, forms),
        distinct_keys(other),
        sums_fit(pairs, pairs_of(other)),
        confirmed_fits(forms, other),
    ensures
        forms_match(sum_counts(pairs, pairs_of(other.take(j as int))), add_confirmed(forms, other.take(j as int))),
    decreases j,
{
    if j == 0 {
        assert(other.take(0) =~= Seq::<(PairKey, Counts)>::empty());
        assert(sum_counts(pairs, pairs_of(other.take(0))) =~= pairs);
    } else {
        let i = j - 1;
        lemma_merge_prefix(pairs, forms, other, i as nat);
        let t = other.take(i as int);
        let e = other[i];
        let k = e.0;
        lemma_pairs_of_take(other, i as int);
        lemma_pair_index(t, k);
        let p = sum_counts(pairs, pairs_of(t));
        let f = add_confirmed(forms, t);
        assert(counts_of(pairs_of(t), k) == (0u32, 0u32));
        assert(counts_of(p, k) == counts_of(pairs, k));
        assert(counts_of(pairs_of(other), k) == e.1);
        assert(counts_of(pairs, k).0 + e.1.0 <= u32::MAX && counts_of(pairs, k).1 + e.1.1 <= u32::MAX);
        lemma_confirmed_fits_take(forms, other, j as int);
        assert(other.take(j as int).drop_last() =~= t);
        lemma_forms_match_add(p, f, k, e.1);
        assert(sum_counts(pairs, pairs_of(other.take(j as int))) =~= p.insert(
            k,
            ((counts_of(p, k).0 + e.1.0) as u32, (counts_of(p, k).1 + e.1.1) as u32),
        ));
        assert(add_confirmed(forms, other.take(j as int)) == bump_form(f, k.1, e.1.0));
    }
}

} // verus!
