//! Ordered string → entry multimap with frequency-aware prefix scans.
//!
//! Buckets store `(freq_bits, id)` postings and are sorted by frequency
//! (descending) once after build, so `exact` is a slice take and
//! `with_prefix` is a top-k by frequency over the key range (bounded
//! min-heap + scan budget) — the caps keep the *most frequent* entries,
//! never the alphabetically first, and scan work per keystroke stays
//! bounded.
//!
//! Keys are kept in one sorted vector; this is the single place to swap in
//! an FST/DAWG without touching the engine.

use vstd::prelude::*;

use crate::text::{
    is_prefix, lemma_lex_irreflexive, lemma_lex_total, lemma_lex_transitive, lex_le, lex_less,
    lex_lt, starts_with, str_chars,
};

verus! {

/// A posting: the entry's frequency as ordered bits, and its id.
pub type Posting = (u32, u32);

/// `a` is listed before `b`: more frequent first, then smaller id.
pub open spec fn listed_before(a: Posting, b: Posting) -> bool {
    a.0 > b.0 || (a.0 == b.0 && a.1 < b.1)
}

/// Heap order: `a` is smaller than `b` as a `(bits, id)` tuple.
pub open spec fn tuple_lt(a: Posting, b: Posting) -> bool {
    a.0 < b.0 || (a.0 == b.0 && a.1 < b.1)
}

/// Index of the first posting of `s` that `x` is listed before.
pub open spec fn insert_at(s: Seq<Posting>, x: Posting) -> nat
    decreases s.len(),
{
    if s.len() == 0 {
        0
    } else if listed_before(x, s[0]) {
        0
    } else {
        1 + insert_at(s.drop_first(), x)
    }
}

/// Postings in listing order (most frequent first, ties by id).
pub open spec fn sort_postings(s: Seq<Posting>) -> Seq<Posting>
    decreases s.len(),
{
    if s.len() == 0 {
        s
    } else {
        let t = sort_postings(s.drop_last());
        t.insert(insert_at(t, s.last()) as int, s.last())
    }
}

/// Whether `s` is in listing order.
pub open spec fn postings_sorted(s: Seq<Posting>) -> bool {
    forall|i: int, j: int| 0 <= i < j < s.len() ==> !listed_before(#[trigger] s[j], #[trigger] s[i])
}

/// Index of the first smallest posting of a heap.
pub open spec fn min_index(h: Seq<Posting>) -> nat
    decreases h.len(),
{
    if h.len() <= 1 {
        0
    } else {
        let m = min_index(h.drop_last());
        if tuple_lt(h.last(), h[m as int]) {
            (h.len() - 1) as nat
        } else {
            m
        }
    }
}

/// Scan state: the bounded heap, the remaining budget, and whether the
/// budget ran out.
pub type ScanState = (Seq<Posting>, nat, bool);

/// Scans bucket `b` from position `j`: each posting costs one unit of
/// budget; it joins the heap while the heap has room, replaces the heap's
/// smallest when more frequent, and otherwise ends this bucket (the rest is
/// no more frequent). An exhausted budget stops the whole scan.
pub open spec fn scan_bucket(b: Seq<Posting>, j: nat, st: ScanState, cap: nat) -> ScanState
    decreases b.len() - j,
{
    if j >= b.len() {
        st
    } else if st.1 == 0 {
        (st.0, 0, true)
    } else if st.0.len() < cap {
        scan_bucket(b, j + 1, (st.0.push(b[j as int]), (st.1 - 1) as nat, false), cap)
    } else if st.0.len() > 0 && b[j as int].0 > st.0[min_index(st.0) as int].0 {
        scan_bucket(
            b,
            j + 1,
            (st.0.remove(min_index(st.0) as int).push(b[j as int]), (st.1 - 1) as nat, false),
            cap,
        )
    } else {
        (st.0, (st.1 - 1) as nat, false)
    }
}

/// Scans the buckets of keys from position `i` on, while their key starts
/// with `p` and the budget lasts.
pub open spec fn scan_keys(
    ks: Seq<Seq<char>>,
    bs: Seq<Seq<Posting>>,
    p: Seq<char>,
    i: nat,
    st: ScanState,
    cap: nat,
) -> ScanState
    decreases ks.len() - i,
{
    if i >= ks.len() || i >= bs.len() || !is_prefix(p, ks[i as int]) || st.2 {
        st
    } else {
        scan_keys(ks, bs, p, i + 1, scan_bucket(bs[i as int], 0, st, cap), cap)
    }
}

/// Position of the first key not below `p`.
pub open spec fn lower_bound(ks: Seq<Seq<char>>, p: Seq<char>) -> nat
    decreases ks.len(),
{
    if ks.len() == 0 {
        0
    } else if !lex_lt(ks[0], p) {
        0
    } else {
        1 + lower_bound(ks.drop_first(), p)
    }
}

/// Scan budget for a cap: sixteen postings per slot, at least 1024.
pub open spec fn scan_budget(cap: nat) -> nat {
    let m = if cap * 16 > usize::MAX {
        usize::MAX as nat
    } else {
        cap * 16
    };
    if m < 1024 {
        1024
    } else {
        m
    }
}

/// Ids of the top postings under keys starting with `p`.
pub open spec fn spec_with_prefix(
    ks: Seq<Seq<char>>,
    bs: Seq<Seq<Posting>>,
    p: Seq<char>,
    cap: nat,
) -> Seq<u32> {
    if p.len() == 0 || cap == 0 {
        Seq::empty()
    } else {
        let st = scan_keys(ks, bs, p, lower_bound(ks, p), (Seq::empty(), scan_budget(cap), false), cap);
        sort_postings(st.0).map_values(|x: Posting| x.1)
    }
}

/// Every bucket of `m` in listing order.
pub open spec fn sorted_buckets(m: Map<Seq<char>, Seq<Posting>>) -> Map<Seq<char>, Seq<Posting>> {
    Map::new(|k: Seq<char>| m.contains_key(k), |k: Seq<char>| sort_postings(m[k]))
}

/// Ids of the first `cap` postings under exactly `key`.
pub open spec fn spec_exact(m: Map<Seq<char>, Seq<Posting>>, key: Seq<char>, cap: nat) -> Seq<u32> {
    if m.contains_key(key) {
        m[key].take(
            if cap < m[key].len() {
                cap as int
            } else {
                m[key].len() as int
            },
        ).map_values(|x: Posting| x.1)
    } else {
        Seq::empty()
    }
}

/// Every posting of `m` has an id below `n`.
pub open spec fn ids_below(m: Map<Seq<char>, Seq<Posting>>, n: nat) -> bool {
    forall|k: Seq<char>, j: int|
        #![trigger m[k][j]]
        m.contains_key(k) && 0 <= j < m[k].len() ==> m[k][j].1 < n
}

/// Sorting every bucket keeps the ids below a bound.
pub proof fn lemma_sorted_ids_below(m: Map<Seq<char>, Seq<Posting>>, n: nat)
    requires
        ids_below(m, n),
    ensures
        ids_below(sorted_buckets(m), n),
{
    broadcast use vstd::seq_lib::group_to_multiset_ensures;

    assert forall|k: Seq<char>, j: int|
        #![trigger sorted_buckets(m)[k][j]]
        sorted_buckets(m).contains_key(k) && 0 <= j < sorted_buckets(m)[k].len() implies
        sorted_buckets(m)[k][j].1 < n by {
        let s = m[k];
        lemma_sort_postings(s);
        let x = sort_postings(s)[j];
        assert(sort_postings(s).contains(x));
        assert(sort_postings(s).to_multiset().count(x) > 0);
        assert(s.contains(x));
        let q = choose|q: int| 0 <= q < s.len() && s[q] == x;
        assert(m[k][q].1 < n);
    }
}

/// Ids listed by `spec_exact` are ids of postings under the key.
pub proof fn lemma_exact_ids_below(m: Map<Seq<char>, Seq<Posting>>, key: Seq<char>, cap: nat, n: nat)
    requires
        ids_below(m, n),
    ensures
        forall|i: int| 0 <= i < spec_exact(m, key, cap).len() ==> #[trigger] spec_exact(m, key, cap)[i] < n,
{
    if m.contains_key(key) {
        assert forall|i: int| 0 <= i < spec_exact(m, key, cap).len() implies #[trigger] spec_exact(m, key, cap)[i] < n by {
            assert(m[key][i].1 < n);
        }
    }
}

/// Keys strictly increasing.
pub open spec fn keys_sorted(ks: Seq<Seq<char>>) -> bool {
    forall|i: int, j: int| 0 <= i < j < ks.len() ==> lex_lt(#[trigger] ks[i], #[trigger] ks[j])
}

proof fn lemma_lower_bound_at(ks: Seq<Seq<char>>, p: Seq<char>, i: nat)
    requires
        i <= ks.len(),
        forall|j: int| 0 <= j < i ==> lex_lt(#[trigger] ks[j], p),
        i < ks.len() ==> !lex_lt(ks[i as int], p),
    ensures
        lower_bound(ks, p) == i,
    decreases i,
{
    if i > 0 {
        let t = ks.drop_first();
        assert forall|j: int| 0 <= j < i - 1 implies lex_lt(#[trigger] t[j], p) by {
            assert(t[j] == ks[j + 1]);
        }
        if i - 1 < t.len() {
            assert(t[i - 1] == ks[i as int]);
        }
        lemma_lower_bound_at(t, p, (i - 1) as nat);
        assert(lex_lt(ks[0], p));
    }
}

/// Sorted keys, each with its bucket of postings.
pub struct PrefixMap {
    keys: Vec<Vec<char>>,
    buckets: Vec<Vec<Posting>>,
}

pub open spec fn key_views(v: Seq<Vec<char>>) -> Seq<Seq<char>> {
    v.map_values(|k: Vec<char>| k@)
}

pub open spec fn bucket_views(v: Seq<Vec<Posting>>) -> Seq<Seq<Posting>> {
    v.map_values(|b: Vec<Posting>| b@)
}

impl PrefixMap {
    /// The keys, in increasing order.
    pub closed spec fn key_seq(&self) -> Seq<Seq<char>> {
        key_views(self.keys@)
    }

    /// The buckets, in key order.
    pub closed spec fn bucket_seq(&self) -> Seq<Seq<Posting>> {
        bucket_views(self.buckets@)
    }

    pub closed spec fn wf(&self) -> bool {
        &&& self.keys@.len() == self.buckets@.len()
        &&& keys_sorted(self.key_seq())
    }

    /// Key → its postings, in insertion order until `finalize`.
    pub open spec fn view(&self) -> Map<Seq<char>, Seq<Posting>> {
        Map::new(
            |k: Seq<char>| self.key_seq().contains(k),
            |k: Seq<char>| self.bucket_seq()[self.key_seq().index_of(k)],
        )
    }

    /// Every bucket is in listing order, as `finalize` leaves it.
    pub open spec fn finalized(&self) -> bool {
        forall|i: int| 0 <= i < self.bucket_seq().len() ==> postings_sorted(#[trigger] self.bucket_seq()[i])
    }

    /// The key and bucket sequences line up, keys strictly increase.
    pub proof fn lemma_wf(&self)
        requires
            self.wf(),
        ensures
            self.key_seq().len() == self.bucket_seq().len(),
            keys_sorted(self.key_seq()),
            forall|i: int|
                0 <= i < self.key_seq().len() ==> self.key_seq().index_of(
                    #[trigger] self.key_seq()[i],
                ) == i,
    {
        let ks = self.key_seq();
        assert forall|i: int| 0 <= i < ks.len() implies ks.index_of(#[trigger] ks[i]) == i by {
            let j = ks.index_of(ks[i]);
            assert(ks.contains(ks[i]));
            if j < i {
                assert(lex_lt(ks[j], ks[i]));
                lemma_lex_irreflexive(ks[i]);
            } else if j > i {
                assert(lex_lt(ks[i], ks[j]));
                lemma_lex_irreflexive(ks[i]);
            }
        }
    }

    pub fn new() -> (m: Self)
        ensures
            m.wf(),
            m.key_seq() == Seq::<Seq<char>>::empty(),
            m.view() == Map::<Seq<char>, Seq<Posting>>::empty(),
    {
        let m = PrefixMap { keys: Vec::new(), buckets: Vec::new() };
        assert(m.key_seq() =~= Seq::<Seq<char>>::empty());
        assert(m.view() =~= Map::<Seq<char>, Seq<Posting>>::empty());
        m
    }

    /// Position of the first key not below `k`, by binary search.
    fn lower(&self, k: &[char]) -> (i: usize)
        requires
            self.wf(),
        ensures
            i == lower_bound(self.key_seq(), k@),
            i <= self.key_seq().len(),
            forall|j: int| 0 <= j < i ==> lex_lt(#[trigger] self.key_seq()[j], k@),
            i < self.key_seq().len() ==> !lex_lt(self.key_seq()[i as int], k@),
    {
        let ghost ks = self.key_seq();
        let mut lo: usize = 0;
        let mut hi: usize = self.keys.len();
        while lo < hi
            invariant
                ks == self.key_seq(),
                ks.len() == self.keys@.len(),
                keys_sorted(ks),
                lo <= hi <= ks.len(),
                forall|j: int| 0 <= j < lo ==> lex_lt(#[trigger] ks[j], k@),
                forall|j: int| hi <= j < ks.len() ==> !lex_lt(#[trigger] ks[j], k@),
            decreases hi - lo,
        {
            let mid = lo + (hi - lo) / 2;
            assert(self.keys@[mid as int]@ == ks[mid as int]);
            if lex_less(self.keys[mid].as_slice(), k) {
                proof {
                    assert forall|j: int| 0 <= j < mid + 1 implies lex_lt(#[trigger] ks[j], k@) by {
                        if j < mid {
                            assert(lex_lt(ks[j], ks[mid as int]));
                            lemma_lex_transitive(ks[j], ks[mid as int], k@);
                        }
                    }
                }
                lo = mid + 1;
            } else {
                proof {
                    assert forall|j: int| mid <= j < ks.len() implies !lex_lt(#[trigger] ks[j], k@) by {
                        if j > mid && lex_lt(ks[j], k@) {
                            assert(lex_lt(ks[mid as int], ks[j]));
                            lemma_lex_transitive(ks[mid as int], ks[j], k@);
                        }
                    }
                }
                hi = mid;
            }
        }
        proof {
            lemma_lower_bound_at(ks, k@, lo as nat);
        }
        lo
    }

    /// Adds the posting `(freq_bits, id)` under `key`.
    pub fn insert(&mut self, key: String, id: u32, freq_bits: u32)
        requires
            old(self).wf(),
        ensures
            final(self).wf(),
            final(self).view() == old(self).view().insert(
                key@,
                (if old(self).view().contains_key(key@) {
                    old(self).view()[key@]
                } else {
                    Seq::empty()
                }).push((freq_bits, id)),
            ),
    {
        let k = str_chars(key.as_str());
        self.insert_chars(k, id, freq_bits);
    }

    /// Adds the posting `(freq_bits, id)` under the key spelled by `k`.
    pub fn insert_chars(&mut self, k: Vec<char>, id: u32, freq_bits: u32)
        requires
            old(self).wf(),
        ensures
            final(self).wf(),
            final(self).view() == old(self).view().insert(
                k@,
                (if old(self).view().contains_key(k@) {
                    old(self).view()[k@]
                } else {
                    Seq::empty()
                }).push((freq_bits, id)),
            ),
    {
        let ghost ks = self.key_seq();
        let ghost bs = self.bucket_seq();
        proof {
            self.lemma_wf();
        }
        let i = self.lower(k.as_slice());
        if i < self.keys.len() && !lex_less(k.as_slice(), self.keys[i].as_slice()) {
            // the key is present at `i`
            proof {
                assert(self.keys@[i as int]@ == ks[i as int]);
                lemma_lex_total(ks[i as int], k@);
                assert(ks[i as int] == k@);
                assert(ks.contains(k@));
                assert(ks.index_of(k@) == i);
            }
            let mut b = self.buckets.remove(i);
            assert(b@ == bs[i as int]);
            b.push((freq_bits, id));
            self.buckets.insert(i, b);
            proof {
                assert(self.key_seq() == ks);
                assert(self.bucket_seq() =~= bs.update(i as int, bs[i as int].push((freq_bits, id))));
                assert forall|q: Seq<char>| #[trigger] self.view().contains_key(q) implies self.view()[q]
                    == old(self).view().insert(k@, bs[i as int].push((freq_bits, id)))[q] by {
                    if q != k@ {
                        assert(ks.index_of(q) != i);
                    }
                }
                assert(self.view() =~= old(self).view().insert(k@, bs[i as int].push((freq_bits, id))));
            }
        } else {
            proof {
                assert(!ks.contains(k@)) by {
                    if ks.contains(k@) {
                        let j = ks.index_of(k@);
                        if j < i {
                            assert(lex_lt(ks[j], k@));
                            lemma_lex_irreflexive(k@);
                        } else if j == i {
                            assert(self.keys@[i as int]@ == ks[i as int]);
                            lemma_lex_irreflexive(k@);
                        } else {
                            assert(self.keys@[i as int]@ == ks[i as int]);
                            assert(lex_lt(k@, ks[i as int]));
                            assert(lex_lt(ks[i as int], ks[j]));
                            lemma_lex_transitive(k@, ks[i as int], ks[j]);
                            lemma_lex_irreflexive(k@);
                        }
                    }
                }
            }
            let mut b: Vec<Posting> = Vec::new();
            b.push((freq_bits, id));
            let ghost nb = b@;
            self.keys.insert(i, k);
            self.buckets.insert(i, b);
            proof {
                let nks = self.key_seq();
                assert(nks =~= ks.insert(i as int, k@));
                assert(self.bucket_seq() =~= bs.insert(i as int, nb));
                assert(keys_sorted(nks)) by {
                    assert forall|a: int, c: int| 0 <= a < c < nks.len() implies lex_lt(
                        #[trigger] nks[a],
                        #[trigger] nks[c],
                    ) by {
                        if a < i && c == i {
                        } else if a == i && c > i {
                            assert(self.keys@.len() == ks.len() + 1);
                            assert(nks[c] == ks[c - 1]);
                            if c - 1 > i {
                                assert(lex_lt(ks[i as int], ks[c - 1]));
                            }
                            if i < ks.len() {
                                lemma_lex_total(k@, ks[i as int]);
                                if c - 1 > i {
                                    lemma_lex_transitive(k@, ks[i as int], ks[c - 1]);
                                }
                            }
                        } else if a < i && c > i {
                            assert(lex_lt(ks[a], ks[c - 1]));
                        } else if a > i {
                            assert(lex_lt(ks[a - 1], ks[c - 1]));
                        }
                    }
                }
                assert forall|q: Seq<char>| #[trigger] self.view().contains_key(q)
                    == old(self).view().insert(k@, Seq::empty().push((freq_bits, id))).contains_key(q) by {
                    if q != k@ {
                        if ks.contains(q) {
                            let j = ks.index_of(q);
                            if j < i {
                                assert(nks[j] == q);
                            } else {
                                assert(nks[j + 1] == q);
                            }
                        }
                        if nks.contains(q) {
                            let j = nks.index_of(q);
                            if j < i {
                                assert(ks[j] == q);
                            } else if j > i {
                                assert(ks[j - 1] == q);
                            }
                        }
                    } else {
                        assert(nks[i as int] == k@);
                    }
                }
                self.lemma_wf();
                assert forall|q: Seq<char>| #[trigger] self.view().contains_key(q) implies self.view()[q]
                    == old(self).view().insert(k@, Seq::empty().push((freq_bits, id)))[q] by {
                    let j = nks.index_of(q);
                    assert(nks[j] == q);
                    if q == k@ {
                        assert(nks[i as int] == k@);
                        assert(j == i);
                    } else {
                        old(self).lemma_wf();
                        if j < i {
                            assert(ks[j] == q);
                            assert(ks.index_of(q) == j);
                        } else {
                            assert(j > i);
                            assert(ks[j - 1] == q);
                            assert(ks.index_of(q) == j - 1);
                        }
                    }
                }
                assert(self.view() =~= old(self).view().insert(k@, Seq::empty().push((freq_bits, id))));
            }
        }
    }

    /// Sorts every bucket by frequency, descending (ties by id). Call once
    /// after build; lookups assume it.
    pub fn finalize(&mut self)
        requires
            old(self).wf(),
        ensures
            final(self).wf(),
            final(self).key_seq() == old(self).key_seq(),
            final(self).bucket_seq().len() == old(self).bucket_seq().len(),
            forall|i: int|
                0 <= i < final(self).bucket_seq().len() ==> #[trigger] final(self).bucket_seq()[i]
                    == sort_postings(old(self).bucket_seq()[i]),
            final(self).view() == sorted_buckets(old(self).view()),
            final(self).finalized(),
    {
        let ghost bs = self.bucket_seq();
        let mut i: usize = 0;
        while i < self.buckets.len()
            invariant
                self.wf(),
                self.key_seq() == old(self).key_seq(),
                bs == old(self).bucket_seq(),
                self.bucket_seq().len() == bs.len(),
                i <= bs.len(),
                forall|j: int| 0 <= j < i ==> #[trigger] self.bucket_seq()[j] == sort_postings(bs[j]),
                forall|j: int| i <= j < bs.len() ==> #[trigger] self.bucket_seq()[j] == bs[j],
            decreases bs.len() - i,
        {
            let ghost cur = self.buckets@;
            let ghost cur_views = self.bucket_seq();
            let b = self.buckets.remove(i);
            proof {
                assert(b == cur[i as int]);
                assert(cur_views[i as int] == cur[i as int]@);
                assert(b@ == bs[i as int]);
            }
            let sorted = sort_posting_vec(b);
            self.buckets.insert(i, sorted);
            proof {
                assert(self.buckets@ =~= cur.update(i as int, sorted));
                assert(self.bucket_seq() =~= cur_views.update(i as int, sort_postings(bs[i as int])));
            }
            i = i + 1;
        }
        proof {
            old(self).lemma_wf();
            assert(self.view() =~= sorted_buckets(old(self).view()));
            assert forall|j: int| 0 <= j < self.bucket_seq().len() implies postings_sorted(
                #[trigger] self.bucket_seq()[j],
            ) by {
                lemma_sort_postings(bs[j]);
            }
        }
    }

    /// Ids under exactly `key`, at most `cap`, in bucket order.
    pub fn exact(&self, key: &str, cap: usize) -> (r: Vec<u32>)
        requires
            self.wf(),
        ensures
            r@ == spec_exact(self.view(), key@, cap as nat),
    {
        let k = str_chars(key);
        let ghost ks = self.key_seq();
        proof {
            self.lemma_wf();
        }
        let i = self.lower(k.as_slice());
        if i < self.keys.len() && !lex_less(k.as_slice(), self.keys[i].as_slice()) {
            proof {
                assert(self.keys@[i as int]@ == ks[i as int]);
                lemma_lex_total(ks[i as int], k@);
                assert(ks[i as int] == k@);
                assert(ks.contains(k@));
                assert(ks.index_of(k@) == i);
            }
            let b = &self.buckets[i];
            assert(b@ == self.bucket_seq()[i as int]);
            let n = if cap < b.len() {
                cap
            } else {
                b.len()
            };
            let mut out: Vec<u32> = Vec::new();
            let mut j: usize = 0;
            while j < n
                invariant
                    n <= b@.len(),
                    j <= n,
                    out@ == b@.take(j as int).map_values(|x: Posting| x.1),
                decreases n - j,
            {
                out.push(b[j].1);
                j = j + 1;
                assert(out@ =~= b@.take(j as int).map_values(|x: Posting| x.1));
            }
            out
        } else {
            proof {
                assert(!ks.contains(k@)) by {
                    if ks.contains(k@) {
                        let j = ks.index_of(k@);
                        if j < i {
                            assert(lex_lt(ks[j], k@));
                            lemma_lex_irreflexive(k@);
                        } else if j == i {
                            assert(self.keys@[i as int]@ == ks[i as int]);
                            lemma_lex_irreflexive(k@);
                        } else {
                            assert(self.keys@[i as int]@ == ks[i as int]);
                            assert(lex_lt(ks[i as int], ks[j]));
                            lemma_lex_transitive(k@, ks[i as int], ks[j]);
                            lemma_lex_irreflexive(k@);
                        }
                    }
                }
            }
            Vec::new()
        }
    }

    /// Top-`cap` ids by frequency under all keys starting with `prefix`,
    /// most frequent first (ties by id). The key range is scanned in order
    /// with a budget of `max(16 * cap, 1024)` postings; within a bucket the
    /// scan stops at the first posting that cannot enter the top-`cap`.
    pub fn with_prefix(&self, prefix: &str, cap: usize) -> (r: Vec<u32>)
        requires
            self.wf(),
        ensures
            r@ == spec_with_prefix(self.key_seq(), self.bucket_seq(), prefix@, cap as nat),
    {
        let p = str_chars(prefix);
        if p.len() == 0 || cap == 0 {
            return Vec::new();
        }
        let ghost ks = self.key_seq();
        let ghost bs = self.bucket_seq();
        let m: usize = if cap > usize::MAX / 16 {
            usize::MAX
        } else {
            cap * 16
        };
        let mut budget: usize = if m < 1024 {
            1024
        } else {
            m
        };
        assert(budget == scan_budget(cap as nat));
        let mut heap: Vec<Posting> = Vec::new();
        let mut stopped = false;
        let mut i = self.lower(p.as_slice());
        let ghost target = scan_keys(ks, bs, p@, i as nat, (heap@, budget as nat, stopped), cap as nat);
        while i < self.keys.len() && !stopped && starts_with(self.keys[i].as_slice(), p.as_slice())
            invariant
                self.wf(),
                ks == self.key_seq(),
                bs == self.bucket_seq(),
                ks.len() == bs.len() == self.keys@.len() == self.buckets@.len(),
                cap > 0,
                i <= ks.len(),
                heap@.len() <= cap,
                target == scan_keys(ks, bs, p@, i as nat, (heap@, budget as nat, stopped), cap as nat),
            decreases ks.len() - i,
        {
            assert(self.keys@[i as int]@ == ks[i as int]);
            let b = &self.buckets[i];
            assert(b@ == bs[i as int]);
            let ghost bucket_target = scan_bucket(b@, 0, (heap@, budget as nat, stopped), cap as nat);
            assert(target == scan_keys(ks, bs, p@, (i + 1) as nat, bucket_target, cap as nat));
            let mut j: usize = 0;
            let mut done = false;
            while j < b.len() && !done
                invariant
                    cap > 0,
                    j <= b@.len(),
                    heap@.len() <= cap,
                    !done ==> !stopped,
                    !done ==> bucket_target == scan_bucket(
                        b@,
                        j as nat,
                        (heap@, budget as nat, stopped),
                        cap as nat,
                    ),
                    done ==> bucket_target == (heap@, budget as nat, stopped),
                decreases b@.len() - j,
            {
                if budget == 0 {
                    stopped = true;
                    done = true;
                } else {
                    budget = budget - 1;
                    let x = b[j];
                    if heap.len() < cap {
                        heap.push(x);
                    } else {
                        let mi = min_idx(&heap);
                        if heap.len() > 0 && x.0 > heap[mi].0 {
                            heap.remove(mi);
                            heap.push(x);
                        } else {
                            done = true;
                        }
                    }
                }
                j = j + 1;
            }
            i = i + 1;
        }
        let top = sort_posting_vec(heap);
        let mut out: Vec<u32> = Vec::new();
        let mut k: usize = 0;
        while k < top.len()
            invariant
                k <= top@.len(),
                out@ == top@.take(k as int).map_values(|x: Posting| x.1),
            decreases top@.len() - k,
        {
            out.push(top[k].1);
            k = k + 1;
            assert(out@ =~= top@.take(k as int).map_values(|x: Posting| x.1));
        }
        assert(top@.take(top@.len() as int) =~= top@);
        out
    }

    /// Number of distinct keys.
    pub fn len(&self) -> (r: usize)
        requires
            self.wf(),
        ensures
            r == self.key_seq().len(),
            r == self.view().dom().len(),
    {
        proof {
            self.lemma_wf();
            let ks = self.key_seq();
            assert forall|a: int, b: int| 0 <= a < b < ks.len() implies ks[a] != ks[b] by {
                assert(lex_lt(ks[a], ks[b]));
                lemma_lex_irreflexive(ks[a]);
            }
            ks.unique_seq_to_set();
            assert(self.view().dom() =~= ks.to_set());
        }
        self.keys.len()
    }

    pub fn is_empty(&self) -> (r: bool)
        requires
            self.wf(),
        ensures
            r == (self.view().dom() == Set::<Seq<char>>::empty()),
    {
        proof {
            if self.key_seq().len() > 0 {
                assert(self.view().dom().contains(self.key_seq()[0]));
            } else {
                assert(self.view().dom() =~= Set::<Seq<char>>::empty());
            }
        }
        self.keys.len() == 0
    }
}

proof fn lemma_min_index_bound(h: Seq<Posting>)
    requires
        h.len() > 0,
    ensures
        min_index(h) < h.len(),
    decreases h.len(),
{
    if h.len() > 1 {
        lemma_min_index_bound(h.drop_last());
    }
}

/// Index of the first smallest posting.
fn min_idx(h: &Vec<Posting>) -> (m: usize)
    requires
        h@.len() > 0,
    ensures
        m == min_index(h@),
        m < h@.len(),
{
    let mut m: usize = 0;
    let mut k: usize = 1;
    assert(h@.take(1).len() == 1);
    while k < h.len()
        invariant
            1 <= k <= h@.len(),
            m == min_index(h@.take(k as int)),
            m < k,
        decreases h@.len() - k,
    {
        assert(h@.take(k + 1).drop_last() =~= h@.take(k as int));
        assert(h@.take(k + 1).last() == h@[k as int]);
        assert(h@.take(k as int)[m as int] == h@[m as int]);
        let a = h[k];
        let b = h[m];
        if a.0 < b.0 || (a.0 == b.0 && a.1 < b.1) {
            m = k;
        }
        k = k + 1;
    }
    assert(h@.take(h@.len() as int) =~= h@);
    m
}

/// Sorts postings into listing order, by insertion.
pub fn sort_posting_vec(v: Vec<Posting>) -> (r: Vec<Posting>)
    ensures
        r@ == sort_postings(v@),
{
    let ghost all = v@;
    let mut src = v;
    let mut out: Vec<Posting> = Vec::new();
    let ghost mut done: nat = 0;
    assert(all.take(0) =~= Seq::<Posting>::empty());
    while src.len() > 0
        invariant
            done + src@.len() == all.len(),
            src@ == all.skip(done as int),
            out@ == sort_postings(all.take(done as int)),
        decreases src@.len(),
    {
        let x = src.remove(0);
        assert(x == all[done as int]);
        let ghost sorted = out@;
        let mut j: usize = 0;
        assert(sorted.skip(0) =~= sorted);
        while j < out.len() && !(x.0 > out[j].0 || (x.0 == out[j].0 && x.1 < out[j].1))
            invariant
                j <= out@.len(),
                sorted == out@,
                insert_at(sorted, x) == j + insert_at(sorted.skip(j as int), x),
            decreases out@.len() - j,
        {
            assert(sorted.skip(j as int)[0] == sorted[j as int]);
            assert(sorted.skip(j as int).drop_first() =~= sorted.skip(j + 1));
            j = j + 1;
        }
        proof {
            if j < out@.len() {
                assert(sorted.skip(j as int)[0] == sorted[j as int]);
            } else {
                assert(sorted.skip(j as int) =~= Seq::<Posting>::empty());
            }
        }
        out.insert(j, x);
        proof {
            assert(all.take((done + 1) as int).drop_last() =~= all.take(done as int));
            assert(all.take((done + 1) as int).last() == x);
            assert(src@ =~= all.skip((done + 1) as int));
            done = done + 1;
        }
    }
    assert(all.take(done as int) =~= all);
    out
}


// ---------------------------------------------------------------------------
// Laws
// ---------------------------------------------------------------------------

proof fn lemma_insert_at(s: Seq<Posting>, x: Posting)
    ensures
        insert_at(s, x) <= s.len(),
        forall|i: int| 0 <= i < insert_at(s, x) ==> !listed_before(x, #[trigger] s[i]),
        insert_at(s, x) < s.len() ==> listed_before(x, s[insert_at(s, x) as int]),
    decreases s.len(),
{
    if s.len() > 0 && !listed_before(x, s[0]) {
        lemma_insert_at(s.drop_first(), x);
        assert forall|i: int| 0 <= i < insert_at(s, x) implies !listed_before(x, #[trigger] s[i]) by {
            if i > 0 {
                assert(s[i] == s.drop_first()[i - 1]);
            }
        }
    }
}

/// Sorting postings keeps the same postings and lists them most frequent
/// first, ties by smaller id.
pub proof fn lemma_sort_postings(s: Seq<Posting>)
    ensures
        sort_postings(s).len() == s.len(),
        sort_postings(s).to_multiset() == s.to_multiset(),
        postings_sorted(sort_postings(s)),
    decreases s.len(),
{
    broadcast use vstd::seq_lib::group_to_multiset_ensures;

    if s.len() > 0 {
        let d = s.drop_last();
        let y = s.last();
        let t = sort_postings(d);
        lemma_sort_postings(d);
        lemma_insert_at(t, y);
        let p = insert_at(t, y) as int;
        let u = t.insert(p, y);
        assert(u.remove(p) =~= t);
        assert(u[p] == y);
        assert(u.to_multiset().remove(y) == t.to_multiset());
        assert(u.to_multiset().count(y) > 0) by {
            assert(u.contains(y));
        }
        assert(u.to_multiset() =~= t.to_multiset().insert(y));
        assert(s =~= d.push(y));
        assert forall|i: int, j: int| 0 <= i < j < u.len() implies !listed_before(
            #[trigger] u[j],
            #[trigger] u[i],
        ) by {
            if i < p && j < p {
                assert(!listed_before(t[j], t[i]));
            } else if i < p && j == p {
            } else if i < p && j > p {
                assert(!listed_before(t[j - 1], t[i]));
            } else if i == p {
                assert(!listed_before(t[j - 1], t[p]));
            } else {
                assert(!listed_before(t[j - 1], t[i - 1]));
            }
        }
    }
}

/// A posting stored under a key that starts with `p`.
pub open spec fn under_prefix(ks: Seq<Seq<char>>, bs: Seq<Seq<Posting>>, p: Seq<char>, x: Posting) -> bool {
    exists|i: int, j: int|
        0 <= i < ks.len() && i < bs.len() && is_prefix(p, ks[i]) && 0 <= j < bs[i].len()
            && #[trigger] bs[i][j] == x
}

proof fn lemma_scan_bucket(
    ks: Seq<Seq<char>>,
    bs: Seq<Seq<Posting>>,
    p: Seq<char>,
    i: int,
    j: nat,
    st: ScanState,
    cap: nat,
)
    requires
        0 <= i < ks.len(),
        i < bs.len(),
        is_prefix(p, ks[i]),
        st.0.len() <= cap,
        forall|k: int| 0 <= k < st.0.len() ==> under_prefix(ks, bs, p, #[trigger] st.0[k]),
    ensures
        scan_bucket(bs[i], j, st, cap).0.len() <= cap,
        forall|k: int|
            0 <= k < scan_bucket(bs[i], j, st, cap).0.len() ==> under_prefix(
                ks,
                bs,
                p,
                #[trigger] scan_bucket(bs[i], j, st, cap).0[k],
            ),
    decreases bs[i].len() - j,
{
    let b = bs[i];
    if j < b.len() && st.1 != 0 {
        let x = b[j as int];
        assert(under_prefix(ks, bs, p, x)) by {
            assert(bs[i][j as int] == x);
        }
        if st.0.len() < cap {
            let h = st.0.push(x);
            assert forall|k: int| 0 <= k < h.len() implies under_prefix(ks, bs, p, #[trigger] h[k]) by {
                if k < st.0.len() {
                    assert(h[k] == st.0[k]);
                }
            }
            lemma_scan_bucket(ks, bs, p, i, j + 1, (h, (st.1 - 1) as nat, false), cap);
        } else if st.0.len() > 0 && x.0 > st.0[min_index(st.0) as int].0 {
            let mi = min_index(st.0) as int;
            lemma_min_index_bound(st.0);
            let h = st.0.remove(mi).push(x);
            assert forall|k: int| 0 <= k < h.len() implies under_prefix(ks, bs, p, #[trigger] h[k]) by {
                if k < mi {
                    assert(h[k] == st.0[k]);
                } else if k < st.0.len() - 1 {
                    assert(h[k] == st.0[k + 1]);
                }
            }
            lemma_scan_bucket(ks, bs, p, i, j + 1, (h, (st.1 - 1) as nat, false), cap);
        }
    }
}

proof fn lemma_scan_keys(
    ks: Seq<Seq<char>>,
    bs: Seq<Seq<Posting>>,
    p: Seq<char>,
    i: nat,
    st: ScanState,
    cap: nat,
)
    requires
        st.0.len() <= cap,
        forall|k: int| 0 <= k < st.0.len() ==> under_prefix(ks, bs, p, #[trigger] st.0[k]),
    ensures
        scan_keys(ks, bs, p, i, st, cap).0.len() <= cap,
        forall|k: int|
            0 <= k < scan_keys(ks, bs, p, i, st, cap).0.len() ==> under_prefix(
                ks,
                bs,
                p,
                #[trigger] scan_keys(ks, bs, p, i, st, cap).0[k],
            ),
    decreases ks.len() - i,
{
    if !(i >= ks.len() || i >= bs.len() || !is_prefix(p, ks[i as int]) || st.2) {
        lemma_scan_bucket(ks, bs, p, i as int, 0, st, cap);
        lemma_scan_keys(ks, bs, p, i + 1, scan_bucket(bs[i as int], 0, st, cap), cap);
    }
}

/// `id` is the id of a posting stored under a key of `m` that starts with
/// `p`.
pub open spec fn id_under_prefix(m: &PrefixMap, p: Seq<char>, id: u32) -> bool {
    exists|key: Seq<char>, x: Posting|
        #![trigger m.view()[key].contains(x)]
        m.view().contains_key(key) && is_prefix(p, key) && m.view()[key].contains(x) && x.1 == id
}

/// A prefix scan returns at most `cap` ids, each the id of a posting stored
/// under a key that starts with the prefix.
pub proof fn lemma_with_prefix_sound(m: &PrefixMap, p: Seq<char>, cap: nat)
    requires
        m.wf(),
    ensures
        spec_with_prefix(m.key_seq(), m.bucket_seq(), p, cap).len() <= cap,
        forall|k: int|
            0 <= k < spec_with_prefix(m.key_seq(), m.bucket_seq(), p, cap).len() ==> id_under_prefix(
                m,
                p,
                #[trigger] spec_with_prefix(m.key_seq(), m.bucket_seq(), p, cap)[k],
            ),
{
    broadcast use vstd::seq_lib::group_to_multiset_ensures;

    if p.len() > 0 && cap > 0 {
        let ks = m.key_seq();
        let bs = m.bucket_seq();
        m.lemma_wf();
        let st = scan_keys(ks, bs, p, lower_bound(ks, p), (Seq::empty(), scan_budget(cap), false), cap);
        lemma_scan_keys(ks, bs, p, lower_bound(ks, p), (Seq::empty(), scan_budget(cap), false), cap);
        let top = sort_postings(st.0);
        lemma_sort_postings(st.0);
        let r = spec_with_prefix(ks, bs, p, cap);
        assert(r.len() == top.len());
        assert forall|k: int| 0 <= k < r.len() implies id_under_prefix(m, p, #[trigger] r[k]) by {
            let x = top[k];
            assert(top.contains(x));
            assert(top.to_multiset().count(x) > 0);
            assert(st.0.contains(x));
            let q = choose|q: int| 0 <= q < st.0.len() && st.0[q] == x;
            assert(under_prefix(ks, bs, p, st.0[q]));
            let (i, j) = choose|i: int, j: int|
                0 <= i < ks.len() && i < bs.len() && is_prefix(p, ks[i]) && 0 <= j < bs[i].len()
                    && #[trigger] bs[i][j] == x;
            assert(ks.contains(ks[i]));
            assert(m.view()[ks[i]] == bs[i]);
            assert(m.view()[ks[i]].contains(x));
            assert(r[k] == top[k].1);
        }
    }
}


/// The postings a prefix scan meets from key position `i` on: the buckets
/// of the keys that start with `p`, in key order, up to the first key that
/// does not.
pub open spec fn range_postings(ks: Seq<Seq<char>>, bs: Seq<Seq<Posting>>, p: Seq<char>, i: nat) -> Seq<
    Posting,
>
    decreases ks.len() - i,
{
    if i >= ks.len() || i >= bs.len() || !is_prefix(p, ks[i as int]) {
        Seq::empty()
    } else {
        bs[i as int] + range_postings(ks, bs, p, i + 1)
    }
}

/// `h` holds the top `cap` by frequency of the examined postings `e`: as
/// many as `cap` allows, all of them while there is room, each taken from
/// `e`, and any examined posting more frequent than a held one is held.
pub open spec fn holds_top(h: Seq<Posting>, e: Seq<Posting>, cap: nat) -> bool {
    &&& h.len() == (if e.len() < cap {
        e.len()
    } else {
        cap
    })
    &&& forall|k: int| 0 <= k < h.len() ==> e.contains(#[trigger] h[k])
    &&& h.len() < cap ==> forall|x: Posting| #[trigger] e.contains(x) ==> h.contains(x)
    &&& forall|x: Posting, y: Posting|
        #![trigger e.contains(x), h.contains(y)]
        e.contains(x) && h.contains(y) && x.0 > y.0 ==> h.contains(x)
}

proof fn lemma_min_index_min(h: Seq<Posting>)
    requires
        h.len() > 0,
    ensures
        forall|k: int| 0 <= k < h.len() ==> h[min_index(h) as int].0 <= #[trigger] h[k].0,
    decreases h.len(),
{
    lemma_min_index_bound(h);
    if h.len() > 1 {
        lemma_min_index_min(h.drop_last());
        lemma_min_index_bound(h.drop_last());
        let m = min_index(h.drop_last());
        assert forall|k: int| 0 <= k < h.len() implies h[min_index(h) as int].0 <= #[trigger] h[k].0 by {
            if k < h.len() - 1 {
                assert(h.drop_last()[k] == h[k]);
                assert(h.drop_last()[m as int] == h[m as int]);
            }
        }
    }
}

/// Scanning one bucket, sorted most frequent first, with budget for all
/// that is left keeps the top of what was examined.
proof fn lemma_scan_bucket_top(b: Seq<Posting>, j: nat, st: ScanState, cap: nat, done: Seq<Posting>, rest: nat)
    requires
        cap > 0,
        postings_sorted(b),
        j <= b.len(),
        !st.2,
        st.1 >= (b.len() - j) + rest,
        holds_top(st.0, done + b.take(j as int), cap),
    ensures
        !scan_bucket(b, j, st, cap).2,
        scan_bucket(b, j, st, cap).1 >= rest,
        holds_top(scan_bucket(b, j, st, cap).0, done + b, cap),
    decreases b.len() - j,
{
    let e = done + b.take(j as int);
    let h = st.0;
    if j >= b.len() {
        assert(b.take(j as int) =~= b);
    } else {
        let x = b[j as int];
        let e2 = done + b.take((j + 1) as int);
        assert(e2 =~= e.push(x));
        assert forall|y: Posting| e.contains(y) implies e2.contains(y) by {
            let k = choose|k: int| 0 <= k < e.len() && e[k] == y;
            assert(e2[k] == y);
        }
        assert(e2.contains(x)) by {
            assert(e2[e.len() as int] == x);
        }
        if h.len() < cap {
            let h2 = h.push(x);
            assert forall|y: Posting| h.contains(y) implies h2.contains(y) by {
                let k = choose|k: int| 0 <= k < h.len() && h[k] == y;
                assert(h2[k] == y);
            }
            assert(h2.contains(x)) by {
                assert(h2[h.len() as int] == x);
            }
            assert forall|y: Posting| #[trigger] e2.contains(y) implies h2.contains(y) by {
                let k = choose|k: int| 0 <= k < e2.len() && e2[k] == y;
                if k < e.len() {
                    assert(e[k] == y);
                    assert(e.contains(y));
                }
            }
            assert forall|k: int| 0 <= k < h2.len() implies e2.contains(#[trigger] h2[k]) by {
                if k < h.len() {
                    assert(h2[k] == h[k]);
                    assert(e.contains(h[k]));
                }
            }
            lemma_scan_bucket_top(b, j + 1, (h2, (st.1 - 1) as nat, false), cap, done, rest);
        } else {
            lemma_min_index_min(h);
            lemma_min_index_bound(h);
            let mi = min_index(h) as int;
            let y0 = h[mi];
            if x.0 > y0.0 {
                let h2 = h.remove(mi).push(x);
                assert(h2.contains(x)) by {
                    assert(h2[h.len() - 1] == x);
                }
                assert forall|y: Posting| h.contains(y) && y != y0 implies h2.contains(y) by {
                    let k = choose|k: int| 0 <= k < h.len() && h[k] == y;
                    if k < mi {
                        assert(h2[k] == y);
                    } else {
                        assert(k != mi);
                        assert(h2[k - 1] == y);
                    }
                }
                assert forall|y: Posting| h2.contains(y) implies h.contains(y) || y == x by {
                    let k = choose|k: int| 0 <= k < h2.len() && h2[k] == y;
                    if k < mi {
                        assert(h[k] == y);
                    } else if k < h.len() - 1 {
                        assert(h[k + 1] == y);
                    }
                }
                assert forall|k: int| 0 <= k < h2.len() implies e2.contains(#[trigger] h2[k]) by {
                    assert(h2.contains(h2[k]));
                    if h2[k] != x {
                        let q = choose|q: int| 0 <= q < h.len() && h[q] == h2[k];
                        assert(e.contains(h[q]));
                    }
                }
                assert forall|a: Posting, c: Posting|
                    e2.contains(a) && h2.contains(c) && a.0 > c.0 implies h2.contains(a) by {
                    if a != x {
                        let ka = choose|ka: int| 0 <= ka < e2.len() && e2[ka] == a;
                        assert(e[ka] == a);
                        assert(e.contains(a));
                        assert(h.contains(y0)) by {
                            assert(h[mi] == y0);
                        }
                        if h.contains(c) {
                            let kc = choose|kc: int| 0 <= kc < h.len() && h[kc] == c;
                            assert(y0.0 <= h[kc].0);
                        }
                        assert(a.0 > y0.0);
                        assert(h.contains(a));
                        assert(a != y0);
                    }
                }
                lemma_scan_bucket_top(b, j + 1, (h2, (st.1 - 1) as nat, false), cap, done, rest);
            } else {
                let e3 = done + b;
                assert forall|y: Posting| e3.contains(y) implies e.contains(y) || y.0 <= x.0 by {
                    let k = choose|k: int| 0 <= k < e3.len() && e3[k] == y;
                    if k < e.len() {
                        assert(e[k] == y);
                    } else {
                        let kb = k - done.len();
                        assert(b[kb] == y);
                        if kb > j {
                            assert(!listed_before(b[kb], b[j as int]));
                        }
                    }
                }
                assert forall|k: int| 0 <= k < h.len() implies e3.contains(#[trigger] h[k]) by {
                    assert(e.contains(h[k]));
                    let q = choose|q: int| 0 <= q < e.len() && e[q] == h[k];
                    assert(e3[q] == h[k]);
                }
                assert forall|a: Posting, c: Posting|
                    e3.contains(a) && h.contains(c) && a.0 > c.0 implies h.contains(a) by {
                    let kc = choose|kc: int| 0 <= kc < h.len() && h[kc] == c;
                    assert(y0.0 <= h[kc].0);
                }
            }
        }
    }
}

/// Scanning the keys from position `i` on, with budget for every posting
/// left, keeps the top of what was examined.
proof fn lemma_scan_keys_top(
    ks: Seq<Seq<char>>,
    bs: Seq<Seq<Posting>>,
    p: Seq<char>,
    i: nat,
    st: ScanState,
    cap: nat,
    done: Seq<Posting>,
)
    requires
        cap > 0,
        forall|k: int| 0 <= k < bs.len() ==> postings_sorted(#[trigger] bs[k]),
        !st.2,
        st.1 >= range_postings(ks, bs, p, i).len(),
        holds_top(st.0, done, cap),
    ensures
        holds_top(scan_keys(ks, bs, p, i, st, cap).0, done + range_postings(ks, bs, p, i), cap),
    decreases ks.len() - i,
{
    if i >= ks.len() || i >= bs.len() || !is_prefix(p, ks[i as int]) {
        assert(done + range_postings(ks, bs, p, i) =~= done);
    } else {
        let b = bs[i as int];
        let rest = range_postings(ks, bs, p, i + 1);
        assert(done + b.take(0) =~= done);
        lemma_scan_bucket_top(b, 0, st, cap, done, rest.len());
        let st2 = scan_bucket(b, 0, st, cap);
        lemma_scan_keys_top(ks, bs, p, i + 1, st2, cap, done + b);
        assert(done + b + rest =~= done + range_postings(ks, bs, p, i));
    }
}

/// Within its budget a prefix scan is an exact top-`cap` by frequency: when
/// the postings under the keys that start with `p` number no more than the
/// scan budget, it returns, most frequent first, `cap` of them (all, when
/// fewer), and any of them more frequent than one returned is returned too.
pub proof fn lemma_with_prefix_top(m: &PrefixMap, p: Seq<char>, cap: nat)
    requires
        m.wf(),
        m.finalized(),
        p.len() > 0,
        cap > 0,
        range_postings(m.key_seq(), m.bucket_seq(), p, lower_bound(m.key_seq(), p)).len()
            <= scan_budget(cap),
    ensures
        ({
            let all = range_postings(m.key_seq(), m.bucket_seq(), p, lower_bound(m.key_seq(), p));
            exists|top: Seq<Posting>|
                {
                    &&& spec_with_prefix(m.key_seq(), m.bucket_seq(), p, cap) == (#[trigger] sort_postings(
                        top,
                    )).map_values(|x: Posting| x.1)
                    &&& postings_sorted(sort_postings(top))
                    &&& top.len() == (if all.len() < cap {
                        all.len()
                    } else {
                        cap
                    })
                    &&& forall|k: int| 0 <= k < top.len() ==> all.contains(#[trigger] top[k])
                    &&& forall|x: Posting, y: Posting|
                        #![trigger all.contains(x), top.contains(y)]
                        all.contains(x) && top.contains(y) && x.0 > y.0 ==> top.contains(x)
                }
        }),
{
    let ks = m.key_seq();
    let bs = m.bucket_seq();
    let lb = lower_bound(ks, p);
    let all = range_postings(ks, bs, p, lb);
    let e = Seq::<Posting>::empty();
    let st0: ScanState = (e, scan_budget(cap), false);
    lemma_scan_keys_top(ks, bs, p, lb, st0, cap, e);
    let top = scan_keys(ks, bs, p, lb, st0, cap).0;
    assert(e + all =~= all);
    lemma_sort_postings(top);
    assert(spec_with_prefix(ks, bs, p, cap) == sort_postings(top).map_values(|x: Posting| x.1));
}

impl Default for PrefixMap {
    fn default() -> (r: Self)
        ensures
            r.wf(),
            r.view() == Map::<Seq<char>, Seq<Posting>>::empty(),
    {
        Self::new()
    }
}

} // verus!
