//! Counting side of the bigram language-model builder: the vocabulary of
//! lexicon forms, unigram and adjacent-pair counts over tokenized corpus
//! lines, the lossy pruning of singleton pairs, the top-K ranking of pairs
//! and the `#abbrev-lm v1` document that `BigramModel` reads back.

use std::collections::HashMap;

use vstd::prelude::*;
use vstd::relations::{sorted_by, total_ordering};

use crate::alphabet::{normalize_chars, spec_normalize};
use crate::index::prefix_map::{PrefixMap, Posting, spec_exact};
use crate::ngram;
use crate::text::{
    append_chars, chars_to_string, decimal, is_digit, lemma_decimal_clean, lemma_decimal_digits, lemma_join_free,
    lemma_lines_push, lemma_parse_decimal, lemma_split_append, lemma_split_free, lines, push_decimal,
    split, str_chars, trim, trim_end, trim_start,
};

verus! {

/// A counted pair: its key and its count.
pub type Counted = (u64, u64);

/// `a` ranks no lower than `b`: a higher count first, then the smaller key.
pub open spec fn ranked_leq(a: Counted, b: Counted) -> bool {
    a.1 > b.1 || (a.1 == b.1 && a.0 <= b.0)
}

/// Whether `s` is in ranking order.
pub open spec fn ranked_sorted(s: Seq<Counted>) -> bool {
    forall|i: int, j: int| 0 <= i < j < s.len() ==> ranked_leq(#[trigger] s[i], #[trigger] s[j])
}

proof fn lemma_ranked_total()
    ensures
        total_ordering(|a: Counted, b: Counted| ranked_leq(a, b)),
{
}

proof fn lemma_ranked_sorted_by(s: Seq<Counted>)
    ensures
        ranked_sorted(s) <==> sorted_by(s, |a: Counted, b: Counted| ranked_leq(a, b)),
{
    let leq = |a: Counted, b: Counted| ranked_leq(a, b);
    if ranked_sorted(s) {
        assert forall|i: int, j: int| 0 <= i < j < s.len() implies #[trigger] leq(s[i], s[j]) by {
            assert(ranked_leq(s[i], s[j]));
        }
    }
    if sorted_by(s, leq) {
        assert forall|i: int, j: int| 0 <= i < j < s.len() implies ranked_leq(#[trigger] s[i], #[trigger] s[j]) by {
            assert(leq(s[i], s[j]));
        }
    }
}

fn ranks_before(a: Counted, b: Counted) -> (r: bool)
    ensures
        r == ranked_leq(a, b),
{
    a.1 > b.1 || (a.1 == b.1 && a.0 <= b.0)
}

/// Merges two runs in ranking order into one.
fn merge_ranked(a: Vec<Counted>, b: Vec<Counted>) -> (r: Vec<Counted>)
    requires
        ranked_sorted(a@),
        ranked_sorted(b@),
    ensures
        ranked_sorted(r@),
        r@.to_multiset() == a@.to_multiset().add(b@.to_multiset()),
{
    broadcast use vstd::seq_lib::group_to_multiset_ensures;

    let mut out: Vec<Counted> = Vec::new();
    let mut i: usize = 0;
    let mut j: usize = 0;
    assert(a@.take(0) =~= Seq::<Counted>::empty());
    assert(b@.take(0) =~= Seq::<Counted>::empty());
    while i < a.len() || j < b.len()
        invariant
            i <= a@.len(),
            j <= b@.len(),
            ranked_sorted(a@),
            ranked_sorted(b@),
            ranked_sorted(out@),
            out@.len() == i + j,
            out@.to_multiset() == a@.take(i as int).to_multiset().add(b@.take(j as int).to_multiset()),
            out@.len() > 0 ==> forall|k: int| i <= k < a@.len() ==> ranked_leq(out@.last(), #[trigger] a@[k]),
            out@.len() > 0 ==> forall|k: int| j <= k < b@.len() ==> ranked_leq(out@.last(), #[trigger] b@[k]),
        decreases a@.len() + b@.len() - i - j,
    {
        let take_a = if i >= a.len() {
            false
        } else if j >= b.len() {
            true
        } else {
            ranks_before(a[i], b[j])
        };
        let ghost before = out@;
        if take_a {
            let x = a[i];
            out.push(x);
            proof {
                assert(a@.take(i + 1) =~= a@.take(i as int).push(x));
                assert(out@ =~= before.push(x));
                vstd::seq_lib::to_multiset_build(before, x);
                vstd::seq_lib::to_multiset_build(a@.take(i as int), x);
                assert(out@.to_multiset() =~= a@.take(i + 1).to_multiset().add(b@.take(j as int).to_multiset()));
                assert forall|p: int, q: int| 0 <= p < q < out@.len() implies ranked_leq(
                    #[trigger] out@[p],
                    #[trigger] out@[q],
                ) by {
                    if q == out@.len() - 1 && p < q {
                        assert(ranked_leq(before[p], before.last()) || p == before.len() - 1);
                    }
                }
            }
            i = i + 1;
        } else {
            let x = b[j];
            out.push(x);
            proof {
                assert(b@.take(j + 1) =~= b@.take(j as int).push(x));
                assert(out@ =~= before.push(x));
                vstd::seq_lib::to_multiset_build(before, x);
                vstd::seq_lib::to_multiset_build(b@.take(j as int), x);
                assert(out@.to_multiset() =~= a@.take(i as int).to_multiset().add(b@.take(j + 1).to_multiset()));
                assert forall|p: int, q: int| 0 <= p < q < out@.len() implies ranked_leq(
                    #[trigger] out@[p],
                    #[trigger] out@[q],
                ) by {
                    if q == out@.len() - 1 && p < q {
                        assert(ranked_leq(before[p], before.last()) || p == before.len() - 1);
                    }
                }
            }
            j = j + 1;
        }
    }
    assert(a@.take(a@.len() as int) =~= a@);
    assert(b@.take(b@.len() as int) =~= b@);
    out
}

/// Sorts counted pairs into ranking order (a merge sort).
pub fn sort_ranked(v: Vec<Counted>) -> (r: Vec<Counted>)
    ensures
        ranked_sorted(r@),
        r@.to_multiset() == v@.to_multiset(),
    decreases v@.len(),
{
    broadcast use vstd::seq_lib::group_to_multiset_ensures;

    if v.len() <= 1 {
        return v;
    }
    let mid = v.len() / 2;
    let mut left = v;
    let ghost all = left@;
    let right = left.split_off(mid);
    proof {
        assert(all =~= left@ + right@);
        vstd::seq_lib::lemma_multiset_commutative(left@, right@);
    }
    let l = sort_ranked(left);
    let r = sort_ranked(right);
    merge_ranked(l, r)
}


// ---------------------------------------------------------------------------
// Vocabulary and counts
// ---------------------------------------------------------------------------

/// Pair tables larger than this drop their singleton pairs.
pub const PRUNE_THRESHOLD: usize = 12000000;

/// The vocabulary of a lexicon: its normalized forms, each once, in order of
/// first occurrence; a word's id is its position.
pub open spec fn vocab_of(forms: Seq<Seq<char>>) -> Seq<Seq<char>>
    decreases forms.len(),
{
    if forms.len() == 0 {
        Seq::empty()
    } else {
        let v = vocab_of(forms.drop_last());
        let n = spec_normalize(forms.last());
        if v.contains(n) {
            v
        } else {
            v.push(n)
        }
    }
}

/// The id of a token: its position in the vocabulary, if it is a word of it.
pub open spec fn word_id(words: Seq<Seq<char>>, t: Seq<char>) -> Option<nat> {
    if words.contains(t) {
        Some(words.index_of(t) as nat)
    } else {
        None
    }
}

/// The ids of a line's tokens; a token outside the vocabulary has none.
pub open spec fn ids_of(words: Seq<Seq<char>>, tokens: Seq<Seq<char>>) -> Seq<Option<nat>> {
    tokens.map_values(|t: Seq<char>| word_id(words, t))
}

/// How many times word `i` occurs among `ids`.
pub open spec fn occurrences(ids: Seq<Option<nat>>, i: nat) -> nat
    decreases ids.len(),
{
    if ids.len() == 0 {
        0
    } else {
        occurrences(ids.drop_last(), i) + (if ids.last() == Some(i) {
            1nat
        } else {
            0nat
        })
    }
}

/// The key of the pair of words `a` then `b`: `a` in the high 32 bits, `b`
/// in the low 32.
pub open spec fn pair_key(a: nat, b: nat) -> nat {
    a * 4294967296 + b
}

/// The first word of a pair key.
pub open spec fn key_first(k: u64) -> nat {
    (k / 4294967296) as nat
}

/// The second word of a pair key.
pub open spec fn key_second(k: u64) -> nat {
    (k % 4294967296) as nat
}

/// How many adjacent positions of `ids` hold two words whose pair key is
/// `k`; a token outside the vocabulary breaks adjacency.
pub open spec fn pair_occurrences(ids: Seq<Option<nat>>, k: u64) -> nat
    decreases ids.len(),
{
    if ids.len() < 2 {
        0
    } else {
        pair_occurrences(ids.drop_last(), k) + (match (ids[ids.len() - 2], ids.last()) {
            (Some(a), Some(b)) => if pair_key(a, b) == k {
                1nat
            } else {
                0nat
            },
            _ => 0nat,
        })
    }
}

/// The count of `k` in `m`, zero when absent.
pub open spec fn count_of(m: Map<u64, u64>, k: u64) -> nat {
    if m.contains_key(k) {
        m[k] as nat
    } else {
        0
    }
}

/// The pair table after counting the pairs of `ids`.
pub open spec fn counted_pairs(m: Map<u64, u64>, ids: Seq<Option<nat>>) -> Map<u64, u64> {
    Map::new(
        |k: u64| m.contains_key(k) || pair_occurrences(ids, k) > 0,
        |k: u64| (count_of(m, k) + pair_occurrences(ids, k)) as u64,
    )
}

/// The pairs of `m` counted more than once.
pub open spec fn frequent_pairs(m: Map<u64, u64>) -> Map<u64, u64> {
    Map::new(|k: u64| m.contains_key(k) && m[k] > 1, |k: u64| m[k])
}

/// The pair table after a line: counted, then pruned of its singletons when
/// it outgrew the threshold.
pub open spec fn pairs_after_line(m: Map<u64, u64>, ids: Seq<Option<nat>>) -> Map<u64, u64> {
    let c = counted_pairs(m, ids);
    if c.dom().len() > PRUNE_THRESHOLD {
        frequent_pairs(c)
    } else {
        c
    }
}

/// How many pairs a line's pruning drops.
pub open spec fn dropped_by_line(m: Map<u64, u64>, ids: Seq<Option<nat>>) -> nat {
    let c = counted_pairs(m, ids);
    if c.dom().len() > PRUNE_THRESHOLD {
        (c.dom().len() - frequent_pairs(c).dom().len()) as nat
    } else {
        0
    }
}

/// The vocabulary lookup table: each word under its own key, with its id.
pub open spec fn vocab_table(m: Map<Seq<char>, Seq<Posting>>, words: Seq<Seq<char>>) -> bool {
    &&& forall|k: Seq<char>| #[trigger] m.contains_key(k) <==> words.contains(k)
    &&& forall|i: int| 0 <= i < words.len() ==> m[#[trigger] words[i]] == seq![(0u32, i as u32)]
}

/// Counts over a corpus, line by line.
pub struct LmCounts {
    vocab: PrefixMap,
    words: Vec<String>,
    unigrams: Vec<u64>,
    bigrams: HashMap<u64, u64>,
    order: Vec<u64>,
    lines: u64,
    pruned: u64,
    consumed: u64,
}

pub open spec fn string_views(v: Seq<String>) -> Seq<Seq<char>> {
    v.map_values(|s: String| s@)
}

impl LmCounts {
    /// The vocabulary, by id.
    pub closed spec fn words_view(&self) -> Seq<Seq<char>> {
        string_views(self.words@)
    }

    /// Each word's count, by id.
    pub closed spec fn unigram_view(&self) -> Seq<u64> {
        self.unigrams@
    }

    /// Pair key → count.
    pub closed spec fn bigram_view(&self) -> Map<u64, u64> {
        self.bigrams@
    }

    /// Lines counted.
    pub closed spec fn lines_view(&self) -> nat {
        self.lines as nat
    }

    /// Pairs dropped by pruning so far.
    pub closed spec fn pruned_view(&self) -> nat {
        self.pruned as nat
    }

    /// Tokens and lines read so far: every line weighs its tokens plus one.
    pub closed spec fn consumed_view(&self) -> nat {
        self.consumed as nat
    }

    pub closed spec fn wf(&self) -> bool {
        let w = string_views(self.words@);
        &&& self.vocab.wf()
        &&& vocab_table(self.vocab.view(), w)
        &&& w.no_duplicates()
        &&& w.len() < u32::MAX
        &&& self.unigrams@.len() == w.len()
        &&& self.order@.no_duplicates()
        &&& self.order@.to_set() == self.bigrams@.dom()
        &&& forall|k: u64| #[trigger] self.bigrams@.contains_key(k) ==> key_first(k) < w.len() && key_second(k) < w.len()
        &&& forall|i: int| 0 <= i < w.len() ==> #[trigger] self.unigrams@[i] <= self.consumed
        &&& count_sum(self.unigrams@, self.unigrams@.len()) <= self.consumed
        &&& forall|k: u64| #[trigger] self.bigrams@.contains_key(k) ==> self.bigrams@[k] <= self.consumed
        &&& self.lines <= self.consumed
        &&& self.pruned + self.order@.len() <= self.consumed
    }
}

impl LmCounts {
    /// Empty counts over the vocabulary of a lexicon's forms: each
    /// normalized form once, numbered in order of first occurrence.
    pub fn new(forms: &Vec<String>) -> (r: Self)
        requires
            forms@.len() < u32::MAX,
        ensures
            r.wf(),
            r.words_view() == vocab_of(string_views(forms@)),
            r.unigram_view() == Seq::new(r.words_view().len(), |i: int| 0u64),
            r.bigram_view() == Map::<u64, u64>::empty(),
            r.lines_view() == 0,
            r.pruned_view() == 0,
            r.consumed_view() == 0,
    {
        let ghost fs = string_views(forms@);
        let mut vocab = PrefixMap::new();
        let mut words: Vec<String> = Vec::new();
        let mut unigrams: Vec<u64> = Vec::new();
        let mut i: usize = 0;
        assert(fs.take(0) =~= Seq::<Seq<char>>::empty());
        assert(string_views(words@) =~= Seq::<Seq<char>>::empty());
        while i < forms.len()
            invariant
                fs == string_views(forms@),
                forms@.len() < u32::MAX,
                i <= forms@.len(),
                vocab.wf(),
                string_views(words@) == vocab_of(fs.take(i as int)),
                vocab_table(vocab.view(), string_views(words@)),
                string_views(words@).no_duplicates(),
                words@.len() <= i,
                unigrams@ == Seq::new(words@.len(), |j: int| 0u64),
            decreases forms@.len() - i,
        {
            let ghost w = string_views(words@);
            let f = str_chars(forms[i].as_str());
            let n = normalize_chars(f.as_slice());
            assert(fs[i as int] == forms@[i as int]@);
            assert(fs.take(i + 1).drop_last() =~= fs.take(i as int));
            let key = chars_to_string(n.as_slice());
            let hit = vocab.exact(key.as_str(), 1);
            if hit.len() == 0 {
                assert(!w.contains(n@));
                let id = words.len() as u32;
                let ghost before = vocab.view();
                vocab.insert_chars(n, id, 0);
                words.push(key);
                unigrams.push(0);
                proof {
                    let w2 = string_views(words@);
                    assert(w2 =~= w.push(n@));
                    assert forall|k: Seq<char>| #[trigger] vocab.view().contains_key(k) <==> w2.contains(k) by {
                        if w2.contains(k) && k != n@ {
                            let j = w2.index_of(k);
                            assert(w.contains(k) || j == w.len());
                            if j < w.len() {
                                assert(w[j] == k);
                            }
                        }
                        if w.contains(k) {
                            let j = w.index_of(k);
                            assert(w2[j] == k);
                        }
                        if k == n@ {
                            assert(w2[w.len() as int] == k);
                        }
                    }
                    assert forall|j: int| 0 <= j < w2.len() implies vocab.view()[#[trigger] w2[j]] == seq![(0u32, j as u32)] by {
                        if j < w.len() {
                            assert(w2[j] == w[j]);
                            assert(w[j] != n@);
                        }
                    }
                    assert(unigrams@ =~= Seq::new(words@.len(), |j: int| 0u64));
                }
            } else {
                assert(vocab.view().contains_key(n@));
            }
            i = i + 1;
        }
        assert(fs.take(forms@.len() as int) =~= fs);
        let r = LmCounts {
            vocab,
            words,
            unigrams,
            bigrams: HashMap::new(),
            order: Vec::new(),
            lines: 0,
            pruned: 0,
            consumed: 0,
        };
        proof {
            assert(r.order@.to_set() =~= Set::<u64>::empty());
            lemma_count_sum_zeros(r.unigrams@, r.unigrams@.len());
        }
        r
    }
}

proof fn lemma_occurrences_bound(ids: Seq<Option<nat>>, i: nat)
    ensures
        occurrences(ids, i) <= ids.len(),
    decreases ids.len(),
{
    if ids.len() > 0 {
        lemma_occurrences_bound(ids.drop_last(), i);
    }
}

proof fn lemma_pair_occurrences_bound(ids: Seq<Option<nat>>, k: u64)
    ensures
        pair_occurrences(ids, k) <= ids.len(),
    decreases ids.len(),
{
    if ids.len() >= 2 {
        lemma_pair_occurrences_bound(ids.drop_last(), k);
    }
}

proof fn lemma_pair_key_bits(a: u32, b: u32)
    by (bit_vector)
    ensures
        ((a as u64) << 32u64) | (b as u64) == (a as u64) * 4294967296u64 + (b as u64),
{
}

proof fn lemma_pair_key_parts(a: nat, b: nat)
    by (nonlinear_arith)
    requires
        a < 4294967296,
        b < 4294967296,
    ensures
        pair_key(a, b) < 18446744073709551616,
        pair_key(a, b) / 4294967296 == a,
        pair_key(a, b) % 4294967296 == b,
{
}

/// The exec encoding of a token id: the id, or `u32::MAX` outside the
/// vocabulary.
pub open spec fn encoded(id: Option<nat>) -> u32 {
    match id {
        Some(i) => i as u32,
        None => u32::MAX,
    }
}

impl LmCounts {
    /// Adds each in-vocabulary token to its word's count and returns the
    /// line's encoded ids.
    fn count_words(&mut self, tokens: &Vec<String>) -> (tids: Vec<u32>)
        requires
            old(self).wf(),
            old(self).consumed_view() + tokens@.len() + 1 <= u64::MAX,
        ensures
            final(self).vocab == old(self).vocab,
            final(self).words == old(self).words,
            final(self).bigrams == old(self).bigrams,
            final(self).order == old(self).order,
            final(self).lines == old(self).lines,
            final(self).pruned == old(self).pruned,
            final(self).consumed == old(self).consumed,
            final(self).unigrams@.len() == old(self).unigrams@.len(),
            forall|i: int|
                0 <= i < old(self).unigrams@.len() ==> #[trigger] final(self).unigrams@[i]
                    == old(self).unigrams@[i] + occurrences(
                    ids_of(old(self).words_view(), string_views(tokens@)),
                    i as nat,
                ),
            forall|i: int|
                0 <= i < old(self).unigrams@.len() ==> #[trigger] final(self).unigrams@[i]
                    <= old(self).consumed + tokens@.len(),
            count_sum(final(self).unigrams@, final(self).unigrams@.len()) <= count_sum(
                old(self).unigrams@,
                old(self).unigrams@.len(),
            ) + tokens@.len(),
            tids@.len() == tokens@.len(),
            forall|q: int|
                0 <= q < tids@.len() ==> #[trigger] tids@[q] == encoded(
                    ids_of(old(self).words_view(), string_views(tokens@))[q],
                ),
    {
        let ghost w = self.words_view();
        let ghost ts = string_views(tokens@);
        let ghost ids = ids_of(w, ts);
        let ghost u0 = self.unigrams@;
        let ghost c0 = self.consumed as nat;
        let mut tids: Vec<u32> = Vec::new();
        let mut j: usize = 0;
        assert(ids.take(0) =~= Seq::<Option<nat>>::empty());
        while j < tokens.len()
            invariant
                self.vocab == old(self).vocab,
                self.words == old(self).words,
                self.bigrams == old(self).bigrams,
                self.order == old(self).order,
                self.lines == old(self).lines,
                self.pruned == old(self).pruned,
                self.consumed == old(self).consumed,
                self.vocab.wf(),
                vocab_table(self.vocab.view(), w),
                w == self.words_view(),
                w.no_duplicates(),
                w.len() < u32::MAX,
                ts == string_views(tokens@),
                ids == ids_of(w, ts),
                j <= tokens@.len(),
                tids@.len() == j,
                forall|q: int| 0 <= q < j ==> #[trigger] tids@[q] == encoded(ids[q]),
                self.unigrams@.len() == u0.len(),
                u0.len() == w.len(),
                u0 == old(self).unigrams@,
                c0 == old(self).consumed,
                forall|i: int| 0 <= i < u0.len() ==> #[trigger] u0[i] <= c0,
                c0 + tokens@.len() + 1 <= u64::MAX,
                forall|i: int|
                    0 <= i < u0.len() ==> #[trigger] self.unigrams@[i] == u0[i] + occurrences(
                        ids.take(j as int),
                        i as nat,
                    ),
                count_sum(self.unigrams@, u0.len()) <= count_sum(u0, u0.len()) + j,
            decreases tokens@.len() - j,
        {
            let hit = self.vocab.exact(tokens[j].as_str(), 1);
            proof {
                assert(ts[j as int] == tokens@[j as int]@);
                assert(ids[j as int] == word_id(w, ts[j as int]));
                assert(ids.take(j + 1).drop_last() =~= ids.take(j as int));
                assert(ids.take(j + 1).last() == ids[j as int]);
            }
            if hit.len() > 0 {
                proof {
                    let t = ts[j as int];
                    assert(w.contains(t));
                    let idx = w.index_of(t);
                    assert(w[idx] == t);
                    assert(self.vocab.view()[w[idx]] == seq![(0u32, idx as u32)]);
                    assert(hit@ =~= seq![idx as u32]);
                }
                let id = hit[0];
                let c = self.unigrams[id as usize];
                proof {
                    lemma_occurrences_bound(ids.take(j as int), id as nat);
                }
                proof {
                    lemma_count_sum_update(self.unigrams@, id as int, (c + 1) as u64, u0.len());
                }
                self.unigrams.set(id as usize, c + 1);
                tids.push(id);
            } else {
                tids.push(u32::MAX);
            }
            proof {
                assert forall|i: int| 0 <= i < u0.len() implies #[trigger] self.unigrams@[i] == u0[i]
                    + occurrences(ids.take(j + 1), i as nat) by {}
            }
            j = j + 1;
        }
        assert(ids.take(tokens@.len() as int) =~= ids);
        proof {
            assert forall|i: int| 0 <= i < u0.len() implies #[trigger] self.unigrams@[i] <= c0 + tokens@.len() by {
                lemma_occurrences_bound(ids, i as nat);
            }
        }
        tids
    }
}

impl LmCounts {
    /// Adds each adjacent pair of in-vocabulary ids to its pair's count.
    fn count_pairs(&mut self, tids: &Vec<u32>, Ghost(ids): Ghost<Seq<Option<nat>>>, Ghost(n): Ghost<nat>)
        requires
            tids@.len() == ids.len(),
            forall|q: int| 0 <= q < ids.len() ==> #[trigger] tids@[q] == encoded(ids[q]),
            forall|q: int| 0 <= q < ids.len() ==> (#[trigger] ids[q] matches Some(i) ==> i < n),
            n < u32::MAX,
            old(self).order@.no_duplicates(),
            old(self).order@.to_set() == old(self).bigrams@.dom(),
            forall|k: u64| #[trigger] old(self).bigrams@.contains_key(k) ==> key_first(k) < n && key_second(k) < n,
            forall|k: u64| #[trigger] old(self).bigrams@.contains_key(k) ==> old(self).bigrams@[k] <= old(self).consumed,
            old(self).pruned + old(self).order@.len() <= old(self).consumed,
            old(self).consumed + tids@.len() + 1 <= u64::MAX,
        ensures
            final(self).vocab == old(self).vocab,
            final(self).words == old(self).words,
            final(self).unigrams == old(self).unigrams,
            final(self).lines == old(self).lines,
            final(self).pruned == old(self).pruned,
            final(self).consumed == old(self).consumed,
            final(self).bigrams@ == counted_pairs(old(self).bigrams@, ids),
            final(self).order@.no_duplicates(),
            final(self).order@.to_set() == final(self).bigrams@.dom(),
            forall|k: u64| #[trigger] final(self).bigrams@.contains_key(k) ==> key_first(k) < n && key_second(k) < n,
            forall|k: u64| #[trigger] final(self).bigrams@.contains_key(k) ==> final(self).bigrams@[k] <= old(self).consumed + tids@.len(),
            final(self).pruned + final(self).order@.len() <= old(self).consumed + tids@.len(),
    {
        broadcast use vstd::std_specs::hash::group_hash_axioms;

        let ghost m0 = self.bigrams@;
        let ghost c0 = self.consumed as nat;
        let mut p: usize = if tids.len() == 0 {
            0
        } else {
            1
        };
        proof {
            assert(counted_pairs(m0, ids.take(p as int)) =~= m0);
        }
        while p < tids.len()
            invariant
                self.vocab == old(self).vocab,
                self.words == old(self).words,
                self.unigrams == old(self).unigrams,
                self.lines == old(self).lines,
                self.pruned == old(self).pruned,
                self.consumed == old(self).consumed,
                m0 == old(self).bigrams@,
                c0 == old(self).consumed,
                tids@.len() == ids.len(),
                forall|q: int| 0 <= q < ids.len() ==> #[trigger] tids@[q] == encoded(ids[q]),
                forall|q: int| 0 <= q < ids.len() ==> (#[trigger] ids[q] matches Some(i) ==> i < n),
                n < u32::MAX,
                forall|k: u64| #[trigger] m0.contains_key(k) ==> m0[k] <= c0,
                c0 + tids@.len() + 1 <= u64::MAX,
                p <= tids@.len(),
                p >= 1 || tids@.len() == 0,
                self.bigrams@ == counted_pairs(m0, ids.take(p as int)),
                self.order@.no_duplicates(),
                self.order@.to_set() == self.bigrams@.dom(),
                forall|k: u64| #[trigger] self.bigrams@.contains_key(k) ==> key_first(k) < n && key_second(k) < n,
                self.pruned + self.order@.len() <= c0 + p,
            decreases tids@.len() - p,
        {
            let a = tids[p - 1];
            let b = tids[p];
            let ghost s0 = ids.take(p as int);
            let ghost s1 = ids.take(p + 1);
            proof {
                assert(s1.drop_last() =~= s0);
                assert(s1[s1.len() - 2] == ids[p - 1]);
                assert(s1.last() == ids[p as int]);
            }
            if a != u32::MAX && b != u32::MAX {
                let k: u64 = ((a as u64) << 32u64) | (b as u64);
                proof {
                    lemma_pair_key_bits(a, b);
                    assert(ids[p - 1] == Some(a as nat)) by {
                        assert(tids@[p - 1] == encoded(ids[p - 1]));
                    }
                    assert(ids[p as int] == Some(b as nat)) by {
                        assert(tids@[p as int] == encoded(ids[p as int]));
                    }
                    lemma_pair_key_parts(a as nat, b as nat);
                    assert(k == pair_key(a as nat, b as nat));
                    assert(key_first(k) == a && key_second(k) == b);
                    lemma_pair_occurrences_bound(s0, k);
                    assert forall|q: u64| q != k implies pair_occurrences(s1, q) == pair_occurrences(s0, q) by {}
                    assert(pair_occurrences(s1, k) == pair_occurrences(s0, k) + 1);
                }
                let ghost before = self.bigrams@;
                match self.bigrams.get(&k) {
                    Some(c) => {
                        let c = *c;
                        self.bigrams.insert(k, c + 1);
                        proof {
                            assert(self.bigrams@ =~= counted_pairs(m0, s1));
                            assert(self.order@.to_set() =~= self.bigrams@.dom());
                        }
                    },
                    None => {
                        self.bigrams.insert(k, 1);
                        let ghost o = self.order@;
                        self.order.push(k);
                        proof {
                            assert(!o.contains(k)) by {
                                assert(!before.dom().contains(k));
                                assert(o.to_set().contains(k) == o.contains(k));
                            }
                            assert(self.order@ =~= o.push(k));
                            assert forall|x: int, y: int| 0 <= x < y < self.order@.len() implies self.order@[x] != self.order@[y] by {
                                if y == o.len() {
                                    assert(o.contains(o[x]));
                                }
                            }
                            assert(self.bigrams@ =~= counted_pairs(m0, s1));
                            assert(self.order@.to_set() =~= self.bigrams@.dom()) by {
                                assert forall|q: u64| self.order@.to_set().contains(q) == self.bigrams@.dom().contains(q) by {
                                    if q != k {
                                        assert(self.order@.contains(q) == o.contains(q)) by {
                                            if self.order@.contains(q) {
                                                let x = self.order@.index_of(q);
                                                assert(x < o.len());
                                                assert(o[x] == q);
                                            }
                                            if o.contains(q) {
                                                let x = o.index_of(q);
                                                assert(self.order@[x] == q);
                                            }
                                        }
                                    } else {
                                        assert(self.order@[o.len() as int] == k);
                                    }
                                }
                            }
                        }
                    },
                }
            } else {
                proof {
                    assert forall|q: u64| pair_occurrences(s1, q) == pair_occurrences(s0, q) by {
                        if a == u32::MAX {
                            assert(ids[p - 1] is None) by {
                                assert(tids@[p - 1] == encoded(ids[p - 1]));
                                if ids[p - 1] is Some {
                                    assert(ids[p - 1]->0 < n);
                                }
                            }
                        } else {
                            assert(ids[p as int] is None) by {
                                assert(tids@[p as int] == encoded(ids[p as int]));
                                if ids[p as int] is Some {
                                    assert(ids[p as int]->0 < n);
                                }
                            }
                        }
                    }
                    assert(counted_pairs(m0, s1) =~= counted_pairs(m0, s0));
                }
            }
            p = p + 1;
        }
        proof {
            if tids@.len() > 0 {
                assert(ids.take(tids@.len() as int) =~= ids);
            } else {
                assert(counted_pairs(m0, ids) =~= m0);
                assert(ids.take(0) =~= ids);
            }
            assert forall|k: u64| #[trigger] self.bigrams@.contains_key(k) implies self.bigrams@[k] <= c0 + tids@.len() by {
                lemma_pair_occurrences_bound(ids, k);
            }
        }
    }
}

impl LmCounts {
    /// Drops the pairs counted only once; returns how many were dropped.
    fn drop_singletons(&mut self) -> (dropped: usize)
        requires
            old(self).order@.no_duplicates(),
            old(self).order@.to_set() == old(self).bigrams@.dom(),
        ensures
            final(self).vocab == old(self).vocab,
            final(self).words == old(self).words,
            final(self).unigrams == old(self).unigrams,
            final(self).lines == old(self).lines,
            final(self).pruned == old(self).pruned,
            final(self).consumed == old(self).consumed,
            final(self).bigrams@ == frequent_pairs(old(self).bigrams@),
            final(self).order@.no_duplicates(),
            final(self).order@.to_set() == final(self).bigrams@.dom(),
            dropped + final(self).order@.len() == old(self).order@.len(),
            dropped == old(self).bigrams@.dom().len() - final(self).bigrams@.dom().len(),
    {
        broadcast use vstd::std_specs::hash::group_hash_axioms;

        let ghost m = self.bigrams@;
        let ghost o = self.order@;
        let mut kept: HashMap<u64, u64> = HashMap::new();
        let mut kept_order: Vec<u64> = Vec::new();
        let mut q: usize = 0;
        assert(o.take(0) =~= Seq::<u64>::empty());
        while q < self.order.len()
            invariant
                self.bigrams@ == m,
                self.order@ == o,
                o.no_duplicates(),
                o.to_set() == m.dom(),
                q <= o.len(),
                kept@ == Map::new(|k: u64| o.take(q as int).contains(k) && m[k] > 1, |k: u64| m[k]),
                kept_order@.no_duplicates(),
                kept_order@.to_set() == kept@.dom(),
                kept_order@.len() <= q,
            decreases o.len() - q,
        {
            let k = self.order[q];
            proof {
                assert(o.to_set().contains(k) == o.contains(k));
                assert(o.contains(k)) by {
                    assert(o[q as int] == k);
                }
                assert(o.take(q + 1) =~= o.take(q as int).push(k));
                assert(!o.take(q as int).contains(k)) by {
                    if o.take(q as int).contains(k) {
                        let x = o.take(q as int).index_of(k);
                        assert(o[x] == o[q as int]);
                    }
                }
                assert forall|k2: u64| o.take(q + 1).contains(k2) == (o.take(q as int).contains(k2) || k2 == k) by {
                    if o.take(q + 1).contains(k2) {
                        let x = o.take(q + 1).index_of(k2);
                        if x < q {
                            assert(o.take(q as int)[x] == k2);
                        }
                    }
                    if o.take(q as int).contains(k2) {
                        let x = o.take(q as int).index_of(k2);
                        assert(o.take(q + 1)[x] == k2);
                    }
                    if k2 == k {
                        assert(o.take(q + 1)[q as int] == k);
                    }
                }
            }
            let c = match self.bigrams.get(&k) {
                Some(c) => *c,
                None => 0,
            };
            assert(m.contains_key(k));
            assert(c == m[k]);
            if c > 1 {
                let ghost ko = kept_order@;
                kept.insert(k, c);
                kept_order.push(k);
                proof {
                    assert(!ko.contains(k)) by {
                        if ko.contains(k) {
                            assert(ko.to_set().contains(k));
                        }
                    }
                    assert(kept_order@ =~= ko.push(k));
                    assert forall|x: int, y: int| 0 <= x < y < kept_order@.len() implies kept_order@[x] != kept_order@[y] by {
                        if y == ko.len() {
                            assert(ko.contains(ko[x]));
                        }
                    }
                    assert(kept@ =~= Map::new(|k2: u64| o.take(q + 1).contains(k2) && m[k2] > 1, |k2: u64| m[k2]));
                    assert forall|z: u64| kept_order@.to_set().contains(z) == kept@.dom().contains(z) by {
                        if z != k {
                            assert(kept_order@.contains(z) == ko.contains(z)) by {
                                if kept_order@.contains(z) {
                                    let x = kept_order@.index_of(z);
                                    assert(x < ko.len());
                                    assert(ko[x] == z);
                                }
                                if ko.contains(z) {
                                    let x = ko.index_of(z);
                                    assert(kept_order@[x] == z);
                                }
                            }
                        } else {
                            assert(kept_order@[ko.len() as int] == k);
                        }
                    }
                    assert(kept_order@.to_set() =~= kept@.dom());
                }
            } else {
                proof {
                    assert(kept@ =~= Map::new(|k2: u64| o.take(q + 1).contains(k2) && m[k2] > 1, |k2: u64| m[k2]));
                }
            }
            q = q + 1;
        }
        proof {
            assert(o.take(o.len() as int) =~= o);
            assert forall|k: u64| o.contains(k) == m.contains_key(k) by {
                assert(o.to_set().contains(k) == o.contains(k));
            }
            assert(kept@ =~= frequent_pairs(m));
            o.unique_seq_to_set();
            kept_order@.unique_seq_to_set();
        }
        let dropped = self.order.len() - kept_order.len();
        self.bigrams = kept;
        self.order = kept_order;
        dropped
    }

    /// Counts one corpus line, given its tokens: every in-vocabulary token
    /// adds one to its word, every adjacent pair of in-vocabulary tokens
    /// one to its pair; a table grown past the threshold then drops its
    /// singleton pairs.
    pub fn add_tokens(&mut self, tokens: &Vec<String>)
        requires
            old(self).wf(),
            old(self).consumed_view() + tokens@.len() + 1 <= u64::MAX,
        ensures
            final(self).wf(),
            final(self).words_view() == old(self).words_view(),
            final(self).consumed_view() == old(self).consumed_view() + tokens@.len() + 1,
            final(self).lines_view() == old(self).lines_view() + 1,
            final(self).unigram_view().len() == old(self).unigram_view().len(),
            forall|i: int|
                0 <= i < old(self).unigram_view().len() ==> #[trigger] final(self).unigram_view()[i]
                    == old(self).unigram_view()[i] + occurrences(
                    ids_of(old(self).words_view(), string_views(tokens@)),
                    i as nat,
                ),
            final(self).bigram_view() == pairs_after_line(
                old(self).bigram_view(),
                ids_of(old(self).words_view(), string_views(tokens@)),
            ),
            final(self).pruned_view() == old(self).pruned_view() + dropped_by_line(
                old(self).bigram_view(),
                ids_of(old(self).words_view(), string_views(tokens@)),
            ),
    {
        broadcast use vstd::std_specs::hash::group_hash_axioms;

        let ghost w = self.words_view();
        let ghost ids = ids_of(w, string_views(tokens@));
        let ghost m0 = self.bigrams@;
        proof {
            assert forall|q: int| 0 <= q < ids.len() implies (#[trigger] ids[q] matches Some(i) ==> i < w.len()) by {
                let t = string_views(tokens@)[q];
                if w.contains(t) {
                    let x = w.index_of(t);
                    assert(0 <= x < w.len() && w[x] == t);
                }
            }
        }
        let tids = self.count_words(tokens);
        self.count_pairs(&tids, Ghost(ids), Ghost(w.len()));
        self.lines = self.lines + 1;
        self.consumed = self.consumed + tokens.len() as u64 + 1;
        let ghost counted = self.bigrams@;
        proof {
            self.order@.unique_seq_to_set();
        }
        if self.bigrams.len() > PRUNE_THRESHOLD {
            let dropped = self.drop_singletons();
            self.pruned = self.pruned + dropped as u64;
        }
        proof {
            assert(counted == counted_pairs(m0, ids));
        }
    }
}

// ---------------------------------------------------------------------------
// Ranking and the artifact
// ---------------------------------------------------------------------------

/// `p` is a pair of `m` with its count, counted at least `min_count` times.
pub open spec fn is_candidate(m: Map<u64, u64>, min_count: u64, p: Counted) -> bool {
    m.contains_key(p.0) && m[p.0] == p.1 && p.1 >= min_count
}

/// The pairs of `m` counted at least `min_count` times, with their counts.
pub open spec fn candidates(m: Map<u64, u64>, min_count: u64) -> Set<Counted> {
    Set::new(|p: Counted| is_candidate(m, min_count, p))
}

/// The first `top` of `s`, or all of it.
pub open spec fn first_n<A>(s: Seq<A>, top: nat) -> Seq<A> {
    if top < s.len() {
        s.take(top as int)
    } else {
        s
    }
}

/// `r` is the top `top` of the candidate pairs in ranking order: the most
/// counted first, ties by the smaller key.
pub open spec fn top_ranked(m: Map<u64, u64>, min_count: u64, top: nat, r: Seq<Counted>) -> bool {
    exists|all: Seq<Counted>|
        #![trigger first_n(all, top)]
        ranked_sorted(all) && all.no_duplicates() && all.to_set() == candidates(m, min_count) && r
            == first_n(all, top)
}

proof fn lemma_same_set_same_multiset(a: Seq<Counted>, b: Seq<Counted>)
    requires
        a.no_duplicates(),
        b.no_duplicates(),
        a.to_set() == b.to_set(),
    ensures
        a.to_multiset() == b.to_multiset(),
{
    broadcast use vstd::seq_lib::group_to_multiset_ensures;

    a.lemma_multiset_has_no_duplicates();
    b.lemma_multiset_has_no_duplicates();
    assert forall|x: Counted| a.to_multiset().count(x) == b.to_multiset().count(x) by {
        assert(a.to_set().contains(x) == a.contains(x));
        assert(b.to_set().contains(x) == b.contains(x));
        if a.contains(x) {
            assert(a.to_multiset().contains(x));
            assert(b.to_multiset().contains(x));
        } else {
            assert(!a.to_multiset().contains(x));
            assert(!b.to_multiset().contains(x));
        }
    }
    assert(a.to_multiset() =~= b.to_multiset());
}

/// The ranking is fully determined by the counts: whatever order the
/// table is walked in, the top pairs come out the same.
pub proof fn lemma_top_ranked_unique(
    m: Map<u64, u64>,
    min_count: u64,
    top: nat,
    r1: Seq<Counted>,
    r2: Seq<Counted>,
)
    requires
        top_ranked(m, min_count, top, r1),
        top_ranked(m, min_count, top, r2),
    ensures
        r1 == r2,
{
    let a1 = choose|all: Seq<Counted>|
        #![trigger first_n(all, top)]
        ranked_sorted(all) && all.no_duplicates() && all.to_set() == candidates(m, min_count) && r1
            == first_n(all, top);
    let a2 = choose|all: Seq<Counted>|
        #![trigger first_n(all, top)]
        ranked_sorted(all) && all.no_duplicates() && all.to_set() == candidates(m, min_count) && r2
            == first_n(all, top);
    lemma_same_set_same_multiset(a1, a2);
    lemma_ranked_total();
    lemma_ranked_sorted_by(a1);
    lemma_ranked_sorted_by(a2);
    vstd::seq_lib::lemma_sorted_unique(a1, a2, |a: Counted, b: Counted| ranked_leq(a, b));
    assert(a1 == a2);
}

/// The artifact's comment line, without its line ending.
pub open spec fn lm_header_line() -> Seq<char> {
    "#abbrev-lm v1 — built by `lexicon-builder bigrams` (OpenSubtitles ru slice)"@
}

/// The artifact's first line.
pub open spec fn lm_header() -> Seq<char> {
    lm_header_line() + seq!['\n']
}

/// The record `u<TAB>word<TAB>count`.
pub open spec fn unigram_row(w: Seq<char>, c: u64) -> Seq<char> {
    seq!['u', '\t'] + w + seq!['\t'] + decimal(c as nat)
}

/// The record `b<TAB>first<TAB>second<TAB>count`.
pub open spec fn bigram_row(p: Seq<char>, w: Seq<char>, c: u64) -> Seq<char> {
    seq!['b', '\t'] + p + seq!['\t'] + w + seq!['\t'] + decimal(c as nat)
}

/// `u<TAB>word<TAB>count` lines for the first `n` words counted at least
/// once, in id order.
pub open spec fn unigram_lines(words: Seq<Seq<char>>, counts: Seq<u64>, n: nat) -> Seq<char>
    decreases n,
{
    if n == 0 {
        Seq::empty()
    } else {
        let prev = unigram_lines(words, counts, (n - 1) as nat);
        let i = n - 1;
        if counts[i] > 0 {
            prev + unigram_row(words[i], counts[i]) + seq!['\n']
        } else {
            prev
        }
    }
}

/// `b<TAB>first<TAB>second<TAB>count` lines for the first `n` ranked pairs.
pub open spec fn bigram_lines(words: Seq<Seq<char>>, ranked: Seq<Counted>, n: nat) -> Seq<char>
    decreases n,
{
    if n == 0 {
        Seq::empty()
    } else {
        let prev = bigram_lines(words, ranked, (n - 1) as nat);
        let p = ranked[n - 1];
        prev + bigram_row(words[key_first(p.0) as int], words[key_second(p.0) as int], p.1) + seq![
            '\n',
        ]
    }
}

/// The `#abbrev-lm v1` artifact: the header, every counted word, then the
/// ranked pairs.
pub open spec fn lm_text(words: Seq<Seq<char>>, counts: Seq<u64>, ranked: Seq<Counted>) -> Seq<char> {
    lm_header() + unigram_lines(words, counts, counts.len()) + bigram_lines(words, ranked, ranked.len())
}

/// How many of the first `n` words were counted at least once.
pub open spec fn seen_count(counts: Seq<u64>, n: nat) -> nat
    decreases n,
{
    if n == 0 {
        0
    } else {
        seen_count(counts, (n - 1) as nat) + (if counts[n - 1] > 0 {
            1nat
        } else {
            0nat
        })
    }
}

proof fn lemma_key_split(k: u64)
    by (bit_vector)
    ensures
        k >> 32u64 == k / 4294967296u64,
        k & 0xffff_ffffu64 == k % 4294967296u64,
{
}

impl LmCounts {
    /// Lines counted so far.
    pub fn lines(&self) -> (r: u64)
        ensures
            r == self.lines_view(),
    {
        self.lines
    }

    /// Pairs dropped by pruning so far.
    pub fn pruned(&self) -> (r: u64)
        ensures
            r == self.pruned_view(),
    {
        self.pruned
    }

    /// The weight of what was read so far: tokens plus one per line.
    pub fn consumed(&self) -> (r: u64)
        ensures
            r == self.consumed_view(),
    {
        self.consumed
    }

    /// How many words were counted at least once.
    pub fn seen_words(&self) -> (r: usize)
        requires
            self.wf(),
        ensures
            r == seen_count(self.unigram_view(), self.unigram_view().len()),
    {
        let mut n: usize = 0;
        let mut i: usize = 0;
        while i < self.unigrams.len()
            invariant
                i <= self.unigrams@.len(),
                n == seen_count(self.unigrams@, i as nat),
                n <= i,
            decreases self.unigrams@.len() - i,
        {
            if self.unigrams[i] > 0 {
                n = n + 1;
            }
            i = i + 1;
        }
        n
    }

    /// The top `top` pairs counted at least `min_count` times, most counted
    /// first, ties by the smaller key.
    pub fn ranked_pairs(&self, min_count: u64, top: usize) -> (r: Vec<Counted>)
        requires
            self.wf(),
        ensures
            top_ranked(self.bigram_view(), min_count, top as nat, r@),
            forall|i: int| 0 <= i < r@.len() ==> #[trigger] self.bigram_view().contains_key(r@[i].0),
    {
        broadcast use vstd::std_specs::hash::group_hash_axioms;
        broadcast use vstd::seq_lib::group_to_multiset_ensures;

        let ghost m = self.bigrams@;
        let ghost o = self.order@;
        let ghost cand = candidates(m, min_count);
        let mut found: Vec<Counted> = Vec::new();
        let mut q: usize = 0;
        assert(o.take(0) =~= Seq::<u64>::empty());
        while q < self.order.len()
            invariant
                self.bigrams@ == m,
                self.order@ == o,
                o.no_duplicates(),
                o.to_set() == m.dom(),
                q <= o.len(),
                found@.no_duplicates(),
                forall|p: Counted|
                    #![trigger found@.contains(p)]
                    #![trigger is_candidate(m, min_count, p)]
                    found@.contains(p) <==> (o.take(q as int).contains(p.0) && is_candidate(m, min_count, p)),
            decreases o.len() - q,
        {
            let k = self.order[q];
            proof {
                assert(o.to_set().contains(k) == o.contains(k));
                assert(o[q as int] == k);
                assert(!o.take(q as int).contains(k)) by {
                    if o.take(q as int).contains(k) {
                        let x = o.take(q as int).index_of(k);
                        assert(o[x] == o[q as int]);
                    }
                }
                assert forall|k2: u64| o.take(q + 1).contains(k2) == (o.take(q as int).contains(k2) || k2 == k) by {
                    if o.take(q + 1).contains(k2) {
                        let x = o.take(q + 1).index_of(k2);
                        if x < q {
                            assert(o.take(q as int)[x] == k2);
                        }
                    }
                    if o.take(q as int).contains(k2) {
                        let x = o.take(q as int).index_of(k2);
                        assert(o.take(q + 1)[x] == k2);
                    }
                    if k2 == k {
                        assert(o.take(q + 1)[q as int] == k);
                    }
                }
            }
            let c = match self.bigrams.get(&k) {
                Some(c) => *c,
                None => 0,
            };
            assert(m.contains_key(k));
            assert(c == m[k]);
            if c >= min_count {
                let ghost f0 = found@;
                found.push((k, c));
                proof {
                    assert(found@ =~= f0.push((k, c)));
                    assert(f0.contains((k, c)) ==> o.take(q as int).contains(k));
                    assert(!f0.contains((k, c)));
                    assert forall|x: int, y: int| 0 <= x < y < found@.len() implies found@[x] != found@[y] by {
                        if y == f0.len() {
                            assert(f0.contains(f0[x]));
                        }
                    }
                    assert forall|p: Counted| found@.contains(p) <==> (o.take(q + 1).contains(p.0) && is_candidate(m, min_count, p)) by {
                        assert(f0.contains(p) <==> (o.take(q as int).contains(p.0) && is_candidate(m, min_count, p)));
                        assert(o.take(q + 1).contains(p.0) == (o.take(q as int).contains(p.0) || p.0 == k));
                        if found@.contains(p) {
                            let x = found@.index_of(p);
                            if x < f0.len() {
                                assert(f0[x] == p);
                            } else {
                                assert(p == (k, c));
                            }
                        }
                        if f0.contains(p) {
                            let x = f0.index_of(p);
                            assert(found@[x] == p);
                        }
                        if p == (k, c) {
                            assert(found@[f0.len() as int] == p);
                        }
                        if is_candidate(m, min_count, p) && p.0 == k {
                            assert(p == (k, c));
                        }
                    }
                }
            }
            q = q + 1;
        }
        proof {
            assert(o.take(o.len() as int) =~= o);
            assert forall|p: Counted| found@.to_set().contains(p) == cand.contains(p) by {
                assert(found@.to_set().contains(p) == found@.contains(p));
                assert(cand.contains(p) == is_candidate(m, min_count, p));
                if is_candidate(m, min_count, p) {
                    assert(o.to_set().contains(p.0));
                }
            }
            assert(found@.to_set() =~= cand);
        }
        let ghost fs = found@;
        let mut sorted = sort_ranked(found);
        proof {
            fs.lemma_multiset_has_no_duplicates();
            assert forall|x: Counted| sorted@.to_multiset().contains(x) implies sorted@.to_multiset().count(x) == 1 by {
                assert(fs.to_multiset().contains(x));
            }
            sorted@.lemma_multiset_has_no_duplicates_conv();
            assert forall|p: Counted| sorted@.to_set().contains(p) == cand.contains(p) by {
                assert(sorted@.to_set().contains(p) == sorted@.contains(p));
                assert(fs.to_set().contains(p) == fs.contains(p));
                assert(sorted@.contains(p) == sorted@.to_multiset().contains(p));
                assert(fs.contains(p) == fs.to_multiset().contains(p));
            }
            assert(sorted@.to_set() =~= cand);
        }
        let ghost all = sorted@;
        if top < sorted.len() {
            sorted.truncate(top);
        }
        proof {
            assert(sorted@ == first_n(all, top as nat)) by {
                if top < all.len() {
                    assert(sorted@ =~= all.take(top as int));
                }
            }
            assert(top_ranked(m, min_count, top as nat, sorted@));
            assert forall|i: int| 0 <= i < sorted@.len() implies #[trigger] m.contains_key(sorted@[i].0) by {
                assert(all.contains(sorted@[i])) by {
                    assert(all[i] == sorted@[i]);
                }
                assert(all.to_set().contains(sorted@[i]));
            }
        }
        sorted
    }

    /// The `#abbrev-lm v1` artifact for these counts and the ranked pairs.
    pub fn document(&self, ranked: &Vec<Counted>) -> (r: String)
        requires
            self.wf(),
            forall|i: int| 0 <= i < ranked@.len() ==> #[trigger] self.bigram_view().contains_key(ranked@[i].0),
        ensures
            r@ == lm_text(self.words_view(), self.unigram_view(), ranked@),
    {
        let ghost w = self.words_view();
        let mut out = str_chars("#abbrev-lm v1 — built by `lexicon-builder bigrams` (OpenSubtitles ru slice)");
        out.push('\n');
        let ghost head = out@;
        assert(head =~= lm_header());
        let mut i: usize = 0;
        while i < self.unigrams.len()
            invariant
                self.wf(),
                w == self.words_view(),
                i <= self.unigrams@.len(),
                out@ == head + unigram_lines(w, self.unigrams@, i as nat),
            decreases self.unigrams@.len() - i,
        {
            let c = self.unigrams[i];
            if c > 0 {
                out.push('u');
                out.push('\t');
                let wc = str_chars(self.words[i].as_str());
                proof {
                    assert(w[i as int] == self.words@[i as int]@);
                }
                append_chars(&mut out, wc.as_slice());
                out.push('\t');
                push_decimal(&mut out, c);
                out.push('\n');
                proof {
                    assert(out@ =~= head + unigram_lines(w, self.unigrams@, (i + 1) as nat));
                }
            }
            i = i + 1;
        }
        let ghost mid = out@;
        let mut j: usize = 0;
        while j < ranked.len()
            invariant
                self.wf(),
                w == self.words_view(),
                forall|x: int| 0 <= x < ranked@.len() ==> #[trigger] self.bigram_view().contains_key(ranked@[x].0),
                j <= ranked@.len(),
                out@ == mid + bigram_lines(w, ranked@, j as nat),
            decreases ranked@.len() - j,
        {
            let (k, c) = ranked[j];
            proof {
                assert(self.bigram_view().contains_key(ranked@[j as int].0));
                lemma_key_split(k);
            }
            let a = (k >> 32u64) as usize;
            let b = (k & 0xffff_ffffu64) as usize;
            out.push('b');
            out.push('\t');
            let wa = str_chars(self.words[a].as_str());
            append_chars(&mut out, wa.as_slice());
            out.push('\t');
            let wb = str_chars(self.words[b].as_str());
            append_chars(&mut out, wb.as_slice());
            out.push('\t');
            push_decimal(&mut out, c);
            out.push('\n');
            proof {
                assert(w[a as int] == self.words@[a as int]@);
                assert(w[b as int] == self.words@[b as int]@);
                assert(out@ =~= mid + bigram_lines(w, ranked@, (j + 1) as nat));
            }
            j = j + 1;
        }
        proof {
            assert(out@ =~= lm_text(w, self.unigrams@, ranked@));
        }
        chars_to_string(out.as_slice())
    }
}

// ---------------------------------------------------------------------------
// Reading the artifact back
// ---------------------------------------------------------------------------

/// A word the artifact can carry: spelled as the model normalizes it, with
/// neither of the artifact's separators, tab and newline.
pub open spec fn artifact_word(w: Seq<char>) -> bool {
    spec_normalize(w) == w && !w.contains('\t') && !w.contains('\n')
}

/// Sum of the first `n` counts.
pub open spec fn count_sum(counts: Seq<u64>, n: nat) -> nat
    decreases n,
{
    if n == 0 {
        0
    } else {
        count_sum(counts, (n - 1) as nat) + counts[n - 1] as nat
    }
}

/// The word counts recorded for the first `n` words: each one counted at
/// least once, under its count.
pub open spec fn unigrams_upto(words: Seq<Seq<char>>, counts: Seq<u64>, n: nat) -> Map<
    Seq<char>,
    u64,
> {
    Map::new(
        |w: Seq<char>| exists|i: int| 0 <= i < n && #[trigger] words[i] == w && counts[i] > 0,
        |w: Seq<char>| counts[words.index_of(w)],
    )
}

/// The word counts an artifact records.
pub open spec fn recorded_unigrams(words: Seq<Seq<char>>, counts: Seq<u64>) -> Map<Seq<char>, u64> {
    unigrams_upto(words, counts, counts.len())
}

/// The pair counts recorded for the first `n` ranked pairs: each one's
/// count under its first word, then its second.
pub open spec fn recorded_bigrams(words: Seq<Seq<char>>, ranked: Seq<Counted>, n: nat) -> Map<
    Seq<char>,
    Map<Seq<char>, u64>,
>
    decreases n,
{
    if n == 0 {
        Map::empty()
    } else {
        let t = recorded_bigrams(words, ranked, (n - 1) as nat);
        let k = ranked[n - 1];
        let p = words[key_first(k.0) as int];
        let w = words[key_second(k.0) as int];
        t.insert(p, ngram::row_of(t, p).insert(w, k.1))
    }
}

proof fn lemma_count_sum_zeros(counts: Seq<u64>, n: nat)
    requires
        n <= counts.len(),
        forall|i: int| 0 <= i < n ==> counts[i] == 0,
    ensures
        count_sum(counts, n) == 0,
    decreases n,
{
    if n > 0 {
        lemma_count_sum_zeros(counts, (n - 1) as nat);
    }
}

/// Changing one count changes the sum by the difference.
proof fn lemma_count_sum_update(counts: Seq<u64>, i: int, v: u64, n: nat)
    requires
        0 <= i < n <= counts.len(),
    ensures
        count_sum(counts.update(i, v), n) == count_sum(counts, n) - counts[i] + v,
    decreases n,
{
    let u = counts.update(i, v);
    if i < n - 1 {
        lemma_count_sum_update(counts, i, v, (n - 1) as nat);
    } else {
        lemma_count_sum_same(counts, u, (n - 1) as nat);
    }
}

proof fn lemma_count_sum_same(a: Seq<u64>, b: Seq<u64>, n: nat)
    requires
        n <= a.len(),
        n <= b.len(),
        forall|i: int| 0 <= i < n ==> a[i] == b[i],
    ensures
        count_sum(a, n) == count_sum(b, n),
    decreases n,
{
    if n > 0 {
        lemma_count_sum_same(a, b, (n - 1) as nat);
    }
}

proof fn lemma_count_sum_mono(counts: Seq<u64>, a: nat, b: nat)
    requires
        a <= b <= counts.len(),
    ensures
        count_sum(counts, a) <= count_sum(counts, b),
    decreases b,
{
    if a < b {
        lemma_count_sum_mono(counts, a, (b - 1) as nat);
    }
}

/// The header is a comment line, which reading skips.
proof fn lemma_header_record(st: ngram::LmCounts)
    ensures
        lm_header_line().len() > 0,
        !lm_header_line().contains('\n'),
        lm_header_line().last() != '\r',
        ngram::lm_step(st, lm_header_line()) == Ok::<ngram::LmCounts, Seq<char>>(st),
        ngram::lm_step_fits(st, lm_header_line()),
{
    reveal_strlit("#abbrev-lm v1 — built by `lexicon-builder bigrams` (OpenSubtitles ru slice)");
    let h = lm_header_line();
    assert(h[0] == '#');
    assert(h.last() == ')');
    assert(trim_start(h) == h);
    assert(trim_end(h) == h);
    assert(trim(h) == h);
    assert(!h.contains('\n'));
}

/// The pieces of a record, in order: two prefixes of separator-free
/// fields, then the count.
proof fn lemma_record_clean(r: Seq<char>, head: Seq<char>, d: Seq<char>)
    requires
        r == head + seq!['\t'] + d,
        !head.contains('\n'),
        head.len() > 0,
        !crate::text::is_ws(head[0]),
        !d.contains('\n'),
        d.len() > 0,
        is_digit(d.last()),
    ensures
        r.len() > 0,
        !r.contains('\n'),
        r.last() != '\r',
        trim(r) == r,
        r[0] == head[0],
{
    assert(r.last() == d.last()) by {
        assert(r[r.len() - 1] == d[d.len() - 1]);
    }
    assert(r[0] == head[0]);
    assert(trim_start(r) == r);
    assert(trim_end(r) == r);
    assert(!r.contains('\n')) by {
        if r.contains('\n') {
            let i = choose|i: int| 0 <= i < r.len() && r[i] == '\n';
            if i < head.len() {
                assert(head[i] == '\n');
            } else if i > head.len() {
                assert(d[i - head.len() - 1] == '\n');
            }
        }
    }
}

/// How reading takes a word record.
proof fn lemma_unigram_record(st: ngram::LmCounts, w: Seq<char>, c: u64)
    requires
        artifact_word(w),
    ensures
        unigram_row(w, c).len() > 0,
        !unigram_row(w, c).contains('\n'),
        unigram_row(w, c).last() != '\r',
        ngram::lm_step(st, unigram_row(w, c)) == Ok::<ngram::LmCounts, Seq<char>>(
            (st.0.insert(w, (ngram::count_of(st.0, w) + c) as u64), st.1, (st.2 + c) as u64),
        ),
        ngram::lm_step_fits(st, unigram_row(w, c)) == (st.2 + c <= u64::MAX && ngram::count_of(
            st.0,
            w,
        ) + c <= u64::MAX),
{
    let d = decimal(c as nat);
    lemma_decimal_clean(c as nat);
    lemma_decimal_digits(c as nat);
    assert(is_digit(d[d.len() - 1]));
    let r = unigram_row(w, c);
    let a = seq!['u'];
    assert(!a.contains('\t'));
    assert(!a.contains('\n'));
    assert(r =~= a + seq!['\t'] + w + seq!['\t'] + d);
    lemma_split_free(a, '\t');
    lemma_split_append(a, w, '\t');
    lemma_split_append(a + seq!['\t'] + w, d, '\t');
    assert(split(r, '\t') =~= seq![a, w, d]);
    lemma_join_free(a, w, '\t', '\n');
    lemma_record_clean(r, a + seq!['\t'] + w, d);
    lemma_parse_decimal(c as nat, u64::MAX as nat);
}

/// How reading takes a pair record.
proof fn lemma_bigram_record(st: ngram::LmCounts, p: Seq<char>, w: Seq<char>, c: u64)
    requires
        artifact_word(p),
        artifact_word(w),
    ensures
        bigram_row(p, w, c).len() > 0,
        !bigram_row(p, w, c).contains('\n'),
        bigram_row(p, w, c).last() != '\r',
        ngram::lm_step(st, bigram_row(p, w, c)) == Ok::<ngram::LmCounts, Seq<char>>(
            (
                st.0,
                st.1.insert(
                    p,
                    ngram::row_of(st.1, p).insert(
                        w,
                        (ngram::count_of(ngram::row_of(st.1, p), w) + c) as u64,
                    ),
                ),
                st.2,
            ),
        ),
        ngram::lm_step_fits(st, bigram_row(p, w, c)) == (ngram::count_of(ngram::row_of(st.1, p), w)
            + c <= u64::MAX),
{
    let d = decimal(c as nat);
    lemma_decimal_clean(c as nat);
    lemma_decimal_digits(c as nat);
    assert(is_digit(d[d.len() - 1]));
    let r = bigram_row(p, w, c);
    let a = seq!['b'];
    assert(!a.contains('\t'));
    assert(!a.contains('\n'));
    assert(r =~= a + seq!['\t'] + p + seq!['\t'] + w + seq!['\t'] + d);
    lemma_split_free(a, '\t');
    lemma_split_append(a, p, '\t');
    lemma_split_append(a + seq!['\t'] + p, w, '\t');
    lemma_split_append(a + seq!['\t'] + p + seq!['\t'] + w, d, '\t');
    assert(split(r, '\t') =~= seq![a, p, w, d]);
    lemma_join_free(a, p, '\t', '\n');
    lemma_join_free(a + seq!['\t'] + p, w, '\t', '\n');
    lemma_record_clean(r, a + seq!['\t'] + p + seq!['\t'] + w, d);
    lemma_parse_decimal(c as nat, u64::MAX as nat);
}

/// Reading the first `k` lines looks at nothing after them.
proof fn lemma_parse_prefix(a: Seq<Seq<char>>, b: Seq<Seq<char>>, k: nat)
    requires
        k <= a.len(),
        k <= b.len(),
        forall|i: int| 0 <= i < k ==> a[i] == b[i],
    ensures
        ngram::lm_parse(a, k) == ngram::lm_parse(b, k),
        ngram::lm_fits(a, k) == ngram::lm_fits(b, k),
    decreases k,
{
    if k > 0 {
        lemma_parse_prefix(a, b, (k - 1) as nat);
    }
}

/// The vocabulary conditions under which the word records read back.
pub open spec fn artifact_vocab(words: Seq<Seq<char>>, counts: Seq<u64>) -> bool {
    &&& counts.len() == words.len()
    &&& words.no_duplicates()
    &&& forall|i: int| 0 <= i < words.len() ==> artifact_word(#[trigger] words[i])
    &&& count_sum(counts, counts.len()) <= u64::MAX
}

/// One more line that reads without error and fits extends a reading that
/// did.
proof fn lemma_read_push(lp: Seq<Seq<char>>, r: Seq<char>, st: ngram::LmCounts, st2: ngram::LmCounts)
    requires
        ngram::lm_parse(lp, lp.len()) == Ok::<ngram::LmCounts, (nat, Seq<char>)>(st),
        ngram::lm_fits(lp, lp.len()),
        ngram::lm_step(st, r) == Ok::<ngram::LmCounts, Seq<char>>(st2),
        ngram::lm_step_fits(st, r),
    ensures
        ngram::lm_parse(lp.push(r), lp.len() + 1) == Ok::<ngram::LmCounts, (nat, Seq<char>)>(st2),
        ngram::lm_fits(lp.push(r), lp.len() + 1),
{
    let ls = lp.push(r);
    lemma_parse_prefix(ls, lp, lp.len());
    assert(ls[lp.len() as int] == r);
}

/// The word counts recorded for one more word.
proof fn lemma_unigrams_step(words: Seq<Seq<char>>, counts: Seq<u64>, n: nat)
    requires
        0 < n <= counts.len(),
        counts.len() == words.len(),
        words.no_duplicates(),
    ensures
        counts[n - 1] > 0 ==> !unigrams_upto(words, counts, (n - 1) as nat).contains_key(words[n - 1]),
        counts[n - 1] > 0 ==> unigrams_upto(words, counts, (n - 1) as nat).insert(
            words[n - 1],
            counts[n - 1],
        ) == unigrams_upto(words, counts, n),
        counts[n - 1] == 0 ==> unigrams_upto(words, counts, (n - 1) as nat) == unigrams_upto(
            words,
            counts,
            n,
        ),
{
    let i = n - 1;
    let w = words[i];
    let u = unigrams_upto(words, counts, (n - 1) as nat);
    let v = unigrams_upto(words, counts, n);
    assert forall|y: Seq<char>| #[trigger] u.contains_key(y) implies v.contains_key(y) && y != w by {
        let j = choose|j: int| 0 <= j < n - 1 && #[trigger] words[j] == y && counts[j] > 0;
        assert(0 <= j < n && words[j] == y && counts[j] > 0);
        assert(words[j] != words[i]);
    }
    assert forall|y: Seq<char>| #[trigger] v.contains_key(y) && y != w implies u.contains_key(y) by {
        let j = choose|j: int| 0 <= j < n && #[trigger] words[j] == y && counts[j] > 0;
        assert(j != i);
    }
    if counts[i] > 0 {
        let x = words.index_of(w);
        assert(x == i) by {
            assert(0 <= i < words.len() && words[i] == w);
            assert(0 <= x < words.len() && words[x] == w);
        }
        assert(v.contains_key(w)) by {
            assert(0 <= i < n && words[i] == w && counts[i] > 0);
        }
        assert(u.insert(w, counts[i]) =~= v);
    } else {
        assert(!v.contains_key(w)) by {
            if v.contains_key(w) {
                let j = choose|j: int| 0 <= j < n && #[trigger] words[j] == w && counts[j] > 0;
                assert(j != i);
            }
        }
        assert(u =~= v);
    }
}

/// The header and the first `n` word records read back as the words
/// counted among the first `n`, with their sum as the total.
proof fn lemma_unigram_phase(words: Seq<Seq<char>>, counts: Seq<u64>, n: nat)
    requires
        artifact_vocab(words, counts),
        n <= counts.len(),
    ensures
        ({
            let s = lm_header() + unigram_lines(words, counts, n);
            let ls = lines(s);
            &&& s.len() > 0
            &&& s.last() == '\n'
            &&& ngram::lm_fits(ls, ls.len())
            &&& ngram::lm_parse(ls, ls.len()) == Ok::<ngram::LmCounts, (nat, Seq<char>)>(
                (
                    unigrams_upto(words, counts, n),
                    Map::<Seq<char>, Map<Seq<char>, u64>>::empty(),
                    count_sum(counts, n) as u64,
                ),
            )
        }),
    decreases n,
{
    let s = lm_header() + unigram_lines(words, counts, n);
    if n == 0 {
        let e = Seq::<char>::empty();
        let st: ngram::LmCounts = (Map::empty(), Map::empty(), 0u64);
        lemma_header_record(st);
        assert(s =~= e + lm_header_line() + seq!['\n']);
        lemma_lines_push(e, lm_header_line());
        assert(lines(e) =~= Seq::<Seq<char>>::empty()) by {
            assert(split(e, '\n') =~= seq![e]);
        }
        let ls = lines(s);
        assert(ls == Seq::<Seq<char>>::empty().push(lm_header_line()));
        lemma_read_push(Seq::<Seq<char>>::empty(), lm_header_line(), st, st);
        assert(unigrams_upto(words, counts, 0) =~= Map::<Seq<char>, u64>::empty());
        assert(s.last() == '\n');
    } else {
        lemma_unigram_phase(words, counts, (n - 1) as nat);
        lemma_unigrams_step(words, counts, n);
        let prev = lm_header() + unigram_lines(words, counts, (n - 1) as nat);
        let lp = lines(prev);
        let i = n - 1;
        if counts[i] > 0 {
            let st = ngram::lm_parse(lp, lp.len())->Ok_0;
            let w = words[i];
            let c = counts[i];
            let row = unigram_row(w, c);
            lemma_unigram_record(st, w, c);
            assert(s =~= prev + row + seq!['\n']);
            lemma_lines_push(prev, row);
            lemma_count_sum_mono(counts, n, counts.len());
            assert(ngram::count_of(st.0, w) == 0);
            lemma_read_push(lp, row, st, (st.0.insert(w, c), st.1, (st.2 + c) as u64));
        } else {
            assert(s =~= prev);
        }
    }
}

/// The ranked pairs the artifact can carry: distinct keys of vocabulary
/// words.
pub open spec fn artifact_pairs(words: Seq<Seq<char>>, ranked: Seq<Counted>) -> bool {
    &&& forall|j: int|
        0 <= j < ranked.len() ==> key_first(#[trigger] ranked[j].0) < words.len() && key_second(
            ranked[j].0,
        ) < words.len()
    &&& forall|i: int, j: int| 0 <= i < j < ranked.len() ==> #[trigger] ranked[i].0 != #[trigger] ranked[j].0
}

/// A key is its two halves.
proof fn lemma_key_parts(a: u64, b: u64)
    requires
        key_first(a) == key_first(b),
        key_second(a) == key_second(b),
    ensures
        a == b,
{
    assert(a == b) by (nonlinear_arith)
        requires
            a / 4294967296 == b / 4294967296,
            a % 4294967296 == b % 4294967296,
    {}
}

/// Every recorded pair comes from a ranked pair.
proof fn lemma_recorded_bigram_source(
    words: Seq<Seq<char>>,
    ranked: Seq<Counted>,
    n: nat,
    p: Seq<char>,
    w: Seq<char>,
)
    requires
        n <= ranked.len(),
        recorded_bigrams(words, ranked, n).contains_key(p),
        recorded_bigrams(words, ranked, n)[p].contains_key(w),
    ensures
        exists|j: int|
            0 <= j < n && words[key_first(#[trigger] ranked[j].0) as int] == p && words[key_second(
                ranked[j].0,
            ) as int] == w,
    decreases n,
{
    let t = recorded_bigrams(words, ranked, (n - 1) as nat);
    let k = ranked[n - 1];
    let p2 = words[key_first(k.0) as int];
    let w2 = words[key_second(k.0) as int];
    if p == p2 && w == w2 {
        assert(0 <= n - 1 < n && words[key_first(ranked[n - 1].0) as int] == p);
    } else {
        assert(t.contains_key(p) && t[p].contains_key(w));
        lemma_recorded_bigram_source(words, ranked, (n - 1) as nat, p, w);
        let j = choose|j: int|
            0 <= j < n - 1 && words[key_first(#[trigger] ranked[j].0) as int] == p && words[key_second(
                ranked[j].0,
            ) as int] == w;
        assert(0 <= j < n && words[key_first(ranked[j].0) as int] == p);
    }
}

/// The pair a ranked entry names is not yet recorded by the entries before it.
proof fn lemma_bigram_fresh(words: Seq<Seq<char>>, ranked: Seq<Counted>, n: nat)
    requires
        0 < n <= ranked.len(),
        words.no_duplicates(),
        artifact_pairs(words, ranked),
    ensures
        ({
            let t = recorded_bigrams(words, ranked, (n - 1) as nat);
            let k = ranked[n - 1];
            let p = words[key_first(k.0) as int];
            let w = words[key_second(k.0) as int];
            ngram::count_of(ngram::row_of(t, p), w) == 0
        }),
{
    let t = recorded_bigrams(words, ranked, (n - 1) as nat);
    let k = ranked[n - 1];
    let p = words[key_first(k.0) as int];
    let w = words[key_second(k.0) as int];
    if t.contains_key(p) && t[p].contains_key(w) {
        lemma_recorded_bigram_source(words, ranked, (n - 1) as nat, p, w);
        let j = choose|j: int|
            0 <= j < n - 1 && words[key_first(#[trigger] ranked[j].0) as int] == p && words[key_second(
                ranked[j].0,
            ) as int] == w;
        assert(key_first(ranked[j].0) == key_first(k.0));
        assert(key_second(ranked[j].0) == key_second(k.0));
        lemma_key_parts(ranked[j].0, k.0);
        assert(ranked[j].0 != ranked[n - 1].0);
    }
}

/// The whole word section and the first `n` pair records read back as the
/// recorded words and the first `n` ranked pairs.
proof fn lemma_bigram_phase(words: Seq<Seq<char>>, counts: Seq<u64>, ranked: Seq<Counted>, n: nat)
    requires
        artifact_vocab(words, counts),
        artifact_pairs(words, ranked),
        n <= ranked.len(),
    ensures
        ({
            let s = lm_header() + unigram_lines(words, counts, counts.len()) + bigram_lines(
                words,
                ranked,
                n,
            );
            let ls = lines(s);
            &&& s.len() > 0
            &&& s.last() == '\n'
            &&& ngram::lm_fits(ls, ls.len())
            &&& ngram::lm_parse(ls, ls.len()) == Ok::<ngram::LmCounts, (nat, Seq<char>)>(
                (
                    recorded_unigrams(words, counts),
                    recorded_bigrams(words, ranked, n),
                    count_sum(counts, counts.len()) as u64,
                ),
            )
        }),
    decreases n,
{
    let s = lm_header() + unigram_lines(words, counts, counts.len()) + bigram_lines(words, ranked, n);
    if n == 0 {
        lemma_unigram_phase(words, counts, counts.len());
        assert(s =~= lm_header() + unigram_lines(words, counts, counts.len()));
    } else {
        lemma_bigram_phase(words, counts, ranked, (n - 1) as nat);
        lemma_bigram_fresh(words, ranked, n);
        let prev = lm_header() + unigram_lines(words, counts, counts.len()) + bigram_lines(
            words,
            ranked,
            (n - 1) as nat,
        );
        let lp = lines(prev);
        let st = ngram::lm_parse(lp, lp.len())->Ok_0;
        let k = ranked[n - 1];
        assert(key_first(ranked[n - 1].0) < words.len());
        let p = words[key_first(k.0) as int];
        let w = words[key_second(k.0) as int];
        let row = bigram_row(p, w, k.1);
        lemma_bigram_record(st, p, w, k.1);
        assert(s =~= prev + row + seq!['\n']);
        lemma_lines_push(prev, row);
        lemma_read_push(
            lp,
            row,
            st,
            (st.0, st.1.insert(p, ngram::row_of(st.1, p).insert(w, k.1)), st.2),
        );
    }
}

/// What the artifact's text holds reads back exactly: every word counted
/// at least once under its count, every ranked pair under its two words,
/// and the sum of the word counts as the total; no counter overflows.
proof fn lemma_text_reads_back(words: Seq<Seq<char>>, counts: Seq<u64>, ranked: Seq<Counted>)
    requires
        artifact_vocab(words, counts),
        artifact_pairs(words, ranked),
    ensures
        ngram::lm_text_fits(lm_text(words, counts, ranked)),
        ngram::spec_parse_lm(lm_text(words, counts, ranked)) == Ok::<
            ngram::LmCounts,
            (nat, Seq<char>),
        >(
            (
                recorded_unigrams(words, counts),
                recorded_bigrams(words, ranked, ranked.len()),
                count_sum(counts, counts.len()) as u64,
            ),
        ),
{
    lemma_bigram_phase(words, counts, ranked, ranked.len());
}

/// Each of the first `n` ranked pairs is recorded with its count.
proof fn lemma_recorded_bigram_entry(words: Seq<Seq<char>>, ranked: Seq<Counted>, n: nat, j: int)
    requires
        0 <= j < n <= ranked.len(),
        words.no_duplicates(),
        artifact_pairs(words, ranked),
    ensures
        ({
            let t = recorded_bigrams(words, ranked, n);
            let p = words[key_first(ranked[j].0) as int];
            let w = words[key_second(ranked[j].0) as int];
            t.contains_key(p) && t[p].contains_key(w) && t[p][w] == ranked[j].1
        }),
    decreases n,
{
    let k = ranked[n - 1];
    let p2 = words[key_first(k.0) as int];
    let w2 = words[key_second(k.0) as int];
    let p = words[key_first(ranked[j].0) as int];
    let w = words[key_second(ranked[j].0) as int];
    if j < n - 1 {
        lemma_recorded_bigram_entry(words, ranked, (n - 1) as nat, j);
        if p == p2 && w == w2 {
            assert(key_first(ranked[j].0) < words.len());
            assert(key_first(k.0) < words.len());
            assert(key_first(ranked[j].0) == key_first(k.0));
            assert(key_second(ranked[j].0) == key_second(k.0));
            lemma_key_parts(ranked[j].0, k.0);
            assert(ranked[j].0 != ranked[n - 1].0);
        }
    }
}

/// The artifact the counts write reads back as a language model holding
/// exactly what it records: every word counted at least once under its
/// count, every ranked pair under its two words with its count, and the sum
/// of the word counts as the total, with no counter overflowing. The words
/// must be spelled as the model normalizes them and hold neither of the
/// artifact's separators, tab and newline.
pub proof fn lemma_artifact_reads_back(c: &LmCounts, min_count: u64, top: nat, ranked: Seq<Counted>)
    requires
        c.wf(),
        top_ranked(c.bigram_view(), min_count, top, ranked),
        forall|i: int| 0 <= i < c.words_view().len() ==> artifact_word(#[trigger] c.words_view()[i]),
    ensures
        ngram::lm_text_fits(lm_text(c.words_view(), c.unigram_view(), ranked)),
        ngram::spec_parse_lm(lm_text(c.words_view(), c.unigram_view(), ranked)) == Ok::<
            ngram::LmCounts,
            (nat, Seq<char>),
        >(
            (
                recorded_unigrams(c.words_view(), c.unigram_view()),
                recorded_bigrams(c.words_view(), ranked, ranked.len()),
                count_sum(c.unigram_view(), c.unigram_view().len()) as u64,
            ),
        ),
        forall|j: int|
            0 <= j < ranked.len() ==> {
                let t = recorded_bigrams(c.words_view(), ranked, ranked.len());
                let p = c.words_view()[key_first(#[trigger] ranked[j].0) as int];
                let w = c.words_view()[key_second(ranked[j].0) as int];
                t.contains_key(p) && t[p].contains_key(w) && t[p][w] == ranked[j].1
            },
{
    let words = c.words_view();
    let counts = c.unigram_view();
    let m = c.bigram_view();
    let all = choose|all: Seq<Counted>|
        #![trigger first_n(all, top)]
        ranked_sorted(all) && all.no_duplicates() && all.to_set() == candidates(m, min_count)
            && ranked == first_n(all, top);
    assert forall|j: int| 0 <= j < ranked.len() implies #[trigger] ranked[j] == all[j]
        && is_candidate(m, min_count, ranked[j]) by {
        assert(all.to_set().contains(all[j]));
    }
    assert(artifact_pairs(words, ranked)) by {
        assert forall|i: int, j: int| 0 <= i < j < ranked.len() implies #[trigger] ranked[i].0
            != #[trigger] ranked[j].0 by {
            if ranked[i].0 == ranked[j].0 {
                assert(ranked[i] == all[i] && ranked[j] == all[j]);
                assert(all[i] == all[j]);
            }
        }
    }
    lemma_text_reads_back(words, counts, ranked);
    assert forall|j: int| 0 <= j < ranked.len() implies {
        let t = recorded_bigrams(words, ranked, ranked.len());
        let p = words[key_first(#[trigger] ranked[j].0) as int];
        let w = words[key_second(ranked[j].0) as int];
        t.contains_key(p) && t[p].contains_key(w) && t[p][w] == ranked[j].1
    } by {
        lemma_recorded_bigram_entry(words, ranked, ranked.len(), j);
    }
}

} // verus!
