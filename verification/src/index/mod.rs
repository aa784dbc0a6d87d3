//! Engine indexes. All three indexes are instances of one ordered prefix
//! map, keyed differently:
//!
//! * **skeleton index** — key is the consonant skeleton of the form;
//! * **form index** — key is the normalized form (plain completion);
//! * **suffix index** — key is the reversed normalized form, so suffix
//!   lookups become prefix scans.

pub mod prefix_map;

use vstd::prelude::*;

use crate::alphabet::{normalize_chars, skeleton_chars, spec_normalize, spec_skeleton};
use crate::index::prefix_map::{
    Posting, PrefixMap, ids_below, lemma_sorted_ids_below, sorted_buckets, spec_exact,
    spec_with_prefix,
};
use crate::text::str_chars;

verus! {

/// Key → postings after adding `(bits[i], i)` under `keys[i]` for the
/// first `n` entries, in order.
pub open spec fn postings_fold(keys: Seq<Seq<char>>, bits: Seq<u32>, n: nat) -> Map<
    Seq<char>,
    Seq<Posting>,
>
    decreases n,
{
    if n == 0 {
        Map::empty()
    } else {
        let m = postings_fold(keys, bits, (n - 1) as nat);
        let k = keys[n - 1];
        m.insert(
            k,
            (if m.contains_key(k) {
                m[k]
            } else {
                Seq::empty()
            }).push((bits[n - 1], (n - 1) as u32)),
        )
    }
}

/// Normalized forms.
pub open spec fn form_keys(forms: Seq<Seq<char>>) -> Seq<Seq<char>> {
    forms.map_values(|f: Seq<char>| spec_normalize(f))
}

/// Skeletons of the normalized forms.
pub open spec fn skeleton_keys(forms: Seq<Seq<char>>) -> Seq<Seq<char>> {
    forms.map_values(|f: Seq<char>| spec_skeleton(spec_normalize(f)))
}

/// Reversed normalized forms.
pub open spec fn reversed_keys(forms: Seq<Seq<char>>) -> Seq<Seq<char>> {
    forms.map_values(|f: Seq<char>| spec_normalize(f).reverse())
}

/// Adds posting `p` under the first `j` keys of `ks`.
pub open spec fn add_under(m: Map<Seq<char>, Seq<Posting>>, ks: Seq<Seq<char>>, p: Posting, j: nat) -> Map<
    Seq<char>,
    Seq<Posting>,
>
    decreases j,
{
    if j == 0 {
        m
    } else {
        let m1 = add_under(m, ks, p, (j - 1) as nat);
        let k = ks[j - 1];
        m1.insert(
            k,
            (if m1.contains_key(k) {
                m1[k]
            } else {
                Seq::empty()
            }).push(p),
        )
    }
}

/// `s` with each one of its characters left out, in position order.
pub open spec fn spec_delete_variants(s: Seq<char>) -> Seq<Seq<char>> {
    Seq::new(s.len(), |j: int| s.remove(j))
}

/// Postings of the first `n` entries under each one-character deletion of
/// their key.
pub open spec fn deletes_fold(keys: Seq<Seq<char>>, bits: Seq<u32>, n: nat) -> Map<
    Seq<char>,
    Seq<Posting>,
>
    decreases n,
{
    if n == 0 {
        Map::empty()
    } else {
        let vs = spec_delete_variants(keys[n - 1]);
        add_under(deletes_fold(keys, bits, (n - 1) as nat), vs, (bits[n - 1], (n - 1) as u32), vs.len())
    }
}

proof fn lemma_add_under_ids(m: Map<Seq<char>, Seq<Posting>>, ks: Seq<Seq<char>>, p: Posting, j: nat, n: nat)
    requires
        ids_below(m, n),
        p.1 < n,
        j <= ks.len(),
    ensures
        ids_below(add_under(m, ks, p, j), n),
    decreases j,
{
    if j > 0 {
        lemma_add_under_ids(m, ks, p, (j - 1) as nat, n);
        let m1 = add_under(m, ks, p, (j - 1) as nat);
        let k = ks[j - 1];
        let r = add_under(m, ks, p, j);
        assert forall|q: Seq<char>, i: int| #![trigger r[q][i]] r.contains_key(q) && 0 <= i < r[q].len() implies r[q][i].1 < n by {
            if q != k {
                assert(r[q] == m1[q]);
            } else if m1.contains_key(k) && i < m1[k].len() {
                assert(r[q][i] == m1[k][i]);
            }
        }
    }
}

proof fn lemma_postings_fold_ids(keys: Seq<Seq<char>>, bits: Seq<u32>, n: nat)
    requires
        n <= u32::MAX + 1,
    ensures
        ids_below(postings_fold(keys, bits, n), n),
    decreases n,
{
    if n > 0 {
        lemma_postings_fold_ids(keys, bits, (n - 1) as nat);
        let m1 = postings_fold(keys, bits, (n - 1) as nat);
        let k = keys[n - 1];
        let r = postings_fold(keys, bits, n);
        assert forall|q: Seq<char>, i: int| #![trigger r[q][i]] r.contains_key(q) && 0 <= i < r[q].len() implies r[q][i].1 < n by {
            if q != k {
                assert(r[q] == m1[q]);
                assert(m1[q][i].1 < n - 1);
            } else if m1.contains_key(k) && i < m1[k].len() {
                assert(r[q][i] == m1[k][i]);
                assert(m1[k][i].1 < n - 1);
            }
        }
    }
}

proof fn lemma_deletes_fold_ids(keys: Seq<Seq<char>>, bits: Seq<u32>, n: nat)
    requires
        n <= u32::MAX + 1,
    ensures
        ids_below(deletes_fold(keys, bits, n), n),
    decreases n,
{
    if n > 0 {
        lemma_deletes_fold_ids(keys, bits, (n - 1) as nat);
        let m1 = deletes_fold(keys, bits, (n - 1) as nat);
        assert forall|q: Seq<char>, i: int| #![trigger m1[q][i]] m1.contains_key(q) && 0 <= i < m1[q].len() implies m1[q][i].1 < n by {}
        let vs = spec_delete_variants(keys[n - 1]);
        lemma_add_under_ids(m1, vs, (bits[n - 1], (n - 1) as u32), vs.len(), n);
    }
}

/// The one-character deletions of `s`, in position order.
pub fn delete_variants(s: &str) -> (r: Vec<String>)
    ensures
        r@.map_values(|v: String| v@) == spec_delete_variants(s@),
{
    let c = str_chars(s);
    let mut out: Vec<String> = Vec::new();
    let mut j: usize = 0;
    while j < c.len()
        invariant
            c@ == s@,
            j <= c@.len(),
            out@.len() == j,
            forall|k: int| 0 <= k < j ==> #[trigger] out@[k]@ == s@.remove(k),
        decreases c@.len() - j,
    {
        let v = delete_at(c.as_slice(), j);
        out.push(crate::text::chars_to_string(v.as_slice()));
        j = j + 1;
    }
    assert(out@.map_values(|v: String| v@) =~= spec_delete_variants(s@));
    out
}

fn delete_at(s: &[char], j: usize) -> (r: Vec<char>)
    requires
        j < s@.len(),
    ensures
        r@ == s@.remove(j as int),
{
    let n = s.len();
    let mut a = crate::text::copy_range(s, 0, j);
    let b = crate::text::copy_range(s, j + 1, n);
    crate::text::append_chars(&mut a, b.as_slice());
    assert(a@ =~= s@.remove(j as int));
    a
}

/// All persistent indexes derived from a lexicon.
pub struct Indexes {
    pub by_skeleton: PrefixMap,
    pub by_form: PrefixMap,
    pub by_reversed_form: PrefixMap,
    /// Typo tolerance: every skeleton minus one character, keyed by that
    /// shortened skeleton (empty when typo tolerance is off).
    pub by_skeleton_delete: PrefixMap,
}

/// `s` backwards.
pub fn reverse_chars(s: &[char]) -> (r: Vec<char>)
    ensures
        r@ == s@.reverse(),
{
    let mut r: Vec<char> = Vec::new();
    let mut i: usize = s.len();
    while i > 0
        invariant
            i <= s@.len(),
            r@ == s@.subrange(i as int, s@.len() as int).reverse(),
        decreases i,
    {
        i = i - 1;
        r.push(s[i]);
        assert(r@ =~= s@.subrange(i as int, s@.len() as int).reverse());
    }
    assert(s@.subrange(0, s@.len() as int) =~= s@);
    r
}

impl Indexes {
    pub open spec fn wf(&self) -> bool {
        &&& self.by_skeleton.wf()
        &&& self.by_form.wf()
        &&& self.by_reversed_form.wf()
        &&& self.by_skeleton_delete.wf()
    }

    /// Every stored id is below `n` (the number of entries indexed).
    pub open spec fn ids_below(&self, n: nat) -> bool {
        &&& ids_below(self.by_skeleton.view(), n)
        &&& ids_below(self.by_form.view(), n)
        &&& ids_below(self.by_reversed_form.view(), n)
        &&& ids_below(self.by_skeleton_delete.view(), n)
    }

    /// Indexes the entries `0..forms.len()`: entry `i` is the form
    /// `forms[i]` with frequency bits `freq_bits[i]`. Every bucket lists its
    /// entries most frequent first. With `typo_tolerance`, every skeleton
    /// minus one character is indexed as well.
    pub fn build(forms: &[String], freq_bits: &[u32], typo_tolerance: bool) -> (r: Self)
        requires
            forms@.len() == freq_bits@.len(),
            forms@.len() <= u32::MAX,
        ensures
            r.wf(),
            r.ids_below(forms@.len() as nat),
            r.by_form.view() == sorted_buckets(
                postings_fold(
                    form_keys(forms@.map_values(|f: String| f@)),
                    freq_bits@,
                    forms@.len(),
                ),
            ),
            r.by_skeleton.view() == sorted_buckets(
                postings_fold(
                    skeleton_keys(forms@.map_values(|f: String| f@)),
                    freq_bits@,
                    forms@.len(),
                ),
            ),
            r.by_reversed_form.view() == sorted_buckets(
                postings_fold(
                    reversed_keys(forms@.map_values(|f: String| f@)),
                    freq_bits@,
                    forms@.len(),
                ),
            ),
            r.by_skeleton_delete.view() == (if typo_tolerance {
                sorted_buckets(
                    deletes_fold(
                        skeleton_keys(forms@.map_values(|f: String| f@)),
                        freq_bits@,
                        forms@.len(),
                    ),
                )
            } else {
                Map::empty()
            }),
    {
        let ghost fs = forms@.map_values(|f: String| f@);
        let mut by_skeleton = PrefixMap::new();
        let mut by_form = PrefixMap::new();
        let mut by_reversed_form = PrefixMap::new();
        let mut by_skeleton_delete = PrefixMap::new();
        let mut i: usize = 0;
        assert(by_form.view() =~= postings_fold(form_keys(fs), freq_bits@, 0));
        while i < forms.len()
            invariant
                fs == forms@.map_values(|f: String| f@),
                forms@.len() == freq_bits@.len(),
                forms@.len() <= u32::MAX,
                i <= forms@.len(),
                by_skeleton.wf(),
                by_form.wf(),
                by_reversed_form.wf(),
                by_skeleton_delete.wf(),
                by_form.view() == postings_fold(form_keys(fs), freq_bits@, i as nat),
                by_skeleton.view() == postings_fold(skeleton_keys(fs), freq_bits@, i as nat),
                by_reversed_form.view() == postings_fold(reversed_keys(fs), freq_bits@, i as nat),
                by_skeleton_delete.view() == (if typo_tolerance {
                    deletes_fold(skeleton_keys(fs), freq_bits@, i as nat)
                } else {
                    Map::empty()
                }),
            decreases forms@.len() - i,
        {
            let f = str_chars(forms[i].as_str());
            assert(f@ == fs[i as int]);
            let norm = normalize_chars(f.as_slice());
            let id = i as u32;
            let bits = freq_bits[i];
            let skel = skeleton_chars(norm.as_slice());
            if typo_tolerance {
                let ghost before = by_skeleton_delete.view();
                let ghost vs = spec_delete_variants(skel@);
                let mut j: usize = 0;
                while j < skel.len()
                    invariant
                        by_skeleton_delete.wf(),
                        vs == spec_delete_variants(skel@),
                        j <= skel@.len(),
                        by_skeleton_delete.view() == add_under(before, vs, (bits, id), j as nat),
                    decreases skel@.len() - j,
                {
                    let v = delete_at(skel.as_slice(), j);
                    assert(v@ == vs[j as int]);
                    by_skeleton_delete.insert_chars(v, id, bits);
                    j = j + 1;
                }
                assert(skeleton_keys(fs)[i as int] == skel@);
            }
            by_skeleton.insert_chars(skel, id, bits);
            by_reversed_form.insert_chars(reverse_chars(norm.as_slice()), id, bits);
            by_form.insert_chars(norm, id, bits);
            i = i + 1;
        }
        proof {
            lemma_postings_fold_ids(form_keys(fs), freq_bits@, forms@.len());
            lemma_postings_fold_ids(skeleton_keys(fs), freq_bits@, forms@.len());
            lemma_postings_fold_ids(reversed_keys(fs), freq_bits@, forms@.len());
            lemma_deletes_fold_ids(skeleton_keys(fs), freq_bits@, forms@.len());
            lemma_sorted_ids_below(postings_fold(form_keys(fs), freq_bits@, forms@.len()), forms@.len());
            lemma_sorted_ids_below(postings_fold(skeleton_keys(fs), freq_bits@, forms@.len()), forms@.len());
            lemma_sorted_ids_below(postings_fold(reversed_keys(fs), freq_bits@, forms@.len()), forms@.len());
            lemma_sorted_ids_below(deletes_fold(skeleton_keys(fs), freq_bits@, forms@.len()), forms@.len());
            assert(sorted_buckets(Map::<Seq<char>, Seq<Posting>>::empty()) =~= Map::<Seq<char>, Seq<Posting>>::empty());
        }
        by_skeleton.finalize();
        by_form.finalize();
        by_reversed_form.finalize();
        by_skeleton_delete.finalize();
        Indexes { by_skeleton, by_form, by_reversed_form, by_skeleton_delete }
    }

    /// Ids whose skeleton, minus one character, is `s` — every one of
    /// them, most frequent first.
    pub fn skeleton_delete_bucket(&self, s: &str) -> (r: Vec<u32>)
        requires
            self.wf(),
        ensures
            r@ == spec_exact(self.by_skeleton_delete.view(), s@, usize::MAX as nat),
    {
        self.by_skeleton_delete.exact(s, usize::MAX)
    }

    /// Entries whose normalized form ends with `suffix`, top-`cap` by
    /// frequency — a prefix scan over the reversed forms.
    pub fn with_suffix(&self, suffix: &str, cap: usize) -> (r: Vec<u32>)
        requires
            self.wf(),
        ensures
            r@ == spec_with_prefix(
                self.by_reversed_form.key_seq(),
                self.by_reversed_form.bucket_seq(),
                suffix@.reverse(),
                cap as nat,
            ),
    {
        let s = str_chars(suffix);
        let rev = reverse_chars(s.as_slice());
        let reversed = crate::text::chars_to_string(rev.as_slice());
        self.by_reversed_form.with_prefix(reversed.as_str(), cap)
    }
}

} // verus!
