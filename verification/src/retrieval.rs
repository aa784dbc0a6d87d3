//! Candidate generation: the union of the skeleton, completion, suffix and
//! typo-tolerance buckets, deduplicated. Every source is capped and every
//! index lookup lists entries most frequent first, so the caps keep the
//! most frequent entries, never the alphabetically first.

use vstd::prelude::*;

use crate::index::prefix_map::{
    Posting, lemma_exact_ids_below, listed_before, sort_postings, spec_exact, spec_with_prefix,
    lemma_sort_postings, postings_sorted,
};
use crate::index::{Indexes, spec_delete_variants};
use crate::text::{append_chars, chars_to_string, ends_with, is_suffix, str_chars};

verus! {

/// Endings used to route an input like `тстрние` into the right
/// reverse-suffix bucket.
pub open spec fn known_endings() -> Seq<Seq<char>> {
    seq![
        "ование"@,
        "ение"@,
        "ание"@,
        "ние"@,
        "ция"@,
        "ость"@,
        "ться"@,
        "ство"@,
        "ать"@,
        "ить"@,
        "еть"@,
        "ия"@,
    ]
}

/// The longest ending of `es[i..]` that `norm` ends with, the last one
/// among equally long ones, starting from `best`.
pub open spec fn best_ending_from(es: Seq<Seq<char>>, norm: Seq<char>, i: nat, best: Option<Seq<char>>) -> Option<
    Seq<char>,
>
    decreases es.len() - i,
{
    if i >= es.len() {
        best
    } else {
        let e = es[i as int];
        let nb = if is_suffix(e, norm) && (best is None || e.len() >= best->0.len()) {
            Some(e)
        } else {
            best
        };
        best_ending_from(es, norm, i + 1, nb)
    }
}

/// The longest known ending of `norm`, if any.
pub open spec fn best_ending(norm: Seq<char>) -> Option<Seq<char>> {
    best_ending_from(known_endings(), norm, 0, None)
}

/// The first `cap` entries of `s`.
pub open spec fn take_cap(s: Seq<u32>, cap: nat) -> Seq<u32> {
    if cap < s.len() {
        s.take(cap as int)
    } else {
        s
    }
}

/// `out` followed by the entries of `ids` it does not hold yet, in order.
pub open spec fn add_new(out: Seq<u32>, ids: Seq<u32>) -> Seq<u32>
    decreases ids.len(),
{
    if ids.len() == 0 {
        out
    } else {
        let o = add_new(out, ids.drop_last());
        if o.contains(ids.last()) {
            o
        } else {
            o.push(ids.last())
        }
    }
}

/// Adds one source: its first `cap` ids, each id once overall.
pub open spec fn push_capped(out: Seq<u32>, ids: Seq<u32>, cap: nat) -> Seq<u32> {
    add_new(out, take_cap(ids, cap))
}

/// Per-bucket share of the typo-tolerance source: a quarter of the cap,
/// rounded up.
pub open spec fn per_bucket(cap: nat) -> nat {
    (cap + 3) / 4
}

/// The typo-tolerance buckets of the first `n` deletion variants: for each,
/// the entries whose skeleton is the variant and those whose skeleton
/// minus one character is the variant, `per` of each.
pub open spec fn variant_ids(
    sk: Map<Seq<char>, Seq<Posting>>,
    del: Map<Seq<char>, Seq<Posting>>,
    vs: Seq<Seq<char>>,
    per: nat,
    n: nat,
) -> Seq<u32>
    decreases n,
{
    if n == 0 {
        Seq::empty()
    } else {
        variant_ids(sk, del, vs, per, (n - 1) as nat) + take_cap(spec_exact(sk, vs[n - 1], per), per)
            + take_cap(spec_exact(del, vs[n - 1], usize::MAX as nat), per)
    }
}

/// Runs of equal ids collapsed to one.
pub open spec fn dedup_ids(s: Seq<u32>) -> Seq<u32>
    decreases s.len(),
{
    if s.len() == 0 {
        s
    } else {
        let d = dedup_ids(s.drop_last());
        if s.len() >= 2 && s[s.len() - 2] == s.last() {
            d
        } else {
            d.push(s.last())
        }
    }
}

/// The typo-tolerance source: distance-1 neighbours of the input skeleton
/// (SymSpell over skeletons), most frequent first (ties by id), each once.
pub open spec fn fuzzy_source(ix: &Indexes, keys: Seq<u32>, skel: Seq<char>, cap: nat) -> Seq<u32> {
    let per = per_bucket(cap);
    let del = ix.by_skeleton_delete.view();
    let vs = spec_delete_variants(skel);
    let raw = take_cap(spec_exact(del, skel, usize::MAX as nat), per) + variant_ids(
        ix.by_skeleton.view(),
        del,
        vs,
        per,
        vs.len(),
    );
    dedup_ids(sort_postings(raw.map_values(|id: u32| (keys[id as int], id))).map_values(|p: Posting| p.1))
}

/// What `collect_candidates` returns.
pub open spec fn spec_collect(
    ix: &Indexes,
    keys: Seq<u32>,
    norm: Seq<char>,
    skel: Seq<char>,
    cap: nat,
    typo_tolerance: bool,
    fuzzy_min_len: nat,
) -> Seq<u32> {
    let sk = &ix.by_skeleton;
    let o1 = push_capped(Seq::empty(), spec_exact(sk.view(), skel, cap), cap);
    let o2 = push_capped(o1, spec_with_prefix(sk.key_seq(), sk.bucket_seq(), skel, cap), cap);
    let o3 = if skel.len() >= 4 {
        push_capped(o2, spec_with_prefix(sk.key_seq(), sk.bucket_seq(), skel.drop_last(), cap), cap)
    } else {
        o2
    };
    let o4 = push_capped(
        o3,
        spec_with_prefix(ix.by_form.key_seq(), ix.by_form.bucket_seq(), norm, cap),
        cap,
    );
    let o5 = match best_ending(norm) {
        Some(e) => push_capped(
            o4,
            spec_with_prefix(
                ix.by_reversed_form.key_seq(),
                ix.by_reversed_form.bucket_seq(),
                e.reverse(),
                cap,
            ),
            cap,
        ),
        None => o4,
    };
    if typo_tolerance && skel.len() >= fuzzy_min_len {
        push_capped(o5, fuzzy_source(ix, keys, skel, cap), cap)
    } else {
        o5
    }
}

/// Adds the first `cap` of `ids` to `out`, skipping ids already there;
/// `seen` marks the ids `out` holds.
fn push_source(out: &mut Vec<u32>, seen: &mut Vec<bool>, ids: &Vec<u32>, cap: usize)
    requires
        old(seen)@.len() > 0 || old(out)@.len() == 0,
        forall|i: int| 0 <= i < old(out)@.len() ==> (#[trigger] old(out)@[i]) < old(seen)@.len(),
        forall|id: u32| (id as int) < old(seen)@.len() ==> old(seen)@[id as int] == old(out)@.contains(id),
        forall|i: int| 0 <= i < ids@.len() ==> (#[trigger] ids@[i]) < old(seen)@.len(),
    ensures
        final(out)@ == push_capped(old(out)@, ids@, cap as nat),
        final(seen)@.len() == old(seen)@.len(),
        forall|i: int| 0 <= i < final(out)@.len() ==> (#[trigger] final(out)@[i]) < final(seen)@.len(),
        forall|id: u32| (id as int) < final(seen)@.len() ==> final(seen)@[id as int] == final(out)@.contains(id),
{
    let ghost t = take_cap(ids@, cap as nat);
    let n = if cap < ids.len() {
        cap
    } else {
        ids.len()
    };
    assert(t == ids@.take(n as int)) by {
        if cap >= ids@.len() {
            assert(ids@.take(n as int) =~= ids@);
        }
    }
    let ghost o0 = out@;
    let mut i: usize = 0;
    assert(t.take(0) =~= Seq::<u32>::empty());
    while i < n
        invariant
            t == ids@.take(n as int),
            n <= ids@.len(),
            i <= n,
            seen@.len() == old(seen)@.len(),
            forall|k: int| 0 <= k < ids@.len() ==> (#[trigger] ids@[k]) < seen@.len(),
            forall|k: int| 0 <= k < out@.len() ==> (#[trigger] out@[k]) < seen@.len(),
            forall|id: u32| (id as int) < seen@.len() ==> seen@[id as int] == out@.contains(id),
            out@ == add_new(o0, t.take(i as int)),
        decreases n - i,
    {
        let id = ids[i];
        assert(t.take(i + 1).drop_last() =~= t.take(i as int));
        assert(t.take(i + 1).last() == id);
        let idx = id as usize;
        if !seen[idx] {
            let ghost before = out@;
            out.push(id);
            seen.set(idx, true);
            proof {
                assert forall|q: u32| (q as int) < seen@.len() implies seen@[q as int] == out@.contains(q) by {
                    if q == id {
                        assert(out@[out@.len() - 1] == id);
                    } else {
                        if out@.contains(q) {
                            let w = choose|w: int| 0 <= w < out@.len() && out@[w] == q;
                            if w < before.len() {
                                assert(before[w] == q);
                            }
                        }
                        if before.contains(q) {
                            let w = choose|w: int| 0 <= w < before.len() && before[w] == q;
                            assert(out@[w] == q);
                        }
                    }
                }
            }
        } else {
            assert(out@.contains(id));
        }
        i = i + 1;
    }
    assert(t.take(n as int) =~= t);
}

fn take_ids(ids: &Vec<u32>, per: usize) -> (r: Vec<u32>)
    ensures
        r@ == take_cap(ids@, per as nat),
{
    let n = if per < ids.len() {
        per
    } else {
        ids.len()
    };
    let mut r: Vec<u32> = Vec::new();
    let mut i: usize = 0;
    while i < n
        invariant
            n <= ids@.len(),
            i <= n,
            r@ == ids@.take(i as int),
        decreases n - i,
    {
        r.push(ids[i]);
        i = i + 1;
        assert(r@ =~= ids@.take(i as int));
    }
    assert(ids@.take(n as int) =~= take_cap(ids@, per as nat));
    r
}

fn append_ids(a: &mut Vec<u32>, b: &Vec<u32>)
    ensures
        final(a)@ == old(a)@ + b@,
{
    let mut i: usize = 0;
    while i < b.len()
        invariant
            i <= b@.len(),
            a@ == old(a)@ + b@.take(i as int),
        decreases b@.len() - i,
    {
        a.push(b[i]);
        i = i + 1;
        assert(a@ =~= old(a)@ + b@.take(i as int));
    }
    assert(b@.take(b@.len() as int) =~= b@);
}

/// Candidate entry ids for an input: its normalized spelling `norm` and
/// skeleton `input_skeleton`. Each source contributes at most `cap` ids and
/// each id appears once, sources in this order: the exact skeleton bucket;
/// skeleton completions; completions of the skeleton minus its last
/// consonant (skeletons of four or more); plain completions of the input;
/// the bucket of its longest known ending; and, with typo tolerance and a
/// skeleton of at least `fuzzy_min_len`, the skeleton's distance-1
/// neighbours, ordered by `order_keys` (higher first, then smaller id).
pub fn collect_candidates(
    ix: &Indexes,
    order_keys: &[u32],
    norm: &str,
    input_skeleton: &str,
    cap: usize,
    typo_tolerance: bool,
    fuzzy_min_len: usize,
) -> (r: Vec<u32>)
    requires
        ix.wf(),
        ix.ids_below(order_keys@.len() as nat),
    ensures
        r@ == spec_collect(
            ix,
            order_keys@,
            norm@,
            input_skeleton@,
            cap as nat,
            typo_tolerance,
            fuzzy_min_len as nat,
        ),
        forall|i: int| 0 <= i < r@.len() ==> #[trigger] r@[i] < order_keys@.len(),
{
    let n = order_keys.len();
    let ghost nn = n as nat;
    let mut seen: Vec<bool> = Vec::new();
    let mut k: usize = 0;
    while k < n
        invariant
            k <= n,
            seen@.len() == k,
            forall|q: int| 0 <= q < k ==> !(#[trigger] seen@[q]),
        decreases n - k,
    {
        seen.push(false);
        k = k + 1;
    }
    let mut out: Vec<u32> = Vec::new();
    let skel = str_chars(input_skeleton);
    proof {
        assert forall|id: u32| (id as int) < seen@.len() implies seen@[id as int] == out@.contains(id) by {}
    }
    // 1. Exact and prefix skeleton buckets.
    let s1 = ix.by_skeleton.exact(input_skeleton, cap);
    proof {
        lemma_exact_ids_below(ix.by_skeleton.view(), input_skeleton@, cap as nat, nn);
        if n == 0 {
            if s1@.len() > 0 {
                assert(s1@[0] < nn);
            }
        }
    }
    push_source(&mut out, &mut seen, &s1, cap);
    let s2 = ix.by_skeleton.with_prefix(input_skeleton, cap);
    proof {
        crate::index::prefix_map::lemma_with_prefix_sound(&ix.by_skeleton, input_skeleton@, cap as nat);
        lemma_prefix_ids_below(&ix.by_skeleton, input_skeleton@, cap as nat, nn);
    }
    push_source(&mut out, &mut seen, &s2, cap);
    if skel.len() >= 4 {
        let shorter = chars_to_string(crate::text::copy_range(skel.as_slice(), 0, skel.len() - 1).as_slice());
        assert(shorter@ =~= input_skeleton@.drop_last());
        let s3 = ix.by_skeleton.with_prefix(shorter.as_str(), cap);
        proof {
            lemma_prefix_ids_below(&ix.by_skeleton, shorter@, cap as nat, nn);
        }
        push_source(&mut out, &mut seen, &s3, cap);
    }
    // 2. Plain completion.
    let s4 = ix.by_form.with_prefix(norm, cap);
    proof {
        lemma_prefix_ids_below(&ix.by_form, norm@, cap as nat, nn);
    }
    push_source(&mut out, &mut seen, &s4, cap);
    // 3. Suffix bucket of the longest known ending.
    match longest_ending(norm) {
        Some(e) => {
            let s5 = ix.with_suffix(e.as_str(), cap);
            proof {
                lemma_prefix_ids_below(&ix.by_reversed_form, e@.reverse(), cap as nat, nn);
            }
            push_source(&mut out, &mut seen, &s5, cap);
        },
        None => {},
    }
    // 4. Typo tolerance.
    if typo_tolerance && skel.len() >= fuzzy_min_len {
        let fuzzy = fuzzy_ids(ix, order_keys, input_skeleton, cap);
        push_source(&mut out, &mut seen, &fuzzy, cap);
    }
    out
}

proof fn lemma_prefix_ids_below(m: &crate::index::prefix_map::PrefixMap, p: Seq<char>, cap: nat, n: nat)
    requires
        m.wf(),
        crate::index::prefix_map::ids_below(m.view(), n),
    ensures
        forall|i: int|
            0 <= i < spec_with_prefix(m.key_seq(), m.bucket_seq(), p, cap).len() ==> #[trigger] spec_with_prefix(
                m.key_seq(),
                m.bucket_seq(),
                p,
                cap,
            )[i] < n,
{
    crate::index::prefix_map::lemma_with_prefix_sound(m, p, cap);
    let r = spec_with_prefix(m.key_seq(), m.bucket_seq(), p, cap);
    assert forall|i: int| 0 <= i < r.len() implies #[trigger] r[i] < n by {
        assert(crate::index::prefix_map::id_under_prefix(m, p, r[i]));
        let (key, x) = choose|key: Seq<char>, x: crate::index::prefix_map::Posting|
            #![trigger m.view()[key].contains(x)]
            m.view().contains_key(key) && crate::text::is_prefix(p, key) && m.view()[key].contains(x)
                && x.1 == r[i];
        let j = choose|j: int| 0 <= j < m.view()[key].len() && m.view()[key][j] == x;
        assert(m.view()[key][j].1 < n);
    }
}

/// The longest known ending of `norm` (the last among equally long ones).
fn longest_ending(norm: &str) -> (r: Option<String>)
    ensures
        match r {
            Some(e) => best_ending(norm@) == Some(e@),
            None => best_ending(norm@) is None,
        },
{
    let s = str_chars(norm);
    let es = vec![
        str_chars("ование"),
        str_chars("ение"),
        str_chars("ание"),
        str_chars("ние"),
        str_chars("ция"),
        str_chars("ость"),
        str_chars("ться"),
        str_chars("ство"),
        str_chars("ать"),
        str_chars("ить"),
        str_chars("еть"),
        str_chars("ия"),
    ];
    let ghost ev = es@.map_values(|v: Vec<char>| v@);
    assert(ev =~= known_endings());
    let mut best: Option<usize> = None;
    let mut i: usize = 0;
    while i < es.len()
        invariant
            ev == es@.map_values(|v: Vec<char>| v@),
            ev == known_endings(),
            s@ == norm@,
            i <= es@.len(),
            best matches Some(b) ==> b < es@.len(),
            best_ending(norm@) == best_ending_from(
                ev,
                norm@,
                i as nat,
                match best {
                    Some(b) => Some(ev[b as int]),
                    None => None,
                },
            ),
        decreases es@.len() - i,
    {
        let e = &es[i];
        assert(e@ == ev[i as int]);
        if ends_with(s.as_slice(), e.as_slice()) {
            match best {
                None => {
                    best = Some(i);
                },
                Some(b) => {
                    assert(es@[b as int]@ == ev[b as int]);
                    if e.len() >= es[b].len() {
                        best = Some(i);
                    }
                },
            }
        }
        i = i + 1;
    }
    match best {
        Some(b) => {
            assert(es@[b as int]@ == ev[b as int]);
            Some(chars_to_string(es[b].as_slice()))
        },
        None => None,
    }
}

/// Distance-1 skeleton neighbours, most frequent first (by `order_keys`,
/// ties by id), each once.
fn fuzzy_ids(ix: &Indexes, order_keys: &[u32], input_skeleton: &str, cap: usize) -> (r: Vec<u32>)
    requires
        ix.wf(),
        ix.ids_below(order_keys@.len() as nat),
    ensures
        r@ == fuzzy_source(ix, order_keys@, input_skeleton@, cap as nat),
        forall|i: int| 0 <= i < r@.len() ==> (#[trigger] r@[i]) < order_keys@.len(),
{
    let ghost nn = order_keys@.len() as nat;
    let per: usize = cap / 4 + if cap % 4 == 0 {
        0
    } else {
        1
    };
    assert(per as nat == per_bucket(cap as nat));
    let ghost sk = ix.by_skeleton.view();
    let ghost del = ix.by_skeleton_delete.view();
    let variants = crate::index::delete_variants(input_skeleton);
    let ghost vs = spec_delete_variants(input_skeleton@);
    let own = ix.skeleton_delete_bucket(input_skeleton);
    let mut raw = take_ids(&own, per);
    proof {
        lemma_exact_ids_below(del, input_skeleton@, usize::MAX as nat, nn);
    }
    let ghost head = raw@;
    let mut j: usize = 0;
    assert(raw@ =~= head + variant_ids(sk, del, vs, per as nat, 0));
    while j < variants.len()
        invariant
            ix.wf(),
            ix.ids_below(nn),
            nn == order_keys@.len(),
            sk == ix.by_skeleton.view(),
            del == ix.by_skeleton_delete.view(),
            vs == spec_delete_variants(input_skeleton@),
            variants@.map_values(|v: String| v@) == vs,
            j <= variants@.len(),
            raw@ == head + variant_ids(sk, del, vs, per as nat, j as nat),
            forall|i: int| 0 <= i < raw@.len() ==> (#[trigger] raw@[i]) < nn,
        decreases variants@.len() - j,
    {
        let v = &variants[j];
        assert(v@ == vs[j as int]);
        let a = ix.by_skeleton.exact(v.as_str(), per);
        let a2 = take_ids(&a, per);
        let b = ix.skeleton_delete_bucket(v.as_str());
        let b2 = take_ids(&b, per);
        proof {
            lemma_exact_ids_below(sk, v@, per as nat, nn);
            lemma_exact_ids_below(del, v@, usize::MAX as nat, nn);
        }
        let ghost before = raw@;
        append_ids(&mut raw, &a2);
        append_ids(&mut raw, &b2);
        proof {
            assert(raw@ =~= head + variant_ids(sk, del, vs, per as nat, (j + 1) as nat));
            assert forall|i: int| 0 <= i < raw@.len() implies (#[trigger] raw@[i]) < nn by {
                if i < before.len() {
                    assert(raw@[i] == before[i]);
                } else if i < before.len() + a2@.len() {
                    assert(raw@[i] == a2@[i - before.len()]);
                } else {
                    assert(raw@[i] == b2@[i - before.len() - a2@.len()]);
                }
            }
        }
        j = j + 1;
    }
    // order by (key desc, id asc), then drop repeats
    let mut posts: Vec<Posting> = Vec::new();
    let mut q: usize = 0;
    while q < raw.len()
        invariant
            q <= raw@.len(),
            forall|i: int| 0 <= i < raw@.len() ==> (#[trigger] raw@[i]) < order_keys@.len(),
            posts@ == raw@.take(q as int).map_values(|id: u32| (order_keys@[id as int], id)),
        decreases raw@.len() - q,
    {
        let id = raw[q];
        posts.push((order_keys[id as usize], id));
        q = q + 1;
        assert(posts@ =~= raw@.take(q as int).map_values(|id: u32| (order_keys@[id as int], id)));
    }
    assert(raw@.take(raw@.len() as int) =~= raw@);
    let sorted = crate::index::prefix_map::sort_posting_vec(posts);
    let ghost sp = sorted@.map_values(|p: Posting| p.1);
    let mut out: Vec<u32> = Vec::new();
    let mut k: usize = 0;
    assert(sp.take(0) =~= Seq::<u32>::empty());
    proof {
        broadcast use vstd::seq_lib::group_to_multiset_ensures;

        let x = raw@.map_values(|id: u32| (order_keys@[id as int], id));
        lemma_sort_postings(x);
        assert forall|i: int| 0 <= i < sp.len() implies (#[trigger] sp[i]) < order_keys@.len() by {
            let e = sorted@[i];
            assert(sorted@.contains(e));
            assert(sorted@.to_multiset().count(e) > 0);
            assert(x.contains(e));
            let w = choose|w: int| 0 <= w < x.len() && x[w] == e;
            assert(raw@[w] < order_keys@.len());
        }
    }
    while k < sorted.len()
        invariant
            sp == sorted@.map_values(|p: Posting| p.1),
            k <= sorted@.len(),
            out@ == dedup_ids(sp.take(k as int)),
            forall|i: int| 0 <= i < sp.len() ==> (#[trigger] sp[i]) < order_keys@.len(),
            forall|i: int| 0 <= i < out@.len() ==> (#[trigger] out@[i]) < order_keys@.len(),
        decreases sorted@.len() - k,
    {
        assert(sp.take(k + 1).drop_last() =~= sp.take(k as int));
        assert(sp.take(k + 1).last() == sorted@[k as int].1);
        if k > 0 {
            assert(sp.take(k + 1)[k - 1] == sorted@[k - 1].1);
        }
        if k > 0 && sorted[k - 1].1 == sorted[k].1 {
        } else {
            let ghost before = out@;
            out.push(sorted[k].1);
            assert(sp[k as int] == sorted@[k as int].1);
            assert forall|i: int| 0 <= i < out@.len() implies (#[trigger] out@[i]) < order_keys@.len() by {
                if i < before.len() {
                    assert(out@[i] == before[i]);
                }
            }
        }
        k = k + 1;
    }
    assert(sp.take(sorted@.len() as int) =~= sp);
    out
}

/// Adding a source keeps every id once and adds at most the source's
/// length.
proof fn lemma_add_new(out: Seq<u32>, ids: Seq<u32>)
    requires
        out.no_duplicates(),
    ensures
        add_new(out, ids).no_duplicates(),
        add_new(out, ids).len() <= out.len() + ids.len(),
    decreases ids.len(),
{
    if ids.len() > 0 {
        lemma_add_new(out, ids.drop_last());
        let o = add_new(out, ids.drop_last());
        if !o.contains(ids.last()) {
            assert forall|i: int, j: int| 0 <= i < j < o.push(ids.last()).len() implies o.push(
                ids.last(),
            )[i] != o.push(ids.last())[j] by {
                if j == o.len() {
                    assert(o[i] != ids.last()) by {
                        if o[i] == ids.last() {
                            assert(o.contains(ids.last()));
                        }
                    }
                }
            }
        }
    }
}

proof fn lemma_push_capped(out: Seq<u32>, ids: Seq<u32>, cap: nat)
    requires
        out.no_duplicates(),
    ensures
        push_capped(out, ids, cap).no_duplicates(),
        push_capped(out, ids, cap).len() <= out.len() + cap,
{
    lemma_add_new(out, take_cap(ids, cap));
}

/// Candidate generation is bounded and deduplicated: every entry comes once,
/// and at most `cap` come from each of the six sources.
pub proof fn lemma_candidates_bounded(
    ix: &Indexes,
    keys: Seq<u32>,
    norm: Seq<char>,
    skel: Seq<char>,
    cap: nat,
    typo_tolerance: bool,
    fuzzy_min_len: nat,
)
    ensures
        spec_collect(ix, keys, norm, skel, cap, typo_tolerance, fuzzy_min_len).no_duplicates(),
        spec_collect(ix, keys, norm, skel, cap, typo_tolerance, fuzzy_min_len).len() <= 6 * cap,
{
    let sk = &ix.by_skeleton;
    let e = Seq::<u32>::empty();
    lemma_push_capped(e, spec_exact(sk.view(), skel, cap), cap);
    let o1 = push_capped(e, spec_exact(sk.view(), skel, cap), cap);
    lemma_push_capped(o1, spec_with_prefix(sk.key_seq(), sk.bucket_seq(), skel, cap), cap);
    let o2 = push_capped(o1, spec_with_prefix(sk.key_seq(), sk.bucket_seq(), skel, cap), cap);
    lemma_push_capped(o2, spec_with_prefix(sk.key_seq(), sk.bucket_seq(), skel.drop_last(), cap), cap);
    let o3 = if skel.len() >= 4 {
        push_capped(o2, spec_with_prefix(sk.key_seq(), sk.bucket_seq(), skel.drop_last(), cap), cap)
    } else {
        o2
    };
    let f = spec_with_prefix(ix.by_form.key_seq(), ix.by_form.bucket_seq(), norm, cap);
    lemma_push_capped(o3, f, cap);
    let o4 = push_capped(o3, f, cap);
    let o5 = match best_ending(norm) {
        Some(en) => {
            let r = spec_with_prefix(
                ix.by_reversed_form.key_seq(),
                ix.by_reversed_form.bucket_seq(),
                en.reverse(),
                cap,
            );
            lemma_push_capped(o4, r, cap);
            push_capped(o4, r, cap)
        },
        None => o4,
    };
    lemma_push_capped(o5, fuzzy_source(ix, keys, skel, cap), cap);
}


/// `id` has a posting under key `k` of `m`.
pub open spec fn in_bucket(m: Map<Seq<char>, Seq<Posting>>, k: Seq<char>, id: u32) -> bool {
    m.contains_key(k) && exists|j: int| 0 <= j < m[k].len() && #[trigger] m[k][j].1 == id
}

/// A distance-1 neighbour of the skeleton `skel` by the skeleton indexes:
/// its skeleton is `skel` plus one character (it sits in the deletion
/// bucket of `skel`), `skel` minus one character (the skeleton bucket of a
/// deletion of `skel`), or shares a one-character deletion with `skel` (the
/// deletion bucket of a deletion of `skel`).
pub open spec fn typo_neighbour(ix: &Indexes, skel: Seq<char>, id: u32) -> bool {
    ||| in_bucket(ix.by_skeleton_delete.view(), skel, id)
    ||| exists|j: int| 0 <= j < skel.len() && #[trigger] near_bucket(ix, skel.remove(j), id)
}

/// `id` sits in the skeleton bucket or the deletion bucket of `v`.
pub open spec fn near_bucket(ix: &Indexes, v: Seq<char>, id: u32) -> bool {
    in_bucket(ix.by_skeleton.view(), v, id) || in_bucket(ix.by_skeleton_delete.view(), v, id)
}

/// Every bucket of `m` lists its postings most frequent first.
pub open spec fn buckets_listed(m: Map<Seq<char>, Seq<Posting>>) -> bool {
    forall|k: Seq<char>| #[trigger] m.contains_key(k) ==> postings_sorted(m[k])
}

/// Every posting of `m` carries its entry's order key from `keys`.
pub open spec fn keys_match(m: Map<Seq<char>, Seq<Posting>>, keys: Seq<u32>) -> bool {
    forall|k: Seq<char>, j: int|
        #![trigger m[k][j]]
        m.contains_key(k) && 0 <= j < m[k].len() ==> m[k][j].1 < keys.len() && m[k][j].0
            == keys[m[k][j].1 as int]
}

/// Anything already in `out` or in `ids` is in `add_new(out, ids)`.
proof fn lemma_add_new_contains(out: Seq<u32>, ids: Seq<u32>, x: u32)
    requires
        out.contains(x) || ids.contains(x),
    ensures
        add_new(out, ids).contains(x),
    decreases ids.len(),
{
    if ids.len() > 0 {
        let o = add_new(out, ids.drop_last());
        if ids.last() == x {
            if !o.contains(x) {
                assert(o.push(x)[o.len() as int] == x);
            }
        } else {
            if ids.contains(x) {
                let i = choose|i: int| 0 <= i < ids.len() && ids[i] == x;
                assert(ids.drop_last()[i] == x);
            }
            lemma_add_new_contains(out, ids.drop_last(), x);
            if !o.contains(ids.last()) {
                let i = choose|i: int| 0 <= i < o.len() && o[i] == x;
                assert(o.push(ids.last())[i] == x);
            }
        }
    }
}

/// Collapsing runs keeps the first id first.
proof fn lemma_dedup_first(s: Seq<u32>)
    requires
        s.len() > 0,
    ensures
        dedup_ids(s).len() > 0,
        dedup_ids(s)[0] == s[0],
    decreases s.len(),
{
    if s.len() >= 2 {
        lemma_dedup_first(s.drop_last());
        assert(s.drop_last()[0] == s[0]);
        let d = dedup_ids(s.drop_last());
        assert(d.len() > 0 && d[0] == s[0]);
        if !(s[s.len() - 2] == s.last()) {
            assert(d.push(s.last())[0] == d[0]);
        }
    } else {
        assert(dedup_ids(s.drop_last()).len() == 0);
        assert(dedup_ids(s) == dedup_ids(s.drop_last()).push(s.last()));
    }
}

/// The head of a bucket that holds the best-listed neighbour is that
/// neighbour.
proof fn lemma_bucket_head(b: Seq<Posting>, t: int, keys: Seq<u32>, m: u32)
    requires
        postings_sorted(b),
        0 <= t < b.len(),
        b[t].1 == m,
        b[0].0 == keys[b[0].1 as int],
        b[t].0 == keys[m as int],
        !listed_before((keys[b[0].1 as int], b[0].1), (keys[m as int], m)),
    ensures
        b[0].1 == m,
{
    if t > 0 {
        assert(!listed_before(b[t], b[0]));
    }
}

/// The ids of a bucket's first `per` postings are neighbours when the
/// bucket's ids are.
proof fn lemma_take_in_bucket(m: Map<Seq<char>, Seq<Posting>>, k: Seq<char>, c: nat, per: nat, i: int)
    requires
        0 <= i < take_cap(spec_exact(m, k, c), per).len(),
    ensures
        in_bucket(m, k, take_cap(spec_exact(m, k, c), per)[i]),
{
    assert(m.contains_key(k));
    assert(m[k][i].1 == take_cap(spec_exact(m, k, c), per)[i]);
}

/// Every id of the variant buckets is a neighbour.
proof fn lemma_variant_ids_neighbours(ix: &Indexes, skel: Seq<char>, per: nat, n: nat, i: int)
    requires
        n <= skel.len(),
        0 <= i < variant_ids(
            ix.by_skeleton.view(),
            ix.by_skeleton_delete.view(),
            spec_delete_variants(skel),
            per,
            n,
        ).len(),
    ensures
        typo_neighbour(
            ix,
            skel,
            variant_ids(
                ix.by_skeleton.view(),
                ix.by_skeleton_delete.view(),
                spec_delete_variants(skel),
                per,
                n,
            )[i],
        ),
    decreases n,
{
    let sk = ix.by_skeleton.view();
    let del = ix.by_skeleton_delete.view();
    let vs = spec_delete_variants(skel);
    if n > 0 {
        let prev = variant_ids(sk, del, vs, per, (n - 1) as nat);
        let a = take_cap(spec_exact(sk, vs[n - 1], per), per);
        let b = take_cap(spec_exact(del, vs[n - 1], usize::MAX as nat), per);
        let all = variant_ids(sk, del, vs, per, n);
        assert(all == prev + a + b);
        let j = n - 1;
        assert(vs[j] == skel.remove(j));
        if i < prev.len() {
            assert(all[i] == prev[i]);
            lemma_variant_ids_neighbours(ix, skel, per, (n - 1) as nat, i);
        } else if i < prev.len() + a.len() {
            assert(all[i] == a[i - prev.len()]);
            lemma_take_in_bucket(sk, vs[j], per, per, i - prev.len());
            assert(in_bucket(sk, skel.remove(j), all[i]));
            assert(near_bucket(ix, skel.remove(j), all[i]));
        } else {
            assert(all[i] == b[i - prev.len() - a.len()]);
            lemma_take_in_bucket(del, vs[j], usize::MAX as nat, per, i - prev.len() - a.len());
            assert(in_bucket(del, skel.remove(j), all[i]));
            assert(near_bucket(ix, skel.remove(j), all[i]));
        }
    }
}

/// The variant buckets hold the head of each of the first `n` deletions'
/// skeleton and deletion buckets.
proof fn lemma_variant_ids_heads(ix: &Indexes, skel: Seq<char>, per: nat, n: nat, j: int)
    requires
        per > 0,
        0 <= j < n <= skel.len(),
    ensures
        ({
            let sk = ix.by_skeleton.view();
            let del = ix.by_skeleton_delete.view();
            let vs = spec_delete_variants(skel);
            let all = variant_ids(sk, del, vs, per, n);
            &&& (sk.contains_key(vs[j]) && sk[vs[j]].len() > 0 ==> all.contains(sk[vs[j]][0].1))
            &&& (del.contains_key(vs[j]) && del[vs[j]].len() > 0 ==> all.contains(del[vs[j]][0].1))
        }),
    decreases n,
{
    let sk = ix.by_skeleton.view();
    let del = ix.by_skeleton_delete.view();
    let vs = spec_delete_variants(skel);
    let prev = variant_ids(sk, del, vs, per, (n - 1) as nat);
    let a = take_cap(spec_exact(sk, vs[n - 1], per), per);
    let b = take_cap(spec_exact(del, vs[n - 1], usize::MAX as nat), per);
    let all = variant_ids(sk, del, vs, per, n);
    assert(all == prev + a + b);
    if j < n - 1 {
        lemma_variant_ids_heads(ix, skel, per, (n - 1) as nat, j);
        if sk.contains_key(vs[j]) && sk[vs[j]].len() > 0 {
            let i = choose|i: int| 0 <= i < prev.len() && prev[i] == sk[vs[j]][0].1;
            assert(all[i] == prev[i]);
        }
        if del.contains_key(vs[j]) && del[vs[j]].len() > 0 {
            let i = choose|i: int| 0 <= i < prev.len() && prev[i] == del[vs[j]][0].1;
            assert(all[i] == prev[i]);
        }
    } else {
        if sk.contains_key(vs[j]) && sk[vs[j]].len() > 0 {
            assert(a[0] == sk[vs[j]][0].1);
            assert(all[prev.len() as int] == a[0]);
        }
        if del.contains_key(vs[j]) && del[vs[j]].len() > 0 {
            assert(b[0] == del[vs[j]][0].1);
            assert(all[(prev.len() + a.len()) as int] == b[0]);
        }
    }
}

/// Typo tolerance reaches the best neighbour: with typo tolerance on, a
/// positive cap and an input skeleton of at least `fuzzy_min_len`
/// characters, the distance-1 skeleton neighbour that is listed first (most
/// frequent, ties by smaller id) is among the candidates, for indexes whose
/// buckets list their entries most frequent first by `keys`.
pub proof fn lemma_best_typo_neighbour_retrieved(
    ix: &Indexes,
    keys: Seq<u32>,
    norm: Seq<char>,
    skel: Seq<char>,
    cap: nat,
    fuzzy_min_len: nat,
    m: u32,
)
    requires
        cap > 0,
        skel.len() >= fuzzy_min_len,
        buckets_listed(ix.by_skeleton.view()),
        buckets_listed(ix.by_skeleton_delete.view()),
        keys_match(ix.by_skeleton.view(), keys),
        keys_match(ix.by_skeleton_delete.view(), keys),
        typo_neighbour(ix, skel, m),
        forall|x: u32|
            #[trigger] typo_neighbour(ix, skel, x) ==> !listed_before(
                (keys[x as int], x),
                (keys[m as int], m),
            ),
    ensures
        spec_collect(ix, keys, norm, skel, cap, true, fuzzy_min_len).contains(m),
{
    broadcast use vstd::seq_lib::group_to_multiset_ensures;

    let sk = ix.by_skeleton.view();
    let del = ix.by_skeleton_delete.view();
    let vs = spec_delete_variants(skel);
    let per = per_bucket(cap);
    assert(per > 0);
    let own = take_cap(spec_exact(del, skel, usize::MAX as nat), per);
    let var = variant_ids(sk, del, vs, per, vs.len());
    let raw = own + var;
    // the best neighbour heads its bucket, so the capped buckets keep it
    assert(raw.contains(m)) by {
        if in_bucket(del, skel, m) {
            let t = choose|t: int| 0 <= t < del[skel].len() && #[trigger] del[skel][t].1 == m;
            let h = del[skel][0].1;
            assert(in_bucket(del, skel, h));
            assert(typo_neighbour(ix, skel, h));
            lemma_bucket_head(del[skel], t, keys, m);
            assert(own[0] == h);
            assert(raw[0] == own[0]);
        } else {
            assert forall|j: int|
                0 <= j < skel.len() && #[trigger] near_bucket(ix, skel.remove(j), m) implies raw.contains(
                m,
            ) by {
                assert(vs[j] == skel.remove(j));
                lemma_variant_ids_heads(ix, skel, per, vs.len(), j);
                let b = if in_bucket(sk, skel.remove(j), m) {
                    sk[vs[j]]
                } else {
                    del[vs[j]]
                };
                let t = choose|t: int| 0 <= t < b.len() && #[trigger] b[t].1 == m;
                let h = b[0].1;
                if in_bucket(sk, skel.remove(j), m) {
                    assert(in_bucket(sk, skel.remove(j), h));
                } else {
                    assert(in_bucket(del, skel.remove(j), h));
                }
                assert(near_bucket(ix, skel.remove(j), h));
                assert(typo_neighbour(ix, skel, h));
                lemma_bucket_head(b, t, keys, m);
                assert(var.contains(m));
                let i = choose|i: int| 0 <= i < var.len() && var[i] == m;
                assert(raw[own.len() + i] == var[i]);
            }
        }
    }
    // every id the typo source looks at is a neighbour
    assert forall|i: int| 0 <= i < raw.len() implies #[trigger] typo_neighbour(ix, skel, raw[i]) by {
        if i < own.len() {
            lemma_take_in_bucket(del, skel, usize::MAX as nat, per, i);
            assert(raw[i] == own[i]);
        } else {
            lemma_variant_ids_neighbours(ix, skel, per, vs.len(), i - own.len());
            assert(raw[i] == var[i - own.len()]);
        }
    }
    let x = raw.map_values(|id: u32| (keys[id as int], id));
    let sorted = sort_postings(x);
    lemma_sort_postings(x);
    let pm = (keys[m as int], m);
    let w = choose|w: int| 0 <= w < raw.len() && raw[w] == m;
    assert(x[w] == pm);
    assert(x.to_multiset().count(pm) > 0);
    assert(sorted.contains(pm));
    let q = choose|q: int| 0 <= q < sorted.len() && sorted[q] == pm;
    assert(sorted.to_multiset().count(sorted[0]) > 0);
    assert(x.contains(sorted[0]));
    let v = choose|v: int| 0 <= v < x.len() && x[v] == sorted[0];
    assert(typo_neighbour(ix, skel, raw[v]));
    if q > 0 {
        assert(!listed_before(sorted[q], sorted[0]));
    }
    assert(sorted[0].1 == m);
    let ids = sorted.map_values(|p: Posting| p.1);
    lemma_dedup_first(ids);
    let f = fuzzy_source(ix, keys, skel, cap);
    assert(f == dedup_ids(ids));
    assert(f[0] == m);
    assert(take_cap(f, cap)[0] == m);
    assert(take_cap(f, cap).contains(m));
    let sk_ = &ix.by_skeleton;
    let o1 = push_capped(Seq::empty(), spec_exact(sk_.view(), skel, cap), cap);
    let o2 = push_capped(o1, spec_with_prefix(sk_.key_seq(), sk_.bucket_seq(), skel, cap), cap);
    let o3 = if skel.len() >= 4 {
        push_capped(o2, spec_with_prefix(sk_.key_seq(), sk_.bucket_seq(), skel.drop_last(), cap), cap)
    } else {
        o2
    };
    let o4 = push_capped(
        o3,
        spec_with_prefix(ix.by_form.key_seq(), ix.by_form.bucket_seq(), norm, cap),
        cap,
    );
    let o5 = match best_ending(norm) {
        Some(e) => push_capped(
            o4,
            spec_with_prefix(
                ix.by_reversed_form.key_seq(),
                ix.by_reversed_form.bucket_seq(),
                e.reverse(),
                cap,
            ),
            cap,
        ),
        None => o4,
    };
    lemma_add_new_contains(o5, take_cap(f, cap), m);
}


/// Adding a source keeps everything already there.
proof fn lemma_add_new_keeps(out: Seq<u32>, ids: Seq<u32>)
    ensures
        forall|x: u32| out.contains(x) ==> #[trigger] add_new(out, ids).contains(x),
{
    assert forall|x: u32| out.contains(x) implies #[trigger] add_new(out, ids).contains(x) by {
        lemma_add_new_contains(out, ids, x);
    }
}

/// Every source contributes its capped list: each id among the first `cap`
/// of the exact skeleton bucket, of the skeleton-prefix buckets (the whole
/// skeleton, and the skeleton without its last character when it has at
/// least four), of the completions of the input, of the suffix bucket of
/// its longest known ending, and, with typo tolerance on a long enough
/// skeleton, of the distance-1 neighbours, is a candidate.
pub proof fn lemma_candidates_cover_sources(
    ix: &Indexes,
    keys: Seq<u32>,
    norm: Seq<char>,
    skel: Seq<char>,
    cap: nat,
    typo_tolerance: bool,
    fuzzy_min_len: nat,
    x: u32,
)
    requires
        ({
            let sk = &ix.by_skeleton;
            ||| take_cap(spec_exact(sk.view(), skel, cap), cap).contains(x)
            ||| take_cap(spec_with_prefix(sk.key_seq(), sk.bucket_seq(), skel, cap), cap).contains(x)
            ||| (skel.len() >= 4 && take_cap(
                spec_with_prefix(sk.key_seq(), sk.bucket_seq(), skel.drop_last(), cap),
                cap,
            ).contains(x))
            ||| take_cap(
                spec_with_prefix(ix.by_form.key_seq(), ix.by_form.bucket_seq(), norm, cap),
                cap,
            ).contains(x)
            ||| (best_ending(norm) is Some && take_cap(
                spec_with_prefix(
                    ix.by_reversed_form.key_seq(),
                    ix.by_reversed_form.bucket_seq(),
                    best_ending(norm)->0.reverse(),
                    cap,
                ),
                cap,
            ).contains(x))
            ||| (typo_tolerance && skel.len() >= fuzzy_min_len && take_cap(
                fuzzy_source(ix, keys, skel, cap),
                cap,
            ).contains(x))
        }),
    ensures
        spec_collect(ix, keys, norm, skel, cap, typo_tolerance, fuzzy_min_len).contains(x),
{
    let sk = &ix.by_skeleton;
    let e = Seq::<u32>::empty();
    let i1 = spec_exact(sk.view(), skel, cap);
    let i2 = spec_with_prefix(sk.key_seq(), sk.bucket_seq(), skel, cap);
    let i3 = spec_with_prefix(sk.key_seq(), sk.bucket_seq(), skel.drop_last(), cap);
    let i4 = spec_with_prefix(ix.by_form.key_seq(), ix.by_form.bucket_seq(), norm, cap);
    let o1 = push_capped(e, i1, cap);
    if take_cap(i1, cap).contains(x) {
        lemma_add_new_contains(e, take_cap(i1, cap), x);
    }
    let o2 = push_capped(o1, i2, cap);
    lemma_add_new_keeps(o1, take_cap(i2, cap));
    if take_cap(i2, cap).contains(x) {
        lemma_add_new_contains(o1, take_cap(i2, cap), x);
    }
    let o3 = if skel.len() >= 4 {
        push_capped(o2, i3, cap)
    } else {
        o2
    };
    if skel.len() >= 4 {
        lemma_add_new_keeps(o2, take_cap(i3, cap));
        if take_cap(i3, cap).contains(x) {
            lemma_add_new_contains(o2, take_cap(i3, cap), x);
        }
    }
    let o4 = push_capped(o3, i4, cap);
    lemma_add_new_keeps(o3, take_cap(i4, cap));
    if take_cap(i4, cap).contains(x) {
        lemma_add_new_contains(o3, take_cap(i4, cap), x);
    }
    let o5 = match best_ending(norm) {
        Some(en) => push_capped(
            o4,
            spec_with_prefix(
                ix.by_reversed_form.key_seq(),
                ix.by_reversed_form.bucket_seq(),
                en.reverse(),
                cap,
            ),
            cap,
        ),
        None => o4,
    };
    match best_ending(norm) {
        Some(en) => {
            let i5 = spec_with_prefix(
                ix.by_reversed_form.key_seq(),
                ix.by_reversed_form.bucket_seq(),
                en.reverse(),
                cap,
            );
            lemma_add_new_keeps(o4, take_cap(i5, cap));
            if take_cap(i5, cap).contains(x) {
                lemma_add_new_contains(o4, take_cap(i5, cap), x);
            }
        },
        None => {},
    }
    if typo_tolerance && skel.len() >= fuzzy_min_len {
        let f = fuzzy_source(ix, keys, skel, cap);
        lemma_add_new_keeps(o5, take_cap(f, cap));
        if take_cap(f, cap).contains(x) {
            lemma_add_new_contains(o5, take_cap(f, cap), x);
        }
    }
}

} // verus!
