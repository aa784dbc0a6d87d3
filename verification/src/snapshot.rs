//! Golden snapshots: deterministic engine output over a fixed input set,
//! for regression diffing between engine variants.
//!
//! The whole-body `hash=…` in the header is the "top of the tree": equal
//! hash ⇒ nothing changed. Lines are sorted (and deduplicated) so the
//! output is reproducible run-to-run and diffs stay local.

use vstd::prelude::*;

use crate::text::{
    append_chars, chars_eq, chars_to_string, decimal, lemma_lex_irreflexive, lemma_lex_total,
    lemma_lex_transitive, lex_less, lex_lt, lines, lines_chars, push_decimal, split, split_chars,
    str_chars, trim_end, trim_end_chars,
};
use vstd::relations::{sorted_by, total_ordering};

verus! {

/// FNV-1a 64-bit offset basis.
pub const FNV_OFFSET: u64 = 0xcbf29ce484222325;

/// FNV-1a 64-bit prime.
pub const FNV_PRIME: u64 = 0x100000001b3;

/// FNV-1a over the first `n` bytes.
pub open spec fn fnv_fold(bytes: Seq<u8>, n: nat) -> u64
    decreases n,
{
    if n == 0 {
        FNV_OFFSET
    } else {
        let h = fnv_fold(bytes, (n - 1) as nat) ^ (bytes[n - 1] as u64);
        vstd::wrapping::u64_specs::wrapping_mul(h, FNV_PRIME)
    }
}

/// FNV-1a 64-bit: a tiny, stable digest of a snapshot body (equal hash
/// means identical behaviour).
pub fn fnv1a_64(bytes: &[u8]) -> (h: u64)
    ensures
        h == fnv_fold(bytes@, bytes@.len()),
{
    let mut h: u64 = FNV_OFFSET;
    let mut i: usize = 0;
    while i < bytes.len()
        invariant
            i <= bytes@.len(),
            h == fnv_fold(bytes@, i as nat),
        decreases bytes@.len() - i,
    {
        h = h ^ (bytes[i] as u64);
        h = h.wrapping_mul(FNV_PRIME);
        i = i + 1;
    }
    h
}

/// The `(input, context)` a case line names: lines are trimmed at the
/// end, blank and `#` lines skipped; the input is the first column and the
/// context the fourth (empty when absent).
pub open spec fn snapshot_cases_of(ls: Seq<Seq<char>>, n: nat) -> Seq<(Seq<char>, Seq<char>)>
    decreases n,
{
    if n == 0 {
        Seq::empty()
    } else {
        let r = snapshot_cases_of(ls, (n - 1) as nat);
        let l = trim_end(ls[n - 1]);
        if l.len() == 0 || l[0] == '#' {
            r
        } else {
            let f = split(l, '\t');
            r.push(
                (
                    f[0],
                    if f.len() > 3 {
                        f[3]
                    } else {
                        Seq::empty()
                    },
                ),
            )
        }
    }
}

pub open spec fn pair_views(s: Seq<(String, String)>) -> Seq<(Seq<char>, Seq<char>)> {
    s.map_values(|p: (String, String)| (p.0@, p.1@))
}

/// The `(input, context)` of every case line of a snapshot input file.
pub fn snapshot_cases(raw: &str) -> (r: Vec<(String, String)>)
    ensures
        pair_views(r@) == snapshot_cases_of(lines(raw@), lines(raw@).len()),
{
    let t = str_chars(raw);
    let ls = lines_chars(t.as_slice());
    let ghost sl = lines(raw@);
    let mut out: Vec<(String, String)> = Vec::new();
    let mut i: usize = 0;
    while i < ls.len()
        invariant
            t@ == raw@,
            sl == lines(raw@),
            ls@.len() == sl.len(),
            forall|k: int| 0 <= k < ls@.len() ==> #[trigger] ls@[k]@ == sl[k],
            i <= ls@.len(),
            pair_views(out@) == snapshot_cases_of(sl, i as nat),
        decreases ls@.len() - i,
    {
        assert(ls@[i as int]@ == sl[i as int]);
        let l = trim_end_chars(ls[i].as_slice());
        if l.len() > 0 && l[0] != '#' {
            let f = split_chars(l.as_slice(), '\t');
            proof {
                crate::text::lemma_split_nonempty(l@, '\t');
            }
            let ctx = if f.len() > 3 {
                chars_to_string(f[3].as_slice())
            } else {
                chars_to_string(Vec::<char>::new().as_slice())
            };
            let ghost before = pair_views(out@);
            out.push((chars_to_string(f[0].as_slice()), ctx));
            assert(pair_views(out@) =~= before.push((f@[0]@, ctx@)));
        }
        i = i + 1;
    }
    out
}

/// One snapshot row: input, context and the ranked strip.
pub type Triple = (Seq<char>, Seq<char>, Seq<char>);

/// Tuple order of rows, each text in `str` order.
pub open spec fn triple_lt(a: Triple, b: Triple) -> bool {
    lex_lt(a.0, b.0) || (a.0 == b.0 && (lex_lt(a.1, b.1) || (a.1 == b.1 && lex_lt(a.2, b.2))))
}

/// Index of the first row that `x` sorts before.
pub open spec fn triple_insert_at(s: Seq<Triple>, x: Triple) -> nat
    decreases s.len(),
{
    if s.len() == 0 {
        0
    } else if triple_lt(x, s[0]) {
        0
    } else {
        1 + triple_insert_at(s.drop_first(), x)
    }
}

/// Rows in tuple order, by insertion.
pub open spec fn sort_triples(s: Seq<Triple>) -> Seq<Triple>
    decreases s.len(),
{
    if s.len() == 0 {
        s
    } else {
        let t = sort_triples(s.drop_last());
        t.insert(triple_insert_at(t, s.last()) as int, s.last())
    }
}

/// Runs of equal rows collapsed to one.
pub open spec fn dedup_runs(s: Seq<Triple>) -> Seq<Triple>
    decreases s.len(),
{
    if s.len() == 0 {
        s
    } else {
        let d = dedup_runs(s.drop_last());
        if s.len() >= 2 && s[s.len() - 2] == s.last() {
            d
        } else {
            d.push(s.last())
        }
    }
}

/// `input<TAB>context<TAB>ranked<NEWLINE>` for every row.
pub open spec fn snapshot_body(rows: Seq<Triple>) -> Seq<char>
    decreases rows.len(),
{
    if rows.len() == 0 {
        Seq::empty()
    } else {
        snapshot_body(rows.drop_last()) + rows.last().0 + seq!['\t'] + rows.last().1 + seq!['\t']
            + rows.last().2 + seq!['\n']
    }
}

/// The lowest `n` hexadecimal digits of `h`, most significant first.
pub open spec fn hex_digits(h: nat, n: nat) -> Seq<char>
    decreases n,
{
    if n == 0 {
        Seq::empty()
    } else {
        hex_digits(h / 16, (n - 1) as nat).push(hex_char(h % 16))
    }
}

pub open spec fn hex_char(d: nat) -> char {
    if d < 10 {
        crate::text::digit_char(d)
    } else if d == 10 {
        'a'
    } else if d == 11 {
        'b'
    } else if d == 12 {
        'c'
    } else if d == 13 {
        'd'
    } else if d == 14 {
        'e'
    } else {
        'f'
    }
}

/// The header line: limit, number of rows and the body's hash.
pub open spec fn snapshot_header(limit: nat, n: nat, hash: u64) -> Seq<char> {
    "# engine snapshot: input\\tcontext\\tform:score|… (limit "@ + decimal(limit) + ") — "@
        + decimal(n) + " cases, hash="@ + hex_digits(hash as nat, 16) + "\n"@
}

/// The whole snapshot text for `rows`.
pub open spec fn spec_snapshot(rows: Seq<Triple>, limit: nat) -> Seq<char> {
    let sorted = dedup_runs(sort_triples(rows));
    let body = snapshot_body(sorted);
    snapshot_header(limit, sorted.len(), fnv_fold(vstd::utf8::encode_utf8(body), vstd::utf8::encode_utf8(body).len())) + body
}

pub open spec fn triple_views(s: Seq<(String, String, String)>) -> Seq<Triple> {
    s.map_values(|t: (String, String, String)| (t.0@, t.1@, t.2@))
}

fn triple_less(a: &(Vec<char>, Vec<char>, Vec<char>), b: &(Vec<char>, Vec<char>, Vec<char>)) -> (r: bool)
    ensures
        r == triple_lt((a.0@, a.1@, a.2@), (b.0@, b.1@, b.2@)),
{
    if lex_less(a.0.as_slice(), b.0.as_slice()) {
        return true;
    }
    if !chars_eq(a.0.as_slice(), b.0.as_slice()) {
        return false;
    }
    if lex_less(a.1.as_slice(), b.1.as_slice()) {
        return true;
    }
    if !chars_eq(a.1.as_slice(), b.1.as_slice()) {
        return false;
    }
    lex_less(a.2.as_slice(), b.2.as_slice())
}

pub open spec fn vtriple(t: (Vec<char>, Vec<char>, Vec<char>)) -> Triple {
    (t.0@, t.1@, t.2@)
}

/// Sorts rows into tuple order, by insertion.
fn sort_triple_vec(v: Vec<(Vec<char>, Vec<char>, Vec<char>)>) -> (r: Vec<(Vec<char>, Vec<char>, Vec<char>)>)
    ensures
        r@.map_values(|t| vtriple(t)) == sort_triples(v@.map_values(|t| vtriple(t))),
{
    let ghost all = v@.map_values(|t| vtriple(t));
    let mut src = v;
    let mut out: Vec<(Vec<char>, Vec<char>, Vec<char>)> = Vec::new();
    let ghost mut done: nat = 0;
    assert(all.take(0) =~= Seq::<Triple>::empty());
    while src.len() > 0
        invariant
            done + src@.len() == all.len(),
            src@.map_values(|t| vtriple(t)) == all.skip(done as int),
            out@.map_values(|t| vtriple(t)) == sort_triples(all.take(done as int)),
        decreases src@.len(),
    {
        let ghost src_old = src@;
        let x = src.remove(0);
        proof {
            assert(src_old.map_values(|t| vtriple(t))[0] == all.skip(done as int)[0]);
            assert(vtriple(x) == all[done as int]);
        }
        let ghost sorted = out@.map_values(|t| vtriple(t));
        let mut j: usize = 0;
        assert(sorted.skip(0) =~= sorted);
        while j < out.len() && !triple_less(&x, &out[j])
            invariant
                j <= out@.len(),
                sorted == out@.map_values(|t| vtriple(t)),
                sorted.len() == out@.len(),
                triple_insert_at(sorted, vtriple(x)) == j + triple_insert_at(
                    sorted.skip(j as int),
                    vtriple(x),
                ),
            decreases out@.len() - j,
        {
            proof {
                let ss = sorted.skip(j as int);
                assert(ss[0] == sorted[j as int]);
                assert(sorted[j as int] == vtriple(out@[j as int]));
                assert(ss.drop_first() =~= sorted.skip(j + 1));
            }
            j = j + 1;
        }
        proof {
            if j < out@.len() {
                assert(sorted.skip(j as int)[0] == vtriple(out@[j as int]));
            } else {
                assert(sorted.skip(j as int) =~= Seq::<Triple>::empty());
            }
        }
        let ghost xv = vtriple(x);
        out.insert(j, x);
        proof {
            assert(all.take((done + 1) as int).drop_last() =~= all.take(done as int));
            assert(all.take((done + 1) as int).last() == xv);
            assert(out@.map_values(|t| vtriple(t)) =~= sorted.insert(j as int, xv));
            assert(src@ =~= src_old.subrange(1, src_old.len() as int));
            let snew = src@.map_values(|t| vtriple(t));
            assert forall|k: int| 0 <= k < snew.len() implies #[trigger] snew[k] == all.skip(
                (done + 1) as int,
            )[k] by {
                assert(src_old.map_values(|t| vtriple(t))[k + 1] == all.skip(done as int)[k + 1]);
            }
            assert(snew =~= all.skip((done + 1) as int));
            done = done + 1;
        }
    }
    assert(all.take(done as int) =~= all);
    out
}

fn same_triple(a: &(Vec<char>, Vec<char>, Vec<char>), b: &(Vec<char>, Vec<char>, Vec<char>)) -> (r: bool)
    ensures
        r == (vtriple(*a) == vtriple(*b)),
{
    chars_eq(a.0.as_slice(), b.0.as_slice()) && chars_eq(a.1.as_slice(), b.1.as_slice())
        && chars_eq(a.2.as_slice(), b.2.as_slice())
}

fn hex_char_exec(d: u64) -> (c: char)
    requires
        d < 16,
    ensures
        c == hex_char(d as nat),
{
    if d < 10 {
        let mut v: Vec<char> = Vec::new();
        push_decimal(&mut v, d);
        assert(decimal(d as nat) =~= seq![crate::text::digit_char(d as nat)]);
        v[0]
    } else if d == 10 {
        'a'
    } else if d == 11 {
        'b'
    } else if d == 12 {
        'c'
    } else if d == 13 {
        'd'
    } else if d == 14 {
        'e'
    } else {
        'f'
    }
}

/// Appends the 16 lowest hexadecimal digits of `h` (`{:016x}`).
fn push_hex16(out: &mut Vec<char>, h: u64)
    ensures
        final(out)@ == old(out)@ + hex_digits(h as nat, 16),
{
    let mut digits: Vec<char> = Vec::new();
    let mut x: u64 = h;
    let mut k: usize = 0;
    proof {
        vstd::arithmetic::power::lemma_pow0(16);
        assert((h as nat) / (1int as nat) == h as nat) by (nonlinear_arith);
        assert(x as nat == (h as nat) / vstd::arithmetic::power::pow(16, 0) as nat);
        assert(hex_digits(h as nat, 16) =~= hex_digits(h as nat, 16) + digits@.reverse());
    }
    // digits are produced least significant first
    while k < 16
        invariant
            k <= 16,
            digits@.len() == k,
            x as nat == (h as nat) / vstd::arithmetic::power::pow(16, k as nat) as nat,
            hex_digits(h as nat, 16) == hex_digits(x as nat, (16 - k) as nat) + digits@.reverse(),
        decreases 16 - k,
    {
        proof {
            vstd::arithmetic::power::lemma_pow_adds(16, k as nat, 1);
            vstd::arithmetic::power::lemma_pow1(16);
            vstd::arithmetic::power::lemma_pow_positive(16, k as nat);
            vstd::arithmetic::div_mod::lemma_div_denominator(
                h as int,
                vstd::arithmetic::power::pow(16, k as nat),
                16,
            );
            assert(hex_digits(x as nat, (16 - k) as nat) == hex_digits(
                (x / 16) as nat,
                (16 - k - 1) as nat,
            ).push(hex_char((x % 16) as nat)));
        }
        let c = hex_char_exec(x % 16);
        let ghost before = digits@;
        digits.push(c);
        proof {
            assert(digits@.reverse() =~= seq![c] + before.reverse());
            assert(hex_digits((x / 16) as nat, (16 - k - 1) as nat).push(c) + before.reverse()
                =~= hex_digits((x / 16) as nat, (16 - k - 1) as nat) + digits@.reverse());
        }
        x = x / 16;
        k = k + 1;
    }
    assert(hex_digits(x as nat, 0) =~= Seq::<char>::empty());
    let mut i: usize = 16;
    let ghost start = out@;
    while i > 0
        invariant
            i <= 16,
            digits@.len() == 16,
            out@ == start + digits@.subrange(i as int, 16).reverse(),
        decreases i,
    {
        i = i - 1;
        out.push(digits[i]);
        assert(out@ =~= start + digits@.subrange(i as int, 16).reverse());
    }
    assert(digits@.subrange(0, 16) =~= digits@);
    assert(Seq::<char>::empty() + digits@.reverse() =~= digits@.reverse());
}

/// The snapshot text for `rows` (input, context, ranked strip): rows
/// sorted and deduplicated, one `input<TAB>context<TAB>ranked` line each,
/// under a header naming the limit, the row count and the body's FNV-1a
/// hash in 16 hexadecimal digits.
pub fn snapshot_document(rows: Vec<(String, String, String)>, limit: usize) -> (r: String)
    ensures
        r@ == spec_snapshot(triple_views(rows@), limit as nat),
{
    let ghost rv = triple_views(rows@);
    let mut tv: Vec<(Vec<char>, Vec<char>, Vec<char>)> = Vec::new();
    let mut i: usize = 0;
    while i < rows.len()
        invariant
            rv == triple_views(rows@),
            i <= rows@.len(),
            tv@.map_values(|t| vtriple(t)) == rv.take(i as int),
        decreases rows@.len() - i,
    {
        let r = &rows[i];
        let t = (str_chars(r.0.as_str()), str_chars(r.1.as_str()), str_chars(r.2.as_str()));
        let ghost before = tv@.map_values(|t| vtriple(t));
        assert(vtriple(t) == rv[i as int]);
        tv.push(t);
        assert(rv.take(i + 1) =~= rv.take(i as int).push(rv[i as int]));
        assert(tv@.map_values(|t| vtriple(t)) =~= before.push(vtriple(t)));
        i = i + 1;
    }
    assert(rv.take(rows@.len() as int) =~= rv);
    let sorted = sort_triple_vec(tv);
    let ghost ss = sorted@.map_values(|t| vtriple(t));
    // dedup and body
    let mut body: Vec<char> = Vec::new();
    let mut count: usize = 0;
    let mut k: usize = 0;
    assert(ss.take(0) =~= Seq::<Triple>::empty());
    while k < sorted.len()
        invariant
            ss == sorted@.map_values(|t| vtriple(t)),
            k <= sorted@.len(),
            count as nat == dedup_runs(ss.take(k as int)).len(),
            count <= k,
            body@ == snapshot_body(dedup_runs(ss.take(k as int))),
        decreases sorted@.len() - k,
    {
        let ghost d = dedup_runs(ss.take(k as int));
        assert(ss.take(k + 1).drop_last() =~= ss.take(k as int));
        assert(ss.take(k + 1).last() == vtriple(sorted@[k as int]));
        if k > 0 {
            assert(ss.take(k + 1)[k - 1] == vtriple(sorted@[k - 1]));
        }
        if k > 0 && same_triple(&sorted[k - 1], &sorted[k]) {
        } else {
            let t = &sorted[k];
            append_chars(&mut body, t.0.as_slice());
            body.push('\t');
            append_chars(&mut body, t.1.as_slice());
            body.push('\t');
            append_chars(&mut body, t.2.as_slice());
            body.push('\n');
            count = count + 1;
            proof {
                let nd = d.push(vtriple(*t));
                assert(nd.drop_last() =~= d);
                assert(body@ =~= snapshot_body(nd));
            }
        }
        k = k + 1;
    }
    assert(ss.take(sorted@.len() as int) =~= ss);
    let body_s = chars_to_string(body.as_slice());
    let hash = fnv1a_64(body_s.as_str().as_bytes());
    let mut out = str_chars("# engine snapshot: input\\tcontext\\tform:score|… (limit ");
    push_decimal(&mut out, limit as u64);
    let mid = str_chars(") — ");
    append_chars(&mut out, mid.as_slice());
    push_decimal(&mut out, count as u64);
    let tail = str_chars(" cases, hash=");
    append_chars(&mut out, tail.as_slice());
    push_hex16(&mut out, hash);
    out.push('\n');
    assert("\n"@ =~= seq!['\n']) by {
        reveal_strlit("\n");
    }
    append_chars(&mut out, body.as_slice());
    chars_to_string(out.as_slice())
}

// ---------------------------------------------------------------------------
// Laws
// ---------------------------------------------------------------------------

/// Rows in tuple order, ties allowed.
pub open spec fn triple_le(a: Triple, b: Triple) -> bool {
    a == b || triple_lt(a, b)
}

proof fn lemma_triple_lt_facts(a: Triple, b: Triple, c: Triple)
    ensures
        !triple_lt(a, a),
        a == b || triple_lt(a, b) || triple_lt(b, a),
        !(triple_lt(a, b) && triple_lt(b, a)),
        triple_lt(a, b) && triple_lt(b, c) ==> triple_lt(a, c),
{
    lemma_lex_irreflexive(a.0);
    lemma_lex_irreflexive(a.1);
    lemma_lex_irreflexive(a.2);
    lemma_lex_total(a.0, b.0);
    lemma_lex_total(a.1, b.1);
    lemma_lex_total(a.2, b.2);
    lemma_lex_total(b.0, c.0);
    lemma_lex_total(b.1, c.1);
    lemma_lex_total(b.2, c.2);
    lemma_lex_total(a.0, c.0);
    lemma_lex_total(a.1, c.1);
    if a.0 != b.0 && b.0 != c.0 && lex_lt(a.0, b.0) && lex_lt(b.0, c.0) {
        lemma_lex_transitive(a.0, b.0, c.0);
    }
    if lex_lt(a.1, b.1) && lex_lt(b.1, c.1) {
        lemma_lex_transitive(a.1, b.1, c.1);
    }
    if lex_lt(a.2, b.2) && lex_lt(b.2, c.2) {
        lemma_lex_transitive(a.2, b.2, c.2);
    }
    if a.0 == b.0 && a.1 == b.1 && a.2 == b.2 {
        assert(a == b);
    }
}

proof fn lemma_triple_le_total()
    ensures
        total_ordering(|a: Triple, b: Triple| triple_le(a, b)),
{
    let r = |a: Triple, b: Triple| triple_le(a, b);
    assert forall|x: Triple, y: Triple| #[trigger] r(x, y) && #[trigger] r(y, x) implies x == y by {
        lemma_triple_lt_facts(x, y, x);
    }
    assert forall|x: Triple, y: Triple, z: Triple| #[trigger] r(x, y) && #[trigger] r(y, z) implies r(x, z) by {
        lemma_triple_lt_facts(x, y, z);
    }
    assert forall|x: Triple, y: Triple| #[trigger] r(x, y) || #[trigger] r(y, x) by {
        lemma_triple_lt_facts(x, y, x);
    }
}

/// Whether `s` is in tuple order.
pub open spec fn triples_sorted(s: Seq<Triple>) -> bool {
    forall|i: int, j: int| 0 <= i < j < s.len() ==> triple_le(#[trigger] s[i], #[trigger] s[j])
}

proof fn lemma_triple_insert_at(s: Seq<Triple>, x: Triple)
    ensures
        triple_insert_at(s, x) <= s.len(),
        forall|i: int| 0 <= i < triple_insert_at(s, x) ==> !triple_lt(x, #[trigger] s[i]),
        triple_insert_at(s, x) < s.len() ==> triple_lt(x, s[triple_insert_at(s, x) as int]),
    decreases s.len(),
{
    if s.len() > 0 && !triple_lt(x, s[0]) {
        lemma_triple_insert_at(s.drop_first(), x);
        assert forall|i: int| 0 <= i < triple_insert_at(s, x) implies !triple_lt(x, #[trigger] s[i]) by {
            if i > 0 {
                assert(s[i] == s.drop_first()[i - 1]);
            }
        }
    }
}

proof fn lemma_sort_triples(s: Seq<Triple>)
    ensures
        sort_triples(s).to_multiset() == s.to_multiset(),
        triples_sorted(sort_triples(s)),
    decreases s.len(),
{
    broadcast use vstd::seq_lib::group_to_multiset_ensures;

    if s.len() > 0 {
        let d = s.drop_last();
        let y = s.last();
        let t = sort_triples(d);
        lemma_sort_triples(d);
        lemma_triple_insert_at(t, y);
        let p = triple_insert_at(t, y) as int;
        let u = t.insert(p, y);
        assert(u.to_multiset() =~= t.to_multiset().insert(y));
        assert(s =~= d.push(y));
        assert forall|i: int, j: int| 0 <= i < j < u.len() implies triple_le(#[trigger] u[i], #[trigger] u[j]) by {
            if i < p && j < p {
                assert(triple_le(t[i], t[j]));
            } else if i < p && j == p {
                lemma_triple_lt_facts(t[i], y, y);
            } else if i < p && j > p {
                assert(triple_le(t[i], t[j - 1]));
            } else if i == p {
                if p < t.len() {
                    assert(triple_lt(y, t[p]));
                    assert(triple_le(t[p], t[j - 1]));
                    lemma_triple_lt_facts(y, t[p], t[j - 1]);
                }
            } else {
                assert(triple_le(t[i - 1], t[j - 1]));
            }
        }
    }
}

proof fn lemma_dedup_runs(s: Seq<Triple>)
    requires
        triples_sorted(s),
    ensures
        dedup_runs(s).to_set() == s.to_set(),
        forall|i: int, j: int| 0 <= i < j < dedup_runs(s).len() ==> triple_lt(#[trigger] dedup_runs(s)[i], #[trigger] dedup_runs(s)[j]),
        s.len() > 0 ==> dedup_runs(s).len() > 0 && dedup_runs(s).last() == s.last(),
    decreases s.len(),
{
    if s.len() > 0 {
        let d = s.drop_last();
        assert(triples_sorted(d)) by {
            assert forall|i: int, j: int| 0 <= i < j < d.len() implies triple_le(#[trigger] d[i], #[trigger] d[j]) by {
                assert(d[i] == s[i] && d[j] == s[j]);
            }
        }
        lemma_dedup_runs(d);
        let dd = dedup_runs(d);
        assert(s =~= d.push(s.last()));
        assert(s.to_set() =~= d.to_set().insert(s.last())) by {
            crate::strip::lemma_to_set_push(d, s.last());
        }
        if s.len() >= 2 && s[s.len() - 2] == s.last() {
            assert(d.to_set().contains(s.last())) by {
                assert(d[d.len() - 1] == s.last());
            }
            assert(d.to_set().insert(s.last()) =~= d.to_set());
        } else {
            crate::strip::lemma_to_set_push(dd, s.last());
            let r = dedup_runs(s);
            assert(r =~= dd.push(s.last()));
            assert forall|i: int, j: int| 0 <= i < j < r.len() implies triple_lt(#[trigger] r[i], #[trigger] r[j]) by {
                if j == r.len() - 1 {
                    if dd.len() > 0 {
                        // the run before ends with s[len-2], strictly below the last
                        assert(dd.last() == d.last());
                        assert(triple_le(s[s.len() - 2], s.last()));
                        assert(s[s.len() - 2] != s.last());
                        if i < dd.len() - 1 {
                            assert(triple_lt(dd[i], dd.last()));
                            lemma_triple_lt_facts(dd[i], dd.last(), s.last());
                        }
                    }
                } else {
                    assert(triple_lt(dd[i], dd[j]));
                }
            }
        }
    } else {
        assert(s.to_set() =~= Set::<Triple>::empty());
        assert(dedup_runs(s).to_set() =~= Set::<Triple>::empty());
    }
}

proof fn lemma_strict_unique(a: Seq<Triple>, b: Seq<Triple>)
    requires
        forall|i: int, j: int| 0 <= i < j < a.len() ==> triple_lt(#[trigger] a[i], #[trigger] a[j]),
        forall|i: int, j: int| 0 <= i < j < b.len() ==> triple_lt(#[trigger] b[i], #[trigger] b[j]),
        a.to_set() == b.to_set(),
    ensures
        a == b,
{
    broadcast use vstd::seq_lib::group_to_multiset_ensures;

    let leq = |x: Triple, y: Triple| triple_le(x, y);
    assert(a.no_duplicates()) by {
        assert forall|i: int, j: int| 0 <= i < a.len() && 0 <= j < a.len() && i != j implies a[i] != a[j] by {
            if i < j {
                lemma_triple_lt_facts(a[i], a[j], a[j]);
            } else {
                lemma_triple_lt_facts(a[j], a[i], a[i]);
            }
        }
    }
    assert(b.no_duplicates()) by {
        assert forall|i: int, j: int| 0 <= i < b.len() && 0 <= j < b.len() && i != j implies b[i] != b[j] by {
            if i < j {
                lemma_triple_lt_facts(b[i], b[j], b[j]);
            } else {
                lemma_triple_lt_facts(b[j], b[i], b[i]);
            }
        }
    }
    a.lemma_multiset_has_no_duplicates();
    b.lemma_multiset_has_no_duplicates();
    assert forall|x: Triple| a.to_multiset().count(x) == b.to_multiset().count(x) by {
        assert(a.to_set().contains(x) == a.contains(x));
        assert(b.to_set().contains(x) == b.contains(x));
        if a.contains(x) {
            assert(a.to_multiset().contains(x));
            assert(b.to_multiset().contains(x));
        } else {
            assert(!a.to_multiset().contains(x));
            assert(!b.to_multiset().contains(x));
        }
    }
    assert(a.to_multiset() =~= b.to_multiset());
    assert(sorted_by(a, leq)) by {
        assert forall|i: int, j: int| 0 <= i < j < a.len() implies #[trigger] leq(a[i], a[j]) by {
            assert(triple_lt(a[i], a[j]));
        }
    }
    assert(sorted_by(b, leq)) by {
        assert forall|i: int, j: int| 0 <= i < j < b.len() implies #[trigger] leq(b[i], b[j]) by {
            assert(triple_lt(b[i], b[j]));
        }
    }
    lemma_triple_le_total();
    vstd::seq_lib::lemma_sorted_unique(a, b, leq);
}

/// The snapshot is reproducible: it depends only on which rows there are,
/// not on their order nor on repeats — equal hash, equal behaviour.
pub proof fn lemma_snapshot_order_free(rows1: Seq<Triple>, rows2: Seq<Triple>, limit: nat)
    requires
        rows1.to_set() == rows2.to_set(),
    ensures
        spec_snapshot(rows1, limit) == spec_snapshot(rows2, limit),
{
    broadcast use vstd::seq_lib::group_to_multiset_ensures;

    let s1 = sort_triples(rows1);
    let s2 = sort_triples(rows2);
    lemma_sort_triples(rows1);
    lemma_sort_triples(rows2);
    assert(s1.to_set() =~= rows1.to_set()) by {
        assert forall|x: Triple| s1.to_set().contains(x) == rows1.to_set().contains(x) by {
            assert(s1.to_set().contains(x) == s1.contains(x));
            assert(rows1.to_set().contains(x) == rows1.contains(x));
            assert(s1.contains(x) == s1.to_multiset().contains(x));
            assert(rows1.contains(x) == rows1.to_multiset().contains(x));
        }
    }
    assert(s2.to_set() =~= rows2.to_set()) by {
        assert forall|x: Triple| s2.to_set().contains(x) == rows2.to_set().contains(x) by {
            assert(s2.to_set().contains(x) == s2.contains(x));
            assert(rows2.to_set().contains(x) == rows2.contains(x));
            assert(s2.contains(x) == s2.to_multiset().contains(x));
            assert(rows2.contains(x) == rows2.to_multiset().contains(x));
        }
    }
    lemma_dedup_runs(s1);
    lemma_dedup_runs(s2);
    lemma_strict_unique(dedup_runs(s1), dedup_runs(s2));
}

} // verus!
