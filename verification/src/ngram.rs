//! Word-bigram counts for contextual reranking.
//!
//! The artifact is a line-oriented TSV built offline from a corpus:
//!
//! ```text
//! #abbrev-lm v1
//! u<TAB>word<TAB>count
//! b<TAB>prev<TAB>word<TAB>count
//! ```
//!
//! Keys are normalized like the rest of the engine; repeated records add
//! up. The association score the ranking reads (a PMI clamped to a small
//! range) is computed from these counts by the caller.

use vstd::prelude::*;

use crate::alphabet::{normalize_chars, spec_normalize};
use crate::strmap::StrMap;
use crate::text::{
    append_chars, chars_to_string, decimal, lines, lines_chars, parse_u64, parse_uint,
    push_decimal, quoted, split, split_chars, str_chars, trim, trim_chars,
};

verus! {

/// Error produced while parsing a language-model artifact: 1-based line and
/// reason.
#[derive(Debug, Clone, PartialEq, Eq)]
pub struct LmError {
    pub line: usize,
    pub message: String,
}

impl LmError {
    /// `lm line N: message`.
    pub fn describe(&self) -> (r: String)
        ensures
            r@ == "lm line "@ + decimal(self.line as nat) + ": "@ + self.message@,
    {
        let mut v = str_chars("lm line ");
        push_decimal(&mut v, self.line as u64);
        let sep = str_chars(": ");
        append_chars(&mut v, sep.as_slice());
        let m = str_chars(self.message.as_str());
        append_chars(&mut v, m.as_slice());
        chars_to_string(v.as_slice())
    }
}

/// Unigram counts, bigram counts (by previous word, then word) and the
/// corpus total.
pub type LmCounts = (Map<Seq<char>, u64>, Map<Seq<char>, Map<Seq<char>, u64>>, u64);

/// Count stored under `k`, zero when absent.
pub open spec fn count_of(m: Map<Seq<char>, u64>, k: Seq<char>) -> u64 {
    if m.contains_key(k) {
        m[k]
    } else {
        0u64
    }
}

/// Bigram row of `prev`, empty when absent.
pub open spec fn row_of(m: Map<Seq<char>, Map<Seq<char>, u64>>, prev: Seq<char>) -> Map<
    Seq<char>,
    u64,
> {
    if m.contains_key(prev) {
        m[prev]
    } else {
        Map::empty()
    }
}

pub open spec fn unigram_message(raw: Seq<char>) -> Seq<char> {
    "expected `u\\tword\\tcount`, got `"@ + raw + "`"@
}

pub open spec fn bigram_message(raw: Seq<char>) -> Seq<char> {
    "expected `b\\tprev\\tword\\tcount`, got `"@ + raw + "`"@
}

pub open spec fn count_message(count: Seq<char>) -> Seq<char> {
    "bad count `"@ + count + "`"@
}

pub open spec fn record_message(raw: Seq<char>) -> Seq<char> {
    "unknown record `"@ + raw + "`"@
}

/// Effect of one line on the counts: comments and blank lines are skipped,
/// `u` and `b` records add their count, anything else is an error message.
pub open spec fn lm_step(st: LmCounts, raw: Seq<char>) -> Result<LmCounts, Seq<char>> {
    let line = trim(raw);
    if line.len() == 0 || line[0] == '#' {
        Ok(st)
    } else {
        let parts = split(line, '\t');
        if parts[0] == seq!['u'] {
            if parts.len() != 3 {
                Err(unigram_message(raw))
            } else {
                match parse_uint(parts[2], u64::MAX as nat) {
                    None => Err(count_message(parts[2])),
                    Some(c) => {
                        let w = spec_normalize(parts[1]);
                        Ok(
                            (
                                st.0.insert(w, (count_of(st.0, w) + c) as u64),
                                st.1,
                                (st.2 + c) as u64,
                            ),
                        )
                    },
                }
            }
        } else if parts[0] == seq!['b'] {
            if parts.len() != 4 {
                Err(bigram_message(raw))
            } else {
                match parse_uint(parts[3], u64::MAX as nat) {
                    None => Err(count_message(parts[3])),
                    Some(c) => {
                        let p = spec_normalize(parts[1]);
                        let w = spec_normalize(parts[2]);
                        let row = row_of(st.1, p);
                        Ok((st.0, st.1.insert(p, row.insert(w, (count_of(row, w) + c) as u64)), st.2))
                    },
                }
            }
        } else {
            Err(record_message(raw))
        }
    }
}

/// The addition one line makes fits its counters.
pub open spec fn lm_step_fits(st: LmCounts, raw: Seq<char>) -> bool {
    let line = trim(raw);
    let parts = split(line, '\t');
    if line.len() == 0 || line[0] == '#' {
        true
    } else if parts[0] == seq!['u'] && parts.len() == 3 {
        match parse_uint(parts[2], u64::MAX as nat) {
            None => true,
            Some(c) => st.2 + c <= u64::MAX && count_of(st.0, spec_normalize(parts[1])) + c
                <= u64::MAX,
        }
    } else if parts[0] == seq!['b'] && parts.len() == 4 {
        match parse_uint(parts[3], u64::MAX as nat) {
            None => true,
            Some(c) => count_of(
                row_of(st.1, spec_normalize(parts[1])),
                spec_normalize(parts[2]),
            ) + c <= u64::MAX,
        }
    } else {
        true
    }
}

/// The counts after the first `n` lines, or the first error with its
/// 1-based line.
pub open spec fn lm_parse(ls: Seq<Seq<char>>, n: nat) -> Result<LmCounts, (nat, Seq<char>)>
    decreases n,
{
    if n == 0 {
        Ok((Map::empty(), Map::empty(), 0u64))
    } else {
        match lm_parse(ls, (n - 1) as nat) {
            Ok(st) => match lm_step(st, ls[n - 1]) {
                Ok(st2) => Ok(st2),
                Err(m) => Err((n, m)),
            },
            Err(e) => Err(e),
        }
    }
}

/// No counter overflows while the first `n` lines are read.
pub open spec fn lm_fits(ls: Seq<Seq<char>>, n: nat) -> bool
    decreases n,
{
    if n == 0 {
        true
    } else {
        lm_fits(ls, (n - 1) as nat) && match lm_parse(ls, (n - 1) as nat) {
            Ok(st) => lm_step_fits(st, ls[n - 1]),
            Err(_) => true,
        }
    }
}

proof fn lemma_lm_fits_prefix(ls: Seq<Seq<char>>, n: nat, m: nat)
    requires
        lm_fits(ls, n),
        m <= n,
    ensures
        lm_fits(ls, m),
    decreases n,
{
    if m < n {
        lemma_lm_fits_prefix(ls, (n - 1) as nat, m);
    }
}

/// Once a line fails, the parse result no longer changes.
pub proof fn lemma_lm_err_sticky(ls: Seq<Seq<char>>, a: nat, b: nat)
    requires
        a <= b,
        lm_parse(ls, a) is Err,
    ensures
        lm_parse(ls, b) == lm_parse(ls, a),
    decreases b - a,
{
    if b > a {
        lemma_lm_err_sticky(ls, a, (b - 1) as nat);
    }
}

/// After a failing line, the remaining lines cannot overflow anything.
proof fn lemma_lm_fits_after_err(ls: Seq<Seq<char>>, a: nat, b: nat)
    requires
        a <= b,
        lm_parse(ls, a) is Err,
        lm_fits(ls, a),
    ensures
        lm_fits(ls, b),
    decreases b - a,
{
    if b > a {
        lemma_lm_fits_after_err(ls, a, (b - 1) as nat);
        lemma_lm_err_sticky(ls, a, (b - 1) as nat);
    }
}

/// A line whose addition overflows makes the whole text not fit.
proof fn lemma_lm_no_fit(ls: Seq<Seq<char>>, i: nat)
    requires
        i < ls.len(),
        lm_parse(ls, i) is Ok,
        !lm_step_fits(lm_parse(ls, i)->Ok_0, ls[i as int]),
    ensures
        !lm_fits(ls, ls.len()),
{
    assert(!lm_fits(ls, i + 1));
    if lm_fits(ls, ls.len()) {
        lemma_lm_fits_prefix(ls, ls.len(), i + 1);
    }
}

/// What `from_tsv_str` computes for a whole artifact.
pub open spec fn spec_parse_lm(tsv: Seq<char>) -> Result<LmCounts, (nat, Seq<char>)> {
    lm_parse(lines(tsv), lines(tsv).len())
}

/// Reading the artifact never overflows a counter.
pub open spec fn lm_text_fits(tsv: Seq<char>) -> bool {
    lm_fits(lines(tsv), lines(tsv).len())
}

/// Unigram and bigram counts, keyed by normalized word.
pub struct BigramModel {
    unigrams: StrMap<u64>,
    bigrams: StrMap<StrMap<u64>>,
    total: u64,
}

impl BigramModel {
    pub closed spec fn wf(&self) -> bool {
        &&& self.unigrams.wf()
        &&& self.bigrams.wf()
        &&& forall|i: int|
            0 <= i < self.bigrams.vals_view().len() ==> (#[trigger] self.bigrams.vals_view()[i]).wf()
    }

    /// Unigram counts, bigram counts and total.
    pub closed spec fn view(&self) -> LmCounts {
        (
            self.unigrams.map_view(),
            Map::new(
                |p: Seq<char>| self.bigrams.contains(p),
                |p: Seq<char>| self.bigrams.value(p).map_view(),
            ),
            self.total,
        )
    }

    /// A model with no counts.
    pub fn new() -> (m: Self)
        ensures
            m.wf(),
            m.view() == (Map::<Seq<char>, u64>::empty(), Map::<Seq<char>, Map<Seq<char>, u64>>::empty(), 0u64),
    {
        let m = BigramModel { unigrams: StrMap::new(), bigrams: StrMap::new(), total: 0 };
        assert(m.view().0 =~= Map::<Seq<char>, u64>::empty());
        assert(m.view().1 =~= Map::<Seq<char>, Map<Seq<char>, u64>>::empty());
        m
    }

    /// Adds `c` to the unigram count of `w` and to the total.
    fn add_unigram(&mut self, w: &[char], c: u64)
        requires
            old(self).wf(),
            old(self).view().2 + c <= u64::MAX,
            count_of(old(self).view().0, w@) + c <= u64::MAX,
        ensures
            final(self).wf(),
            final(self).view() == (
                old(self).view().0.insert(w@, (count_of(old(self).view().0, w@) + c) as u64),
                old(self).view().1,
                (old(self).view().2 + c) as u64,
            ),
    {
        let prev = match self.unigrams.get(w) {
            Some(v) => *v,
            None => 0,
        };
        self.unigrams.set(w, prev + c);
        self.total = self.total + c;
        proof {
            assert(self.view().1 =~= old(self).view().1);
        }
    }

    /// Adds `c` to the count of `w` after `p`.
    fn add_bigram(&mut self, p: &[char], w: &[char], c: u64)
        requires
            old(self).wf(),
            count_of(row_of(old(self).view().1, p@), w@) + c <= u64::MAX,
        ensures
            final(self).wf(),
            final(self).view() == (
                old(self).view().0,
                old(self).view().1.insert(
                    p@,
                    row_of(old(self).view().1, p@).insert(
                        w@,
                        (count_of(row_of(old(self).view().1, p@), w@) + c) as u64,
                    ),
                ),
                old(self).view().2,
            ),
    {
        let ghost old_b = self.bigrams;
        proof {
            self.bigrams.lemma_wf();
        }
        match self.bigrams.find(p) {
            Some(i) => {
                let mut row = self.bigrams.replace_at(i, StrMap::new());
                assert(row == old_b.vals_view()[i as int]);
                let prev = match row.get(w) {
                    Some(v) => *v,
                    None => 0,
                };
                row.set(w, prev + c);
                let ghost nrow = row;
                self.bigrams.replace_at(i, row);
                proof {
                    self.bigrams.lemma_wf();
                    assert forall|j: int|
                        0 <= j < self.bigrams.vals_view().len() implies (
                        #[trigger] self.bigrams.vals_view()[j]).wf() by {
                        if j != i {
                            assert(self.bigrams.vals_view()[j] == old_b.vals_view()[j]);
                        }
                    }
                    assert(self.view().1 =~= old(self).view().1.insert(p@, nrow.map_view()));
                }
            },
            None => {
                let mut row: StrMap<u64> = StrMap::new();
                row.set(w, c);
                let ghost nrow = row;
                proof {
                    assert(row_of(old(self).view().1, p@) == Map::<Seq<char>, u64>::empty());
                    assert(nrow.map_view() =~= Map::<Seq<char>, u64>::empty().insert(w@, c));
                }
                self.bigrams.set(p, row);
                proof {
                    self.bigrams.lemma_wf();
                    assert forall|j: int|
                        0 <= j < self.bigrams.vals_view().len() implies (
                        #[trigger] self.bigrams.vals_view()[j]).wf() by {
                        let k = self.bigrams.keys_view()[j]@;
                        assert(self.bigrams.index_of(k) == Some(j));
                        assert(self.bigrams.map_view().contains_key(k));
                        assert(self.bigrams.vals_view()[j] == self.bigrams.map_view()[k]);
                        if k != p@ {
                            assert(old_b.map_view().contains_key(k));
                            let oj = old_b.index_of(k)->0;
                            old_b.lemma_wf();
                            assert(old_b.vals_view()[oj].wf());
                            assert(old_b.map_view()[k] == old_b.vals_view()[oj]);
                        }
                    }
                    assert forall|q: Seq<char>| #[trigger] self.view().1.contains_key(q)
                        == old(self).view().1.insert(p@, nrow.map_view()).contains_key(q) by {
                        assert(self.bigrams.map_view().contains_key(q) == self.bigrams.contains(q));
                        assert(old_b.map_view().contains_key(q) == old_b.contains(q));
                    }
                    assert forall|q: Seq<char>| #[trigger] self.view().1.contains_key(q) implies
                        self.view().1[q] == old(self).view().1.insert(p@, nrow.map_view())[q] by {
                        assert(self.bigrams.map_view()[q] == self.bigrams.value(q));
                        if q != p@ {
                            assert(old_b.map_view()[q] == old_b.value(q));
                        }
                    }
                    assert(self.view().1 =~= old(self).view().1.insert(p@, nrow.map_view()));
                }
            },
        }
        proof {
            assert(self.view().0 =~= old(self).view().0);
        }
    }

    /// Parses the artifact. Comment (`#`) and blank lines are skipped; a
    /// malformed record is an error naming its line.
    pub fn from_tsv_str(tsv: &str) -> (r: Result<Self, LmError>)
        requires
            lm_text_fits(tsv@),
        ensures
            r matches Ok(m) ==> m.wf() && spec_parse_lm(tsv@) == Ok::<LmCounts, (nat, Seq<char>)>(
                m.view(),
            ),
            r matches Err(e) ==> spec_parse_lm(tsv@) == Err::<LmCounts, (nat, Seq<char>)>(
                (e.line as nat, e.message@),
            ),
    {
        match Self::try_from_tsv_str(tsv) {
            Some(r) => r,
            None => {
                assert(false);
                Ok(BigramModel::new())
            },
        }
    }

    /// Count of the unigram spelled by `w`, zero when absent.
    fn unigram_chars(&self, w: &[char]) -> (r: u64)
        requires
            self.wf(),
        ensures
            r == count_of(self.view().0, w@),
    {
        match self.unigrams.get(w) {
            Some(c) => *c,
            None => 0,
        }
    }

    /// Count of the bigram spelled by `p`, `w`, zero when absent.
    fn bigram_chars(&self, p: &[char], w: &[char]) -> (r: u64)
        requires
            self.wf(),
        ensures
            r == count_of(row_of(self.view().1, p@), w@),
    {
        proof {
            self.bigrams.lemma_wf();
        }
        match self.bigrams.find(p) {
            Some(i) => {
                let row = self.bigrams.value_at(i);
                assert(row.wf());
                match row.get(w) {
                    Some(c) => *c,
                    None => 0,
                }
            },
            None => 0,
        }
    }

    /// `from_tsv_str` for any artifact: `None` exactly when reading it
    /// would overflow a counter before its first malformed line.
    pub fn try_from_tsv_str(tsv: &str) -> (r: Option<Result<Self, LmError>>)
        ensures
            r is Some <==> lm_text_fits(tsv@),
            r matches Some(Ok(m)) ==> m.wf() && spec_parse_lm(tsv@) == Ok::<LmCounts, (nat, Seq<char>)>(
                m.view(),
            ),
            r matches Some(Err(e)) ==> spec_parse_lm(tsv@) == Err::<LmCounts, (nat, Seq<char>)>(
                (e.line as nat, e.message@),
            ),
    {
        let text = str_chars(tsv);
        let ls = lines_chars(text.as_slice());
        let ghost sl = lines(tsv@);
        let mut model = BigramModel::new();
        let mut i: usize = 0;
        while i < ls.len()
            invariant
                text@ == tsv@,
                sl == lines(tsv@),
                ls@.len() == sl.len(),
                forall|k: int| 0 <= k < ls@.len() ==> #[trigger] ls@[k]@ == sl[k],
                lm_fits(sl, i as nat),
                i <= ls@.len(),
                model.wf(),
                lm_parse(sl, i as nat) == Ok::<LmCounts, (nat, Seq<char>)>(model.view()),
            decreases ls@.len() - i,
        {
            let raw = &ls[i];
            assert(raw@ == sl[i as int]);
            let line = trim_chars(raw.as_slice());
            if line.len() == 0 || line[0] == '#' {
                i = i + 1;
                continue;
            }
            let parts = split_chars(line.as_slice(), '\t');
            proof {
                crate::text::lemma_split_nonempty(line@, '\t');
            }
            let head = &parts[0];
            if head.len() == 1 && head[0] == 'u' {
                assert(parts@[0]@ =~= seq!['u']);
                if parts.len() != 3 {
                    proof {
                        lemma_lm_err_sticky(sl, (i + 1) as nat, sl.len());
                            lemma_lm_fits_after_err(sl, (i + 1) as nat, sl.len());
                    }
                    return Some(Err(
                        LmError {
                            line: i + 1,
                            message: quoted("expected `u\\tword\\tcount`, got `", raw.as_slice(), "`"),
                        },
                    ));
                }
                match parse_u64(parts[2].as_slice()) {
                    None => {
                        proof {
                            lemma_lm_err_sticky(sl, (i + 1) as nat, sl.len());
                            lemma_lm_fits_after_err(sl, (i + 1) as nat, sl.len());
                        }
                        return Some(Err(
                            LmError {
                                line: i + 1,
                                message: quoted("bad count `", parts[2].as_slice(), "`"),
                            },
                        ));
                    },
                    Some(c) => {
                        let w = normalize_chars(parts[1].as_slice());
                        let cur = model.unigram_chars(w.as_slice());
                        if model.total > u64::MAX - c || cur > u64::MAX - c {
                            proof {
                                lemma_lm_no_fit(sl, i as nat);
                            }
                            return None;
                        }
                        model.add_unigram(w.as_slice(), c);
                    },
                }
            } else if head.len() == 1 && head[0] == 'b' {
                assert(parts@[0]@ =~= seq!['b']);
                if parts.len() != 4 {
                    proof {
                        lemma_lm_err_sticky(sl, (i + 1) as nat, sl.len());
                            lemma_lm_fits_after_err(sl, (i + 1) as nat, sl.len());
                    }
                    return Some(Err(
                        LmError {
                            line: i + 1,
                            message: quoted(
                                "expected `b\\tprev\\tword\\tcount`, got `",
                                raw.as_slice(),
                                "`",
                            ),
                        },
                    ));
                }
                match parse_u64(parts[3].as_slice()) {
                    None => {
                        proof {
                            lemma_lm_err_sticky(sl, (i + 1) as nat, sl.len());
                            lemma_lm_fits_after_err(sl, (i + 1) as nat, sl.len());
                        }
                        return Some(Err(
                            LmError {
                                line: i + 1,
                                message: quoted("bad count `", parts[3].as_slice(), "`"),
                            },
                        ));
                    },
                    Some(c) => {
                        let p = normalize_chars(parts[1].as_slice());
                        let w = normalize_chars(parts[2].as_slice());
                        let cur = model.bigram_chars(p.as_slice(), w.as_slice());
                        if cur > u64::MAX - c {
                            proof {
                                lemma_lm_no_fit(sl, i as nat);
                            }
                            return None;
                        }
                        model.add_bigram(p.as_slice(), w.as_slice(), c);
                    },
                }
            } else {
                proof {
                    if parts@[0]@ == seq!['u'] {
                        assert(head@.len() == 1 && head@[0] == 'u');
                    }
                    if parts@[0]@ == seq!['b'] {
                        assert(head@.len() == 1 && head@[0] == 'b');
                    }
                    lemma_lm_err_sticky(sl, (i + 1) as nat, sl.len());
                            lemma_lm_fits_after_err(sl, (i + 1) as nat, sl.len());
                }
                return Some(Err(
                    LmError {
                        line: i + 1,
                        message: quoted("unknown record `", raw.as_slice(), "`"),
                    },
                ));
            }
            i = i + 1;
        }
        Some(Ok(model))
    }

    /// Whether no bigram was loaded — without bigrams the model cannot
    /// score any context.
    pub fn is_empty(&self) -> (r: bool)
        requires
            self.wf(),
        ensures
            r == (self.view().1.dom() == Set::<Seq<char>>::empty()),
    {
        proof {
            self.bigrams.lemma_wf();
            if self.bigrams.size() > 0 {
                let k = self.bigrams.keys_view()[0]@;
                assert(self.view().1.dom().contains(k));
            } else {
                assert(self.view().1.dom() =~= Set::<Seq<char>>::empty());
            }
        }
        self.bigrams.len() == 0
    }

    /// Count of `word` as a unigram, if it was recorded.
    pub fn unigram(&self, word: &str) -> (r: Option<u64>)
        requires
            self.wf(),
        ensures
            r matches Some(c) ==> self.view().0.contains_key(word@) && c == self.view().0[word@],
            r is None ==> !self.view().0.contains_key(word@),
    {
        let w = str_chars(word);
        match self.unigrams.get(w.as_slice()) {
            Some(c) => Some(*c),
            None => None,
        }
    }

    /// Count of `word` right after `prev`, if it was recorded.
    pub fn bigram(&self, prev: &str, word: &str) -> (r: Option<u64>)
        requires
            self.wf(),
        ensures
            r matches Some(c) ==> self.view().1.contains_key(prev@) && self.view().1[prev@].contains_key(
                word@,
            ) && c == self.view().1[prev@][word@],
            r is None ==> !(self.view().1.contains_key(prev@) && self.view().1[prev@].contains_key(
                word@,
            )),
    {
        let p = str_chars(prev);
        let w = str_chars(word);
        proof {
            self.bigrams.lemma_wf();
        }
        match self.bigrams.find(p.as_slice()) {
            Some(i) => {
                let row = self.bigrams.value_at(i);
                assert(row.wf());
                match row.get(w.as_slice()) {
                    Some(c) => Some(*c),
                    None => None,
                }
            },
            None => None,
        }
    }

    /// Total of all unigram counts.
    pub fn total(&self) -> (r: u64)
        ensures
            r == self.view().2,
    {
        self.total
    }
}


impl Default for BigramModel {
    fn default() -> (r: Self)
        ensures
            r.wf(),
            r.view() == (Map::<Seq<char>, u64>::empty(), Map::<Seq<char>, Map<Seq<char>, u64>>::empty(), 0u64),
    {
        Self::new()
    }
}

} // verus!
