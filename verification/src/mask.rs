//! Profanity masking: an opt-in, candidate-*offering* substitution layer
//! (`долбоёб → дол@#&б`). Masking only ever *offers* a masked twin next to
//! the original word; it never silently rewrites it.
//!
//! Two concerns are split on purpose:
//!
//! * **mechanism** (here) — *what* to mask: a set of profanity **lemmas**
//!   plus a deterministic masking rule;
//! * **policy** (the engine configuration and the shell) — *when* to mask.
//!
//! **Detection is lemma-keyed, not substring** — the Scunthorpe problem. A
//! naive substring filter censors innocent words; matching the *lemma* of a
//! candidate against the censor set means a word whose lemma is not profane
//! passes untouched.

use vstd::prelude::*;

use crate::alphabet::{normalize_chars, spec_normalize};
use crate::strmap::{StrMap, lemma_key_index_push};
use crate::text::{
    append_chars, chars_to_string, contains_whitespace, decimal, has_ws, lines, lines_chars,
    push_decimal, quoted, str_chars, trim, trim_chars,
};

verus! {

/// Error produced while parsing a censor list: 1-based line and reason.
#[derive(Debug, Clone, PartialEq, Eq)]
pub struct MaskError {
    pub line: usize,
    pub message: String,
}

impl MaskError {
    /// `mask list line N: message`.
    pub fn describe(&self) -> (r: String)
        ensures
            r@ == "mask list line "@ + decimal(self.line as nat) + ": "@ + self.message@,
    {
        let mut v = str_chars("mask list line ");
        push_decimal(&mut v, self.line as u64);
        let sep = str_chars(": ");
        append_chars(&mut v, sep.as_slice());
        let m = str_chars(self.message.as_str());
        append_chars(&mut v, m.as_slice());
        chars_to_string(v.as_slice())
    }
}

/// A set of profanity lemmas plus the (stateless) masking rule.
pub struct Masker {
    lemmas: StrMap<()>,
}

/// Message for a line holding more than one word.
pub open spec fn one_lemma_message(raw: Seq<char>) -> Seq<char> {
    "expected one lemma per line, got `"@ + raw + "`"@
}

/// Effect of line `i` (0-based) of a censor list. A trimmed, non-empty line
/// splits into exactly one whitespace-separated token when it holds no
/// whitespace at all.
pub open spec fn mask_step(set: Set<Seq<char>>, i: nat, raw: Seq<char>) -> Result<
    Set<Seq<char>>,
    (nat, Seq<char>),
> {
    let line = trim(raw);
    if line.len() == 0 || line[0] == '#' {
        Ok(set)
    } else if has_ws(line) {
        Err((i + 1, one_lemma_message(raw)))
    } else {
        Ok(set.insert(spec_normalize(line)))
    }
}

pub open spec fn mask_parse(ls: Seq<Seq<char>>, n: nat) -> Result<
    Set<Seq<char>>,
    (nat, Seq<char>),
>
    decreases n,
{
    if n == 0 {
        Ok(Set::empty())
    } else {
        match mask_parse(ls, (n - 1) as nat) {
            Ok(s) => mask_step(s, (n - 1) as nat, ls[n - 1]),
            Err(e) => Err(e),
        }
    }
}

pub proof fn lemma_mask_err_sticky(ls: Seq<Seq<char>>, a: nat, b: nat)
    requires
        a <= b,
        mask_parse(ls, a) is Err,
    ensures
        mask_parse(ls, b) == mask_parse(ls, a),
    decreases b - a,
{
    if b > a {
        lemma_mask_err_sticky(ls, a, (b - 1) as nat);
    }
}

/// What `from_list_str` computes for a whole text.
pub open spec fn spec_parse_mask_list(text: Seq<char>) -> Result<Set<Seq<char>>, (nat, Seq<char>)> {
    mask_parse(lines(text), lines(text).len())
}

/// Symbols cycled through to replace masked interior letters. The order
/// reproduces the motivating example `долбоёб → дол@#&б`.
pub open spec fn mask_symbols() -> Seq<char> {
    seq!['@', '#', '&', '%', '$', '!', '*']
}

/// Number of letters (non-hyphens) in `s`.
pub open spec fn letter_count(s: Seq<char>) -> nat
    decreases s.len(),
{
    if s.len() == 0 {
        0
    } else {
        letter_count(s.drop_last()) + if s.last() == '-' {
            0nat
        } else {
            1nat
        }
    }
}

/// Letters kept at the head of a masked word: a third of its letters,
/// rounded up, at least one.
pub open spec fn head_keep(letters: nat) -> nat {
    if letters == 0 {
        1
    } else {
        ((letters + 2) / 3) as nat
    }
}

/// Character `i` of the masked spelling of `form`: hyphens stay; the
/// letters past the head and before the final letter become mask symbols,
/// cycling from the first one.
pub open spec fn masked_char(form: Seq<char>, i: int) -> char {
    let letters = letter_count(form);
    let head = head_keep(letters);
    let li = letter_count(form.take(i));
    if form[i] == '-' {
        '-'
    } else if head <= li && li + 1 < letters {
        mask_symbols()[((li - head) as nat % 7) as int]
    } else {
        form[i]
    }
}

/// The masked twin of `form`, or `None` when the word is too short to mask
/// without revealing it whole (fewer than head + tail + 1 letters).
pub open spec fn spec_mask_form(form: Seq<char>) -> Option<Seq<char>> {
    let letters = letter_count(form);
    if head_keep(letters) + 1 >= letters {
        None
    } else {
        Some(Seq::new(form.len(), |i: int| masked_char(form, i)))
    }
}

fn symbol(k: usize) -> (c: char)
    ensures
        c == mask_symbols()[(k % 7) as int],
{
    let syms = ['@', '#', '&', '%', '$', '!', '*'];
    let c = syms[k % 7];
    assert(syms@ =~= mask_symbols());
    c
}

impl Masker {
    pub closed spec fn wf(&self) -> bool {
        self.lemmas.wf()
    }

    /// The censored lemmas (normalized).
    pub closed spec fn view(&self) -> Set<Seq<char>> {
        Set::new(|k: Seq<char>| self.lemmas.contains(k))
    }

    pub fn new() -> (m: Self)
        ensures
            m.wf(),
            m.view() == Set::<Seq<char>>::empty(),
    {
        let m = Masker { lemmas: StrMap::new() };
        assert(m.view() =~= Set::<Seq<char>>::empty());
        m
    }

    fn insert(&mut self, k: Vec<char>)
        requires
            old(self).wf(),
        ensures
            final(self).wf(),
            final(self).view() == old(self).view().insert(k@),
    {
        let ghost old_map = self.lemmas;
        let ghost kv = k@;
        match self.lemmas.find(k.as_slice()) {
            Some(_) => {
                assert(self.view() =~= old(self).view().insert(kv));
            },
            None => {
                self.lemmas.push(k, ());
                proof {
                    assert forall|q: Seq<char>| #[trigger]
                        self.lemmas.contains(q) == (old_map.contains(q) || q == kv) by {
                        lemma_key_index_push(old_map.keys_view(), self.lemmas.keys_view().last(), q);
                        assert(old_map.keys_view().push(self.lemmas.keys_view().last())
                            == self.lemmas.keys_view());
                    }
                    assert(self.view() =~= old(self).view().insert(kv));
                }
            },
        }
    }

    /// Parses one profanity **lemma** per line. Blank lines and `#` comments
    /// are skipped; keys are normalized so an inflected/`ё`-spelled list
    /// still matches the engine's normalized lemmas. A line carrying more
    /// than one whitespace-separated token is rejected — a lemma is one word,
    /// and a stray column is almost certainly a mistake.
    pub fn from_list_str(text: &str) -> (r: Result<Self, MaskError>)
        ensures
            r matches Ok(m) ==> m.wf() && spec_parse_mask_list(text@) == Ok::<
                Set<Seq<char>>,
                (nat, Seq<char>),
            >(m.view()),
            r matches Err(e) ==> spec_parse_mask_list(text@) == Err::<
                Set<Seq<char>>,
                (nat, Seq<char>),
            >((e.line as nat, e.message@)),
    {
        let t = str_chars(text);
        let ls = lines_chars(t.as_slice());
        let ghost sl = lines(text@);
        let mut out = Masker::new();
        let mut i: usize = 0;
        while i < ls.len()
            invariant
                t@ == text@,
                sl == lines(text@),
                ls@.len() == sl.len(),
                forall|k: int| 0 <= k < ls@.len() ==> #[trigger] ls@[k]@ == sl[k],
                i <= ls@.len(),
                out.wf(),
                mask_parse(sl, i as nat) == Ok::<Set<Seq<char>>, (nat, Seq<char>)>(out.view()),
            decreases ls@.len() - i,
        {
            let raw = &ls[i];
            assert(raw@ == sl[i as int]);
            let line = trim_chars(raw.as_slice());
            if line.len() == 0 || line[0] == '#' {
                i = i + 1;
                continue;
            }
            if contains_whitespace(line.as_slice()) {
                proof {
                    lemma_mask_err_sticky(sl, (i + 1) as nat, sl.len());
                }
                return Err(
                    MaskError {
                        line: i + 1,
                        message: quoted("expected one lemma per line, got `", raw.as_slice(), "`"),
                    },
                );
            }
            let key = normalize_chars(line.as_slice());
            out.insert(key);
            i = i + 1;
        }
        Ok(out)
    }

    /// True when `lemma` (in any spelling/case) is on the censor list.
    pub fn is_masked_lemma(&self, lemma: &str) -> (r: bool)
        requires
            self.wf(),
        ensures
            r == self.view().contains(spec_normalize(lemma@)),
    {
        let l = str_chars(lemma);
        let k = normalize_chars(l.as_slice());
        match self.lemmas.find(k.as_slice()) {
            Some(_) => true,
            None => false,
        }
    }

    pub fn is_empty(&self) -> (r: bool)
        requires
            self.wf(),
        ensures
            r == (self.view() == Set::<Seq<char>>::empty()),
    {
        proof {
            self.lemmas.lemma_wf();
            if self.lemmas.size() > 0 {
                let k = self.lemmas.keys_view()[0]@;
                assert(self.view().contains(k));
            } else {
                assert(self.view() =~= Set::<Seq<char>>::empty());
            }
        }
        self.lemmas.len() == 0
    }

    /// Masks a surface form: keeps a head of `ceil(letters / 3)` letters and
    /// the final letter, replacing the interior letters with cycling mask
    /// symbols. Hyphens are kept in place (`мать-и-мачеха`-shaped words stay
    /// readable around the mask). Deterministic and sans-IO.
    ///
    /// Returns `None` when the word is too short to mask without revealing it
    /// whole (fewer than head + tail + 1 letters) — then there is nothing
    /// worth offering.
    pub fn mask_form(form: &str) -> (r: Option<String>)
        ensures
            r matches Some(s) ==> spec_mask_form(form@) == Some(s@),
            r is None ==> spec_mask_form(form@) is None,
    {
        let chars = str_chars(form);
        let n = chars.len();
        let mut letters: usize = 0;
        let mut i: usize = 0;
        while i < n
            invariant
                chars@ == form@,
                n == chars@.len(),
                i <= n,
                letters as nat == letter_count(chars@.take(i as int)),
                letters <= i,
            decreases n - i,
        {
            assert(chars@.take(i + 1).drop_last() =~= chars@.take(i as int));
            if chars[i] != '-' {
                letters = letters + 1;
            }
            i = i + 1;
        }
        assert(chars@.take(n as int) =~= chars@);
        let head: usize = if letters == 0 {
            1
        } else if letters % 3 == 0 {
            letters / 3
        } else {
            letters / 3 + 1
        };
        assert(head as nat == head_keep(letters as nat));
        if head + 1 >= letters {
            return None;
        }
        let mut out: Vec<char> = Vec::new();
        let mut letter_idx: usize = 0;
        let mut j: usize = 0;
        while j < n
            invariant
                chars@ == form@,
                n == chars@.len(),
                letters as nat == letter_count(form@),
                head as nat == head_keep(letters as nat),
                head + 1 < letters,
                j <= n,
                letter_idx as nat == letter_count(form@.take(j as int)),
                letter_idx <= j,
                out@.len() == j,
                forall|k: int| 0 <= k < j ==> #[trigger] out@[k] == masked_char(form@, k),
            decreases n - j,
        {
            assert(form@.take(j + 1).drop_last() =~= form@.take(j as int));
            let c = chars[j];
            if c == '-' {
                out.push('-');
            } else {
                if letter_idx >= head && letter_idx + 1 < letters {
                    out.push(symbol(letter_idx - head));
                } else {
                    out.push(c);
                }
                letter_idx = letter_idx + 1;
            }
            j = j + 1;
        }
        let s = chars_to_string(out.as_slice());
        assert(out@ =~= Seq::new(form@.len(), |i: int| masked_char(form@, i)));
        Some(s)
    }
}


impl Default for Masker {
    fn default() -> (r: Self)
        ensures
            r.wf(),
            r.view() == Set::<Seq<char>>::empty(),
    {
        Self::new()
    }
}

/// Some position holds the `k`th letter (counting from zero) of a word
/// with more than `k` letters.
proof fn lemma_letter_at(s: Seq<char>, k: nat)
    requires
        k < letter_count(s),
    ensures
        exists|i: int| 0 <= i < s.len() && s[i] != '-' && #[trigger] letter_count(s.take(i)) == k,
    decreases s.len(),
{
    let d = s.drop_last();
    assert(s.take(s.len() - 1) =~= d);
    if k < letter_count(d) {
        lemma_letter_at(d, k);
        let i = choose|i: int| 0 <= i < d.len() && d[i] != '-' && #[trigger] letter_count(d.take(i)) == k;
        assert(s.take(i) =~= d.take(i));
        assert(s[i] == d[i]);
    } else {
        let i = s.len() - 1;
        assert(s[i] == s.last());
    }
}

/// A masked spelling keeps the word's length and its hyphens, and hides at
/// least one of its letters behind a mask symbol, so the word is never
/// offered whole.
pub proof fn lemma_mask_hides_a_letter(form: Seq<char>)
    requires
        spec_mask_form(form) is Some,
    ensures
        ({
            let m = spec_mask_form(form)->0;
            &&& m.len() == form.len()
            &&& forall|i: int| 0 <= i < form.len() && form[i] == '-' ==> #[trigger] m[i] == '-'
            &&& exists|i: int|
                0 <= i < form.len() && form[i] != '-' && mask_symbols().contains(#[trigger] m[i])
            &&& m.contains('@')
        }),
{
    let letters = letter_count(form);
    let head = head_keep(letters);
    lemma_letter_at(form, head);
    let i = choose|i: int| 0 <= i < form.len() && form[i] != '-' && #[trigger] letter_count(form.take(i)) == head;
    let m = spec_mask_form(form)->0;
    assert(m[i] == masked_char(form, i));
    assert(m[i] == mask_symbols()[0]);
    assert(mask_symbols().contains(m[i]));
}

} // verus!
