//! Conventional shortcuts: a separate exact-match layer for community
//! shorthand that the fuzzy machinery cannot recover reliably
//! (`спс → спасибо`, `крч → короче`, `мб → может быть`).
//!
//! Kept apart from the lexicon on purpose: these are *conventions*, not
//! corrupted dictionary words, and mixing them into frequency ranking
//! would distort ordinary suggestions. They fire only on an exact
//! normalized match of the typed shorthand — including inputs shorter than
//! the fuzzy minimum, which is exactly where shorthand like `мб` lives.

use vstd::prelude::*;

use crate::alphabet::{normalize_chars, spec_normalize};
use crate::strmap::{StrMap, lemma_key_index_push};
use crate::text::{
    chars_to_string, lines, lines_chars, push_decimal, quoted, split, split_chars, str_chars,
    trim, trim_chars, decimal,
};

verus! {

/// One expansion of a shorthand: the surface form to insert and its lemma
/// (for grouping; equals the form when there is no paradigm).
#[derive(Debug, Clone, PartialEq, Eq)]
pub struct Expansion {
    pub form: String,
    pub lemma: String,
}

impl View for Expansion {
    type V = (Seq<char>, Seq<char>);

    open spec fn view(&self) -> (Seq<char>, Seq<char>) {
        (self.form@, self.lemma@)
    }
}

/// Error produced while parsing a shortcuts table: 1-based line and reason.
#[derive(Debug, Clone, PartialEq, Eq)]
pub struct ShortcutError {
    pub line: usize,
    pub message: String,
}

impl ShortcutError {
    /// `shortcuts line N: message`.
    pub fn describe(&self) -> (r: String)
        ensures
            r@ == "shortcuts line "@ + decimal(self.line as nat) + ": "@ + self.message@,
    {
        let mut v = str_chars("shortcuts line ");
        push_decimal(&mut v, self.line as u64);
        let sep = str_chars(": ");
        crate::text::append_chars(&mut v, sep.as_slice());
        let m = str_chars(self.message.as_str());
        crate::text::append_chars(&mut v, m.as_slice());
        chars_to_string(v.as_slice())
    }
}

/// Shorthand table: normalized shorthand → its expansions, in file order.
pub type ShortcutMap = Map<Seq<char>, Seq<(Seq<char>, Seq<char>)>>;

pub struct Shortcuts {
    map: StrMap<Vec<Expansion>>,
}

pub open spec fn expansion_views(s: Seq<Expansion>) -> Seq<(Seq<char>, Seq<char>)> {
    s.map_values(|e: Expansion| e@)
}

pub open spec fn map_view(m: StrMap<Vec<Expansion>>) -> ShortcutMap {
    Map::new(|k: Seq<char>| m.contains(k), |k: Seq<char>| expansion_views(m.value(k)@))
}

/// Message for a line that lacks the form column.
pub open spec fn missing_form_message(raw: Seq<char>) -> Seq<char> {
    "expected `shorthand\\tform[\\tlemma]`, got `"@ + raw + "`"@
}

/// Message for a line with more than three columns.
pub open spec fn extra_column_message(raw: Seq<char>) -> Seq<char> {
    "unexpected extra column in `"@ + raw + "`"@
}

/// Effect of line `i` (0-based) with raw text `raw` on the table.
pub open spec fn shortcut_step(m: ShortcutMap, i: nat, raw: Seq<char>) -> Result<
    ShortcutMap,
    (nat, Seq<char>),
> {
    let line = trim(raw);
    if line.len() == 0 || line[0] == '#' {
        Ok(m)
    } else {
        let parts = split(line, '\t');
        if parts.len() < 2 {
            Err((i + 1, missing_form_message(raw)))
        } else if parts.len() > 3 {
            Err((i + 1, extra_column_message(raw)))
        } else {
            let lemma = if parts.len() == 3 {
                parts[2]
            } else {
                parts[1]
            };
            let key = spec_normalize(trim(parts[0]));
            let prev = if m.contains_key(key) {
                m[key]
            } else {
                Seq::empty()
            };
            Ok(m.insert(key, prev.push((trim(parts[1]), trim(lemma)))))
        }
    }
}

/// The table after the first `n` lines, or the first error.
pub open spec fn shortcut_parse(ls: Seq<Seq<char>>, n: nat) -> Result<
    ShortcutMap,
    (nat, Seq<char>),
>
    decreases n,
{
    if n == 0 {
        Ok(Map::empty())
    } else {
        match shortcut_parse(ls, (n - 1) as nat) {
            Ok(m) => shortcut_step(m, (n - 1) as nat, ls[n - 1]),
            Err(e) => Err(e),
        }
    }
}

/// Once a line fails, the parse result no longer changes.
pub proof fn lemma_shortcut_err_sticky(ls: Seq<Seq<char>>, a: nat, b: nat)
    requires
        a <= b,
        shortcut_parse(ls, a) is Err,
    ensures
        shortcut_parse(ls, b) == shortcut_parse(ls, a),
    decreases b - a,
{
    if b > a {
        lemma_shortcut_err_sticky(ls, a, (b - 1) as nat);
    }
}

/// What `from_tsv_str` computes for a whole text.
pub open spec fn spec_parse_shortcuts(tsv: Seq<char>) -> Result<ShortcutMap, (nat, Seq<char>)> {
    shortcut_parse(lines(tsv), lines(tsv).len())
}

impl Shortcuts {
    pub closed spec fn wf(&self) -> bool {
        self.map.wf()
    }

    /// Normalized shorthand → expansions.
    pub closed spec fn view(&self) -> ShortcutMap {
        map_view(self.map)
    }

    pub fn new() -> (s: Self)
        ensures
            s.wf(),
            s.view() == ShortcutMap::empty(),
    {
        let s = Shortcuts { map: StrMap::new() };
        assert(s.view() =~= ShortcutMap::empty());
        s
    }

    /// Appends `e` to the expansions of `key`.
    fn add(&mut self, key: Vec<char>, e: Expansion)
        requires
            old(self).wf(),
        ensures
            final(self).wf(),
            final(self).view() == old(self).view().insert(
                key@,
                (if old(self).view().contains_key(key@) {
                    old(self).view()[key@]
                } else {
                    Seq::empty()
                }).push(e@),
            ),
    {
        let ghost old_map = self.map;
        let ghost ev = e@;
        proof {
            self.map.lemma_wf();
        }
        match self.map.find(key.as_slice()) {
            Some(i) => {
                let mut v = self.map.replace_at(i, Vec::new());
                v.push(e);
                self.map.replace_at(i, v);
                proof {
                    self.map.lemma_wf();
                    assert(expansion_views(v@) =~= expansion_views(old_map.value(key@)@).push(ev));
                    assert(map_view(self.map) =~= map_view(old_map).insert(
                        key@,
                        expansion_views(old_map.value(key@)@).push(ev),
                    ));
                }
            },
            None => {
                let ghost kv = key@;
                let mut v: Vec<Expansion> = Vec::new();
                v.push(e);
                self.map.push(key, v);
                proof {
                    self.map.lemma_wf();
                    assert forall|k: Seq<char>| #[trigger]
                        self.map.index_of(k) == (match old_map.index_of(k) {
                            Some(i) => Some(i),
                            None => if kv == k {
                                Some(old_map.size() as int)
                            } else {
                                None
                            },
                        }) by {
                        lemma_key_index_push(old_map.keys_view(), self.map.keys_view().last(), k);
                        assert(old_map.keys_view().push(self.map.keys_view().last())
                            == self.map.keys_view());
                    }
                    assert(expansion_views(v@) =~= Seq::<(Seq<char>, Seq<char>)>::empty().push(
                        ev,
                    ));
                    assert(map_view(self.map) =~= map_view(old_map).insert(
                        kv,
                        Seq::<(Seq<char>, Seq<char>)>::empty().push(ev),
                    ));
                }
            },
        }
    }

    /// Parses `shorthand<TAB>form[<TAB>lemma]`. The lemma defaults to the
    /// form. Empty lines and `#` comments are skipped. Multiple lines with
    /// the same shorthand stack as ordered expansions.
    pub fn from_tsv_str(tsv: &str) -> (r: Result<Self, ShortcutError>)
        ensures
            r matches Ok(s) ==> s.wf() && spec_parse_shortcuts(tsv@) == Ok::<
                ShortcutMap,
                (nat, Seq<char>),
            >(s.view()),
            r matches Err(e) ==> spec_parse_shortcuts(tsv@) == Err::<ShortcutMap, (nat, Seq<char>)>(
                (e.line as nat, e.message@),
            ),
    {
        let text = str_chars(tsv);
        let ls = lines_chars(text.as_slice());
        let ghost sl = lines(tsv@);
        let mut out = Shortcuts::new();
        let mut i: usize = 0;
        while i < ls.len()
            invariant
                text@ == tsv@,
                sl == lines(tsv@),
                ls@.len() == sl.len(),
                forall|k: int| 0 <= k < ls@.len() ==> #[trigger] ls@[k]@ == sl[k],
                i <= ls@.len(),
                out.wf(),
                shortcut_parse(sl, i as nat) == Ok::<ShortcutMap, (nat, Seq<char>)>(out.view()),
            decreases ls@.len() - i,
        {
            let raw = &ls[i];
            assert(raw@ == sl[i as int]);
            let line = trim_chars(raw.as_slice());
            if line.len() == 0 || line[0] == '#' {
                i = i + 1;
                continue;
            }
            let parts = split_chars(line.as_slice(), '\t');
            if parts.len() < 2 {
                proof {
                    lemma_shortcut_err_sticky(sl, (i + 1) as nat, sl.len());
                }
                return Err(
                    ShortcutError {
                        line: i + 1,
                        message: quoted(
                            "expected `shorthand\\tform[\\tlemma]`, got `",
                            raw.as_slice(),
                            "`",
                        ),
                    },
                );
            }
            if parts.len() > 3 {
                proof {
                    lemma_shortcut_err_sticky(sl, (i + 1) as nat, sl.len());
                }
                return Err(
                    ShortcutError {
                        line: i + 1,
                        message: quoted("unexpected extra column in `", raw.as_slice(), "`"),
                    },
                );
            }
            let lemma_src = if parts.len() == 3 {
                &parts[2]
            } else {
                &parts[1]
            };
            let key0 = trim_chars(parts[0].as_slice());
            let key = normalize_chars(key0.as_slice());
            let form = trim_chars(parts[1].as_slice());
            let lemma = trim_chars(lemma_src.as_slice());
            let e = Expansion {
                form: chars_to_string(form.as_slice()),
                lemma: chars_to_string(lemma.as_slice()),
            };
            out.add(key, e);
            i = i + 1;
        }
        Ok(out)
    }

    /// Expansions for an already-normalized shorthand.
    pub fn get(&self, normalized: &str) -> (r: &[Expansion])
        requires
            self.wf(),
        ensures
            expansion_views(r@) == (if self.view().contains_key(normalized@) {
                self.view()[normalized@]
            } else {
                Seq::empty()
            }),
    {
        let k = str_chars(normalized);
        proof {
            self.map.lemma_wf();
        }
        match self.map.find(k.as_slice()) {
            Some(i) => self.map.value_at(i).as_slice(),
            None => {
                let r: &[Expansion] = &[];
                assert(expansion_views(r@) =~= Seq::empty());
                r
            },
        }
    }

    pub fn is_empty(&self) -> (r: bool)
        requires
            self.wf(),
        ensures
            r == (self.view().dom() == Set::<Seq<char>>::empty()),
    {
        proof {
            self.map.lemma_wf();
            if self.map.size() > 0 {
                let k = self.map.keys_view()[0]@;
                assert(self.view().dom().contains(k));
            } else {
                assert(self.view().dom() =~= Set::<Seq<char>>::empty());
            }
        }
        self.map.len() == 0
    }
}


impl Default for Shortcuts {
    fn default() -> (r: Self)
        ensures
            r.wf(),
            r.view() == ShortcutMap::empty(),
    {
        Self::new()
    }
}

} // verus!
