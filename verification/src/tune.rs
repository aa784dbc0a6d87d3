//! Rules of `abbrev tune`, the random search over ranking weights: its
//! deterministic random source, its benchmark-case format and its options.

use vstd::prelude::*;

use crate::cli::{next_arg, opt_view, strings_view};
use crate::context::Context;
use crate::text::{
    chars_eq, lines, lines_chars, owned, parse_u64, parse_uint, split, split_chars, str_chars,
    trim, trim_chars, words, split_whitespace_owned, chars_to_string,
};

verus! {

/// One xorshift64 step.
pub open spec fn xorshift(x: u64) -> u64 {
    let a = x ^ (x << 13u64);
    let b = a ^ (a >> 7u64);
    b ^ (b << 17u64)
}

/// xorshift64 — deterministic, dependency-free.
pub struct Rng(pub u64);

impl Rng {
    /// A generator seeded with `seed` (zero, a fixed point, becomes one).
    pub fn new(seed: u64) -> (r: Self)
        ensures
            r.0 == (if seed == 0 {
                1
            } else {
                seed
            }),
    {
        Rng(if seed < 1 {
            1
        } else {
            seed
        })
    }

    /// Advances the state by one xorshift64 step and returns it.
    pub fn next(&mut self) -> (r: u64)
        ensures
            r == xorshift(old(self).0),
            final(self).0 == r,
    {
        let mut x = self.0;
        x = x ^ (x << 13u64);
        x = x ^ (x >> 7u64);
        x = x ^ (x << 17u64);
        self.0 = x;
        x
    }
}

/// One benchmark case: the typed input, the expected form, a corruption
/// tag and the left context.
pub struct Case {
    pub input: String,
    pub expected: String,
    pub tag: String,
    pub context: Context,
}

/// Abstract case: input, expected, tag, context words.
pub type CaseView = (Seq<char>, Seq<char>, Seq<char>, Seq<Seq<char>>);

impl Case {
    pub open spec fn view(&self) -> CaseView {
        (self.input@, self.expected@, self.tag@, strings_view(self.context.previous_words@))
    }
}

/// The case a trimmed, non-comment line describes:
/// `input<TAB>expected[<TAB>tag[<TAB>context]]`; without an expected form
/// there is none. The tag defaults to `untagged`, the context to none.
pub open spec fn case_of_line(l: Seq<char>) -> Option<CaseView> {
    let f = split(l, '\t');
    if f.len() < 2 {
        None
    } else {
        Some(
            (
                f[0],
                f[1],
                if f.len() > 2 {
                    f[2]
                } else {
                    "untagged"@
                },
                if f.len() > 3 {
                    words(f[3])
                } else {
                    Seq::empty()
                },
            ),
        )
    }
}

/// The cases of the first `n` lines, in order: lines are trimmed, blank and
/// `#` lines skipped.
pub open spec fn cases_of(ls: Seq<Seq<char>>, n: nat) -> Seq<CaseView>
    decreases n,
{
    if n == 0 {
        Seq::empty()
    } else {
        let r = cases_of(ls, (n - 1) as nat);
        let l = trim(ls[n - 1]);
        if l.len() == 0 || l[0] == '#' {
            r
        } else {
            match case_of_line(l) {
                Some(c) => r.push(c),
                None => r,
            }
        }
    }
}

pub open spec fn spec_parse_cases(text: Seq<char>) -> Seq<CaseView> {
    cases_of(lines(text), lines(text).len())
}

pub open spec fn case_views(s: Seq<Case>) -> Seq<CaseView> {
    s.map_values(|c: Case| c.view())
}

/// Reads benchmark cases from a text of
/// `input<TAB>expected[<TAB>tag[<TAB>context]]` lines.
pub fn parse_cases(text: &str) -> (r: Vec<Case>)
    ensures
        case_views(r@) == spec_parse_cases(text@),
{
    let t = str_chars(text);
    let ls = lines_chars(t.as_slice());
    let ghost sl = lines(text@);
    let mut out: Vec<Case> = Vec::new();
    let mut i: usize = 0;
    while i < ls.len()
        invariant
            t@ == text@,
            sl == lines(text@),
            ls@.len() == sl.len(),
            forall|k: int| 0 <= k < ls@.len() ==> #[trigger] ls@[k]@ == sl[k],
            i <= ls@.len(),
            case_views(out@) == cases_of(sl, i as nat),
        decreases ls@.len() - i,
    {
        assert(ls@[i as int]@ == sl[i as int]);
        let l = trim_chars(ls[i].as_slice());
        if l.len() > 0 && l[0] != '#' {
            let f = split_chars(l.as_slice(), '\t');
            if f.len() >= 2 {
                let tag = if f.len() > 2 {
                    chars_to_string(f[2].as_slice())
                } else {
                    owned("untagged")
                };
                let ctx = if f.len() > 3 {
                    let s = chars_to_string(f[3].as_slice());
                    split_whitespace_owned(s.as_str())
                } else {
                    Vec::new()
                };
                let c = Case {
                    input: chars_to_string(f[0].as_slice()),
                    expected: chars_to_string(f[1].as_slice()),
                    tag,
                    context: Context::new(ctx),
                };
                let ghost before = case_views(out@);
                let ghost cv = c.view();
                out.push(c);
                proof {
                    if f@.len() <= 3 {
                        assert(strings_view(Seq::<String>::empty()) =~= Seq::<Seq<char>>::empty());
                    }
                    assert(cv == case_of_line(l@)->0);
                    assert(case_views(out@) =~= before.push(cv));
                }
            }
        }
        i = i + 1;
    }
    out
}

/// One benchmark case of `abbrev bench`: like a tune case, but its context
/// is absent unless the line gives one.
pub struct BenchCase {
    pub input: String,
    pub expected: String,
    pub tag: String,
    pub context: Option<Context>,
}

/// Abstract bench case: input, expected, tag, context words if given.
pub type BenchView = (Seq<char>, Seq<char>, Seq<char>, Option<Seq<Seq<char>>>);

impl BenchCase {
    pub open spec fn view(&self) -> BenchView {
        (
            self.input@,
            self.expected@,
            self.tag@,
            match self.context {
                Some(c) => Some(strings_view(c.previous_words@)),
                None => None,
            },
        )
    }
}

pub open spec fn bench_views(s: Seq<BenchCase>) -> Seq<BenchView> {
    s.map_values(|c: BenchCase| c.view())
}

/// The message for a line without an expected form.
pub open spec fn bad_bench_line(l: Seq<char>) -> Seq<char> {
    "bad bench line (need input\\texpected): "@ + l
}

/// The bench cases of the first `n` lines: lines are trimmed, blank and `#`
/// lines skipped; the first line without an expected form is an error.
pub open spec fn bench_cases_of(ls: Seq<Seq<char>>, n: nat) -> Result<Seq<BenchView>, Seq<char>>
    decreases n,
{
    if n == 0 {
        Ok(Seq::empty())
    } else {
        match bench_cases_of(ls, (n - 1) as nat) {
            Err(e) => Err(e),
            Ok(r) => {
                let l = trim(ls[n - 1]);
                if l.len() == 0 || l[0] == '#' {
                    Ok(r)
                } else {
                    let f = split(l, '\t');
                    if f.len() < 2 {
                        Err(bad_bench_line(l))
                    } else {
                        Ok(
                            r.push(
                                (
                                    f[0],
                                    f[1],
                                    if f.len() > 2 {
                                        f[2]
                                    } else {
                                        "untagged"@
                                    },
                                    if f.len() > 3 {
                                        Some(words(f[3]))
                                    } else {
                                        None
                                    },
                                ),
                            ),
                        )
                    }
                }
            },
        }
    }
}

pub open spec fn spec_parse_bench_cases(text: Seq<char>) -> Result<Seq<BenchView>, Seq<char>> {
    bench_cases_of(lines(text), lines(text).len())
}

proof fn lemma_bench_err_sticky(ls: Seq<Seq<char>>, a: nat, b: nat)
    requires
        a <= b <= ls.len(),
        bench_cases_of(ls, a) is Err,
    ensures
        bench_cases_of(ls, b) == bench_cases_of(ls, a),
    decreases b - a,
{
    if a < b {
        lemma_bench_err_sticky(ls, a, (b - 1) as nat);
    }
}

/// Reads the cases of `abbrev bench` from a text of
/// `input<TAB>expected[<TAB>tag[<TAB>context]]` lines; a case line without
/// an expected form is an error naming it.
pub fn parse_bench_cases(text: &str) -> (r: Result<Vec<BenchCase>, String>)
    ensures
        match r {
            Ok(v) => spec_parse_bench_cases(text@) == Ok::<Seq<BenchView>, Seq<char>>(bench_views(v@)),
            Err(e) => spec_parse_bench_cases(text@) == Err::<Seq<BenchView>, Seq<char>>(e@),
        },
{
    let t = str_chars(text);
    let ls = lines_chars(t.as_slice());
    let ghost sl = lines(text@);
    let mut out: Vec<BenchCase> = Vec::new();
    let mut i: usize = 0;
    assert(bench_views(out@) =~= Seq::<BenchView>::empty());
    while i < ls.len()
        invariant
            t@ == text@,
            sl == lines(text@),
            ls@.len() == sl.len(),
            forall|k: int| 0 <= k < ls@.len() ==> #[trigger] ls@[k]@ == sl[k],
            i <= ls@.len(),
            bench_cases_of(sl, i as nat) == Ok::<Seq<BenchView>, Seq<char>>(bench_views(out@)),
        decreases ls@.len() - i,
    {
        assert(ls@[i as int]@ == sl[i as int]);
        let l = trim_chars(ls[i].as_slice());
        if l.len() > 0 && l[0] != '#' {
            let f = split_chars(l.as_slice(), '\t');
            if f.len() < 2 {
                let mut msg = str_chars("bad bench line (need input\\texpected): ");
                crate::text::append_chars(&mut msg, l.as_slice());
                let e = chars_to_string(msg.as_slice());
                proof {
                    assert(bench_cases_of(sl, (i + 1) as nat) == Err::<Seq<BenchView>, Seq<char>>(e@));
                    lemma_bench_err_sticky(sl, (i + 1) as nat, sl.len());
                }
                return Err(e);
            }
            let tag = if f.len() > 2 {
                chars_to_string(f[2].as_slice())
            } else {
                owned("untagged")
            };
            let ctx = if f.len() > 3 {
                let s = chars_to_string(f[3].as_slice());
                Some(Context::new(split_whitespace_owned(s.as_str())))
            } else {
                None
            };
            let c = BenchCase {
                input: chars_to_string(f[0].as_slice()),
                expected: chars_to_string(f[1].as_slice()),
                tag,
                context: ctx,
            };
            let ghost before = bench_views(out@);
            let ghost cv = c.view();
            out.push(c);
            proof {
                assert(bench_views(out@) =~= before.push(cv));
            }
        }
        i = i + 1;
    }
    Ok(out)
}

/// Options of `abbrev tune`.
pub struct TuneArgs {
    pub train_path: String,
    pub valid_path: Option<String>,
    pub lexicon_path: Option<String>,
    pub lm_path: Option<String>,
    pub shortcuts_path: Option<String>,
    pub iters: usize,
    pub seed: u64,
}

/// Abstract tune options: train, valid, lexicon, lm and shortcuts paths,
/// iterations, seed.
pub type TuneModel = (
    Option<Seq<char>>,
    Option<Seq<char>>,
    Option<Seq<char>>,
    Option<Seq<char>>,
    Option<Seq<char>>,
    nat,
    nat,
);

pub open spec fn unknown_message(a: Seq<char>) -> Seq<char> {
    "tune: unknown argument "@ + a
}

/// Reads tune options from position `i` on. Path flags take the next
/// argument when there is one; `--iters` and `--seed` take numbers; any
/// other argument is an error.
pub open spec fn tune_from(args: Seq<Seq<char>>, i: nat, m: TuneModel) -> Result<TuneModel, Seq<char>>
    decreases args.len() - i,
{
    if i >= args.len() {
        Ok(m)
    } else {
        let a = args[i as int];
        let next = next_arg(args, i);
        let j = if next is Some {
            i + 2
        } else {
            args.len() as nat
        };
        if a == "--train"@ {
            tune_from(args, j, (next, m.1, m.2, m.3, m.4, m.5, m.6))
        } else if a == "--valid"@ {
            tune_from(args, j, (m.0, next, m.2, m.3, m.4, m.5, m.6))
        } else if a == "--lexicon"@ {
            tune_from(args, j, (m.0, m.1, next, m.3, m.4, m.5, m.6))
        } else if a == "--lm"@ {
            tune_from(args, j, (m.0, m.1, m.2, next, m.4, m.5, m.6))
        } else if a == "--shortcuts"@ {
            tune_from(args, j, (m.0, m.1, m.2, m.3, next, m.5, m.6))
        } else if a == "--iters"@ {
            match next {
                None => Err("--iters needs a number"@),
                Some(v) => match parse_uint(v, usize::MAX as nat) {
                    None => Err("--iters needs a number"@),
                    Some(n) => tune_from(args, i + 2, (m.0, m.1, m.2, m.3, m.4, n, m.6)),
                },
            }
        } else if a == "--seed"@ {
            match next {
                None => Err("--seed needs a number"@),
                Some(v) => match parse_uint(v, u64::MAX as nat) {
                    None => Err("--seed needs a number"@),
                    Some(n) => tune_from(args, i + 2, (m.0, m.1, m.2, m.3, m.4, m.5, n)),
                },
            }
        } else {
            Err(unknown_message(a))
        }
    }
}

/// What `parse_tune_args` reads: the options, or an error — also when no
/// training set is named.
pub open spec fn spec_parse_tune_args(args: Seq<Seq<char>>) -> Result<TuneModel, Seq<char>> {
    match tune_from(args, 0, (None, None, None, None, None, 300, 1)) {
        Err(e) => Err(e),
        Ok(m) => if m.0 is None {
            Err("tune needs --train <cases.tsv>"@)
        } else {
            Ok(m)
        },
    }
}

fn is_flag(a: &[char], flag: &str) -> (r: bool)
    ensures
        r == (a@ == flag@),
{
    let f = str_chars(flag);
    chars_eq(a, f.as_slice())
}

/// Reads the options of `abbrev tune`.
pub fn parse_tune_args(args: &Vec<String>) -> (r: Result<TuneArgs, String>)
    ensures
        match r {
            Ok(t) => spec_parse_tune_args(strings_view(args@)) == Ok::<TuneModel, Seq<char>>(
                (
                    Some(t.train_path@),
                    opt_view(t.valid_path),
                    opt_view(t.lexicon_path),
                    opt_view(t.lm_path),
                    opt_view(t.shortcuts_path),
                    t.iters as nat,
                    t.seed as nat,
                ),
            ),
            Err(e) => spec_parse_tune_args(strings_view(args@)) == Err::<TuneModel, Seq<char>>(e@),
        },
{
    let ghost av = strings_view(args@);
    let mut train: Option<String> = None;
    let mut valid: Option<String> = None;
    let mut lexicon: Option<String> = None;
    let mut lm: Option<String> = None;
    let mut shortcuts: Option<String> = None;
    let mut iters: usize = 300;
    let mut seed: u64 = 1;
    let mut i: usize = 0;
    while i < args.len()
        invariant
            av == strings_view(args@),
            i <= args@.len(),
            tune_from(av, 0, (None, None, None, None, None, 300, 1)) == tune_from(
                av,
                i as nat,
                (
                    opt_view(train),
                    opt_view(valid),
                    opt_view(lexicon),
                    opt_view(lm),
                    opt_view(shortcuts),
                    iters as nat,
                    seed as nat,
                ),
            ),
        decreases args@.len() - i,
    {
        proof {
            reveal_strlit("--train");
            reveal_strlit("--valid");
            reveal_strlit("--lexicon");
            reveal_strlit("--lm");
            reveal_strlit("--shortcuts");
            reveal_strlit("--iters");
            reveal_strlit("--seed");
        }
        let a = str_chars(args[i].as_str());
        assert(a@ == av[i as int]);
        let has_next = i + 1 < args.len();
        let next: Option<String> = if has_next {
            Some(owned(args[i + 1].as_str()))
        } else {
            None
        };
        assert(opt_view(next) == next_arg(av, i as nat));
        let j = if has_next {
            i + 2
        } else {
            args.len()
        };
        if is_flag(a.as_slice(), "--train") {
            train = next;
            i = j;
        } else if is_flag(a.as_slice(), "--valid") {
            valid = next;
            i = j;
        } else if is_flag(a.as_slice(), "--lexicon") {
            lexicon = next;
            i = j;
        } else if is_flag(a.as_slice(), "--lm") {
            lm = next;
            i = j;
        } else if is_flag(a.as_slice(), "--shortcuts") {
            shortcuts = next;
            i = j;
        } else if is_flag(a.as_slice(), "--iters") {
            let parsed = match &next {
                Some(v) => {
                    let vc = str_chars(v.as_str());
                    match parse_u64(vc.as_slice()) {
                        Some(n) => if n as u128 <= usize::MAX as u128 {
                            Some(n as usize)
                        } else {
                            None
                        },
                        None => None,
                    }
                },
                None => None,
            };
            match parsed {
                Some(n) => {
                    iters = n;
                    i = j;
                },
                None => {
                    return Err(owned("--iters needs a number"));
                },
            }
        } else if is_flag(a.as_slice(), "--seed") {
            let parsed = match &next {
                Some(v) => {
                    let vc = str_chars(v.as_str());
                    parse_u64(vc.as_slice())
                },
                None => None,
            };
            match parsed {
                Some(n) => {
                    seed = n;
                    i = j;
                },
                None => {
                    return Err(owned("--seed needs a number"));
                },
            }
        } else {
            let mut m = str_chars("tune: unknown argument ");
            crate::text::append_chars(&mut m, a.as_slice());
            return Err(chars_to_string(m.as_slice()));
        }
    }
    match train {
        Some(t) => Ok(
            TuneArgs {
                train_path: t,
                valid_path: valid,
                lexicon_path: lexicon,
                lm_path: lm,
                shortcuts_path: shortcuts,
                iters,
                seed,
            },
        ),
        None => Err(owned("tune needs --train <cases.tsv>")),
    }
}

} // verus!
