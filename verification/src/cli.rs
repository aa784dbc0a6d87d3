//! Command-line argument rules of the `abbrev` tool: which flags take a
//! value, what each sets, and which mistakes are reported. Reading the
//! files the flags name is the caller's business.

use vstd::prelude::*;

use crate::context::Context;
use crate::text::{
    chars_eq, owned, parse_u64, parse_uint, split_whitespace_owned, str_chars, words,
};

verus! {

/// What the shared options of a subcommand hold, as plain text.
pub struct CommonArgs {
    pub lexicon_path: Option<String>,
    pub extra_lexicon_paths: Vec<String>,
    pub lm_path: Option<String>,
    pub shortcuts_paths: Vec<String>,
    pub paradigms_path: Option<String>,
    pub mask_path: Option<String>,
    pub limit: usize,
    pub context: Context,
    pub positional: Vec<String>,
}

/// Abstract options: every text by its characters.
pub struct ArgsModel {
    pub lexicon: Option<Seq<char>>,
    pub extra_lexicons: Seq<Seq<char>>,
    pub lm: Option<Seq<char>>,
    pub shortcuts: Seq<Seq<char>>,
    pub paradigms: Option<Seq<char>>,
    pub mask: Option<Seq<char>>,
    pub limit: nat,
    pub context: Seq<Seq<char>>,
    pub positional: Seq<Seq<char>>,
}

pub open spec fn opt_view(o: Option<String>) -> Option<Seq<char>> {
    match o {
        Some(s) => Some(s@),
        None => None,
    }
}

pub open spec fn strings_view(v: Seq<String>) -> Seq<Seq<char>> {
    v.map_values(|s: String| s@)
}

impl CommonArgs {
    pub open spec fn model(&self) -> ArgsModel {
        ArgsModel {
            lexicon: opt_view(self.lexicon_path),
            extra_lexicons: strings_view(self.extra_lexicon_paths@),
            lm: opt_view(self.lm_path),
            shortcuts: strings_view(self.shortcuts_paths@),
            paradigms: opt_view(self.paradigms_path),
            mask: opt_view(self.mask_path),
            limit: self.limit as nat,
            context: strings_view(self.context.previous_words@),
            positional: strings_view(self.positional@),
        }
    }
}

/// The defaults: no paths, a limit of five, no context.
pub open spec fn default_args() -> ArgsModel {
    ArgsModel {
        lexicon: None,
        extra_lexicons: Seq::empty(),
        lm: None,
        shortcuts: Seq::empty(),
        paradigms: None,
        mask: None,
        limit: 5,
        context: Seq::empty(),
        positional: Seq::empty(),
    }
}

/// The argument after position `i`, if any.
pub open spec fn next_arg(args: Seq<Seq<char>>, i: nat) -> Option<Seq<char>> {
    if i + 1 < args.len() {
        Some(args[(i + 1) as int])
    } else {
        None
    }
}

/// Reads the options from position `i` on into `m`: a flag that takes a
/// value consumes the next argument and fails when there is none (or, for
/// `--limit`, when it is not a number); anything else is positional.
pub open spec fn args_from(args: Seq<Seq<char>>, i: nat, m: ArgsModel) -> Result<ArgsModel, Seq<char>>
    decreases args.len() - i,
{
    if i >= args.len() {
        Ok(m)
    } else {
        let a = args[i as int];
        let next = next_arg(args, i);
        if a == "--lexicon"@ {
            match next {
                None => Err("--lexicon needs a path"@),
                Some(v) => args_from(args, i + 2, ArgsModel { lexicon: Some(v), ..m }),
            }
        } else if a == "--extra-lexicon"@ {
            match next {
                None => Err("--extra-lexicon needs a path"@),
                Some(v) => args_from(
                    args,
                    i + 2,
                    ArgsModel { extra_lexicons: m.extra_lexicons.push(v), ..m },
                ),
            }
        } else if a == "--lm"@ {
            match next {
                None => Err("--lm needs a path"@),
                Some(v) => args_from(args, i + 2, ArgsModel { lm: Some(v), ..m }),
            }
        } else if a == "--shortcuts"@ {
            match next {
                None => Err("--shortcuts needs a path"@),
                Some(v) => args_from(
                    args,
                    i + 2,
                    ArgsModel { shortcuts: m.shortcuts.push(v), ..m },
                ),
            }
        } else if a == "--paradigms"@ {
            match next {
                None => Err("--paradigms needs a path"@),
                Some(v) => args_from(args, i + 2, ArgsModel { paradigms: Some(v), ..m }),
            }
        } else if a == "--mask"@ {
            match next {
                None => Err("--mask needs a path"@),
                Some(v) => args_from(args, i + 2, ArgsModel { mask: Some(v), ..m }),
            }
        } else if a == "--limit"@ {
            match next {
                None => Err("--limit needs a number"@),
                Some(v) => match parse_uint(v, usize::MAX as nat) {
                    None => Err("--limit needs a number"@),
                    Some(n) => args_from(args, i + 2, ArgsModel { limit: n, ..m }),
                },
            }
        } else if a == "--context"@ {
            match next {
                None => Err("--context needs a string"@),
                Some(v) => args_from(args, i + 2, ArgsModel { context: words(v), ..m }),
            }
        } else {
            args_from(args, i + 1, ArgsModel { positional: m.positional.push(a), ..m })
        }
    }
}

/// What `parse_args` reads from a whole argument list.
pub open spec fn spec_parse_args(args: Seq<Seq<char>>) -> Result<ArgsModel, Seq<char>> {
    args_from(args, 0, default_args())
}

pub(crate) fn is_flag(a: &[char], flag: &str) -> (r: bool)
    ensures
        r == (a@ == flag@),
{
    let f = str_chars(flag);
    chars_eq(a, f.as_slice())
}

/// `str::parse::<usize>()`, as an `Option`.
pub(crate) fn parse_usize(s: &[char]) -> (r: Option<usize>)
    ensures
        r matches Some(v) ==> parse_uint(s@, usize::MAX as nat) == Some(v as nat),
        r is None ==> parse_uint(s@, usize::MAX as nat) is None,
{
    match parse_u64(s) {
        Some(v) => if v as u128 <= usize::MAX as u128 {
            Some(v as usize)
        } else {
            None
        },
        None => None,
    }
}

/// Reads the shared options of a subcommand: `--lexicon`, `--lm`,
/// `--paradigms`, `--mask` and `--context` take one value (the last one
/// given wins), `--extra-lexicon` and `--shortcuts` may repeat, `--limit`
/// takes a number; every other argument is positional.
pub fn parse_args(args: &Vec<String>) -> (r: Result<CommonArgs, String>)
    ensures
        match r {
            Ok(a) => spec_parse_args(strings_view(args@)) == Ok::<ArgsModel, Seq<char>>(a.model()),
            Err(e) => spec_parse_args(strings_view(args@)) == Err::<ArgsModel, Seq<char>>(e@),
        },
{
    let ghost av = strings_view(args@);
    let mut out = CommonArgs {
        lexicon_path: None,
        extra_lexicon_paths: Vec::new(),
        lm_path: None,
        shortcuts_paths: Vec::new(),
        paradigms_path: None,
        mask_path: None,
        limit: 5,
        context: Context::new(Vec::new()),
        positional: Vec::new(),
    };
    proof {
        reveal_strlit("--lexicon");
        reveal_strlit("--extra-lexicon");
        reveal_strlit("--lm");
        reveal_strlit("--shortcuts");
        reveal_strlit("--paradigms");
        reveal_strlit("--mask");
        reveal_strlit("--limit");
        reveal_strlit("--context");
        assert(strings_view(out.extra_lexicon_paths@) =~= Seq::<Seq<char>>::empty());
        assert(strings_view(out.shortcuts_paths@) =~= Seq::<Seq<char>>::empty());
        assert(strings_view(out.context.previous_words@) =~= Seq::<Seq<char>>::empty());
        assert(strings_view(out.positional@) =~= Seq::<Seq<char>>::empty());
    }
    assert(out.model() == default_args());
    let mut i: usize = 0;
    while i < args.len()
        invariant
            av == strings_view(args@),
            i <= args@.len(),
            spec_parse_args(av) == args_from(av, i as nat, out.model()),
        decreases args@.len() - i,
    {
        proof {
            reveal_strlit("--lexicon");
            reveal_strlit("--extra-lexicon");
            reveal_strlit("--lm");
            reveal_strlit("--shortcuts");
            reveal_strlit("--paradigms");
            reveal_strlit("--mask");
            reveal_strlit("--limit");
            reveal_strlit("--context");
        }
        let a = str_chars(args[i].as_str());
        assert(a@ == av[i as int]);
        let has_next = i + 1 < args.len();
        let ghost m = out.model();
        if is_flag(a.as_slice(), "--lexicon") || is_flag(a.as_slice(), "--extra-lexicon")
            || is_flag(a.as_slice(), "--lm") || is_flag(a.as_slice(), "--shortcuts") || is_flag(
            a.as_slice(),
            "--paradigms",
        ) || is_flag(a.as_slice(), "--mask") || is_flag(a.as_slice(), "--limit") || is_flag(
            a.as_slice(),
            "--context",
        ) {
            if !has_next {
                let msg = if is_flag(a.as_slice(), "--lexicon") {
                    owned("--lexicon needs a path")
                } else if is_flag(a.as_slice(), "--extra-lexicon") {
                    owned("--extra-lexicon needs a path")
                } else if is_flag(a.as_slice(), "--lm") {
                    owned("--lm needs a path")
                } else if is_flag(a.as_slice(), "--shortcuts") {
                    owned("--shortcuts needs a path")
                } else if is_flag(a.as_slice(), "--paradigms") {
                    owned("--paradigms needs a path")
                } else if is_flag(a.as_slice(), "--mask") {
                    owned("--mask needs a path")
                } else if is_flag(a.as_slice(), "--limit") {
                    owned("--limit needs a number")
                } else {
                    owned("--context needs a string")
                };
                return Err(msg);
            }
            let v = &args[i + 1];
            assert(v@ == av[i + 1]);
            if is_flag(a.as_slice(), "--lexicon") {
                out.lexicon_path = Some(owned(v.as_str()));
                assert(out.model() =~~= ArgsModel { lexicon: Some(v@), ..m });
            } else if is_flag(a.as_slice(), "--extra-lexicon") {
                let o = owned(v.as_str());
                let ghost before = out.extra_lexicon_paths@;
                out.extra_lexicon_paths.push(o);
                assert(strings_view(out.extra_lexicon_paths@) =~= strings_view(before).push(v@));
                assert(out.model() =~~= ArgsModel {
                    extra_lexicons: m.extra_lexicons.push(v@),
                    ..m
                });
            } else if is_flag(a.as_slice(), "--lm") {
                out.lm_path = Some(owned(v.as_str()));
                assert(out.model() =~~= ArgsModel { lm: Some(v@), ..m });
            } else if is_flag(a.as_slice(), "--shortcuts") {
                let o = owned(v.as_str());
                let ghost before = out.shortcuts_paths@;
                out.shortcuts_paths.push(o);
                assert(strings_view(out.shortcuts_paths@) =~= strings_view(before).push(v@));
                assert(out.model() =~~= ArgsModel { shortcuts: m.shortcuts.push(v@), ..m });
            } else if is_flag(a.as_slice(), "--paradigms") {
                out.paradigms_path = Some(owned(v.as_str()));
                assert(out.model() =~~= ArgsModel { paradigms: Some(v@), ..m });
            } else if is_flag(a.as_slice(), "--mask") {
                out.mask_path = Some(owned(v.as_str()));
                assert(out.model() =~~= ArgsModel { mask: Some(v@), ..m });
            } else if is_flag(a.as_slice(), "--limit") {
                let vc = str_chars(v.as_str());
                match parse_usize(vc.as_slice()) {
                    Some(n) => {
                        out.limit = n;
                        assert(out.model() =~~= ArgsModel { limit: n as nat, ..m });
                    },
                    None => {
                        return Err(owned("--limit needs a number"));
                    },
                }
            } else {
                out.context = Context::new(split_whitespace_owned(v.as_str()));
                assert(out.model() =~~= ArgsModel { context: words(v@), ..m });
            }
            i = i + 2;
        } else {
            out.positional.push(owned(args[i].as_str()));
            proof {
                assert(out.model().positional =~= m.positional.push(a@));
                assert(out.model() =~~= ArgsModel { positional: m.positional.push(a@), ..m });
            }
            i = i + 1;
        }
    }
    Ok(out)
}


/// Options of `abbrev bench` before the shared ones.
pub struct BenchArgs {
    pub errors_path: Option<String>,
    pub recency: bool,
    pub noise: usize,
    pub rest: Vec<String>,
}

/// Abstract bench options: errors path, recency slice, noise (and whether
/// it was given), remaining arguments.
pub type BenchModel = (Option<Seq<char>>, bool, nat, bool, Seq<Seq<char>>);

/// Reads bench options from position `i` on: `--errors` takes the next
/// argument when there is one, `--recency` is a switch, `--noise` takes a
/// number; everything else is left for the shared options.
pub open spec fn bench_from(args: Seq<Seq<char>>, i: nat, m: BenchModel) -> Result<BenchModel, Seq<char>>
    decreases args.len() - i,
{
    if i >= args.len() {
        Ok(m)
    } else {
        let a = args[i as int];
        let next = next_arg(args, i);
        if a == "--errors"@ {
            match next {
                Some(v) => bench_from(args, i + 2, (Some(v), m.1, m.2, m.3, m.4)),
                None => Ok((None, m.1, m.2, m.3, m.4)),
            }
        } else if a == "--recency"@ {
            bench_from(args, i + 1, (m.0, true, m.2, m.3, m.4))
        } else if a == "--noise"@ {
            match next {
                None => Err("--noise needs a number"@),
                Some(v) => match parse_uint(v, usize::MAX as nat) {
                    None => Err("--noise needs a number"@),
                    Some(n) => bench_from(args, i + 2, (m.0, m.1, n, true, m.4)),
                },
            }
        } else {
            bench_from(args, i + 1, (m.0, m.1, m.2, m.3, m.4.push(a)))
        }
    }
}

/// What `parse_bench_args` reads: the options, or an error — also when
/// `--noise` is given without `--recency`, where it would mean nothing.
pub open spec fn spec_parse_bench_args(args: Seq<Seq<char>>) -> Result<BenchModel, Seq<char>> {
    match bench_from(args, 0, (None, false, 0, false, Seq::empty())) {
        Err(e) => Err(e),
        Ok(m) => if m.3 && !m.1 {
            Err("--noise requires --recency"@)
        } else {
            Ok(m)
        },
    }
}

/// Reads the options of `abbrev bench` that precede the shared ones.
pub fn parse_bench_args(args: &Vec<String>) -> (r: Result<BenchArgs, String>)
    ensures
        match r {
            Ok(b) => spec_parse_bench_args(strings_view(args@)) matches Ok(m) && m.0 == opt_view(
                b.errors_path,
            ) && m.1 == b.recency && m.2 == b.noise as nat && m.4 == strings_view(b.rest@),
            Err(e) => spec_parse_bench_args(strings_view(args@)) == Err::<BenchModel, Seq<char>>(
                e@,
            ),
        },
{
    let ghost av = strings_view(args@);
    let mut errors_path: Option<String> = None;
    let mut recency = false;
    let mut noise: usize = 0;
    let mut noise_given = false;
    let mut rest: Vec<String> = Vec::new();
    let mut i: usize = 0;
    assert(strings_view(rest@) =~= Seq::<Seq<char>>::empty());
    while i < args.len()
        invariant
            av == strings_view(args@),
            i <= args@.len(),
            bench_from(av, 0, (None, false, 0, false, Seq::empty())) == bench_from(
                av,
                i as nat,
                (opt_view(errors_path), recency, noise as nat, noise_given, strings_view(rest@)),
            ),
        decreases args@.len() - i,
    {
        proof {
            reveal_strlit("--errors");
            reveal_strlit("--recency");
            reveal_strlit("--noise");
        }
        let a = str_chars(args[i].as_str());
        assert(a@ == av[i as int]);
        if is_flag(a.as_slice(), "--errors") {
            if i + 1 < args.len() {
                errors_path = Some(owned(args[i + 1].as_str()));
                i = i + 2;
            } else {
                errors_path = None;
                i = args.len();
            }
        } else if is_flag(a.as_slice(), "--recency") {
            recency = true;
            i = i + 1;
        } else if is_flag(a.as_slice(), "--noise") {
            if i + 1 >= args.len() {
                return Err(owned("--noise needs a number"));
            }
            let vc = str_chars(args[i + 1].as_str());
            assert(vc@ == av[i + 1]);
            match parse_usize(vc.as_slice()) {
                Some(n) => {
                    noise = n;
                    noise_given = true;
                },
                None => {
                    return Err(owned("--noise needs a number"));
                },
            }
            i = i + 2;
        } else {
            let ghost before = rest@;
            rest.push(owned(args[i].as_str()));
            assert(strings_view(rest@) =~= strings_view(before).push(a@));
            i = i + 1;
        }
    }
    if noise_given && !recency {
        return Err(owned("--noise requires --recency"));
    }
    Ok(BenchArgs { errors_path, recency, noise, rest })
}

/// Abstract snapshot options: the output path (if given) and the rest.
pub type SnapshotModel = (Option<Seq<char>>, Seq<Seq<char>>);

/// Reads snapshot options from position `i` on: `-o`/`--output` takes the
/// next argument; everything else is left for the shared options.
pub open spec fn snapshot_from(args: Seq<Seq<char>>, i: nat, m: SnapshotModel) -> Result<
    SnapshotModel,
    Seq<char>,
>
    decreases args.len() - i,
{
    if i >= args.len() {
        Ok(m)
    } else {
        let a = args[i as int];
        if a == "-o"@ || a == "--output"@ {
            match next_arg(args, i) {
                None => Err("-o needs a path"@),
                Some(v) => snapshot_from(args, i + 2, (Some(v), m.1)),
            }
        } else {
            snapshot_from(args, i + 1, (m.0, m.1.push(a)))
        }
    }
}

/// Reads the options of `abbrev snapshot` that precede the shared ones:
/// the output path and the remaining arguments.
pub fn parse_snapshot_args(args: &Vec<String>) -> (r: Result<(Option<String>, Vec<String>), String>)
    ensures
        match r {
            Ok((o, rest)) => snapshot_from(strings_view(args@), 0, (None, Seq::empty())) == Ok::<
                SnapshotModel,
                Seq<char>,
            >((opt_view(o), strings_view(rest@))),
            Err(e) => snapshot_from(strings_view(args@), 0, (None, Seq::empty())) == Err::<
                SnapshotModel,
                Seq<char>,
            >(e@),
        },
{
    let ghost av = strings_view(args@);
    let mut output: Option<String> = None;
    let mut rest: Vec<String> = Vec::new();
    let mut i: usize = 0;
    assert(strings_view(rest@) =~= Seq::<Seq<char>>::empty());
    while i < args.len()
        invariant
            av == strings_view(args@),
            i <= args@.len(),
            snapshot_from(av, 0, (None, Seq::empty())) == snapshot_from(
                av,
                i as nat,
                (opt_view(output), strings_view(rest@)),
            ),
        decreases args@.len() - i,
    {
        let a = str_chars(args[i].as_str());
        assert(a@ == av[i as int]);
        if is_flag(a.as_slice(), "-o") || is_flag(a.as_slice(), "--output") {
            if i + 1 >= args.len() {
                return Err(owned("-o needs a path"));
            }
            output = Some(owned(args[i + 1].as_str()));
            i = i + 2;
        } else {
            let ghost before = rest@;
            rest.push(owned(args[i].as_str()));
            assert(strings_view(rest@) =~= strings_view(before).push(a@));
            i = i + 1;
        }
    }
    Ok((output, rest))
}

} // verus!
