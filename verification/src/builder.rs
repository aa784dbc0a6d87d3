//! Text rules of the offline lexicon pipeline: which raw words are
//! Russian, how a corpus line splits into tokens, and which RNC parts of
//! speech are indeclinable closed classes.

use vstd::prelude::*;

use crate::alphabet::{normalize_chars, spec_normalize};
use crate::cli::{is_flag, next_arg, opt_view, parse_usize, strings_view};
use crate::text::{
    append_chars, chars_eq, chars_to_string, copy_range, decimal, is_prefix, lines, lines_chars,
    owned, parse_u64, parse_uint, push_decimal, split, split_chars, starts_with, str_chars, trim,
    trim_chars,
};

verus! {

/// A letter `а`–`я` or `А`–`Я`, `ё`/`Ё`, or a hyphen.
pub open spec fn is_word_char(c: char) -> bool {
    ('а' <= c && c <= 'я') || ('А' <= c && c <= 'Я') || c == 'ё' || c == 'Ё' || c == '-'
}

/// Non-empty and made of Cyrillic letters and hyphens only.
pub open spec fn spec_russian_word(s: Seq<char>) -> bool {
    s.len() > 0 && forall|i: int| 0 <= i < s.len() ==> is_word_char(#[trigger] s[i])
}

fn all_word_chars(s: &str) -> (r: bool)
    ensures
        r == spec_russian_word(s@),
{
    let v = str_chars(s);
    if v.len() == 0 {
        return false;
    }
    let mut i: usize = 0;
    while i < v.len()
        invariant
            v@ == s@,
            i <= v@.len(),
            forall|k: int| 0 <= k < i ==> is_word_char(#[trigger] v@[k]),
        decreases v@.len() - i,
    {
        let c = v[i];
        if !(('а' <= c && c <= 'я') || ('А' <= c && c <= 'Я') || c == 'ё' || c == 'Ё' || c == '-') {
            assert(!is_word_char(v@[i as int]));
            return false;
        }
        i = i + 1;
    }
    true
}

/// Whether a lexicon source form is a Russian word (letters and hyphens).
pub fn is_russian_word(s: &str) -> (r: bool)
    ensures
        r == spec_russian_word(s@),
{
    all_word_chars(s)
}

/// Whether an RNC lemma is Cyrillic (letters and hyphens, non-empty).
pub fn is_cyrillic_lemma(s: &str) -> (r: bool)
    ensures
        r == spec_russian_word(s@),
{
    all_word_chars(s)
}

/// A character that can be part of a corpus token: `а`–`я` or a hyphen.
pub open spec fn is_token_char(c: char) -> bool {
    ('а' <= c && c <= 'я') || c == '-'
}

/// The pieces of `s` between characters that cannot be part of a token
/// (`str::split` with a predicate), always at least one.
pub open spec fn token_pieces(s: Seq<char>) -> Seq<Seq<char>>
    decreases s.len(),
{
    if s.len() == 0 {
        seq![Seq::<char>::empty()]
    } else {
        let r = token_pieces(s.drop_last());
        if !is_token_char(s.last()) {
            r.push(Seq::<char>::empty())
        } else {
            r.update(r.len() - 1, r.last().push(s.last()))
        }
    }
}

/// A piece that counts as a token: non-empty and not a lone hyphen.
pub open spec fn keeps_token(t: Seq<char>) -> bool {
    t.len() > 0 && t != seq!['-']
}

/// The tokens among `pieces`, in order.
pub open spec fn kept_tokens(pieces: Seq<Seq<char>>) -> Seq<Seq<char>>
    decreases pieces.len(),
{
    if pieces.len() == 0 {
        Seq::empty()
    } else {
        let r = kept_tokens(pieces.drop_last());
        if keeps_token(pieces.last()) {
            r.push(pieces.last())
        } else {
            r
        }
    }
}

/// Tokens of a corpus line: the normalized line split at every character
/// outside `а`–`я` and `-`, empty pieces and lone hyphens dropped.
pub open spec fn spec_tokenize(line: Seq<char>) -> Seq<Seq<char>> {
    kept_tokens(token_pieces(spec_normalize(line)))
}

proof fn lemma_token_pieces_nonempty(s: Seq<char>)
    ensures
        token_pieces(s).len() >= 1,
    decreases s.len(),
{
    if s.len() > 0 {
        lemma_token_pieces_nonempty(s.drop_last());
    }
}

pub fn tokenize(line: &str) -> (r: Vec<String>)
    ensures
        r@.map_values(|t: String| t@) == spec_tokenize(line@),
{
    let raw = str_chars(line);
    let s = normalize_chars(raw.as_slice());
    // pieces
    let mut pieces: Vec<Vec<char>> = Vec::new();
    let mut cur: Vec<char> = Vec::new();
    let mut i: usize = 0;
    assert(s@.take(0) =~= Seq::<char>::empty());
    while i < s.len()
        invariant
            i <= s@.len(),
            pieces@.len() + 1 == token_pieces(s@.take(i as int)).len(),
            forall|k: int|
                0 <= k < pieces@.len() ==> #[trigger] pieces@[k]@ == token_pieces(
                    s@.take(i as int),
                )[k],
            cur@ == token_pieces(s@.take(i as int)).last(),
        decreases s@.len() - i,
    {
        let c = s[i];
        proof {
            lemma_token_pieces_nonempty(s@.take(i as int));
        }
        assert(s@.take(i + 1).drop_last() =~= s@.take(i as int));
        if !(('а' <= c && c <= 'я') || c == '-') {
            pieces.push(cur);
            cur = Vec::new();
        } else {
            cur.push(c);
        }
        i = i + 1;
    }
    pieces.push(cur);
    assert(s@.take(s@.len() as int) =~= s@);
    let ghost ps = token_pieces(s@);
    // keep tokens
    let mut out: Vec<String> = Vec::new();
    let mut j: usize = 0;
    assert(ps.take(0) =~= Seq::<Seq<char>>::empty());
    while j < pieces.len()
        invariant
            ps == token_pieces(s@),
            pieces@.len() == ps.len(),
            forall|k: int| 0 <= k < pieces@.len() ==> #[trigger] pieces@[k]@ == ps[k],
            j <= pieces@.len(),
            out@.map_values(|t: String| t@) == kept_tokens(ps.take(j as int)),
        decreases pieces@.len() - j,
    {
        let p = &pieces[j];
        assert(p@ == ps[j as int]);
        assert(ps.take(j + 1).drop_last() =~= ps.take(j as int));
        let ghost before = out@.map_values(|t: String| t@);
        let dash = vec!['-'];
        assert(dash@ =~= seq!['-']);
        if p.len() > 0 && !chars_eq(p.as_slice(), dash.as_slice()) {
            out.push(chars_to_string(p.as_slice()));
            assert(out@.map_values(|t: String| t@) =~= before.push(p@));
        }
        j = j + 1;
    }
    assert(ps.take(ps.len() as int) =~= ps);
    out
}

/// RNC parts of speech whose lemma frequency equals their form frequency:
/// the indeclinable closed classes.
pub open spec fn spec_function_pos(pos: Seq<char>) -> bool {
    pos == seq!['c', 'o', 'n', 'j'] || pos == seq!['p', 'r'] || pos == seq!['p', 'a', 'r', 't']
        || pos == seq!['i', 'n', 't', 'j'] || pos == seq!['a', 'd', 'v', 'p', 'r', 'o']
}

/// Whether `pos` is one of the indeclinable closed classes (`conj`, `pr`,
/// `part`, `intj`, `advpro`).
pub fn is_function_pos(pos: &str) -> (r: bool)
    ensures
        r == spec_function_pos(pos@),
{
    let p = str_chars(pos);
    let conj = vec!['c', 'o', 'n', 'j'];
    let pr = vec!['p', 'r'];
    let part = vec!['p', 'a', 'r', 't'];
    let intj = vec!['i', 'n', 't', 'j'];
    let advpro = vec!['a', 'd', 'v', 'p', 'r', 'o'];
    chars_eq(p.as_slice(), conj.as_slice()) || chars_eq(p.as_slice(), pr.as_slice()) || chars_eq(
        p.as_slice(),
        part.as_slice(),
    ) || chars_eq(p.as_slice(), intj.as_slice()) || chars_eq(p.as_slice(), advpro.as_slice())
}

/// A separator of the importer's loose rows: tab, `;`, `,` or space.
pub open spec fn is_loose_sep(c: char) -> bool {
    c == '\t' || c == ';' || c == ',' || c == ' '
}

/// The pieces of `s` between loose separators, always at least one.
pub open spec fn loose_pieces(s: Seq<char>) -> Seq<Seq<char>>
    decreases s.len(),
{
    if s.len() == 0 {
        seq![Seq::<char>::empty()]
    } else {
        let r = loose_pieces(s.drop_last());
        if is_loose_sep(s.last()) {
            r.push(Seq::<char>::empty())
        } else {
            r.update(r.len() - 1, r.last().push(s.last()))
        }
    }
}

/// The trimmed, non-empty pieces among `pieces`, in order.
pub open spec fn loose_fields(pieces: Seq<Seq<char>>) -> Seq<Seq<char>>
    decreases pieces.len(),
{
    if pieces.len() == 0 {
        Seq::empty()
    } else {
        let r = loose_fields(pieces.drop_last());
        let t = trim(pieces.last());
        if t.len() > 0 {
            r.push(t)
        } else {
            r
        }
    }
}

/// The fields of an importer line: `None` for a blank or `#` line, else
/// the trimmed line's non-empty pieces between tabs, `;`, `,` and spaces.
pub open spec fn spec_import_fields(line: Seq<char>) -> Option<Seq<Seq<char>>> {
    let t = trim(line);
    if t.len() == 0 || t[0] == '#' {
        None
    } else {
        Some(loose_fields(loose_pieces(t)))
    }
}

proof fn lemma_loose_pieces_nonempty(s: Seq<char>)
    ensures
        loose_pieces(s).len() >= 1,
    decreases s.len(),
{
    if s.len() > 0 {
        lemma_loose_pieces_nonempty(s.drop_last());
    }
}

/// The fields of one line of a loose source list (`form;lemma;freq` and
/// the like).
pub fn import_fields(line: &str) -> (r: Option<Vec<String>>)
    ensures
        match r {
            None => spec_import_fields(line@) is None,
            Some(v) => spec_import_fields(line@) == Some(v@.map_values(|f: String| f@)),
        },
{
    let raw = str_chars(line);
    let t = trim_chars(raw.as_slice());
    if t.len() == 0 || t[0] == '#' {
        return None;
    }
    let mut pieces: Vec<Vec<char>> = Vec::new();
    let mut cur: Vec<char> = Vec::new();
    let mut i: usize = 0;
    assert(t@.take(0) =~= Seq::<char>::empty());
    while i < t.len()
        invariant
            i <= t@.len(),
            pieces@.len() + 1 == loose_pieces(t@.take(i as int)).len(),
            forall|k: int|
                0 <= k < pieces@.len() ==> #[trigger] pieces@[k]@ == loose_pieces(t@.take(i as int))[k],
            cur@ == loose_pieces(t@.take(i as int)).last(),
        decreases t@.len() - i,
    {
        let c = t[i];
        proof {
            lemma_loose_pieces_nonempty(t@.take(i as int));
        }
        assert(t@.take(i + 1).drop_last() =~= t@.take(i as int));
        if c == '\t' || c == ';' || c == ',' || c == ' ' {
            pieces.push(cur);
            cur = Vec::new();
        } else {
            cur.push(c);
        }
        i = i + 1;
    }
    pieces.push(cur);
    assert(t@.take(t@.len() as int) =~= t@);
    let ghost ps = loose_pieces(t@);
    let mut out: Vec<String> = Vec::new();
    let mut j: usize = 0;
    assert(ps.take(0) =~= Seq::<Seq<char>>::empty());
    while j < pieces.len()
        invariant
            ps == loose_pieces(t@),
            pieces@.len() == ps.len(),
            forall|k: int| 0 <= k < pieces@.len() ==> #[trigger] pieces@[k]@ == ps[k],
            j <= pieces@.len(),
            out@.map_values(|f: String| f@) == loose_fields(ps.take(j as int)),
        decreases pieces@.len() - j,
    {
        assert(pieces@[j as int]@ == ps[j as int]);
        assert(ps.take(j + 1).drop_last() =~= ps.take(j as int));
        let f = trim_chars(pieces[j].as_slice());
        let ghost before = out@.map_values(|f: String| f@);
        if f.len() > 0 {
            out.push(chars_to_string(f.as_slice()));
            assert(out@.map_values(|f: String| f@) =~= before.push(f@));
        }
        j = j + 1;
    }
    assert(ps.take(ps.len() as int) =~= ps);
    Some(out)
}

// ---------------------------------------------------------------------------
// The frequency dictionary and the calibration
// ---------------------------------------------------------------------------

/// A dictionary row: lemma, frequency text and part of speech.
pub type RncRow = (Seq<char>, Seq<char>, Seq<char>);

/// The rows of the first `n` dictionary lines and how many were skipped:
/// the `Lemma…` header line and blank lines are passed over; a line with
/// fewer than three tab-separated fields, or whose lemma is not Cyrillic,
/// is skipped.
pub open spec fn rnc_fold(ls: Seq<Seq<char>>, n: nat) -> (Seq<RncRow>, nat)
    decreases n,
{
    if n == 0 {
        (Seq::empty(), 0)
    } else {
        let (rows, skipped) = rnc_fold(ls, (n - 1) as nat);
        let l = ls[n - 1];
        if (n - 1 == 0 && is_prefix("Lemma"@, l)) || trim(l).len() == 0 {
            (rows, skipped)
        } else {
            let f = split(l, '\t');
            if f.len() < 3 || !spec_russian_word(f[0]) {
                (rows, skipped + 1)
            } else {
                (rows.push((f[0], f[2], f[1])), skipped)
            }
        }
    }
}

pub open spec fn row_views(v: Seq<(String, String, String)>) -> Seq<RncRow> {
    v.map_values(|r: (String, String, String)| (r.0@, r.1@, r.2@))
}

/// The rows of a frequency dictionary (`Lemma PoS Freq(ipm) …`, tab
/// separated) as (lemma, frequency text, part of speech), and how many
/// lines were skipped.
pub fn rnc_rows(raw: &str) -> (r: (Vec<(String, String, String)>, usize))
    ensures
        row_views(r.0@) == rnc_fold(lines(raw@), lines(raw@).len()).0,
        r.1 == rnc_fold(lines(raw@), lines(raw@).len()).1,
{
    let t = str_chars(raw);
    let ls = lines_chars(t.as_slice());
    let ghost sl = lines(raw@);
    let head = str_chars("Lemma");
    let mut rows: Vec<(String, String, String)> = Vec::new();
    let mut skipped: usize = 0;
    let mut i: usize = 0;
    assert(row_views(rows@) =~= Seq::<RncRow>::empty());
    while i < ls.len()
        invariant
            t@ == raw@,
            sl == lines(raw@),
            head@ == "Lemma"@,
            ls@.len() == sl.len(),
            forall|k: int| 0 <= k < ls@.len() ==> #[trigger] ls@[k]@ == sl[k],
            i <= ls@.len(),
            skipped <= i,
            row_views(rows@) == rnc_fold(sl, i as nat).0,
            skipped == rnc_fold(sl, i as nat).1,
        decreases ls@.len() - i,
    {
        let l = &ls[i];
        assert(l@ == sl[i as int]);
        let tr = trim_chars(l.as_slice());
        if !((i == 0 && starts_with(l.as_slice(), head.as_slice())) || tr.len() == 0) {
            let f = split_chars(l.as_slice(), '\t');
            if f.len() < 3 {
                skipped = skipped + 1;
            } else {
                let lemma = chars_to_string(f[0].as_slice());
                if !is_cyrillic_lemma(lemma.as_str()) {
                    skipped = skipped + 1;
                } else {
                    let ghost before = row_views(rows@);
                    rows.push((lemma, chars_to_string(f[2].as_slice()), chars_to_string(f[1].as_slice())));
                    assert(row_views(rows@) =~= before.push((f@[0]@, f@[2]@, f@[1]@)));
                }
            }
        }
        i = i + 1;
    }
    (rows, skipped)
}

/// The calibration candidates among the first `n` lines of a dictionary
/// table (`lemma<TAB>ipm<TAB>pos`): rows of an indeclinable closed class
/// whose normalized lemma has at most `max_len` characters, as (normalized
/// lemma, frequency text).
pub open spec fn candidates_fold(ls: Seq<Seq<char>>, n: nat, max_len: nat) -> Seq<(Seq<char>, Seq<char>)>
    decreases n,
{
    if n == 0 {
        Seq::empty()
    } else {
        let r = candidates_fold(ls, (n - 1) as nat, max_len);
        let l = ls[n - 1];
        let f = split(l, '\t');
        if (l.len() > 0 && l[0] == '#') || trim(l).len() == 0 || f.len() < 3
            || !spec_function_pos(trim(f[2])) || spec_normalize(f[0]).len() > max_len {
            r
        } else {
            r.push((spec_normalize(f[0]), f[1]))
        }
    }
}

pub open spec fn pair_views(v: Seq<(String, String)>) -> Seq<(Seq<char>, Seq<char>)> {
    v.map_values(|p: (String, String)| (p.0@, p.1@))
}

/// The short function words of a dictionary table that a calibration may
/// floor, with their frequency texts.
pub fn floor_candidates(table: &str, max_len: usize) -> (r: Vec<(String, String)>)
    ensures
        pair_views(r@) == candidates_fold(lines(table@), lines(table@).len(), max_len as nat),
{
    let t = str_chars(table);
    let ls = lines_chars(t.as_slice());
    let ghost sl = lines(table@);
    let mut out: Vec<(String, String)> = Vec::new();
    let mut i: usize = 0;
    assert(pair_views(out@) =~= Seq::<(Seq<char>, Seq<char>)>::empty());
    while i < ls.len()
        invariant
            t@ == table@,
            sl == lines(table@),
            ls@.len() == sl.len(),
            forall|k: int| 0 <= k < ls@.len() ==> #[trigger] ls@[k]@ == sl[k],
            i <= ls@.len(),
            pair_views(out@) == candidates_fold(sl, i as nat, max_len as nat),
        decreases ls@.len() - i,
    {
        let l = &ls[i];
        assert(l@ == sl[i as int]);
        let tr = trim_chars(l.as_slice());
        let f = split_chars(l.as_slice(), '\t');
        if !((l.len() > 0 && l[0] == '#') || tr.len() == 0 || f.len() < 3) {
            let pos = trim_chars(f[2].as_slice());
            let pos_s = chars_to_string(pos.as_slice());
            let norm = normalize_chars(f[0].as_slice());
            if is_function_pos(pos_s.as_str()) && norm.len() <= max_len {
                let ghost before = pair_views(out@);
                out.push((chars_to_string(norm.as_slice()), chars_to_string(f[1].as_slice())));
                assert(pair_views(out@) =~= before.push((norm@, f@[1]@)));
            }
        }
        i = i + 1;
    }
    out
}

/// The decimal spelling of a signed count.
pub open spec fn signed_decimal(n: i64) -> Seq<char> {
    if n < 0 {
        seq!['-'] + decimal((-n) as nat)
    } else {
        decimal(n as nat)
    }
}

/// `\t` and each of `extras`, in order.
pub open spec fn tab_joined(extras: Seq<Seq<char>>) -> Seq<char>
    decreases extras.len(),
{
    if extras.len() == 0 {
        Seq::empty()
    } else {
        tab_joined(extras.drop_last()) + seq!['\t'] + extras.last()
    }
}

/// A lexicon row with its frequency column replaced: form, lemma, the new
/// count, then the row's further columns verbatim.
pub open spec fn spec_rebuilt_row(line: Seq<char>, freq: i64) -> Seq<char> {
    let c = split(line, '\t');
    c[0] + seq!['\t'] + c[1] + seq!['\t'] + signed_decimal(freq) + tab_joined(c.skip(3))
}

/// Rewrites a lexicon row (at least three tab-separated columns) with a
/// new frequency, keeping its other columns.
pub fn rebuilt_row(line: &str, freq: i64) -> (r: String)
    requires
        split(line@, '\t').len() >= 3,
    ensures
        r@ == spec_rebuilt_row(line@, freq),
{
    let l = str_chars(line);
    let c = split_chars(l.as_slice(), '\t');
    let ghost cv = split(line@, '\t');
    let mut out = copy_range(c[0].as_slice(), 0, c[0].len());
    out.push('\t');
    append_chars(&mut out, c[1].as_slice());
    out.push('\t');
    if freq < 0 {
        out.push('-');
        let m: u64 = if freq == i64::MIN {
            9223372036854775808u64
        } else {
            (-freq) as u64
        };
        push_decimal(&mut out, m);
    } else {
        push_decimal(&mut out, freq as u64);
    }
    let ghost head = out@;
    proof {
        assert(c@[0]@ == cv[0]);
        assert(head =~= cv[0] + seq!['\t'] + cv[1] + seq!['\t'] + signed_decimal(freq));
        assert(cv.skip(3).take(0) =~= Seq::<Seq<char>>::empty());
    }
    let mut k: usize = 3;
    while k < c.len()
        invariant
            3 <= k <= c@.len(),
            c@.len() == cv.len(),
            forall|q: int| 0 <= q < c@.len() ==> #[trigger] c@[q]@ == cv[q],
            out@ == head + tab_joined(cv.skip(3).take(k - 3)),
        decreases c@.len() - k,
    {
        out.push('\t');
        append_chars(&mut out, c[k].as_slice());
        proof {
            let e = cv.skip(3);
            assert(e.take(k - 2).drop_last() =~= e.take(k - 3));
            assert(e.take(k - 2).last() == cv[k as int]);
            assert(out@ =~= head + tab_joined(e.take(k - 2)));
        }
        k = k + 1;
    }
    proof {
        assert(cv.skip(3).take(cv.len() - 3) =~= cv.skip(3));
    }
    chars_to_string(out.as_slice())
}

// ---------------------------------------------------------------------------
// Subcommand options
// ---------------------------------------------------------------------------

/// Options of `lexicon-builder bigrams`: corpus, lexicon, output, top, min count.
pub type BigramModelArgs = (Option<Seq<char>>, Option<Seq<char>>, Option<Seq<char>>, nat, nat);

/// Reads bigram options from position `i` on: `--lexicon` and `-o` take
/// the next argument (none when it is missing), `--top` and `--min-count`
/// a number; any other argument names the corpus.
pub open spec fn bigram_args_from(args: Seq<Seq<char>>, i: nat, m: BigramModelArgs) -> Result<BigramModelArgs, Seq<char>>
    decreases args.len() - i,
{
    if i >= args.len() {
        Ok(m)
    } else {
        let a = args[i as int];
        let next = next_arg(args, i);
        let j = if next is Some {
            i + 2
        } else {
            args.len() as nat
        };
        if a == "--lexicon"@ {
            bigram_args_from(args, j, (m.0, next, m.2, m.3, m.4))
        } else if a == "-o"@ || a == "--output"@ {
            bigram_args_from(args, j, (m.0, m.1, next, m.3, m.4))
        } else if a == "--top"@ {
            match next {
                None => Err("--top needs a number"@),
                Some(v) => match parse_uint(v, usize::MAX as nat) {
                    None => Err("--top needs a number"@),
                    Some(n) => bigram_args_from(args, i + 2, (m.0, m.1, m.2, n, m.4)),
                },
            }
        } else if a == "--min-count"@ {
            match next {
                None => Err("--min-count needs a number"@),
                Some(v) => match parse_uint(v, u64::MAX as nat) {
                    None => Err("--min-count needs a number"@),
                    Some(n) => bigram_args_from(args, i + 2, (m.0, m.1, m.2, m.3, n)),
                },
            }
        } else {
            bigram_args_from(args, i + 1, (Some(a), m.1, m.2, m.3, m.4))
        }
    }
}

pub open spec fn spec_parse_bigram_args(args: Seq<Seq<char>>) -> Result<BigramModelArgs, Seq<char>> {
    match bigram_args_from(args, 0, (None, None, None, 150000, 3)) {
        Err(e) => Err(e),
        Ok(m) => if m.0 is None || m.1 is None || m.2 is None {
            Err("usage: lexicon-builder bigrams <corpus.txt> --lexicon <lexicon.tsv> -o <lm.tsv>"@)
        } else {
            Ok(m)
        },
    }
}

/// Options of `lexicon-builder bigrams`.
pub struct BigramArgs {
    pub corpus: String,
    pub lexicon: String,
    pub output: String,
    pub top: usize,
    pub min_count: u64,
}

/// Reads the options of `lexicon-builder bigrams`.
pub fn parse_bigram_args(args: &Vec<String>) -> (r: Result<BigramArgs, String>)
    ensures
        match r {
            Ok(b) => spec_parse_bigram_args(strings_view(args@)) == Ok::<BigramModelArgs, Seq<char>>(
                (Some(b.corpus@), Some(b.lexicon@), Some(b.output@), b.top as nat, b.min_count as nat),
            ),
            Err(e) => spec_parse_bigram_args(strings_view(args@)) == Err::<BigramModelArgs, Seq<char>>(e@),
        },
{
    let ghost av = strings_view(args@);
    let mut corpus: Option<String> = None;
    let mut lexicon: Option<String> = None;
    let mut output: Option<String> = None;
    let mut top: usize = 150000;
    let mut min_count: u64 = 3;
    let mut i: usize = 0;
    while i < args.len()
        invariant
            av == strings_view(args@),
            i <= args@.len(),
            bigram_args_from(av, 0, (None, None, None, 150000, 3)) == bigram_args_from(
                av,
                i as nat,
                (opt_view(corpus), opt_view(lexicon), opt_view(output), top as nat, min_count as nat),
            ),
        decreases args@.len() - i,
    {
        proof {
            reveal_strlit("--lexicon");
            reveal_strlit("-o");
            reveal_strlit("--output");
            reveal_strlit("--top");
            reveal_strlit("--min-count");
        }
        let a = str_chars(args[i].as_str());
        assert(a@ == av[i as int]);
        let has_next = i + 1 < args.len();
        let next: Option<String> = if has_next {
            Some(owned(args[i + 1].as_str()))
        } else {
            None
        };
        assert(opt_view(next) == next_arg(av, i as nat));
        let j = if has_next {
            i + 2
        } else {
            args.len()
        };
        if is_flag(a.as_slice(), "--lexicon") {
            lexicon = next;
            i = j;
        } else if is_flag(a.as_slice(), "-o") || is_flag(a.as_slice(), "--output") {
            output = next;
            i = j;
        } else if is_flag(a.as_slice(), "--top") {
            let parsed = match &next {
                Some(v) => {
                    let vc = str_chars(v.as_str());
                    parse_usize(vc.as_slice())
                },
                None => None,
            };
            match parsed {
                Some(n) => {
                    top = n;
                    i = j;
                },
                None => {
                    return Err(owned("--top needs a number"));
                },
            }
        } else if is_flag(a.as_slice(), "--min-count") {
            let parsed = match &next {
                Some(v) => {
                    let vc = str_chars(v.as_str());
                    parse_u64(vc.as_slice())
                },
                None => None,
            };
            match parsed {
                Some(n) => {
                    min_count = n;
                    i = j;
                },
                None => {
                    return Err(owned("--min-count needs a number"));
                },
            }
        } else {
            corpus = Some(chars_to_string(a.as_slice()));
            i = i + 1;
        }
    }
    match (corpus, lexicon, output) {
        (Some(c), Some(l), Some(o)) => Ok(BigramArgs { corpus: c, lexicon: l, output: o, top, min_count }),
        _ => Err(owned("usage: lexicon-builder bigrams <corpus.txt> --lexicon <lexicon.tsv> -o <lm.tsv>")),
    }
}

/// Options of `lexicon-builder rnc`: input, output.
pub type RncModelArgs = (Option<Seq<char>>, Option<Seq<char>>);

/// Reads `rnc` options from position `i` on: `-o` takes the next argument
/// (none when missing); any other argument names the input.
pub open spec fn rnc_args_from(args: Seq<Seq<char>>, i: nat, m: RncModelArgs) -> RncModelArgs
    decreases args.len() - i,
{
    if i >= args.len() {
        m
    } else {
        let a = args[i as int];
        let next = next_arg(args, i);
        let j = if next is Some {
            i + 2
        } else {
            args.len() as nat
        };
        if a == "-o"@ || a == "--output"@ {
            rnc_args_from(args, j, (m.0, next))
        } else {
            rnc_args_from(args, i + 1, (Some(a), m.1))
        }
    }
}

/// Reads the options of `lexicon-builder rnc`: the input and the output.
pub fn parse_rnc_args(args: &Vec<String>) -> (r: Result<(String, String), String>)
    ensures
        match r {
            Ok((inp, out)) => rnc_args_from(strings_view(args@), 0, (None, None)) == (Some(inp@), Some(out@)),
            Err(e) => !(rnc_args_from(strings_view(args@), 0, (None, None)).0 is Some
                && rnc_args_from(strings_view(args@), 0, (None, None)).1 is Some)
                && e@ == "usage: lexicon-builder rnc <freqrnc2011.csv> -o <rnc-freq.tsv>"@,
        },
{
    let ghost av = strings_view(args@);
    let mut input: Option<String> = None;
    let mut output: Option<String> = None;
    let mut i: usize = 0;
    while i < args.len()
        invariant
            av == strings_view(args@),
            i <= args@.len(),
            rnc_args_from(av, 0, (None, None)) == rnc_args_from(av, i as nat, (opt_view(input), opt_view(output))),
        decreases args@.len() - i,
    {
        proof {
            reveal_strlit("-o");
            reveal_strlit("--output");
        }
        let a = str_chars(args[i].as_str());
        assert(a@ == av[i as int]);
        let has_next = i + 1 < args.len();
        let next: Option<String> = if has_next {
            Some(owned(args[i + 1].as_str()))
        } else {
            None
        };
        assert(opt_view(next) == next_arg(av, i as nat));
        if is_flag(a.as_slice(), "-o") || is_flag(a.as_slice(), "--output") {
            output = next;
            i = if has_next {
                i + 2
            } else {
                args.len()
            };
        } else {
            input = Some(chars_to_string(a.as_slice()));
            i = i + 1;
        }
    }
    match (input, output) {
        (Some(a), Some(b)) => Ok((a, b)),
        _ => Err(owned("usage: lexicon-builder rnc <freqrnc2011.csv> -o <rnc-freq.tsv>")),
    }
}

/// Options of `lexicon-builder calibrate`: lexicon, table, output, max length.
pub type CalibrateModelArgs = (Option<Seq<char>>, Option<Seq<char>>, Option<Seq<char>>, nat);

/// Reads `calibrate` options from position `i` on: `--rnc` and `-o` take
/// the next argument (none when missing), `--max-len` a number; any other
/// argument names the lexicon.
pub open spec fn calibrate_args_from(args: Seq<Seq<char>>, i: nat, m: CalibrateModelArgs) -> Result<CalibrateModelArgs, Seq<char>>
    decreases args.len() - i,
{
    if i >= args.len() {
        Ok(m)
    } else {
        let a = args[i as int];
        let next = next_arg(args, i);
        let j = if next is Some {
            i + 2
        } else {
            args.len() as nat
        };
        if a == "--rnc"@ {
            calibrate_args_from(args, j, (m.0, next, m.2, m.3))
        } else if a == "-o"@ || a == "--output"@ {
            calibrate_args_from(args, j, (m.0, m.1, next, m.3))
        } else if a == "--max-len"@ {
            match next {
                None => Err("--max-len needs a number"@),
                Some(v) => match parse_uint(v, usize::MAX as nat) {
                    None => Err("--max-len needs a number"@),
                    Some(n) => calibrate_args_from(args, i + 2, (m.0, m.1, m.2, n)),
                },
            }
        } else {
            calibrate_args_from(args, i + 1, (Some(a), m.1, m.2, m.3))
        }
    }
}

pub open spec fn spec_parse_calibrate_args(args: Seq<Seq<char>>) -> Result<CalibrateModelArgs, Seq<char>> {
    match calibrate_args_from(args, 0, (None, None, None, 4)) {
        Err(e) => Err(e),
        Ok(m) => if m.0 is None || m.1 is None || m.2 is None {
            Err("usage: lexicon-builder calibrate <lexicon.tsv> --rnc <rnc-freq.tsv> -o <out.tsv> [--max-len 4]"@)
        } else {
            Ok(m)
        },
    }
}

/// Options of `lexicon-builder calibrate`.
pub struct CalibrateArgs {
    pub lexicon: String,
    pub rnc: String,
    pub output: String,
    pub max_len: usize,
}

/// Reads the options of `lexicon-builder calibrate`.
pub fn parse_calibrate_args(args: &Vec<String>) -> (r: Result<CalibrateArgs, String>)
    ensures
        match r {
            Ok(c) => spec_parse_calibrate_args(strings_view(args@)) == Ok::<CalibrateModelArgs, Seq<char>>(
                (Some(c.lexicon@), Some(c.rnc@), Some(c.output@), c.max_len as nat),
            ),
            Err(e) => spec_parse_calibrate_args(strings_view(args@)) == Err::<CalibrateModelArgs, Seq<char>>(e@),
        },
{
    let ghost av = strings_view(args@);
    let mut lexicon: Option<String> = None;
    let mut rnc: Option<String> = None;
    let mut output: Option<String> = None;
    let mut max_len: usize = 4;
    let mut i: usize = 0;
    while i < args.len()
        invariant
            av == strings_view(args@),
            i <= args@.len(),
            calibrate_args_from(av, 0, (None, None, None, 4)) == calibrate_args_from(
                av,
                i as nat,
                (opt_view(lexicon), opt_view(rnc), opt_view(output), max_len as nat),
            ),
        decreases args@.len() - i,
    {
        proof {
            reveal_strlit("--rnc");
            reveal_strlit("-o");
            reveal_strlit("--output");
            reveal_strlit("--max-len");
        }
        let a = str_chars(args[i].as_str());
        assert(a@ == av[i as int]);
        let has_next = i + 1 < args.len();
        let next: Option<String> = if has_next {
            Some(owned(args[i + 1].as_str()))
        } else {
            None
        };
        assert(opt_view(next) == next_arg(av, i as nat));
        let j = if has_next {
            i + 2
        } else {
            args.len()
        };
        if is_flag(a.as_slice(), "--rnc") {
            rnc = next;
            i = j;
        } else if is_flag(a.as_slice(), "-o") || is_flag(a.as_slice(), "--output") {
            output = next;
            i = j;
        } else if is_flag(a.as_slice(), "--max-len") {
            let parsed = match &next {
                Some(v) => {
                    let vc = str_chars(v.as_str());
                    parse_usize(vc.as_slice())
                },
                None => None,
            };
            match parsed {
                Some(n) => {
                    max_len = n;
                    i = j;
                },
                None => {
                    return Err(owned("--max-len needs a number"));
                },
            }
        } else {
            lexicon = Some(chars_to_string(a.as_slice()));
            i = i + 1;
        }
    }
    match (lexicon, rnc, output) {
        (Some(l), Some(t), Some(o)) => Ok(CalibrateArgs { lexicon: l, rnc: t, output: o, max_len }),
        _ => Err(owned("usage: lexicon-builder calibrate <lexicon.tsv> --rnc <rnc-freq.tsv> -o <out.tsv> [--max-len 4]")),
    }
}

/// Options of `lexicon-builder expand`: lexicon, hold-groups table,
/// output, and the position of the ratio argument when one was given.
pub type ExpandModelArgs = (Option<Seq<char>>, Option<Seq<char>>, Option<Seq<char>>, Option<nat>);

/// Reads `expand` options from position `i` on: `-o` takes the next argument
/// (none when missing); `--ratio` takes the next one, which must read as a
/// number (`numbers` says which arguments do); the first other argument
/// names the lexicon, the second the hold-groups table, and a third is an
/// error.
pub open spec fn expand_args_from(args: Seq<Seq<char>>, numbers: Seq<bool>, i: nat, m: ExpandModelArgs) -> Result<
    ExpandModelArgs,
    Seq<char>,
>
    decreases args.len() - i,
{
    if i >= args.len() {
        Ok(m)
    } else {
        let a = args[i as int];
        let next = next_arg(args, i);
        let j = if next is Some {
            i + 2
        } else {
            args.len() as nat
        };
        if a == "-o"@ || a == "--output"@ {
            expand_args_from(args, numbers, j, (m.0, m.1, next, m.3))
        } else if a == "--ratio"@ {
            if next is Some && numbers[(i + 1) as int] {
                expand_args_from(args, numbers, i + 2, (m.0, m.1, m.2, Some((i + 1) as nat)))
            } else {
                Err("--ratio needs a number"@)
            }
        } else if m.0 is None {
            expand_args_from(args, numbers, i + 1, (Some(a), m.1, m.2, m.3))
        } else if m.1 is None {
            expand_args_from(args, numbers, i + 1, (m.0, Some(a), m.2, m.3))
        } else {
            Err("unexpected argument "@ + a)
        }
    }
}

pub open spec fn spec_parse_expand_args(args: Seq<Seq<char>>, numbers: Seq<bool>) -> Result<ExpandModelArgs, Seq<char>> {
    match expand_args_from(args, numbers, 0, (None, None, None, None)) {
        Err(e) => Err(e),
        Ok(m) => if m.0 is None || m.1 is None || m.2 is None {
            Err("usage: lexicon-builder expand <lexicon.tsv> <hold-groups.tsv> -o <out.tsv> [--ratio 0.25]"@)
        } else {
            Ok(m)
        },
    }
}

/// Options of `lexicon-builder expand`; `ratio` is the position of the ratio
/// argument, when one was given.
pub struct ExpandArgs {
    pub lexicon: String,
    pub hold: String,
    pub output: String,
    pub ratio: Option<usize>,
}

/// Reads the options of `lexicon-builder expand`. Which arguments read as a
/// number is the caller's to say, one flag per argument.
pub fn parse_expand_args(args: &Vec<String>, numbers: &Vec<bool>) -> (r: Result<ExpandArgs, String>)
    requires
        numbers@.len() == args@.len(),
    ensures
        match r {
            Ok(x) => spec_parse_expand_args(strings_view(args@), numbers@) == Ok::<ExpandModelArgs, Seq<char>>(
                (
                    Some(x.lexicon@),
                    Some(x.hold@),
                    Some(x.output@),
                    match x.ratio {
                        Some(k) => Some(k as nat),
                        None => None,
                    },
                ),
            ),
            Err(e) => spec_parse_expand_args(strings_view(args@), numbers@) == Err::<ExpandModelArgs, Seq<char>>(e@),
        },
{
    let ghost av = strings_view(args@);
    let mut lexicon: Option<String> = None;
    let mut hold: Option<String> = None;
    let mut output: Option<String> = None;
    let mut ratio: Option<usize> = None;
    let mut i: usize = 0;
    while i < args.len()
        invariant
            av == strings_view(args@),
            numbers@.len() == args@.len(),
            i <= args@.len(),
            expand_args_from(av, numbers@, 0, (None, None, None, None)) == expand_args_from(
                av,
                numbers@,
                i as nat,
                (
                    opt_view(lexicon),
                    opt_view(hold),
                    opt_view(output),
                    match ratio {
                        Some(k) => Some(k as nat),
                        None => None,
                    },
                ),
            ),
        decreases args@.len() - i,
    {
        proof {
            reveal_strlit("-o");
            reveal_strlit("--output");
            reveal_strlit("--ratio");
        }
        let a = str_chars(args[i].as_str());
        assert(a@ == av[i as int]);
        let has_next = i + 1 < args.len();
        let next: Option<String> = if has_next {
            Some(owned(args[i + 1].as_str()))
        } else {
            None
        };
        assert(opt_view(next) == next_arg(av, i as nat));
        let j = if has_next {
            i + 2
        } else {
            args.len()
        };
        if is_flag(a.as_slice(), "-o") || is_flag(a.as_slice(), "--output") {
            output = next;
            i = j;
        } else if is_flag(a.as_slice(), "--ratio") {
            if has_next && numbers[i + 1] {
                ratio = Some(i + 1);
                i = i + 2;
            } else {
                return Err(owned("--ratio needs a number"));
            }
        } else if lexicon.is_none() {
            lexicon = Some(chars_to_string(a.as_slice()));
            i = i + 1;
        } else if hold.is_none() {
            hold = Some(chars_to_string(a.as_slice()));
            i = i + 1;
        } else {
            let mut msg = str_chars("unexpected argument ");
            append_chars(&mut msg, a.as_slice());
            return Err(chars_to_string(msg.as_slice()));
        }
    }
    match (lexicon, hold, output) {
        (Some(l), Some(h), Some(o)) => Ok(ExpandArgs { lexicon: l, hold: h, output: o, ratio }),
        _ => Err(owned("usage: lexicon-builder expand <lexicon.tsv> <hold-groups.tsv> -o <out.tsv> [--ratio 0.25]")),
    }
}

} // verus!
