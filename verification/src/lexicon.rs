//! Lexicon artifact: one `form<TAB>lemma<TAB>freq` row per line.
//!
//! The format is strict, unlike the display-only artifacts: the lexicon is
//! what retrieval runs on, so a malformed row is an error naming its line.
//! This module reads the rows' structure; the frequency column is handed
//! on as text for the caller to read as a number.

use vstd::prelude::*;

use crate::text::{
    append_chars, chars_to_string, decimal, lines, lines_chars, push_decimal, quoted, split,
    split_chars, str_chars, trim, trim_chars,
};

verus! {

/// Position of an entry in its lexicon.
pub type EntryId = u32;

/// Error produced while parsing a lexicon: 1-based line and reason.
#[derive(Debug, Clone, PartialEq, Eq)]
pub struct LexiconError {
    pub line: usize,
    pub message: String,
}

impl LexiconError {
    /// `lexicon line N: message`.
    pub fn describe(&self) -> (r: String)
        ensures
            r@ == "lexicon line "@ + decimal(self.line as nat) + ": "@ + self.message@,
    {
        let mut v = str_chars("lexicon line ");
        push_decimal(&mut v, self.line as u64);
        let sep = str_chars(": ");
        append_chars(&mut v, sep.as_slice());
        let m = str_chars(self.message.as_str());
        append_chars(&mut v, m.as_slice());
        chars_to_string(v.as_slice())
    }
}

/// One well-formed row: its 1-based line, the trimmed form and lemma, and
/// the frequency column as written.
#[derive(Debug, Clone, PartialEq, Eq)]
pub struct LexiconRow {
    pub line: usize,
    pub form: String,
    pub lemma: String,
    pub freq: String,
}

/// Abstract row: line, form, lemma, frequency text.
pub type RowView = (nat, Seq<char>, Seq<char>, Seq<char>);

impl View for LexiconRow {
    type V = RowView;

    open spec fn view(&self) -> RowView {
        (self.line as nat, self.form@, self.lemma@, self.freq@)
    }
}

/// The rows before the first structural error, and that error if any.
pub struct LexiconScan {
    pub rows: Vec<LexiconRow>,
    pub error: Option<LexiconError>,
}

pub open spec fn row_views(s: Seq<LexiconRow>) -> Seq<RowView> {
    s.map_values(|r: LexiconRow| r@)
}

pub open spec fn shape_message(raw: Seq<char>) -> Seq<char> {
    "expected `form\\tlemma\\tfreq`, got `"@ + raw + "`"@
}

pub open spec fn extra_message(raw: Seq<char>) -> Seq<char> {
    "unexpected extra column in `"@ + raw + "`"@
}

/// Outcome of one line: skipped (`None`), a row, or an error message.
pub open spec fn lexicon_line(i: nat, raw: Seq<char>) -> Option<Result<RowView, Seq<char>>> {
    let line = trim(raw);
    if line.len() == 0 || line[0] == '#' {
        None
    } else {
        let parts = split(line, '\t');
        if parts.len() < 3 {
            Some(Err(shape_message(raw)))
        } else if parts.len() > 3 {
            Some(Err(extra_message(raw)))
        } else {
            Some(Ok((i + 1, trim(parts[0]), trim(parts[1]), parts[2])))
        }
    }
}

/// Rows of the first `n` lines, and the first error among them.
pub open spec fn lexicon_scan(ls: Seq<Seq<char>>, n: nat) -> (Seq<RowView>, Option<(nat, Seq<char>)>)
    decreases n,
{
    if n == 0 {
        (Seq::empty(), None)
    } else {
        let prev = lexicon_scan(ls, (n - 1) as nat);
        if prev.1 is Some {
            prev
        } else {
            match lexicon_line((n - 1) as nat, ls[n - 1]) {
                None => prev,
                Some(Ok(row)) => (prev.0.push(row), None),
                Some(Err(m)) => (prev.0, Some((n, m))),
            }
        }
    }
}

/// What `scan_lexicon` computes for a whole text.
pub open spec fn spec_scan_lexicon(tsv: Seq<char>) -> (Seq<RowView>, Option<(nat, Seq<char>)>) {
    lexicon_scan(lines(tsv), lines(tsv).len())
}

/// Once a line fails, the scan no longer changes.
proof fn lemma_scan_sticky(ls: Seq<Seq<char>>, a: nat, b: nat)
    requires
        a <= b,
        lexicon_scan(ls, a).1 is Some,
    ensures
        lexicon_scan(ls, b) == lexicon_scan(ls, a),
    decreases b - a,
{
    if b > a {
        lemma_scan_sticky(ls, a, (b - 1) as nat);
    }
}

/// Reads the structure of a lexicon text: comment (`#`) and blank lines are
/// skipped; every other line must have exactly three tab-separated
/// columns. Returns the rows before the first malformed line, and that
/// line's error.
pub fn scan_lexicon(tsv: &str) -> (r: LexiconScan)
    ensures
        row_views(r.rows@) == spec_scan_lexicon(tsv@).0,
        match r.error {
            Some(e) => spec_scan_lexicon(tsv@).1 == Some((e.line as nat, e.message@)),
            None => spec_scan_lexicon(tsv@).1 is None,
        },
{
    let text = str_chars(tsv);
    let ls = lines_chars(text.as_slice());
    let ghost sl = lines(tsv@);
    let mut rows: Vec<LexiconRow> = Vec::new();
    let mut i: usize = 0;
    while i < ls.len()
        invariant
            text@ == tsv@,
            sl == lines(tsv@),
            ls@.len() == sl.len(),
            forall|k: int| 0 <= k < ls@.len() ==> #[trigger] ls@[k]@ == sl[k],
            i <= ls@.len(),
            lexicon_scan(sl, i as nat) == (row_views(rows@), None::<(nat, Seq<char>)>),
        decreases ls@.len() - i,
    {
        let raw = &ls[i];
        assert(raw@ == sl[i as int]);
        let line = trim_chars(raw.as_slice());
        if line.len() == 0 || line[0] == '#' {
            i = i + 1;
            continue;
        }
        let parts = split_chars(line.as_slice(), '\t');
        if parts.len() < 3 || parts.len() > 3 {
            let message = if parts.len() < 3 {
                quoted("expected `form\\tlemma\\tfreq`, got `", raw.as_slice(), "`")
            } else {
                quoted("unexpected extra column in `", raw.as_slice(), "`")
            };
            proof {
                lemma_scan_sticky(sl, (i + 1) as nat, sl.len());
            }
            return LexiconScan { rows, error: Some(LexiconError { line: i + 1, message }) };
        }
        let form = trim_chars(parts[0].as_slice());
        let lemma = trim_chars(parts[1].as_slice());
        let row = LexiconRow {
            line: i + 1,
            form: chars_to_string(form.as_slice()),
            lemma: chars_to_string(lemma.as_slice()),
            freq: chars_to_string(parts[2].as_slice()),
        };
        let ghost before = row_views(rows@);
        rows.push(row);
        assert(row_views(rows@) =~= before.push(row@));
        i = i + 1;
    }
    LexiconScan { rows, error: None }
}


/// A line that carries data: neither blank nor a `#` comment once trimmed.
pub open spec fn data_line(raw: Seq<char>) -> bool {
    trim(raw).len() > 0 && trim(raw)[0] != '#'
}

/// A line is blank, a comment, or has exactly three tab-separated columns.
pub open spec fn well_shaped(raw: Seq<char>) -> bool {
    !data_line(raw) || split(trim(raw), '\t').len() == 3
}

/// Rows already read stay as the scan goes on.
proof fn lemma_scan_grows(ls: Seq<Seq<char>>, a: nat, b: nat, x: RowView)
    requires
        a <= b <= ls.len(),
        lexicon_scan(ls, a).0.contains(x),
    ensures
        lexicon_scan(ls, b).0.contains(x),
    decreases b - a,
{
    if b > a {
        lemma_scan_grows(ls, a, (b - 1) as nat, x);
        let prev = lexicon_scan(ls, (b - 1) as nat);
        if prev.1 is None {
            match lexicon_line((b - 1) as nat, ls[b - 1]) {
                Some(Ok(row)) => {
                    let i = choose|i: int| 0 <= i < prev.0.len() && prev.0[i] == x;
                    assert(prev.0.push(row)[i] == x);
                },
                _ => {},
            }
        }
    }
}

/// With only well-shaped lines so far, the scan has met no error.
proof fn lemma_scan_clean(ls: Seq<Seq<char>>, n: nat)
    requires
        n <= ls.len(),
        forall|j: int| 0 <= j < n ==> well_shaped(#[trigger] ls[j]),
    ensures
        lexicon_scan(ls, n).1 is None,
    decreases n,
{
    if n > 0 {
        lemma_scan_clean(ls, (n - 1) as nat);
        assert(well_shaped(ls[n - 1]));
    }
}

/// A data line with exactly three tab-separated columns, after only
/// well-shaped lines, is read as a row carrying its 1-based line, its
/// trimmed first column as the form, its trimmed second column as the
/// lemma and its third column as the frequency text.
pub proof fn lemma_scan_reads_columns(tsv: Seq<char>, k: int)
    requires
        0 <= k < lines(tsv).len(),
        data_line(lines(tsv)[k]),
        split(trim(lines(tsv)[k]), '\t').len() == 3,
        forall|j: int| 0 <= j < k ==> well_shaped(#[trigger] lines(tsv)[j]),
    ensures
        ({
            let cols = split(trim(lines(tsv)[k]), '\t');
            spec_scan_lexicon(tsv).0.contains(
                ((k + 1) as nat, trim(cols[0]), trim(cols[1]), cols[2]),
            )
        }),
{
    let ls = lines(tsv);
    let cols = split(trim(ls[k]), '\t');
    let row = ((k + 1) as nat, trim(cols[0]), trim(cols[1]), cols[2]);
    lemma_scan_clean(ls, k as nat);
    let prev = lexicon_scan(ls, k as nat);
    assert(lexicon_line(k as nat, ls[k]) == Some(Ok::<RowView, Seq<char>>(row)));
    assert(lexicon_scan(ls, (k + 1) as nat) == (prev.0.push(row), None::<(nat, Seq<char>)>));
    assert(prev.0.push(row)[prev.0.len() as int] == row);
    lemma_scan_grows(ls, (k + 1) as nat, ls.len(), row);
}

} // verus!
