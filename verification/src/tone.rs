//! Window register: the coarse tone of the recent conversation, read from
//! marker words by the tone meter.

use vstd::prelude::*;

use crate::alphabet::{normalize_chars, spec_normalize};
use crate::text::{
    append_chars, chars_to_string, decimal, lines, lines_chars, push_decimal, quoted, split,
    split_chars, str_chars, trim, trim_chars,
};

verus! {

/// Coarse register of the recent window.
#[derive(Debug, Clone, Copy, PartialEq, Eq, Structural)]
pub enum Register {
    Polite,
    Neutral,
    Crude,
}

/// Error produced while parsing a tone-marker list: 1-based line and reason.
#[derive(Debug, Clone, PartialEq, Eq)]
pub struct ToneError {
    pub line: usize,
    pub message: String,
}

impl ToneError {
    /// `tone markers line N: message`.
    pub fn describe(&self) -> (r: String)
        ensures
            r@ == "tone markers line "@ + decimal(self.line as nat) + ": "@ + self.message@,
    {
        let mut v = str_chars("tone markers line ");
        push_decimal(&mut v, self.line as u64);
        let sep = str_chars(": ");
        append_chars(&mut v, sep.as_slice());
        let m = str_chars(self.message.as_str());
        append_chars(&mut v, m.as_slice());
        chars_to_string(v.as_slice())
    }
}

/// One marker line: its 1-based line, the normalized word and the sign as
/// written (trimmed).
#[derive(Debug, Clone, PartialEq, Eq)]
pub struct MarkerRow {
    pub line: usize,
    pub word: String,
    pub sign: String,
}

/// Abstract marker row: line, word, sign text.
pub type MarkerView = (nat, Seq<char>, Seq<char>);

impl MarkerRow {
    pub open spec fn view(&self) -> MarkerView {
        (self.line as nat, self.word@, self.sign@)
    }
}

/// The marker rows before the first malformed line, and its error.
pub struct MarkerScan {
    pub rows: Vec<MarkerRow>,
    pub error: Option<ToneError>,
}

pub open spec fn marker_views(s: Seq<MarkerRow>) -> Seq<MarkerView> {
    s.map_values(|r: MarkerRow| r.view())
}

pub open spec fn marker_shape_message(raw: Seq<char>) -> Seq<char> {
    "expected `word\\tsign`, got `"@ + raw + "`"@
}

/// Outcome of one line: skipped (`None`), a row, or an error message.
pub open spec fn marker_line(i: nat, raw: Seq<char>) -> Option<Result<MarkerView, Seq<char>>> {
    let line = trim(raw);
    if line.len() == 0 || line[0] == '#' {
        None
    } else {
        let parts = split(line, '\t');
        if parts.len() < 2 {
            Some(Err(marker_shape_message(raw)))
        } else {
            Some(Ok((i + 1, spec_normalize(trim(parts[0])), trim(parts[1]))))
        }
    }
}

/// Rows of the first `n` lines, and the first error among them.
pub open spec fn marker_scan(ls: Seq<Seq<char>>, n: nat) -> (Seq<MarkerView>, Option<(nat, Seq<char>)>)
    decreases n,
{
    if n == 0 {
        (Seq::empty(), None)
    } else {
        let prev = marker_scan(ls, (n - 1) as nat);
        if prev.1 is Some {
            prev
        } else {
            match marker_line((n - 1) as nat, ls[n - 1]) {
                None => prev,
                Some(Ok(row)) => (prev.0.push(row), None),
                Some(Err(m)) => (prev.0, Some((n, m))),
            }
        }
    }
}

pub open spec fn spec_scan_markers(tsv: Seq<char>) -> (Seq<MarkerView>, Option<(nat, Seq<char>)>) {
    marker_scan(lines(tsv), lines(tsv).len())
}

proof fn lemma_marker_scan_sticky(ls: Seq<Seq<char>>, a: nat, b: nat)
    requires
        a <= b,
        marker_scan(ls, a).1 is Some,
    ensures
        marker_scan(ls, b) == marker_scan(ls, a),
    decreases b - a,
{
    if b > a {
        lemma_marker_scan_sticky(ls, a, (b - 1) as nat);
    }
}

/// Reads the structure of a tone-marker list (`word<TAB>sign` lines;
/// blank and `#` lines skipped): the rows before the first line without a
/// sign column, and that line's error. Reading the signs is left to the
/// meter.
pub fn scan_markers(tsv: &str) -> (r: MarkerScan)
    ensures
        marker_views(r.rows@) == spec_scan_markers(tsv@).0,
        match r.error {
            Some(e) => spec_scan_markers(tsv@).1 == Some((e.line as nat, e.message@)),
            None => spec_scan_markers(tsv@).1 is None,
        },
{
    let text = str_chars(tsv);
    let ls = lines_chars(text.as_slice());
    let ghost sl = lines(tsv@);
    let mut rows: Vec<MarkerRow> = Vec::new();
    let mut i: usize = 0;
    assert(marker_views(rows@) =~= Seq::<MarkerView>::empty());
    while i < ls.len()
        invariant
            text@ == tsv@,
            sl == lines(tsv@),
            ls@.len() == sl.len(),
            forall|k: int| 0 <= k < ls@.len() ==> #[trigger] ls@[k]@ == sl[k],
            i <= ls@.len(),
            marker_scan(sl, i as nat) == (marker_views(rows@), None::<(nat, Seq<char>)>),
        decreases ls@.len() - i,
    {
        let raw = &ls[i];
        assert(raw@ == sl[i as int]);
        let line = trim_chars(raw.as_slice());
        if line.len() == 0 || line[0] == '#' {
            i = i + 1;
            continue;
        }
        let parts = split_chars(line.as_slice(), '\t');
        if parts.len() < 2 {
            let message = quoted("expected `word\\tsign`, got `", raw.as_slice(), "`");
            proof {
                lemma_marker_scan_sticky(sl, (i + 1) as nat, sl.len());
            }
            return MarkerScan { rows, error: Some(ToneError { line: i + 1, message }) };
        }
        let w = trim_chars(parts[0].as_slice());
        let word = normalize_chars(w.as_slice());
        let sign = trim_chars(parts[1].as_slice());
        let row = MarkerRow {
            line: i + 1,
            word: chars_to_string(word.as_slice()),
            sign: chars_to_string(sign.as_slice()),
        };
        let ghost before = marker_views(rows@);
        rows.push(row);
        assert(marker_views(rows@) =~= before.push(row.view()));
        i = i + 1;
    }
    MarkerScan { rows, error: None }
}

} // verus!
