//! Russian alphabet utilities: normalization, consonant skeletons and
//! ЙЦУКЕН keyboard geometry.

use vstd::prelude::*;

use crate::text::{str_chars, chars_to_string};

verus! {

/// First character of the lowercase mapping of `c` (`c` itself when the
/// mapping is empty), as computed by `char::to_lowercase`.
pub uninterp spec fn to_lower(c: char) -> char;

/// The lowercase mapping that the Unicode Character Database
/// (`UnicodeData.txt`) gives the Russian letters and all of ASCII: `А`–`Я`
/// and `A`–`Z` map 32 code points down, `Ё` maps to `ё`, and the lowercase
/// Russian letters and every other ASCII character, having no lowercase
/// mapping, map to themselves. Other characters are not covered.
pub open spec fn known_lower(c: char) -> Option<char> {
    let u = c as u32;
    if (0x0410 <= u && u <= 0x042f) || (0x41 <= u && u <= 0x5a) {
        Some((u + 32) as char)
    } else if u == 0x0401 {
        Some('ё')
    } else if (0x0430 <= u && u <= 0x044f) || u == 0x0451 || u <= 0x7f {
        Some(c)
    } else {
        None
    }
}

/// `char::to_lowercase`: the first character of the lowercase mapping of
/// `c`, or `c` when the mapping yields nothing. The contract claims that the
/// result is the value of [`to_lower`] at `c`, and, as its documentation
/// refers the mapping to `UnicodeData.txt`, the mapping of the Russian
/// letters and of ASCII ([`known_lower`]); the mapping of other characters
/// is not stated.
#[verifier::external_body]
fn lower(c: char) -> (r: char)
    ensures
        r == to_lower(c),
        known_lower(c) matches Some(l) ==> r == l,
{
    c.to_lowercase().next().unwrap_or(c)
}

/// A lowercase Russian vowel, `ё` included.
pub open spec fn is_vowel_lc(c: char) -> bool {
    c == 'а' || c == 'е' || c == 'ё' || c == 'и' || c == 'о' || c == 'у' || c == 'ы' || c == 'э'
        || c == 'ю' || c == 'я'
}

/// Russian vowel test after lowercasing.
pub open spec fn spec_is_vowel(c: char) -> bool {
    is_vowel_lc(to_lower(c))
}

/// `ь`/`ъ` test after lowercasing.
pub open spec fn spec_is_sign(c: char) -> bool {
    to_lower(c) == 'ь' || to_lower(c) == 'ъ'
}

/// Returns `true` for a Russian vowel (case-insensitive).
pub fn is_vowel(c: char) -> (r: bool)
    ensures
        r == spec_is_vowel(c),
        known_lower(c) matches Some(l) ==> to_lower(c) == l,
{
    let c = lower(c);
    c == 'а' || c == 'е' || c == 'ё' || c == 'и' || c == 'о' || c == 'у' || c == 'ы' || c == 'э'
        || c == 'ю' || c == 'я'
}

/// Returns `true` for `ь`/`ъ` — signs the user frequently omits.
pub fn is_sign(c: char) -> (r: bool)
    ensures
        r == spec_is_sign(c),
        known_lower(c) matches Some(l) ==> to_lower(c) == l,
{
    let c = lower(c);
    c == 'ь' || c == 'ъ'
}

/// `ё` folded to `е`; every other character unchanged.
pub open spec fn fold_yo(c: char) -> char {
    if c == 'ё' {
        'е'
    } else {
        c
    }
}

/// The canonical matching key of one character.
pub open spec fn norm_char(c: char) -> char {
    fold_yo(to_lower(c))
}

/// Canonical form used everywhere inside the engine: lowercase, `ё` → `е`.
pub open spec fn spec_normalize(s: Seq<char>) -> Seq<char> {
    s.map_values(|c: char| norm_char(c))
}

/// Normalizing keeps the length and leaves no `ё`.
pub proof fn lemma_normalize_shape(s: Seq<char>)
    ensures
        spec_normalize(s).len() == s.len(),
        !spec_normalize(s).contains('ё'),
{
    let n = spec_normalize(s);
    if n.contains('ё') {
        let i = choose|i: int| 0 <= i < n.len() && n[i] == 'ё';
        assert(n[i] == fold_yo(to_lower(s[i])));
    }
}

/// Every character is a Russian letter or ASCII, whose lowercase mapping
/// [`known_lower`] states.
pub open spec fn all_known(s: Seq<char>) -> bool {
    forall|i: int| 0 <= i < s.len() ==> known_lower(#[trigger] s[i]) is Some
}

/// Already in canonical form: every character is a Russian letter or ASCII
/// that lowercases to itself, and none is `ё`.
pub open spec fn is_normal(s: Seq<char>) -> bool {
    forall|i: int|
        0 <= i < s.len() ==> known_lower(#[trigger] s[i]) == Some(s[i]) && s[i] != 'ё'
}

/// The canonical key of a Russian letter or ASCII character is itself in
/// canonical form.
proof fn lemma_norm_char_known(c: char)
    requires
        known_lower(c) is Some,
        to_lower(c) == known_lower(c)->0,
    ensures
        known_lower(norm_char(c)) == Some(norm_char(c)),
        norm_char(c) != 'ё',
{
}

/// Canonical form of a character sequence; see [`normalize`].
pub fn normalize_chars(s: &[char]) -> (r: Vec<char>)
    ensures
        r@ == spec_normalize(s@),
        forall|i: int|
            0 <= i < s@.len() && known_lower(#[trigger] s@[i]) is Some ==> to_lower(s@[i])
                == known_lower(s@[i])->0,
        all_known(s@) ==> is_normal(r@) && !r@.contains('Ё'),
        is_normal(s@) ==> r@ == s@,
{
    let mut r: Vec<char> = Vec::new();
    let mut i: usize = 0;
    while i < s.len()
        invariant
            i <= s@.len(),
            r@ == spec_normalize(s@.take(i as int)),
            forall|k: int|
                0 <= k < i && known_lower(#[trigger] s@[k]) is Some ==> to_lower(s@[k])
                    == known_lower(s@[k])->0,
        decreases s@.len() - i,
    {
        let l = lower(s[i]);
        let c = if l == 'ё' {
            'е'
        } else {
            l
        };
        r.push(c);
        i = i + 1;
        assert(r@ =~= spec_normalize(s@.take(i as int)));
    }
    assert(s@.take(s@.len() as int) =~= s@);
    proof {
        if all_known(s@) {
            assert forall|j: int| 0 <= j < r@.len() implies known_lower(#[trigger] r@[j]) == Some(
                r@[j],
            ) && r@[j] != 'ё' by {
                assert(known_lower(s@[j]) is Some);
                lemma_norm_char_known(s@[j]);
            }
            if r@.contains('Ё') {
                let j = choose|j: int| 0 <= j < r@.len() && r@[j] == 'Ё';
                assert(known_lower(r@[j]) == Some(r@[j]));
            }
        }
        if is_normal(s@) {
            assert forall|j: int| 0 <= j < r@.len() implies r@[j] == s@[j] by {
                assert(known_lower(s@[j]) == Some(s@[j]));
            }
            assert(r@ =~= s@);
        }
    }
    r
}

/// Canonical form used everywhere inside the engine: lowercase, `ё` → `е`.
///
/// Display forms keep their original spelling in the lexicon; only the
/// matching keys are normalized.
///
/// On Russian letters and ASCII the result is in canonical form, and a
/// string in canonical form comes back unchanged, so normalizing twice gives
/// what normalizing once gives.
pub fn normalize(s: &str) -> (r: String)
    ensures
        r@ == spec_normalize(s@),
        forall|i: int|
            0 <= i < s@.len() && known_lower(#[trigger] s@[i]) is Some ==> to_lower(s@[i])
                == known_lower(s@[i])->0,
        all_known(s@) ==> is_normal(r@) && !r@.contains('Ё'),
        is_normal(s@) ==> r@ == s@,
{
    let v = str_chars(s);
    let n = normalize_chars(v.as_slice());
    chars_to_string(n.as_slice())
}

/// Consonant skeleton: the characters of `s` that are neither vowels nor
/// `ь`/`ъ`, in order.
pub open spec fn spec_skeleton(s: Seq<char>) -> Seq<char>
    decreases s.len(),
{
    if s.len() == 0 {
        s
    } else {
        let rest = spec_skeleton(s.drop_last());
        if !spec_is_vowel(s.last()) && !spec_is_sign(s.last()) {
            rest.push(s.last())
        } else {
            rest
        }
    }
}

pub fn skeleton_chars(s: &[char]) -> (r: Vec<char>)
    ensures
        r@ == spec_skeleton(s@),
        forall|i: int|
            0 <= i < s@.len() && known_lower(#[trigger] s@[i]) is Some ==> to_lower(s@[i])
                == known_lower(s@[i])->0,
{
    let mut r: Vec<char> = Vec::new();
    let mut i: usize = 0;
    while i < s.len()
        invariant
            i <= s@.len(),
            r@ == spec_skeleton(s@.take(i as int)),
            forall|k: int|
                0 <= k < i && known_lower(#[trigger] s@[k]) is Some ==> to_lower(s@[k])
                    == known_lower(s@[k])->0,
        decreases s@.len() - i,
    {
        let c = s[i];
        assert(s@.take(i + 1).drop_last() =~= s@.take(i as int));
        if !is_vowel(c) && !is_sign(c) {
            r.push(c);
        }
        i = i + 1;
    }
    assert(s@.take(s@.len() as int) =~= s@);
    r
}

/// Consonant skeleton: drops vowels and `ь`/`ъ`, keeps everything else
/// in order. `привет` → `првт`, `тестирование` → `тстрвн`.
///
/// The input is expected to be [`normalize`]d.
pub fn skeleton(s: &str) -> (r: String)
    ensures
        r@ == spec_skeleton(s@),
        forall|i: int|
            0 <= i < s@.len() && known_lower(#[trigger] s@[i]) is Some ==> to_lower(s@[i])
                == known_lower(s@[i])->0,
{
    let v = str_chars(s);
    let k = skeleton_chars(v.as_slice());
    chars_to_string(k.as_slice())
}

/// A character a skeleton keeps: neither a vowel nor `ь`/`ъ`.
pub open spec fn skeleton_keeps(c: char) -> bool {
    !spec_is_vowel(c) && !spec_is_sign(c)
}

/// The skeleton is exactly the kept characters of `s`, in order.
proof fn lemma_skeleton_filter(s: Seq<char>)
    ensures
        spec_skeleton(s) == s.filter(|c: char| skeleton_keeps(c)),
    decreases s.len(),
{
    reveal(Seq::filter);
    if s.len() > 0 {
        lemma_skeleton_filter(s.drop_last());
    }
}

/// The skeleton keeps every character that is neither a vowel nor a sign,
/// in order and nothing else: it has one character per such character of
/// `s`, and the `n`-th such character of `s` is the `n`-th character of the
/// skeleton.
pub proof fn lemma_skeleton_keeps_consonants(s: Seq<char>)
    ensures
        spec_skeleton(s).len() == s.filter(|c: char| skeleton_keeps(c)).len(),
        forall|i: int|
            0 <= i < s.len() && skeleton_keeps(#[trigger] s[i]) ==> spec_skeleton(s)[s.take(i).filter(
                |c: char| skeleton_keeps(c),
            ).len() as int] == s[i],
{
    let p = |c: char| skeleton_keeps(c);
    lemma_skeleton_filter(s);
    assert forall|i: int| 0 <= i < s.len() && skeleton_keeps(#[trigger] s[i]) implies spec_skeleton(
        s,
    )[s.take(i).filter(p).len() as int] == s[i] by {
        let a = s.take(i + 1);
        let b = s.skip(i + 1);
        assert(s =~= a + b);
        Seq::filter_distributes_over_add(a, b, p);
        reveal(Seq::filter);
        assert(a.drop_last() =~= s.take(i));
        assert(a.last() == s[i]);
        assert(a.filter(p) == s.take(i).filter(p).push(s[i]));
        let n = s.take(i).filter(p).len() as int;
        assert((a.filter(p) + b.filter(p))[n] == a.filter(p)[n]);
    }
}

/// No character of a skeleton is a vowel or a sign.
pub proof fn lemma_skeleton_consonants(s: Seq<char>)
    ensures
        forall|i: int|
            0 <= i < spec_skeleton(s).len() ==> !spec_is_vowel(#[trigger] spec_skeleton(s)[i])
                && !spec_is_sign(spec_skeleton(s)[i]),
        spec_skeleton(s).len() <= s.len(),
    decreases s.len(),
{
    if s.len() > 0 {
        lemma_skeleton_consonants(s.drop_last());
    }
}

/// A lowercase Russian letter as `is_plain_russian` accepts it.
pub open spec fn is_ru_letter(c: char) -> bool {
    ('а' <= c && c <= 'я') || c == 'ё'
}

/// A plain Russian word: Russian lowercase letters, with hyphens only
/// between two letters.
pub open spec fn spec_plain_russian(s: Seq<char>) -> bool {
    forall|i: int|
        0 <= i < s.len() ==> is_ru_letter(#[trigger] s[i]) || (s[i] == '-' && 0 < i && i + 1
            < s.len() && is_ru_letter(s[i - 1]) && is_ru_letter(s[i + 1]))
}

pub fn is_plain_russian_chars(s: &[char]) -> (r: bool)
    ensures
        r == spec_plain_russian(s@),
{
    let mut prev_hyphen = false;
    let mut seen_letter = false;
    let mut i: usize = 0;
    while i < s.len()
        invariant
            i <= s@.len(),
            seen_letter == (i > 0),
            prev_hyphen == (i > 0 && s@[i - 1] == '-'),
            i > 0 ==> is_ru_letter(s@[0]),
            forall|k: int|
                0 <= k < i ==> is_ru_letter(#[trigger] s@[k]) || (s@[k] == '-' && 0 < k
                    && is_ru_letter(s@[k - 1])),
            forall|k: int|
                0 <= k && k + 1 < i && s@[k] == '-' ==> #[trigger] is_ru_letter(s@[k + 1]),
        decreases s@.len() - i,
    {
        let c = s[i];
        if ('а' <= c && c <= 'я') || c == 'ё' {
            seen_letter = true;
            prev_hyphen = false;
        } else if c == '-' && seen_letter && !prev_hyphen {
            prev_hyphen = true;
        } else {
            proof {
                if c == '-' {
                    if i == 0 {
                        assert(!(0 < 0int));
                    } else {
                        assert(s@[i - 1] == '-');
                        assert(!is_ru_letter(s@[i - 1]));
                    }
                }
                assert(!(is_ru_letter(s@[i as int]) || (s@[i as int] == '-' && 0 < i && i + 1
                    < s@.len() && is_ru_letter(s@[i - 1]) && is_ru_letter(s@[i + 1]))));
            }
            return false;
        }
        i = i + 1;
    }
    if prev_hyphen {
        proof {
            let k = s@.len() - 1;
            assert(s@[k] == '-');
            assert(!is_ru_letter(s@[k]));
        }
        false
    } else {
        proof {
            assert forall|i: int| 0 <= i < s@.len() implies is_ru_letter(#[trigger] s@[i]) || (
            s@[i] == '-' && 0 < i && i + 1 < s@.len() && is_ru_letter(s@[i - 1]) && is_ru_letter(
                s@[i + 1],
            )) by {
                if !is_ru_letter(s@[i]) {
                    assert(s@[i] == '-');
                    if i + 1 == s@.len() {
                        assert(false);
                    }
                    assert(is_ru_letter(s@[i + 1]));
                }
            }
        }
        true
    }
}

/// Whether `s` is a plain Russian word — the engine's "если не уверен — не
/// трогай" predicate. Russian letters with at most *internal* single hyphens
/// (`кто-то`); digits, Latin, punctuation or symbols (`пароль1`, `привет!`, a
/// URL) make it a non-word the engine must not reason about, neither as input
/// nor as a learned session word. A leading/trailing/doubled hyphen or a
/// hyphen-only string (`-`, `--`, `слово-`) is rejected too. An empty string
/// is vacuously plain (callers guard length separately).
pub fn is_plain_russian(s: &str) -> (r: bool)
    ensures
        r == spec_plain_russian(s@),
{
    let v = str_chars(s);
    is_plain_russian_chars(v.as_slice())
}

// ---------------------------------------------------------------------------
// Keyboard geometry
// ---------------------------------------------------------------------------

/// ЙЦУКЕН layout rows used for adjacency checks.
pub open spec fn spec_row(r: nat) -> Seq<char> {
    if r == 0 {
        seq!['й', 'ц', 'у', 'к', 'е', 'н', 'г', 'ш', 'щ', 'з', 'х', 'ъ']
    } else if r == 1 {
        seq!['ф', 'ы', 'в', 'а', 'п', 'р', 'о', 'л', 'д', 'ж', 'э']
    } else {
        seq!['я', 'ч', 'с', 'м', 'и', 'т', 'ь', 'б', 'ю']
    }
}

fn row(r: usize) -> (v: Vec<char>)
    requires
        r < 3,
    ensures
        v@ == spec_row(r as nat),
{
    let v = if r == 0 {
        vec!['й', 'ц', 'у', 'к', 'е', 'н', 'г', 'ш', 'щ', 'з', 'х', 'ъ']
    } else if r == 1 {
        vec!['ф', 'ы', 'в', 'а', 'п', 'р', 'о', 'л', 'д', 'ж', 'э']
    } else {
        vec!['я', 'ч', 'с', 'м', 'и', 'т', 'ь', 'б', 'ю']
    };
    assert(v@ =~= spec_row(r as nat));
    v
}

/// Index of the first occurrence of `c` in `s`.
pub open spec fn position(s: Seq<char>, c: char) -> Option<nat>
    decreases s.len(),
{
    if s.len() == 0 {
        None
    } else if s[0] == c {
        Some(0)
    } else {
        match position(s.drop_first(), c) {
            Some(k) => Some(k + 1),
            None => None,
        }
    }
}

proof fn lemma_position(s: Seq<char>, c: char, i: int)
    requires
        0 <= i <= s.len(),
        forall|k: int| 0 <= k < i ==> s[k] != c,
    ensures
        i < s.len() && s[i] == c ==> position(s, c) == Some(i as nat),
        i == s.len() ==> position(s, c) is None,
    decreases i,
{
    if i > 0 {
        lemma_position(s.drop_first(), c, i - 1);
    }
}

/// Row and column of a key on the layout, first row that holds it.
pub open spec fn spec_key_position(c: char) -> Option<(nat, nat)> {
    match position(spec_row(0), c) {
        Some(col) => Some((0, col)),
        None => match position(spec_row(1), c) {
            Some(col) => Some((1, col)),
            None => match position(spec_row(2), c) {
                Some(col) => Some((2, col)),
                None => None,
            },
        },
    }
}

fn find_in(s: &Vec<char>, c: char) -> (r: Option<usize>)
    ensures
        r matches Some(k) ==> position(s@, c) == Some(k as nat),
        r is None ==> position(s@, c) is None,
{
    let mut i: usize = 0;
    while i < s.len()
        invariant
            i <= s@.len(),
            forall|k: int| 0 <= k < i ==> s@[k] != c,
        decreases s@.len() - i,
    {
        if s[i] == c {
            proof {
                lemma_position(s@, c, i as int);
            }
            return Some(i);
        }
        i = i + 1;
    }
    proof {
        lemma_position(s@, c, i as int);
    }
    None
}

fn key_position(c: char) -> (r: Option<(usize, usize)>)
    ensures
        r matches Some(p) ==> spec_key_position(c) == Some((p.0 as nat, p.1 as nat)),
        r is None ==> spec_key_position(c) is None,
{
    let mut r: usize = 0;
    while r < 3
        invariant
            r <= 3,
            forall|k: nat| k < r ==> position(#[trigger] spec_row(k), c) is None,
        decreases 3 - r,
    {
        let letters = row(r);
        match find_in(&letters, c) {
            Some(col) => {
                return Some((r, col));
            },
            None => {},
        }
        r = r + 1;
    }
    assert(position(spec_row(0), c) is None);
    assert(position(spec_row(1), c) is None);
    assert(position(spec_row(2), c) is None);
    None
}

pub open spec fn abs_diff(a: nat, b: nat) -> nat {
    if a >= b {
        (a - b) as nat
    } else {
        (b - a) as nat
    }
}

/// Two lowercased letters on neighboring keys: same row and columns one
/// apart, or rows one apart and columns at most one apart.
pub open spec fn spec_keyboard_adjacent(a: char, b: char) -> bool {
    let (a, b) = (to_lower(a), to_lower(b));
    if a == b {
        false
    } else {
        match (spec_key_position(a), spec_key_position(b)) {
            (Some((ra, ca)), Some((rb, cb))) => {
                let dr = abs_diff(ra, rb);
                let dc = abs_diff(ca, cb);
                (dr == 0 && dc == 1) || (dr == 1 && dc <= 1)
            },
            _ => false,
        }
    }
}

/// Returns `true` if two letters sit on neighboring ЙЦУКЕН keys.
/// Rows are treated as vertically aligned, which is a close enough
/// approximation of the physical stagger for cost modelling.
pub fn keyboard_adjacent(a: char, b: char) -> (r: bool)
    ensures
        r == spec_keyboard_adjacent(a, b),
        known_lower(a) matches Some(l) ==> to_lower(a) == l,
        known_lower(b) matches Some(l) ==> to_lower(b) == l,
{
    let (a, b) = (lower(a), lower(b));
    if a == b {
        return false;
    }
    match (key_position(a), key_position(b)) {
        (Some((ra, ca)), Some((rb, cb))) => {
            let dr = if ra >= rb {
                ra - rb
            } else {
                rb - ra
            };
            let dc = if ca >= cb {
                ca - cb
            } else {
                cb - ca
            };
            (dr == 0 && dc == 1) || (dr == 1 && dc <= 1)
        },
        _ => false,
    }
}

} // verus!
