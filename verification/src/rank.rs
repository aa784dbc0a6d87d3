//! Shared-prefix and shared-ending measures over character sequences: the
//! integer parts of the candidate ranking signals (stem agreement, ending
//! compatibility, completion agreement).

use vstd::prelude::*;

verus! {

/// Length of the longest common prefix of `a` and `b`.
pub open spec fn spec_common_prefix_len(a: Seq<char>, b: Seq<char>) -> nat
    decreases a.len(),
{
    if a.len() == 0 || b.len() == 0 || a[0] != b[0] {
        0
    } else {
        1 + spec_common_prefix_len(a.drop_first(), b.drop_first())
    }
}

/// Length of the longest common ending of `a` and `b`.
pub open spec fn spec_common_suffix_len(a: Seq<char>, b: Seq<char>) -> nat
    decreases a.len(),
{
    if a.len() == 0 || b.len() == 0 || a.last() != b.last() {
        0
    } else {
        1 + spec_common_suffix_len(a.drop_last(), b.drop_last())
    }
}

/// The common prefix is shared by both sequences and cannot be extended.
pub proof fn lemma_common_prefix(a: Seq<char>, b: Seq<char>)
    ensures
        spec_common_prefix_len(a, b) <= a.len(),
        spec_common_prefix_len(a, b) <= b.len(),
        forall|k: int| 0 <= k < spec_common_prefix_len(a, b) ==> a[k] == b[k],
        spec_common_prefix_len(a, b) < a.len() && spec_common_prefix_len(a, b) < b.len() ==> a[spec_common_prefix_len(a, b) as int] != b[spec_common_prefix_len(a, b) as int],
    decreases a.len(),
{
    if a.len() > 0 && b.len() > 0 && a[0] == b[0] {
        lemma_common_prefix(a.drop_first(), b.drop_first());
        assert forall|k: int| 0 <= k < spec_common_prefix_len(a, b) implies a[k] == b[k] by {
            if k > 0 {
                assert(a.drop_first()[k - 1] == b.drop_first()[k - 1]);
            }
        }
    }
}

/// Longest common prefix of two char slices.
pub fn common_prefix_len(a: &[char], b: &[char]) -> (r: usize)
    ensures
        r == spec_common_prefix_len(a@, b@),
{
    let mut i: usize = 0;
    assert(a@.subrange(0, a@.len() as int) =~= a@);
    assert(b@.subrange(0, b@.len() as int) =~= b@);
    while i < a.len() && i < b.len() && a[i] == b[i]
        invariant
            i <= a@.len(),
            i <= b@.len(),
            spec_common_prefix_len(a@, b@) == i + spec_common_prefix_len(
                a@.subrange(i as int, a@.len() as int),
                b@.subrange(i as int, b@.len() as int),
            ),
        decreases a@.len() - i,
    {
        assert(a@.subrange(i as int, a@.len() as int).drop_first() =~= a@.subrange(
            i + 1,
            a@.len() as int,
        ));
        assert(b@.subrange(i as int, b@.len() as int).drop_first() =~= b@.subrange(
            i + 1,
            b@.len() as int,
        ));
        i = i + 1;
    }
    i
}

/// Longest common ending of two char slices, capped at `cap`.
pub fn common_ending_len(a: &[char], b: &[char], cap: usize) -> (r: usize)
    ensures
        r == if spec_common_suffix_len(a@, b@) < cap {
            spec_common_suffix_len(a@, b@)
        } else {
            cap as nat
        },
{
    let mut i: usize = 0;
    let n = a.len();
    let m = b.len();
    assert(a@.subrange(0, n as int) =~= a@);
    assert(b@.subrange(0, m as int) =~= b@);
    while i < cap && i < n && i < m && a[n - 1 - i] == b[m - 1 - i]
        invariant
            n == a@.len(),
            m == b@.len(),
            i <= n,
            i <= m,
            i <= cap,
            spec_common_suffix_len(a@, b@) == i + spec_common_suffix_len(
                a@.subrange(0, n - i),
                b@.subrange(0, m - i),
            ),
        decreases n - i,
    {
        assert(a@.subrange(0, n - i).drop_last() =~= a@.subrange(0, n - i - 1));
        assert(b@.subrange(0, m - i).drop_last() =~= b@.subrange(0, m - i - 1));
        i = i + 1;
    }
    i
}

} // verus!
