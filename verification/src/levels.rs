//! How many link levels a structure of a given size needs.

use vstd::prelude::*;

verus! {

/// Minimum number of levels required for a structure holding `n` elements:
/// one level for sizes 0 and 1, and one more each time the size doubles.
pub open spec fn spec_levels_required(n: nat) -> nat
    decreases n,
{
    if n <= 1 {
        1
    } else {
        1 + spec_levels_required(n / 2)
    }
}

/// The required level count never exceeds the size itself (for sizes >= 1).
proof fn lemma_levels_required_le(n: nat)
    requires
        1 <= n,
    ensures
        spec_levels_required(n) <= n,
    decreases n,
{
    if n > 1 {
        lemma_levels_required_le(n / 2);
    }
}

/// Level-count law: one element needs one level, and doubling the size
/// increases the required level count by exactly one.
pub proof fn lemma_levels_required_doubling(n: nat)
    requires
        1 <= n,
    ensures
        spec_levels_required(2 * n) == spec_levels_required(n) + 1,
{
    assert(2 * n / 2 == n) by (nonlinear_arith);
}

/// The empty structure needs the same single level as the singleton one.
pub proof fn lemma_levels_required_base()
    ensures
        spec_levels_required(0) == 1,
        spec_levels_required(1) == 1,
{
}

/// Minimum levels required for a structure of size `n`.
pub fn levels_required(n: usize) -> (r: usize)
    ensures
        r == spec_levels_required(n as nat),
{
    let mut h: usize = 1;
    let mut m: usize = n;
    while m > 1
        invariant
            1 <= h,
            m >= 1 ==> h - 1 + spec_levels_required(m as nat) == spec_levels_required(n as nat),
            m >= 1 ==> h <= spec_levels_required(n as nat),
            m == 0 ==> n == 0 && h == 1,
        decreases m,
    {
        proof {
            assert(spec_levels_required((m / 2) as nat) >= 1);
            assert(spec_levels_required(m as nat) >= 2);
            assert(n > 1);
            lemma_levels_required_le(n as nat);
            assert(h + 1 <= spec_levels_required(n as nat));
        }
        m = m / 2;
        h = h + 1;
    }
    h
}

} // verus!
