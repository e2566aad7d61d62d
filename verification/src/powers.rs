//! Powers of four: the number of leaves at each recursion level.

use vstd::prelude::*;

verus! {

/// The deepest level whose leaf count still fits a `usize` on every machine.
pub const MAX_DEPTH: u32 = 15;

/// `4^n`.
pub open spec fn pow4(n: nat) -> nat
    decreases n,
{
    if n == 0 {
        1
    } else {
        4 * pow4((n - 1) as nat)
    }
}

/// A power of four is never zero.
pub proof fn lemma_pow4_positive(n: nat)
    ensures
        pow4(n) >= 1,
    decreases n,
{
    if n > 0 {
        lemma_pow4_positive((n - 1) as nat);
    }
}

/// `4^(a+b) = 4^a * 4^b`.
pub proof fn lemma_pow4_add(a: nat, b: nat)
    ensures
        pow4(a + b) == pow4(a) * pow4(b),
    decreases a,
{
    if a == 0 {
        assert(pow4(0) == 1);
        assert(pow4(a) * pow4(b) == pow4(b)) by (nonlinear_arith)
            requires
                pow4(a) == 1,
        ;
    } else {
        let a1 = (a - 1) as nat;
        lemma_pow4_add(a1, b);
        assert(pow4(a + b) == 4 * pow4(a1 + b));
        assert(4 * (pow4(a1) * pow4(b)) == (4 * pow4(a1)) * pow4(b)) by (nonlinear_arith);
    }
}

/// Powers of four grow with the exponent.
pub proof fn lemma_pow4_monotone(a: nat, b: nat)
    requires
        a <= b,
    ensures
        pow4(a) <= pow4(b),
    decreases b,
{
    if a < b {
        lemma_pow4_monotone(a, (b - 1) as nat);
    }
}

/// Up to `MAX_DEPTH` the leaf count stays below `2^30`.
pub proof fn lemma_pow4_bounded(n: nat)
    requires
        n <= MAX_DEPTH,
    ensures
        pow4(n) <= 0x4000_0000,
{
    lemma_pow4_monotone(n, 15);
    assert(pow4(15) == 0x4000_0000) by {
        reveal_with_fuel(pow4, 16);
    }
}

/// The number of leaves at `depth`, as a machine integer.
pub fn leaf_count(depth: u32) -> (count: usize)
    requires
        depth <= MAX_DEPTH,
    ensures
        count == pow4(depth as nat),
{
    let mut count: usize = 1;
    let mut level: u32 = 0;
    while level < depth
        invariant
            level <= depth <= MAX_DEPTH,
            count == pow4(level as nat),
        decreases depth - level,
    {
        proof {
            lemma_pow4_bounded((level + 1) as nat);
        }
        count = count * 4;
        level = level + 1;
    }
    count
}

} // verus!
