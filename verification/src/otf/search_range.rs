//! The binary search header fields (search range, entry selector) that several tables hold.
use vstd::prelude::*;

verus! {

/// `2^e`.
pub open spec fn two_to(e: nat) -> nat
    decreases e,
{
    if e == 0 {
        1
    } else {
        2 * two_to((e - 1) as nat)
    }
}

/// Whether `e` is the floor of the binary logarithm of `n`.
pub open spec fn is_floor_log2(n: nat, e: nat) -> bool {
    two_to(e) <= n < two_to(e + 1)
}

pub proof fn lemma_two_to_large(e: nat)
    ensures
        e >= 32 ==> two_to(e) >= 0x1_0000_0000,
        two_to(e) >= 1,
    decreases e,
{
    if e > 0 {
        lemma_two_to_large((e - 1) as nat);
        if e == 32 {
            reveal_with_fuel(two_to, 33);
            assert(two_to(32) == 0x1_0000_0000);
        }
    }
}

/// Returns `(2^e, e)` for the largest `e` with `2^e <= n`.
pub fn floor_log2(n: u32) -> (r: (u32, u32))
    requires
        n >= 1,
    ensures
        is_floor_log2(n as nat, r.1 as nat),
        r.0 == two_to(r.1 as nat),
        r.1 < 32,
{
    let mut p: u32 = 1;
    let mut e: u32 = 0;
    while p <= n / 2
        invariant
            1 <= p <= n,
            p == two_to(e as nat),
            e < 32,
        decreases n - p,
    {
        p = p * 2;
        e = e + 1;
        proof {
            lemma_two_to_large(e as nat);
        }
    }
    (p, e)
}

/// A power of two no larger than `n` below 4096 is at most 2048.
pub proof fn lemma_two_to_le(e: nat, n: nat)
    requires
        two_to(e) <= n,
        n < 4096,
    ensures
        two_to(e) <= 2048,
        16 * two_to(e) <= 16 * n,
{
    reveal_with_fuel(two_to, 13);
    assert(two_to(12) == 4096);
    assert(two_to(11) == 2048);
    if e >= 12 {
        lemma_two_to_mono(12, e);
    } else {
        lemma_two_to_mono(e, 11);
    }
}

/// Powers of two grow with the exponent.
pub proof fn lemma_two_to_mono(a: nat, b: nat)
    requires
        a <= b,
    ensures
        two_to(a) <= two_to(b),
    decreases b - a,
{
    if a < b {
        lemma_two_to_mono(a, (b - 1) as nat);
        lemma_two_to_large((b - 1) as nat);
    }
}

} // verus!
