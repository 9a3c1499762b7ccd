//! Numbers written as decimal digits.
use vstd::prelude::*;

verus! {

/// The decimal digits of `n`, most significant first, as ASCII bytes.
pub open spec fn decimal(n: nat) -> Seq<u8>
    decreases n,
{
    if n < 10 {
        seq![(n + 48) as u8]
    } else {
        decimal(n / 10).push((n % 10 + 48) as u8)
    }
}

/// `digits` with zeros in front, to at least `width` digits.
pub open spec fn zero_padded(digits: Seq<u8>, width: nat) -> Seq<u8> {
    if digits.len() >= width {
        digits
    } else {
        Seq::new((width - digits.len()) as nat, |i: int| 48u8) + digits
    }
}

/// Appends `n` in decimal, with zeros in front to at least `width` digits, to `out`.
pub fn write_padded(out: &mut Vec<u8>, n: u64, width: usize)
    ensures
        final(out)@ == old(out)@ + zero_padded(decimal(n as nat), width as nat),
{
    let digits = decimal_digits(n);
    let mut k: usize = digits.len();
    let ghost start = out@;
    while k < width
        invariant
            digits.len() <= k <= width || k == digits.len(),
            out@ == start + Seq::new((k - digits.len()) as nat, |i: int| 48u8),
        decreases width - k,
    {
        out.push(48u8);
        proof {
            assert(out@ =~= start + Seq::new((k + 1 - digits.len()) as nat, |i: int| 48u8));
        }
        k = k + 1;
    }
    crate::big_endian::write_bytes(out, digits.as_slice());
    proof {
        if digits@.len() >= width {
            assert(out@ =~= start + digits@);
        } else {
            assert(out@ =~= start + (Seq::new((width - digits@.len()) as nat, |i: int| 48u8) + digits@));
        }
    }
}

/// A signed number in decimal: a minus sign before the digits of a negative one.
pub open spec fn signed_decimal(v: int) -> Seq<u8> {
    if v < 0 {
        seq![0x2Du8] + decimal((-v) as nat)
    } else {
        decimal(v as nat)
    }
}

/// `10` to the power `k`.
pub open spec fn pow10(k: nat) -> nat
    decreases k,
{
    if k == 0 { 1 } else { 10 * pow10((k - 1) as nat) }
}

/// A number below `10^k` has at most `k` digits.
pub proof fn lemma_decimal_len(n: nat, k: nat)
    requires
        k >= 1,
        n < pow10(k),
    ensures
        decimal(n).len() <= k,
    decreases k,
{
    if n >= 10 {
        assert(k >= 2) by {
            if k == 1 {
                assert(pow10(1) == 10) by {
                    reveal_with_fuel(pow10, 2);
                }
            }
        }
        assert(n / 10 < pow10((k - 1) as nat));
        lemma_decimal_len(n / 10, (k - 1) as nat);
    }
}

/// A number that fits into a `u64` has at most 20 digits.
pub proof fn lemma_decimal_len_u64(n: nat)
    requires
        n <= u64::MAX,
    ensures
        decimal(n).len() <= 20,
{
    assert(pow10(20) == 100000000000000000000) by {
        reveal_with_fuel(pow10, 21);
    }
    lemma_decimal_len(n, 20);
}

/// The digits of a decimal are digits, at least one.
pub proof fn lemma_decimal_digits(n: nat)
    ensures
        forall|k: int| 0 <= k < decimal(n).len() ==> 48 <= #[trigger] decimal(n)[k] <= 57,
        decimal(n).len() >= 1,
    decreases n,
{
    if n >= 10 {
        lemma_decimal_digits(n / 10);
    }
}

/// The decimal digits of `n`, most significant first.
pub fn decimal_digits(n: u64) -> (r: Vec<u8>)
    ensures
        r@ == decimal(n as nat),
    decreases n,
{
    if n < 10 {
        let mut r = Vec::new();
        r.push(n as u8 + 48);
        r
    } else {
        let mut r = decimal_digits(n / 10);
        r.push((n % 10) as u8 + 48);
        r
    }
}

/// Appends `v` in decimal to `out`.
pub fn write_signed(out: &mut Vec<u8>, v: i64)
    ensures
        final(out)@ == old(out)@ + signed_decimal(v as int),
{
    let digits = if v < 0 {
        out.push(0x2Du8);
        let m: u64 = ((-(v + 1)) as u64) + 1;
        decimal_digits(m)
    } else {
        decimal_digits(v as u64)
    };
    crate::big_endian::write_bytes(out, digits.as_slice());
    assert(out@ =~= old(out)@ + signed_decimal(v as int));
}

} // verus!
