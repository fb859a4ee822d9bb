//! Decimal notation of byte offsets.

use vstd::prelude::*;

verus! {

/// The ASCII code of the digit `0`.
pub const ZERO: u8 = 48;

/// The decimal digits of `n` in ASCII, most significant first, without
/// leading zeros.
pub open spec fn decimal(n: nat) -> Seq<u8>
    decreases n,
{
    if n < 10 {
        seq![(ZERO + n) as u8]
    } else {
        decimal(n / 10).push((ZERO + n % 10) as u8)
    }
}

/// The number that a run of ASCII digits denotes.
pub open spec fn decimal_value(digits: Seq<u8>) -> nat
    decreases digits.len(),
{
    if digits.len() == 0 {
        0
    } else {
        (decimal_value(digits.drop_last()) * 10 + (digits.last() - ZERO)) as nat
    }
}

/// Decimal notation holds digits only and is never empty.
pub proof fn lemma_decimal_digits(n: nat)
    ensures
        decimal(n).len() >= 1,
        forall|i: int| 0 <= i < decimal(n).len() ==> ZERO <= #[trigger] decimal(n)[i] <= ZERO + 9,
    decreases n,
{
    if n >= 10 {
        lemma_decimal_digits(n / 10);
    }
}

/// Reading decimal notation back gives the number that was written.
pub proof fn lemma_decimal_round_trip(n: nat)
    ensures
        decimal_value(decimal(n)) == n,
    decreases n,
{
    if n < 10 {
        let d = decimal(n);
        assert(d.drop_last() =~= Seq::<u8>::empty());
        assert(decimal_value(d.drop_last()) == 0);
    } else {
        lemma_decimal_round_trip(n / 10);
        let d = decimal(n);
        assert(d.drop_last() =~= decimal(n / 10));
    }
}

/// Appends the decimal notation of `n` to `out`.
pub fn push_decimal(out: &mut Vec<u8>, n: usize)
    ensures
        final(out)@ == old(out)@ + decimal(n as nat),
{
    let mut low: Vec<u8> = Vec::new();
    let mut m: usize = n;
    while m >= 10
        invariant
            decimal(n as nat) == decimal(m as nat) + low@.reverse(),
        decreases m,
    {
        let digit: u8 = ZERO + (m % 10) as u8;
        proof {
            let tail = low@.reverse();
            assert(low@.push(digit).reverse() =~= seq![digit] + tail);
            assert(decimal(m as nat) == decimal((m / 10) as nat).push(digit));
            assert(decimal((m / 10) as nat).push(digit) + tail =~= decimal((m / 10) as nat) + (
            seq![digit] + tail));
        }
        low.push(digit);
        m = m / 10;
    }
    out.push(ZERO + m as u8);
    assert(out@ == old(out)@ + decimal(m as nat));
    let mut k: usize = low.len();
    while k > 0
        invariant
            k <= low@.len(),
            out@ == old(out)@ + decimal(m as nat) + low@.reverse().subrange(
                0,
                low@.len() - k,
            ),
        decreases k,
    {
        k -= 1;
        out.push(low[k]);
        assert(low@.reverse().subrange(0, low@.len() - k) =~= low@.reverse().subrange(
            0,
            low@.len() - k - 1,
        ).push(low@[k as int]));
    }
    assert(low@.reverse().subrange(0, low@.len() as int) =~= low@.reverse());
    assert(old(out)@ + decimal(m as nat) + low@.reverse() =~= old(out)@ + (decimal(m as nat)
        + low@.reverse()));
}

} // verus!
