//! Decimal numerals as ASCII bytes.

use vstd::prelude::*;

verus! {

/// The decimal numeral of `n`: ASCII digits without sign, separators or
/// leading zeros (`0` itself is the single digit `0`).
pub open spec fn numeral(n: nat) -> Seq<u8>
    decreases n,
{
    if n < 10 {
        seq![(48 + n) as u8]
    } else {
        numeral(n / 10).push((48 + n % 10) as u8)
    }
}

/// The number that a string of ASCII digits denotes, read from the left.
pub open spec fn numeral_value(digits: Seq<u8>) -> nat
    decreases digits.len(),
{
    if digits.len() == 0 {
        0
    } else {
        (10 * numeral_value(digits.drop_last()) + (digits.last() - 48)) as nat
    }
}

/// Reading a numeral gives back the number it was written for.
pub proof fn lemma_numeral_value(n: nat)
    ensures
        numeral_value(numeral(n)) == n,
    decreases n,
{
    if n < 10 {
        assert(numeral(n).drop_last() =~= Seq::<u8>::empty());
        assert(numeral_value(numeral(n).drop_last()) == 0);
    } else {
        lemma_numeral_value(n / 10);
        assert(numeral(n).drop_last() =~= numeral(n / 10));
    }
}

/// Appends the decimal numeral of `n` to `out`.
pub fn append_numeral(out: &mut Vec<u8>, n: usize)
    ensures
        final(out)@ == old(out)@ + numeral(n as nat),
    decreases n,
{
    if n >= 10 {
        append_numeral(out, n / 10);
    }
    let digit: u8 = 48 + (n % 10) as u8;
    out.push(digit);
    assert(out@ =~= old(out)@ + numeral(n as nat));
}

} // verus!
