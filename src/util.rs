use vstd::arithmetic::power2::{lemma_pow2_unfold, pow2};
use vstd::prelude::*;

verus! {

/// Number of binary digits of `n`, without leading zeros.
pub open spec fn bit_length(n: nat) -> nat
    decreases n,
{
    if n == 0 {
        0
    } else {
        1 + bit_length(n / 2)
    }
}

/// Number of zero bits above the highest set bit of a byte (eight for zero).
pub open spec fn leading_zero_bits(b: u8) -> nat {
    (8 - bit_length(b as nat)) as nat
}

/// A number in `[2^k, 2^(k+1))` has `k + 1` binary digits.
pub proof fn lemma_bit_length(n: nat, k: nat)
    requires
        pow2(k) <= n < pow2(k + 1),
    ensures
        bit_length(n) == k + 1,
    decreases k,
{
    lemma_pow2_unfold(k + 1);
    if k == 0 {
        assert(pow2(0) == 1) by {
            vstd::arithmetic::power2::lemma2_to64();
        }
        assert(n == 1);
        assert(bit_length(0) == 0);
    } else {
        lemma_pow2_unfold(k);
        lemma_bit_length(n / 2, (k - 1) as nat);
    }
}

/// A number below `2^k` has at most `k` binary digits.
pub proof fn lemma_bit_length_bound(n: nat, k: nat)
    requires
        n < pow2(k),
    ensures
        bit_length(n) <= k,
    decreases k,
{
    if n > 0 {
        if k == 0 {
            vstd::arithmetic::power2::lemma2_to64();
        } else {
            lemma_pow2_unfold(k);
            lemma_bit_length_bound(n / 2, (k - 1) as nat);
        }
    }
}

/// Counts the zero bits of `num` above its highest set bit.
pub fn leading_zeros(num: u8) -> (r: usize)
    ensures
        r == leading_zero_bits(num),
        r <= 8,
        num != 0 ==> r < 8,
{
    proof {
        vstd::arithmetic::power2::lemma2_to64();
    }
    let mut msb: u8 = 128;
    let mut i: usize = 0;
    while i < 8
        invariant
            i <= 8,
            (num as nat) < pow2((8 - i) as nat),
            i < 8 ==> msb as nat == pow2((7 - i) as nat),
        decreases 8 - i,
    {
        if num >= msb {
            proof {
                lemma_bit_length(num as nat, (7 - i) as nat);
            }
            return i;
        }
        proof {
            if i < 7 {
                lemma_pow2_unfold((7 - i) as nat);
            }
        }
        msb = msb / 2;
        i = i + 1;
    }
    assert(num == 0);
    assert(bit_length(0) == 0);
    8
}

/// The decimal digits of a natural number, most significant first.
pub open spec fn digits_of(n: nat) -> Seq<char>
    decreases n,
{
    if n < 10 {
        seq![((n + 48) as u8) as char]
    } else {
        digits_of(n / 10).push((((n % 10) + 48) as u8) as char)
    }
}

/// Decimal text of an integer, with a leading minus sign when negative.
pub open spec fn decimal_of(n: int) -> Seq<char> {
    if n < 0 {
        seq!['-'] + digits_of((-n) as nat)
    } else {
        digits_of(n as nat)
    }
}

/// Relies on the `Display` impl of `i64` (through `to_string`): plain decimal digits,
/// with a minus sign for negative values.
#[verifier::external_body]
pub(crate) fn decimal(n: i64) -> (r: String)
    ensures
        r@ == decimal_of(n as int),
{
    n.to_string()
}

} // verus!
