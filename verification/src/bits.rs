//! Binary digits of natural numbers.

use vstd::arithmetic::power2::{lemma_pow2_pos, lemma_pow2_unfold, pow2};
use vstd::prelude::*;

verus! {

/// Number of binary digits of `n`; 0 has none.
pub open spec fn binary_digits(n: nat) -> nat
    decreases n,
{
    if n == 0 {
        0
    } else {
        1 + binary_digits(n / 2)
    }
}

/// Number of binary digits of `n`; 0 has none.
pub fn bit_length(n: u64) -> (r: u32)
    ensures
        r == binary_digits(n as nat),
        r <= 64,
{
    let mut rest: u64 = n;
    let mut r: u32 = 0;
    let ghost mut room: nat = 64;
    proof {
        vstd::arithmetic::power2::lemma2_to64();
    }
    while rest > 0
        invariant
            r + binary_digits(rest as nat) == binary_digits(n as nat),
            room + r == 64,
            rest < pow2(room),
        decreases rest,
    {
        proof {
            if room == 0 {
                vstd::arithmetic::power2::lemma2_to64();
            }
            lemma_pow2_unfold(room);
            room = (room - 1) as nat;
        }
        rest = rest / 2;
        r += 1;
    }
    r
}

/// `n` has at most `digits` binary digits exactly if it is below 2 to that power.
pub proof fn lemma_binary_digits(n: nat, digits: nat)
    ensures
        binary_digits(n) <= digits <==> n < pow2(digits),
    decreases n,
{
    lemma_pow2_pos(digits);
    if n > 0 {
        if digits == 0 {
            vstd::arithmetic::power2::lemma2_to64();
        } else {
            lemma_pow2_unfold(digits);
            lemma_binary_digits(n / 2, (digits - 1) as nat);
        }
    }
}

/// Binary digit `i` of `n`, counted from the least significant.
pub open spec fn binary_digit(n: nat, i: nat) -> nat {
    (n / pow2(i)) % 2
}

/// Two numbers below 2 to the power of `digits` that share that many binary
/// digits are the same.
pub proof fn lemma_digits_identify(a: nat, b: nat, digits: nat)
    requires
        a < pow2(digits),
        b < pow2(digits),
        forall|i: nat| i < digits ==> #[trigger] binary_digit(a, i) == binary_digit(b, i),
    ensures
        a == b,
    decreases digits,
{
    if digits == 0 {
        vstd::arithmetic::power2::lemma2_to64();
    } else {
        lemma_pow2_unfold(digits);
        assert(a / 2 == b / 2) by {
            assert forall|i: nat| i < (digits - 1) as nat implies #[trigger] binary_digit(a / 2, i)
                == binary_digit(b / 2, i) by {
                lemma_next_digit(a, i);
                lemma_next_digit(b, i);
                assert(binary_digit(a, i + 1) == binary_digit(b, i + 1));
            }
            lemma_digits_identify(a / 2, b / 2, (digits - 1) as nat);
        }
        assert(binary_digit(a, 0) == binary_digit(b, 0));
        vstd::arithmetic::power2::lemma2_to64();
    }
}

/// Digit `i` of the half is digit `i + 1` of the whole.
proof fn lemma_next_digit(n: nat, i: nat)
    ensures
        binary_digit(n / 2, i) == binary_digit(n, i + 1),
{
    lemma_pow2_pos(i);
    lemma_pow2_unfold(i + 1);
    vstd::arithmetic::div_mod::lemma_div_denominator(n as int, 2, pow2(i) as int);
}

/// The bit length of a number is the least power of two that the number is below.
pub proof fn law_bit_length(n: u64, r: u32)
    requires
        call_ensures(bit_length, (n,), r),
    ensures
        n < pow2(r as nat),
        r > 0 ==> pow2((r - 1) as nat) <= n,
{
    lemma_binary_digits(n as nat, r as nat);
    if r > 0 {
        lemma_binary_digits(n as nat, (r - 1) as nat);
    }
}

} // verus!
