//! Small bit-string utilities: power-of-two tests and parsing a bit string
//! into its unsigned value.

use vstd::prelude::*;
use vstd::string::StrSliceExecFns;
use crate::bits::{is_bit_char, is_bit_seq, bit_val, binary_value};

verus! {

/// Whether `n` is a positive power of two.
pub open spec fn is_power_of_two(n: nat) -> bool
    decreases n,
{
    if n == 0 {
        false
    } else if n == 1 {
        true
    } else {
        n % 2 == 0 && is_power_of_two(n / 2)
    }
}

/// Tests whether a number is a positive power of two.
pub fn power_of_two(number: usize) -> (r: bool)
    ensures
        r == is_power_of_two(number as nat),
{
    if number == 0 {
        return false;
    }
    let mut x: usize = number;
    while x > 1
        invariant
            x >= 1,
            is_power_of_two(number as nat) == is_power_of_two(x as nat),
        decreases x,
    {
        if x % 2 == 1 {
            return false;
        }
        x = x / 2;
    }
    true
}

/// Numeric value of a single bit character.
pub fn convert_char_bit_to_int(bit: char) -> (r: usize)
    requires
        is_bit_char(bit),
    ensures
        r == bit_val(bit),
{
    if bit == '1' {
        1
    } else {
        0
    }
}

/// Unsigned value of a bit string, most significant bit first.
pub fn binary_to_decimal(bits: &str) -> (r: usize)
    requires
        is_bit_seq(bits@),
        bits@.len() <= 32,
    ensures
        r == binary_value(bits@),
{
    let n = bits.unicode_len();
    let mut result: u32 = 0;
    let mut i: usize = 0;
    proof {
        vstd::arithmetic::power2::lemma2_to64();
    }
    while i < n
        invariant
            i <= n,
            n == bits@.len(),
            n <= 32,
            is_bit_seq(bits@),
            result == binary_value(bits@.take(i as int)),
            result < vstd::arithmetic::power2::pow2(i as nat),
        decreases n - i,
    {
        let c = bits.get_char(i);
        proof {
            crate::bits::lemma_binary_value_step(bits@, i as int);
            assert(vstd::arithmetic::power2::pow2((i + 1) as nat)
                == 2 * vstd::arithmetic::power2::pow2(i as nat)) by {
                vstd::arithmetic::power2::lemma_pow2_unfold((i + 1) as nat);
            }
            assert(vstd::arithmetic::power2::pow2(32) == 0x1_0000_0000) by {
                vstd::arithmetic::power2::lemma2_to64();
            }
            if ((i + 1) as nat) < 32 {
                vstd::arithmetic::power2::lemma_pow2_strictly_increases((i + 1) as nat, 32);
            }
        }
        if c == '1' {
            result = 2 * result + 1;
        } else {
            result = 2 * result;
        }
        i = i + 1;
    }
    proof {
        assert(bits@.take(n as int) =~= bits@);
    }
    result as usize
}

} // verus!
