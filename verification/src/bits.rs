//! The mathematical model of bit strings: which characters count as bits,
//! the unsigned value a bit string denotes, and fixed-width binary digits.

use vstd::prelude::*;
use vstd::arithmetic::power2::pow2;

verus! {

/// A character that stands for one bit.
pub open spec fn is_bit_char(c: char) -> bool {
    c == '0' || c == '1'
}

/// Every character of the sequence stands for a bit.
pub open spec fn is_bit_seq(s: Seq<char>) -> bool {
    forall|i: int| 0 <= i < s.len() ==> is_bit_char(#[trigger] s[i])
}

/// Numeric value of one bit character.
pub open spec fn bit_val(c: char) -> nat {
    if c == '1' {
        1
    } else {
        0
    }
}

/// The bit character with the given value; values other than 0 and 1 do not occur.
pub open spec fn bit_char(v: nat) -> char {
    if v == 1 {
        '1'
    } else {
        '0'
    }
}

/// Unsigned value of a bit string, most significant bit first.
pub open spec fn binary_value(s: Seq<char>) -> nat
    decreases s.len(),
{
    if s.len() == 0 {
        0
    } else {
        2 * binary_value(s.drop_last()) + bit_val(s.last())
    }
}

/// The `w` low binary digits of `n`, most significant first, zero padded.
pub open spec fn bits_of(n: nat, w: nat) -> Seq<char>
    decreases w,
{
    if w == 0 {
        Seq::empty()
    } else {
        bits_of(n / 2, (w - 1) as nat).push(bit_char(n % 2))
    }
}

/// Binary digits of `n` without leading zeros (a single `'0'` for zero).
pub open spec fn binary_digits(n: nat) -> Seq<char>
    decreases n,
{
    if n < 2 {
        seq![bit_char(n)]
    } else {
        binary_digits(n / 2).push(bit_char(n % 2))
    }
}

pub proof fn lemma_bits_of_len(n: nat, w: nat)
    ensures
        bits_of(n, w).len() == w,
        is_bit_seq(bits_of(n, w)),
    decreases w,
{
    if w > 0 {
        lemma_bits_of_len(n / 2, (w - 1) as nat);
    }
}

pub proof fn lemma_binary_value_of_bits_of(n: nat, w: nat)
    ensures
        binary_value(bits_of(n, w)) == n % pow2(w),
    decreases w,
{
    vstd::arithmetic::power2::lemma_pow2_pos(w);
    if w == 0 {
        assert(pow2(0) == 1) by {
            vstd::arithmetic::power2::lemma2_to64();
        }
    } else {
        lemma_binary_value_of_bits_of(n / 2, (w - 1) as nat);
        lemma_bits_of_len(n / 2, (w - 1) as nat);
        let s = bits_of(n, w);
        assert(s.drop_last() =~= bits_of(n / 2, (w - 1) as nat));
        assert(pow2(w) == 2 * pow2((w - 1) as nat)) by {
            vstd::arithmetic::power2::lemma_pow2_unfold(w);
        }
        vstd::arithmetic::power2::lemma_pow2_pos((w - 1) as nat);
        assert((n / 2) % pow2((w - 1) as nat) == (n % pow2(w)) / 2
            && n % 2 == (n % pow2(w)) % 2) by {
            vstd::arithmetic::div_mod::lemma_truncate_middle(n as int, 2, pow2((w - 1) as nat) as int);
            vstd::arithmetic::div_mod::lemma_mod_breakdown(n as int, 2, pow2((w - 1) as nat) as int);
        }
        assert(binary_value(s) == 2 * ((n % pow2(w)) / 2) + (n % pow2(w)) % 2);
        vstd::arithmetic::div_mod::lemma_fundamental_div_mod(n as int % pow2(w) as int, 2);
    }
}

/// For values that fit in `w` bits, `bits_of` and `binary_value` are inverse.
pub proof fn lemma_bits_of_value(n: nat, w: nat)
    requires
        n < pow2(w),
    ensures
        binary_value(bits_of(n, w)) == n,
{
    lemma_binary_value_of_bits_of(n, w);
    vstd::arithmetic::power2::lemma_pow2_pos(w);
    vstd::arithmetic::div_mod::lemma_small_mod(n, pow2(w));
}

/// A bit string of width `w` is recovered from its value.
pub proof fn lemma_bits_of_of_value(s: Seq<char>)
    requires
        is_bit_seq(s),
    ensures
        bits_of(binary_value(s), s.len()) =~= s,
    decreases s.len(),
{
    if s.len() > 0 {
        let hd = s.drop_last();
        assert(is_bit_seq(hd)) by {
            assert(forall|i: int| 0 <= i < hd.len() ==> hd[i] == s[i]);
        }
        lemma_bits_of_of_value(hd);
        let v = binary_value(s);
        assert(v == 2 * binary_value(hd) + bit_val(s.last()));
        assert(v / 2 == binary_value(hd) && v % 2 == bit_val(s.last())) by {
            vstd::arithmetic::div_mod::lemma_fundamental_div_mod_converse(
                v as int, 2, binary_value(hd) as int, bit_val(s.last()) as int);
        }
        assert(is_bit_char(s.last()));
        assert(bit_char(bit_val(s.last())) == s.last());
    }
}

/// The value of a bit string is below `pow2` of its length.
pub proof fn lemma_binary_value_bound(s: Seq<char>)
    requires
        is_bit_seq(s),
    ensures
        binary_value(s) < pow2(s.len()),
    decreases s.len(),
{
    if s.len() == 0 {
        assert(pow2(0) == 1) by {
            vstd::arithmetic::power2::lemma2_to64();
        }
    } else {
        let hd = s.drop_last();
        assert(is_bit_seq(hd)) by {
            assert(forall|i: int| 0 <= i < hd.len() ==> hd[i] == s[i]);
        }
        lemma_binary_value_bound(hd);
        assert(pow2(s.len()) == 2 * pow2(hd.len())) by {
            vstd::arithmetic::power2::lemma_pow2_unfold(s.len());
        }
        assert(bit_val(s.last()) <= 1);
    }
}

/// Each digit of a fixed-width binary string is the matching bit of the value.
pub proof fn lemma_bits_of_index(n: nat, w: nat, i: int)
    requires
        0 <= i < w,
    ensures
        bits_of(n, w)[i] == bit_char((n / pow2((w - 1 - i) as nat)) % 2),
    decreases w,
{
    if i == w - 1 {
        assert(pow2(0) == 1) by {
            vstd::arithmetic::power2::lemma2_to64();
        }
        vstd::arithmetic::div_mod::lemma_div_basics(n as int);
        lemma_bits_of_len(n / 2, (w - 1) as nat);
    } else {
        lemma_bits_of_index(n / 2, (w - 1) as nat, i);
        lemma_bits_of_len(n / 2, (w - 1) as nat);
        let e = (w - 2 - i) as nat;
        vstd::arithmetic::power2::lemma_pow2_pos(e);
        assert(pow2((e + 1) as nat) == 2 * pow2(e)) by {
            vstd::arithmetic::power2::lemma_pow2_unfold((e + 1) as nat);
        }
        assert((n as int / 2) / pow2(e) as int == n as int / (2 * pow2(e)) as int) by {
            vstd::arithmetic::div_mod::lemma_div_denominator(n as int, 2, pow2(e) as int);
        }
    }
}

/// The digits of zero are all zero characters.
pub proof fn lemma_bits_of_zero(w: nat)
    ensures
        bits_of(0, w).len() == w,
        forall|i: int| 0 <= i < w ==> bits_of(0, w)[i] == '0',
    decreases w,
{
    if w > 0 {
        lemma_bits_of_zero((w - 1) as nat);
    }
}

/// Prepending a bit contributes `pow2` of the remaining width to the value.
pub proof fn lemma_binary_value_prepend(b: char, t: Seq<char>)
    ensures
        binary_value(seq![b] + t) == bit_val(b) * pow2(t.len()) + binary_value(t),
    decreases t.len(),
{
    if t.len() == 0 {
        assert(seq![b] + t =~= seq![b]);
        assert((seq![b]).drop_last() =~= Seq::<char>::empty());
        assert(binary_value(Seq::<char>::empty()) == 0);
        assert(binary_value(seq![b]) == bit_val(b));
        assert(pow2(0) == 1) by {
            vstd::arithmetic::power2::lemma2_to64();
        }
    } else {
        let u = seq![b] + t;
        assert(u.drop_last() =~= seq![b] + t.drop_last());
        assert(u.last() == t.last());
        lemma_binary_value_prepend(b, t.drop_last());
        let p = pow2((t.len() - 1) as nat);
        assert(pow2(t.len()) == 2 * p) by {
            vstd::arithmetic::power2::lemma_pow2_unfold(t.len());
        }
        assert(2 * (bit_val(b) * p) == bit_val(b) * (2 * p)) by (nonlinear_arith);
    }
}

/// Extending a bit string on the right doubles its value and adds the new bit.
pub proof fn lemma_binary_value_step(s: Seq<char>, i: int)
    requires
        0 <= i < s.len(),
    ensures
        binary_value(s.take(i + 1)) == 2 * binary_value(s.take(i)) + bit_val(s[i]),
{
    assert(s.take(i + 1).drop_last() =~= s.take(i));
    assert(s.take(i + 1).last() == s[i]);
}

} // verus!
