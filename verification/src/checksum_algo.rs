//! Length-checksum framing: a frame of byte strings is prefixed with an
//! eight-bit count covering the frame and the checksum byte itself, and the
//! inverse pops one counted frame off a byte sequence.

use vstd::prelude::*;
use vstd::string::{StrSliceExecFns, StringExecFns};
use vstd::arithmetic::power2::pow2;
use crate::bits::{
    is_bit_seq, binary_value, bits_of, binary_digits, lemma_bits_of_zero,
    lemma_bits_of_of_value,
};
use crate::converters::{
    binary_to_decimal, decimal_to_binary, concat_views, lemma_concat_views_take,
    get_max_bits_from_symbol_size,
    lemma_binary_digits_props, lemma_binary_digits_bound, MAX_FRAME_SYMBOL_SIZE,
};

verus! {

/// A zero-padded prefix leaves a bit string's value unchanged.
proof fn lemma_zeros_prefix_value(k: nat, t: Seq<char>)
    ensures
        binary_value(bits_of(0, k) + t) == binary_value(t),
    decreases t.len(),
{
    lemma_bits_of_zero(k);
    let u = bits_of(0, k) + t;
    if t.len() == 0 {
        assert(u =~= bits_of(0, k));
        lemma_zeros_value(k);
    } else {
        lemma_zeros_prefix_value(k, t.drop_last());
        assert(u.drop_last() =~= bits_of(0, k) + t.drop_last());
        assert(u.last() == t.last());
    }
}

/// The value of an all-zero bit string is zero.
proof fn lemma_zeros_value(k: nat)
    ensures
        binary_value(bits_of(0, k)) == 0,
    decreases k,
{
    lemma_bits_of_zero(k);
    if k > 0 {
        lemma_zeros_value((k - 1) as nat);
        assert(bits_of(0, k).drop_last() =~= bits_of(0, (k - 1) as nat));
    }
}

/// The checksum byte of a frame: the number of byte strings in the frame
/// plus one (for the checksum byte itself), as eight binary digits.
pub fn get_frame_check_sum(frame: &Vec<String>) -> (r: String)
    requires
        frame@.len() + 1 < 256,
    ensures
        r@ == bits_of((frame@.len() + 1) as nat, 8),
{
    let max_bits = get_max_bits_from_symbol_size(MAX_FRAME_SYMBOL_SIZE);
    proof {
        vstd::arithmetic::power2::lemma2_to64();
        assert(pow2(8) == 256 && pow2(9) == 512);
        if (max_bits as nat) < 8 {
            if ((max_bits + 1) as nat) < 8 {
                vstd::arithmetic::power2::lemma_pow2_strictly_increases((max_bits + 1) as nat, 8);
            }
        }
        if (max_bits as nat) > 8 {
            vstd::arithmetic::power2::lemma_pow2_strictly_increases(8, max_bits as nat);
        }
        assert(max_bits == 8);
    }
    let frame_length = frame.len() + 1;
    let binary_checksum = decimal_to_binary(frame_length);
    proof {
        lemma_binary_digits_props(frame_length as nat);
        lemma_binary_digits_bound(frame_length as nat, 8);
    }
    let binary_checksum_size = binary_checksum.unicode_len();
    let zeros_number_to_prepend = max_bits - binary_checksum_size;
    let mut result = String::new();
    let mut i: usize = 0;
    while i < zeros_number_to_prepend
        invariant
            i <= zeros_number_to_prepend,
            result@ =~= bits_of(0, i as nat),
        decreases zeros_number_to_prepend - i,
    {
        proof {
            reveal_strlit("0");
            lemma_bits_of_zero(i as nat);
            lemma_bits_of_zero((i + 1) as nat);
        }
        let ghost before = result@;
        result.append("0");
        proof {
            assert(result@ =~= bits_of(0, (i + 1) as nat));
        }
        i = i + 1;
    }
    result.append(binary_checksum.as_str());
    proof {
        let n = frame_length as nat;
        let k = zeros_number_to_prepend as nat;
        lemma_zeros_prefix_value(k, binary_digits(n));
        lemma_bits_of_zero(k);
        assert(is_bit_seq(result@)) by {
            assert(forall|j: int| 0 <= j < result@.len()
                ==> crate::bits::is_bit_char(#[trigger] result@[j]) == (if j < k {
                    crate::bits::is_bit_char(bits_of(0, k)[j])
                } else {
                    crate::bits::is_bit_char(binary_digits(n)[j - k])
                }));
        }
        lemma_bits_of_of_value(result@);
        assert(binary_value(result@) == n);
        assert(result@.len() == 8);
        assert(result@ =~= bits_of(n, 8));
    }
    result
}

/// The checksum byte followed by the frame's bytes, as one raw bit string.
pub fn get_raw_byte_sequence_from_frame(frame: &Vec<String>) -> (r: String)
    requires
        frame@.len() + 1 < 256,
    ensures
        r@ == bits_of((frame@.len() + 1) as nat, 8) + concat_views(frame@),
{
    let frame_checksum = get_frame_check_sum(frame);
    let mut result = frame_checksum;
    let mut i: usize = 0;
    let ghost check = bits_of((frame@.len() + 1) as nat, 8);
    while i < frame.len()
        invariant
            i <= frame@.len(),
            result@ =~= check + concat_views(frame@.take(i as int)),
        decreases frame@.len() - i,
    {
        result.append(frame[i].as_str());
        proof {
            lemma_concat_views_take(frame@, i as int);
        }
        i = i + 1;
    }
    proof {
        assert(frame@.take(frame@.len() as int) =~= frame@);
    }
    result
}

/// Pops the checksum byte off the front of a byte sequence and reads its
/// value.
pub fn pop_check_sum_from_frame(bytes_vec: Vec<String>) -> (r: (usize, Vec<String>))
    requires
        bytes_vec@.len() >= 1,
        is_bit_seq(bytes_vec@[0]@),
        bytes_vec@[0]@.len() >= 1,
        binary_value(bytes_vec@[0]@) <= usize::MAX,
    ensures
        r.0 == binary_value(bytes_vec@[0]@),
        r.1@ == bytes_vec@.skip(1),
{
    let mut v = bytes_vec;
    let checksum_byte = v.remove(0);
    let value = binary_to_decimal(checksum_byte.as_str());
    proof {
        assert(v@ =~= bytes_vec@.skip(1));
    }
    (value, v)
}

/// Pops one counted frame off a byte sequence: reads the leading checksum
/// byte and takes that many bytes, checksum included, off the front.
pub fn pop_frame_from_bytes_vec(bytes_vec: Vec<String>) -> (r: (Vec<String>, Vec<String>))
    requires
        bytes_vec@.len() >= 1,
        is_bit_seq(bytes_vec@[0]@),
        bytes_vec@[0]@.len() >= 1,
        binary_value(bytes_vec@[0]@) <= usize::MAX,
        1 <= binary_value(bytes_vec@[0]@) <= bytes_vec@.len(),
    ensures
        r.0@ == bytes_vec@.subrange(1, binary_value(bytes_vec@[0]@) as int),
        r.1@ == bytes_vec@.skip(binary_value(bytes_vec@[0]@) as int),
{
    let (popped, rest) = pop_check_sum_from_frame(bytes_vec);
    let mut checksum = popped - 1;
    let ghost count = checksum;
    let mut v = rest;
    let mut frame: Vec<String> = Vec::new();
    while checksum > 0
        invariant
            checksum <= count,
            count + 1 == binary_value(bytes_vec@[0]@),
            count <= bytes_vec@.len() - 1,
            frame@ =~= bytes_vec@.subrange(1, 1 + count - checksum),
            v@ =~= bytes_vec@.skip(1 + count - checksum),
        decreases checksum,
    {
        let ghost frame_before = frame@;
        let ghost v_before = v@;
        let byte = v.remove(0);
        frame.push(byte);
        proof {
            assert(frame@ =~= frame_before.push(v_before[0]));
            assert(frame@ =~= bytes_vec@.subrange(1, 1 + count - (checksum - 1)));
            assert(v@ =~= bytes_vec@.skip(1 + count - (checksum - 1)));
        }
        checksum = checksum - 1;
    }
    (frame, v)
}

} // verus!
