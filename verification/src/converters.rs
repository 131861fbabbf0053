//! Conversions between numbers, bit strings and frames: binary rendering and
//! parsing, splitting a raw character stream into bytes, and the generic
//! drivers that fold frame extractors over byte sequences.

use vstd::prelude::*;
use vstd::string::{StrSliceExecFns, StringExecFns};
use vstd::arithmetic::power2::pow2;
use crate::bits::{
    is_bit_char, is_bit_seq, bit_char, binary_value, binary_digits,
    lemma_binary_value_step,
};

verus! {

/// Number of distinct values one frame byte can carry.
pub const MAX_FRAME_SYMBOL_SIZE: usize = 256;

/// The views of a sequence of strings.
pub open spec fn views_of(ss: Seq<String>) -> Seq<Seq<char>> {
    ss.map_values(|s: String| s@)
}


/// Mapping to views commutes with pushing one string.
pub proof fn lemma_views_of_push(ss: Seq<String>, x: String)
    ensures
        views_of(ss.push(x)) =~= views_of(ss).push(x@),
{
}

/// Mapping to views commutes with dropping a prefix.
pub proof fn lemma_views_of_skip(ss: Seq<String>, k: int)
    requires
        0 <= k <= ss.len(),
    ensures
        views_of(ss.skip(k)) =~= views_of(ss).skip(k),
{
}

/// All strings of a sequence, concatenated in order.
pub open spec fn concat_views(ss: Seq<String>) -> Seq<char>
    decreases ss.len(),
{
    if ss.len() == 0 {
        Seq::empty()
    } else {
        ss[0]@ + concat_views(ss.skip(1))
    }
}

/// Concatenation over one more element appends that element's view.
pub proof fn lemma_concat_views_take(ss: Seq<String>, i: int)
    requires
        0 <= i < ss.len(),
    ensures
        concat_views(ss.take(i + 1)) == concat_views(ss.take(i)) + ss[i]@,
    decreases i,
{
    if i == 0 {
        assert(ss.take(1)[0] == ss[0]);
        assert(ss.take(1).skip(1) =~= Seq::<String>::empty());
        assert(ss.take(0) =~= Seq::<String>::empty());
        assert(concat_views(Seq::<String>::empty()) =~= Seq::<char>::empty());
        assert(ss[0]@ + Seq::<char>::empty() =~= ss[0]@);
        assert(concat_views(ss.take(1)) =~= ss[0]@);
        assert(concat_views(ss.take(0)) + ss[0]@ =~= ss[0]@);
    } else {
        lemma_concat_views_take(ss.skip(1), i - 1);
        assert(ss.take(i + 1)[0] == ss[0]);
        assert(ss.take(i)[0] == ss[0]);
        assert(ss.take(i + 1).skip(1) =~= ss.skip(1).take(i));
        assert(ss.take(i).skip(1) =~= ss.skip(1).take(i - 1));
        assert(ss.skip(1)[i - 1] == ss[i]);
        assert(concat_views(ss.take(i + 1)) == ss[0]@ + concat_views(ss.skip(1).take(i)));
        assert(concat_views(ss.take(i)) == ss[0]@ + concat_views(ss.skip(1).take(i - 1)));
        assert(ss[0]@ + (concat_views(ss.skip(1).take(i - 1)) + ss[i]@) =~= (ss[0]@
            + concat_views(ss.skip(1).take(i - 1))) + ss[i]@);
    }
}

/// The input split into chunks of eight characters, the last one possibly
/// shorter.
pub open spec fn chunks8(s: Seq<char>) -> Seq<Seq<char>>
    decreases s.len(),
{
    if s.len() == 0 {
        Seq::empty()
    } else if s.len() <= 8 {
        seq![s]
    } else {
        seq![s.take(8)] + chunks8(s.skip(8))
    }
}

/// The digits of a rendered number are bits, start with no second leading
/// zero, and read back to the number.
pub proof fn lemma_binary_digits_props(n: nat)
    ensures
        binary_digits(n).len() >= 1,
        is_bit_seq(binary_digits(n)),
        binary_value(binary_digits(n)) == n,
    decreases n,
{
    if n < 2 {
        assert(binary_digits(n) =~= seq![bit_char(n)]);
        assert(binary_digits(n).drop_last() =~= Seq::<char>::empty());
        assert(binary_value(Seq::<char>::empty()) == 0);
    } else {
        lemma_binary_digits_props(n / 2);
        let d = binary_digits(n);
        assert(d.drop_last() =~= binary_digits(n / 2));
        assert(forall|i: int| 0 <= i < d.len() ==> is_bit_char(#[trigger] d[i]) == (
            if i < d.len() - 1 { is_bit_char(binary_digits(n / 2)[i]) } else { is_bit_char(
                bit_char(n % 2)) }));
    }
}

/// A number below `pow2(w)` needs at most `w` digits.
pub proof fn lemma_binary_digits_bound(n: nat, w: nat)
    requires
        n < pow2(w),
        w >= 1,
    ensures
        binary_digits(n).len() <= w,
    decreases n,
{
    if n >= 2 {
        assert(pow2(w) == 2 * pow2((w - 1) as nat)) by {
            vstd::arithmetic::power2::lemma_pow2_unfold(w);
        }
        assert(w >= 2) by {
            if w == 1 {
                assert(pow2(1) == 2) by {
                    vstd::arithmetic::power2::lemma2_to64();
                }
            }
        }
        lemma_binary_digits_bound(n / 2, (w - 1) as nat);
    }
}

/// Maximum number of bits a symbol of the given alphabet size occupies:
/// the floor of the base-two logarithm.
pub fn get_max_bits_from_symbol_size(symbol_size: usize) -> (r: usize)
    requires
        symbol_size >= 1,
    ensures
        pow2(r as nat) <= symbol_size < pow2((r + 1) as nat),
{
    let mut v: usize = symbol_size;
    let mut r: usize = 0;
    proof {
        vstd::arithmetic::power2::lemma2_to64();
    }
    while v >= 2
        invariant
            symbol_size >= 1,
            v >= 1,
            v as nat == (symbol_size as nat) / pow2(r as nat),
            r <= 64,
        decreases v,
    {
        proof {
            vstd::arithmetic::power2::lemma_pow2_pos(r as nat);
            assert(pow2((r + 1) as nat) == 2 * pow2(r as nat)) by {
                vstd::arithmetic::power2::lemma_pow2_unfold((r + 1) as nat);
            }
            assert((symbol_size as int / pow2(r as nat) as int) / 2 == symbol_size as int / (
                pow2(r as nat) as int * 2)) by {
                vstd::arithmetic::div_mod::lemma_div_denominator(
                    symbol_size as int, pow2(r as nat) as int, 2);
            }
            assert(r < 64) by {
                if r == 64 {
                    vstd::arithmetic::power2::lemma2_to64_rest();
                    assert(pow2(64) == 0x10000000000000000);
                    assert((symbol_size as nat) / pow2(64) == 0) by {
                        vstd::arithmetic::div_mod::lemma_basic_div(
                            symbol_size as int, pow2(64) as int);
                    }
                }
            }
        }
        v = v / 2;
        r = r + 1;
    }
    proof {
        vstd::arithmetic::power2::lemma_pow2_pos(r as nat);
        vstd::arithmetic::div_mod::lemma_fundamental_div_mod(
            symbol_size as int, pow2(r as nat) as int);
        vstd::arithmetic::div_mod::lemma_mod_bound(symbol_size as int, pow2(r as nat) as int);
        assert(pow2((r + 1) as nat) == 2 * pow2(r as nat)) by {
            vstd::arithmetic::power2::lemma_pow2_unfold((r + 1) as nat);
        }
    }
    r
}

/// Renders a number in binary, most significant digit first, without
/// leading zeros (`"0"` for zero).
pub fn decimal_to_binary(decimal_number: usize) -> (r: String)
    ensures
        r@ == binary_digits(decimal_number as nat),
{
    proof {
        reveal_strlit("0");
        reveal_strlit("1");
    }
    let mut digits: Vec<char> = Vec::new();
    let mut m: usize = decimal_number;
    let ghost n = decimal_number as nat;
    if m % 2 == 1 {
        digits.push('1');
    } else {
        digits.push('0');
    }
    m = m / 2;
    while m > 0
        invariant
            digits@.len() >= 1,
            forall|i: int| 0 <= i < digits@.len() ==> is_bit_char(#[trigger] digits@[i]),
            binary_digits(n) =~= (if m == 0 {
                Seq::<char>::empty()
            } else {
                binary_digits(m as nat)
            }) + digits@.reverse(),
        decreases m,
    {
        let ghost before = digits@;
        if m % 2 == 1 {
            digits.push('1');
        } else {
            digits.push('0');
        }
        proof {
            assert(digits@.reverse() =~= seq![digits@[digits@.len() - 1]] + before.reverse());
            if m >= 2 {
                assert(binary_digits(m as nat) == binary_digits((m / 2) as nat).push(
                    bit_char((m % 2) as nat)));
            } else {
                assert(binary_digits(m as nat) =~= seq![bit_char((m % 2) as nat)]);
            }
            assert(binary_digits(n) =~= (if m / 2 == 0 {
                Seq::<char>::empty()
            } else {
                binary_digits((m / 2) as nat)
            }) + (seq![digits@[digits@.len() - 1]] + before.reverse()));
        }
        m = m / 2;
    }
    let mut result = String::new();
    let mut i: usize = 0;
    let total = digits.len();
    while i < total
        invariant
            total == digits@.len(),
            i <= total,
            forall|j: int| 0 <= j < digits@.len() ==> is_bit_char(#[trigger] digits@[j]),
            result@ =~= digits@.reverse().take(i as int),
        decreases total - i,
    {
        proof {
            reveal_strlit("0");
            reveal_strlit("1");
            assert(digits@.reverse()[i as int] == digits@[total - 1 - i]);
            assert(digits@.reverse().take(i + 1) =~= digits@.reverse().take(i as int).push(
                digits@.reverse()[i as int]));
        }
        let ghost before = result@;
        let c = digits[total - 1 - i];
        if c == '1' {
            result.append("1");
        } else {
            result.append("0");
        }
        proof {
            assert(result@ =~= before.push(c));
        }
        i = i + 1;
    }
    proof {
        assert(digits@.reverse().take(total as int) =~= digits@.reverse());
        assert(result@ =~= binary_digits(n));
    }
    result
}

/// Parses a binary string, most significant digit first, into its value.
pub fn binary_to_decimal(binary_string: &str) -> (r: usize)
    requires
        is_bit_seq(binary_string@),
        binary_string@.len() >= 1,
        binary_value(binary_string@) <= usize::MAX,
    ensures
        r == binary_value(binary_string@),
{
    let n = binary_string.unicode_len();
    let mut result: usize = 0;
    let mut i: usize = 0;
    while i < n
        invariant
            i <= n,
            n == binary_string@.len(),
            is_bit_seq(binary_string@),
            binary_value(binary_string@) <= usize::MAX,
            result == binary_value(binary_string@.take(i as int)),
        decreases n - i,
    {
        let c = binary_string.get_char(i);
        proof {
            lemma_binary_value_step(binary_string@, i as int);
            lemma_binary_value_take_le(binary_string@, i + 1);
        }
        if c == '1' {
            result = 2 * result + 1;
        } else {
            result = 2 * result;
        }
        i = i + 1;
    }
    proof {
        assert(binary_string@.take(n as int) =~= binary_string@);
    }
    result
}

/// A prefix of a bit string never denotes more than the whole string.
pub proof fn lemma_binary_value_take_le(s: Seq<char>, j: int)
    requires
        0 <= j <= s.len(),
    ensures
        binary_value(s.take(j)) <= binary_value(s),
    decreases s.len() - j,
{
    if j == s.len() {
        assert(s.take(j) =~= s);
    } else {
        lemma_binary_value_step(s, j);
        lemma_binary_value_take_le(s, j + 1);
    }
}

/// Concatenates the rendering of each frame, produced by the given
/// extractor, over all frames in order.
pub fn get_string_from_frames<F: Fn(&Vec<String>) -> String>(
    frames: &Vec<Vec<String>>,
    executable: F,
) -> (r: String)
    requires
        forall|i: int| 0 <= i < frames@.len() ==> call_requires(executable, (&frames@[i],)),
    ensures
        exists|outs: Seq<String>|
            outs.len() == frames@.len() && (forall|i: int|
                0 <= i < outs.len() ==> call_ensures(executable, (&frames@[i],),
                #[trigger] outs[i])) && r@ == concat_views(outs),
{
    let mut final_string = String::new();
    let mut i: usize = 0;
    let ghost mut outs: Seq<String> = Seq::empty();
    while i < frames.len()
        invariant
            i <= frames@.len(),
            forall|k: int| 0 <= k < frames@.len() ==> call_requires(executable, (&frames@[k],)),
            outs.len() == i,
            forall|k: int| 0 <= k < i ==> call_ensures(executable, (&frames@[k],),
                #[trigger] outs[k]),
            final_string@ == concat_views(outs),
        decreases frames@.len() - i,
    {
        let piece = executable(&frames[i]);
        let ghost before = outs;
        proof {
            outs = outs.push(piece);
        }
        final_string.append(piece.as_str());
        proof {
            lemma_concat_views_push(before, piece);
        }
        i = i + 1;
    }
    final_string
}

proof fn lemma_concat_views_push(outs: Seq<String>, s: String)
    ensures
        concat_views(outs.push(s)) == concat_views(outs) + s@,
    decreases outs.len(),
{
    if outs.len() == 0 {
        assert(outs.push(s)[0] == s);
        assert(outs.push(s).skip(1) =~= Seq::<String>::empty());
        assert(concat_views(Seq::<String>::empty()) =~= Seq::<char>::empty());
        assert(concat_views(outs.push(s)) =~= s@);
        assert(concat_views(outs) + s@ =~= s@);
    } else {
        assert(outs.push(s)[0] == outs[0]);
        assert(outs.push(s).skip(1) =~= outs.skip(1).push(s));
        lemma_concat_views_push(outs.skip(1), s);
        assert(concat_views(outs.push(s)) == outs[0]@ + concat_views(outs.skip(1).push(s)));
        assert(concat_views(outs) == outs[0]@ + concat_views(outs.skip(1)));
        assert(outs[0]@ + (concat_views(outs.skip(1)) + s@) =~= (outs[0]@ + concat_views(
            outs.skip(1))) + s@);
    }
}

/// The chain of frames the extractor yields: each frame is one output of
/// the extractor on the remaining bytes, down to an empty remainder.
pub open spec fn frames_chain<F: Fn(Vec<String>) -> (Vec<String>, Vec<String>)>(
    f: F,
    v: Vec<String>,
    frames: Seq<Vec<String>>,
) -> bool
    decreases frames.len(),
{
    if frames.len() == 0 {
        v@.len() == 0
    } else {
        exists|rest: Vec<String>|
            #[trigger] call_ensures(f, (v,), (frames[0], rest)) && frames_chain(
                f, rest, frames.skip(1))
    }
}

proof fn lemma_frames_chain_cons<F: Fn(Vec<String>) -> (Vec<String>, Vec<String>)>(
    f: F,
    v: Vec<String>,
    frame: Vec<String>,
    rest: Vec<String>,
    frames: Seq<Vec<String>>,
)
    requires
        call_ensures(f, (v,), (frame, rest)),
        frames_chain(f, rest, frames),
    ensures
        frames_chain(f, v, seq![frame] + frames),
{
    let w = seq![frame] + frames;
    assert(w[0] == frame);
    assert(w.skip(1) =~= frames);
    assert(call_ensures(f, (v,), (w[0], rest)) && frames_chain(f, rest, w.skip(1)));
}

/// Splits a byte sequence into frames by repeatedly applying the given
/// extractor until no bytes remain.
pub fn get_frames_from_vectors<F: Fn(Vec<String>) -> (Vec<String>, Vec<String>)>(
    bytes_vec: Vec<String>,
    executable: F,
) -> (r: Vec<Vec<String>>)
    requires
        forall|v: Vec<String>| v@.len() > 0 ==> call_requires(executable, (v,)),
        forall|v: Vec<String>, fr: Vec<String>, rest: Vec<String>|
            call_ensures(executable, (v,), (fr, rest)) ==> rest@.len() < v@.len(),
    ensures
        frames_chain(executable, bytes_vec, r@),
{
    let mut frames: Vec<Vec<String>> = Vec::new();
    let mut v = bytes_vec;
    let ghost orig = bytes_vec;
    proof {
        assert(forall|fut: Seq<Vec<String>>| frames_chain(executable, v, fut)
            ==> frames_chain(executable, orig, #[trigger] (frames@ + fut))) by {
            assert(forall|fut: Seq<Vec<String>>| frames@ + fut =~= fut);
        }
    }
    while v.len() > 0
        invariant
            forall|w: Vec<String>| w@.len() > 0 ==> call_requires(executable, (w,)),
            forall|w: Vec<String>, fr: Vec<String>, rest: Vec<String>|
                call_ensures(executable, (w,), (fr, rest)) ==> rest@.len() < w@.len(),
            forall|fut: Seq<Vec<String>>| frames_chain(executable, v, fut)
                ==> frames_chain(executable, orig, #[trigger] (frames@ + fut)),
        decreases v@.len(),
    {
        let ghost frames_before = frames@;
        let ghost v_before = v;
        let (frame, rest) = executable(v);
        frames.push(frame);
        v = rest;
        proof {
            assert forall|fut: Seq<Vec<String>>| frames_chain(executable, v, fut)
                implies frames_chain(executable, orig, #[trigger] (frames@ + fut)) by {
                let with_frame = seq![frame] + fut;
                lemma_frames_chain_cons(executable, v_before, frame, v, fut);
                assert(frames_before + with_frame =~= frames@ + fut);
            }
        }
    }
    proof {
        assert(frames_chain(executable, v, Seq::<Vec<String>>::empty()));
        assert(frames@ + Seq::<Vec<String>>::empty() =~= frames@);
    }
    frames
}

/// Splits a raw character stream into eight-character byte strings, the
/// last one possibly shorter.
pub fn split_raw_byte_sequence(raw_byte_sequence: &str) -> (r: Vec<String>)
    ensures
        views_of(r@) == chunks8(raw_byte_sequence@),
{
    let len = raw_byte_sequence.unicode_len();
    let mut result: Vec<String> = Vec::new();
    let mut i: usize = 0;
    proof {
        assert(raw_byte_sequence@.skip(0) =~= raw_byte_sequence@);
        assert(views_of(result@) =~= Seq::<Seq<char>>::empty());
        assert(Seq::<Seq<char>>::empty() + chunks8(raw_byte_sequence@) =~= chunks8(
            raw_byte_sequence@));
    }
    while i < len
        invariant
            i <= len,
            len == raw_byte_sequence@.len(),
            i % 8 == 0 || i == len,
            chunks8(raw_byte_sequence@) =~= views_of(result@) + chunks8(
                raw_byte_sequence@.skip(i as int)),
        decreases len - i,
    {
        let upper = if len - i > 8 {
            i + 8
        } else {
            len
        };
        let chunk = raw_byte_sequence.substring_char(i, upper);
        let ghost before = result@;
        result.push(String::from_str(chunk));
        proof {
            let rest = raw_byte_sequence@.skip(i as int);
            assert(views_of(result@) =~= views_of(before).push(chunk@));
            if len - i > 8 {
                assert(rest.take(8) =~= raw_byte_sequence@.subrange(i as int, i + 8));
                assert(rest.skip(8) =~= raw_byte_sequence@.skip(i + 8));
            } else {
                assert(rest =~= raw_byte_sequence@.subrange(i as int, len as int));
                assert(chunks8(rest) =~= seq![chunk@]);
            }
            assert(chunks8(raw_byte_sequence@) =~= views_of(result@) + chunks8(
                raw_byte_sequence@.skip(upper as int)));
        }
        i = upper;
    }
    proof {
        assert(chunks8(raw_byte_sequence@.skip(i as int)) =~= Seq::<Seq<char>>::empty());
        assert(views_of(result@) + Seq::<Seq<char>>::empty() =~= views_of(result@));
    }
    result
}

} // verus!
