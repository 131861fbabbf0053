//! The convolutional coding engine: a stream encoder that drives the shift
//! register across a frame, and a path-tracking decoder that recovers the
//! data bits by following one greedy candidate path per possible initial
//! register state and keeping those with zero accumulated Hamming distance.

use vstd::prelude::*;
use vstd::string::{StrSliceExecFns, StringExecFns};
use crate::bits::{bit_char, bit_val, is_bit_char, is_bit_seq, bits_of, lemma_bits_of_zero};
use crate::state_machine::{
    BitSM, StatesMap, state_wf, state_seq, state_num, next_state, step_output, parity_first, parity_second,
    zero_state, transition_wf, lemma_state_seq_wf, lemma_state_roundtrip, lemma_next_state_num,
};
use crate::utils::binary_to_decimal;

verus! {

/// Errors of the decoder.
#[derive(Debug, PartialEq, Eq, Structural)]
pub enum CodingError {
    /// The received frame has odd length or holds a non-bit character.
    MalformedInput,
}

/// The encoder's input after right-padding short frames to the register width.
pub open spec fn padded(d: Seq<char>) -> Seq<char> {
    if d.len() >= 6 {
        d
    } else {
        d + bits_of(0, (6 - d.len()) as nat)
    }
}

/// The bit stream emitted while the register walks the frame: two parity
/// bits for every input bit, in input order.
pub open spec fn encode_output(d: Seq<char>, s: Seq<char>) -> Seq<char>
    decreases d.len(),
{
    if d.len() == 0 {
        Seq::empty()
    } else {
        step_output(d[0], s) + encode_output(d.skip(1), next_state(d[0], s))
    }
}

/// The register state after the whole frame has been consumed.
pub open spec fn end_state(d: Seq<char>, s: Seq<char>) -> Seq<char>
    decreases d.len(),
{
    if d.len() == 0 {
        s
    } else {
        end_state(d.skip(1), next_state(d[0], s))
    }
}

/// Hamming distance between two 2-bit groups.
pub open spec fn hamming_distance2(a: Seq<char>, b: Seq<char>) -> nat {
    (if a[0] == b[0] {
        0nat
    } else {
        1nat
    }) + (if a[1] == b[1] {
        0nat
    } else {
        1nat
    })
}

/// One candidate path of the decoder: starting at state `s`, consume the
/// received stream in 2-bit groups, each step greedily choosing the input
/// bit whose expected output is nearer to the received group (ties go to
/// the zero bit). Yields the chosen bits and the accumulated distance.
pub open spec fn candidate_run(s: Seq<char>, rec: Seq<char>) -> (Seq<char>, nat)
    decreases rec.len(),
{
    if rec.len() < 2 {
        (Seq::empty(), 0nat)
    } else {
        let g = rec.take(2);
        let d_one = hamming_distance2(step_output('1', s), g);
        let d_zero = hamming_distance2(step_output('0', s), g);
        if d_one < d_zero {
            let rest = candidate_run(next_state('1', s), rec.skip(2));
            (seq!['1'] + rest.0, d_one + rest.1)
        } else {
            let rest = candidate_run(next_state('0', s), rec.skip(2));
            (seq!['0'] + rest.0, d_zero + rest.1)
        }
    }
}

/// The decoder's output: the chosen bits of every candidate whose
/// accumulated distance is zero, in increasing order of the initial state
/// number, starting from state `n`.
pub open spec fn decoded_all(rec: Seq<char>, n: int) -> Seq<char>
    decreases 64 - n,
{
    if n < 0 || n >= 64 {
        Seq::empty()
    } else {
        (if candidate_run(state_seq(n as nat), rec).1 == 0 {
            candidate_run(state_seq(n as nat), rec).0
        } else {
            Seq::empty()
        }) + decoded_all(rec, n + 1)
    }
}

/// The emitted stream is twice as long as the frame and holds only bits.
pub proof fn lemma_encode_output_len(d: Seq<char>, s: Seq<char>)
    ensures
        encode_output(d, s).len() == 2 * d.len(),
        is_bit_seq(encode_output(d, s)),
    decreases d.len(),
{
    if d.len() > 0 {
        lemma_encode_output_len(d.skip(1), next_state(d[0], s));
        let o = step_output(d[0], s);
        let r = encode_output(d, s);
        assert(is_bit_char(o[0]) && is_bit_char(o[1]));
        assert(forall|i: int| 0 <= i < r.len() ==> is_bit_char(#[trigger] r[i]) == (
            if i < 2 { is_bit_char(o[i]) } else { is_bit_char(encode_output(d.skip(1), next_state(d[0], s))[i - 2]) }));
    }
}

/// Padding keeps the frame's bits and only appends zero bits.
pub proof fn lemma_padded_wf(d: Seq<char>)
    requires
        is_bit_seq(d),
    ensures
        is_bit_seq(padded(d)),
        padded(d).len() >= 6,
        padded(d).len() >= d.len(),
        padded(d).take(d.len() as int) =~= d,
{
    if d.len() < 6 {
        lemma_bits_of_zero((6 - d.len()) as nat);
        let p = padded(d);
        assert(forall|i: int| 0 <= i < p.len() ==> is_bit_char(#[trigger] p[i]) == (
            if i < d.len() { is_bit_char(d[i]) } else { is_bit_char(bits_of(0, (6 - d.len()) as nat)[i - d.len()]) }));
    }
}

proof fn lemma_padded_push_zero(s: Seq<char>)
    requires
        s.len() < 6,
    ensures
        padded(s.push('0')) =~= padded(s),
{
    lemma_bits_of_zero((6 - s.len()) as nat);
    lemma_bits_of_zero((6 - (s.len() + 1)) as nat);
}

/// Encodes a frame: pads it to the register width with zero bits, then for
/// each bit shifts the register and appends the looked-up two-bit output.
pub fn encode(frame: String, bit_sm: &mut BitSM, states_map: &StatesMap) -> (r: String)
    requires
        old(bit_sm).wf(),
        states_map.wf(),
        is_bit_seq(frame@),
    ensures
        r@ == encode_output(padded(frame@), old(bit_sm)@),
        is_bit_seq(r@),
        r@.len() == 2 * padded(frame@).len(),
        final(bit_sm).wf(),
        final(bit_sm)@ == end_state(padded(frame@), old(bit_sm)@),
{
    let ghost orig = frame@;
    let mut padded_frame = frame;
    let mut len = padded_frame.unicode_len();
    while len < 6
        invariant
            len == padded_frame@.len(),
            is_bit_seq(padded_frame@),
            padded(padded_frame@) =~= padded(orig),
        decreases 6 - len,
    {
        proof {
            reveal_strlit("0");
            lemma_padded_push_zero(padded_frame@);
        }
        let ghost before = padded_frame@;
        padded_frame.append("0");
        proof {
            assert(padded_frame@ =~= before.push('0'));
        }
        len = len + 1;
    }
    let ghost p = padded(orig);
    proof {
        assert(padded(padded_frame@) == padded_frame@);
        assert(p =~= padded_frame@);
        assert(p.skip(0) =~= p);
    }
    let mut result = String::new();
    let mut cur = binary_to_decimal(bit_sm.get_current_state());
    proof {
        lemma_state_roundtrip(old(bit_sm)@);
    }
    let mut i: usize = 0;
    while i < len
        invariant
            states_map.wf(),
            bit_sm.wf(),
            len == padded_frame@.len(),
            padded_frame@ == p,
            is_bit_seq(p),
            p.len() >= 6,
            i <= len,
            cur == state_num(bit_sm@),
            cur < 64,
            state_seq(cur as nat) =~= bit_sm@,
            result@ + encode_output(p.skip(i as int), bit_sm@) == encode_output(p, old(bit_sm)@),
            end_state(p.skip(i as int), bit_sm@) == end_state(p, old(bit_sm)@),
            result@.len() == 2 * i,
            is_bit_seq(result@),
        decreases len - i,
    {
        let c = padded_frame.as_str().get_char(i);
        proof {
            assert(transition_wf(states_map.transitions@[cur as int], cur as int));
            assert(p.skip(i as int)[0] == p[i as int]);
            assert(p.skip(i as int).skip(1) =~= p.skip(i + 1));
            lemma_next_state_num('0', cur as nat);
            lemma_next_state_num('1', cur as nat);
            lemma_encode_output_len(p.skip(i as int), bit_sm@);
        }
        let ghost state_before = bit_sm@;
        let t = &states_map.transitions[cur];
        if c == '1' {
            result.append(t.output_if_one.as_str());
            bit_sm.shift_register('1');
            cur = t.next_if_one;
        } else {
            result.append(t.output_if_zero.as_str());
            bit_sm.shift_register('0');
            cur = t.next_if_zero;
        }
        proof {
            assert(bit_sm@ =~= next_state(c, state_seq(state_num(state_before))));
            lemma_state_roundtrip(bit_sm@);
            assert(result@ + encode_output(p.skip(i + 1), bit_sm@)
                == encode_output(p, old(bit_sm)@));
        }
        i = i + 1;
    }
    proof {
        assert(p.skip(len as int) =~= Seq::<char>::empty());
        assert(result@ + Seq::<char>::empty() =~= result@);
        lemma_encode_output_len(p, old(bit_sm)@);
    }
    result
}

/// Decodes a received frame: one greedy candidate path per initial register
/// state, keeping the chosen bits of every candidate that matches the frame
/// exactly (zero accumulated distance). An empty result with an even, binary
/// input means no candidate matched. Fails only on malformed input.
pub fn decode(frame: String, states_map: &StatesMap) -> (r: Result<String, CodingError>)
    requires
        states_map.wf(),
    ensures
        match r {
            Ok(out) => frame@.len() % 2 == 0 && is_bit_seq(frame@) && out@ == decoded_all(
                frame@, 0),
            Err(e) => (frame@.len() % 2 != 0 || !is_bit_seq(frame@)) && e
                == CodingError::MalformedInput,
        },
{
    let len = frame.unicode_len();
    if len % 2 != 0 {
        return Err(CodingError::MalformedInput);
    }
    let mut v: usize = 0;
    while v < len
        invariant
            v <= len,
            len == frame@.len(),
            is_bit_seq(frame@.take(v as int)),
        decreases len - v,
    {
        let c = frame.as_str().get_char(v);
        if !(c == '0' || c == '1') {
            proof {
                assert(!is_bit_char(frame@[v as int]));
            }
            return Err(CodingError::MalformedInput);
        }
        proof {
            let t = frame@.take(v + 1);
            assert(forall|j: int| 0 <= j < t.len() ==> is_bit_char(#[trigger] t[j]) == (
                if j < v { is_bit_char(frame@.take(v as int)[j]) } else { is_bit_char(frame@[v as int]) }));
        }
        v = v + 1;
    }
    proof {
        assert(frame@.take(len as int) =~= frame@);
    }
    let mut result = String::new();
    let mut n: usize = 0;
    while n < 64
        invariant
            states_map.wf(),
            is_bit_seq(frame@),
            len == frame@.len(),
            len % 2 == 0,
            n <= 64,
            result@ + decoded_all(frame@, n as int) == decoded_all(frame@, 0),
        decreases 64 - n,
    {
        let mut cur: usize = n;
        let mut dist: usize = 0;
        let mut bits = String::new();
        let mut i: usize = 0;
        proof {
            assert(frame@.skip(0) =~= frame@);
        }
        while i < len
            invariant
                states_map.wf(),
                is_bit_seq(frame@),
                len == frame@.len(),
                len % 2 == 0,
                i <= len,
                i % 2 == 0,
                n < 64,
                cur < 64,
                dist <= i,
                candidate_run(state_seq(n as nat), frame@).0 == bits@ + candidate_run(
                    state_seq(cur as nat), frame@.skip(i as int)).0,
                candidate_run(state_seq(n as nat), frame@).1 == dist + candidate_run(
                    state_seq(cur as nat), frame@.skip(i as int)).1,
            decreases len - i,
        {
            proof {
                reveal_strlit("0");
                reveal_strlit("1");
                assert(transition_wf(states_map.transitions@[cur as int], cur as int));
            }
            let g0 = frame.as_str().get_char(i);
            let g1 = frame.as_str().get_char(i + 1);
            let t = &states_map.transitions[cur];
            let e10 = t.output_if_one.as_str().get_char(0);
            let e11 = t.output_if_one.as_str().get_char(1);
            let e00 = t.output_if_zero.as_str().get_char(0);
            let e01 = t.output_if_zero.as_str().get_char(1);
            let mut d_one: usize = 0;
            if e10 != g0 {
                d_one = d_one + 1;
            }
            if e11 != g1 {
                d_one = d_one + 1;
            }
            let mut d_zero: usize = 0;
            if e00 != g0 {
                d_zero = d_zero + 1;
            }
            if e01 != g1 {
                d_zero = d_zero + 1;
            }
            let ghost rest = frame@.skip(i as int);
            let ghost scur = state_seq(cur as nat);
            proof {
                assert(rest.take(2) =~= seq![frame@[i as int], frame@[i as int + 1]]);
                assert(rest.skip(2) =~= frame@.skip(i + 2));
                assert(d_one == hamming_distance2(step_output('1', scur), rest.take(2)));
                assert(d_zero == hamming_distance2(step_output('0', scur), rest.take(2)));
                lemma_next_state_num('0', cur as nat);
                lemma_next_state_num('1', cur as nat);
            }
            let ghost bits_before = bits@;
            if d_one < d_zero {
                dist = dist + d_one;
                bits.append("1");
                cur = t.next_if_one;
                proof {
                    lemma_state_roundtrip(next_state('1', scur));
                    assert(bits@ =~= bits_before.push('1'));
                    assert(bits@ + candidate_run(state_seq(cur as nat), frame@.skip(i + 2)).0
                        =~= bits_before + (seq!['1'] + candidate_run(next_state('1', scur),
                            rest.skip(2)).0));
                }
            } else {
                dist = dist + d_zero;
                bits.append("0");
                cur = t.next_if_zero;
                proof {
                    lemma_state_roundtrip(next_state('0', scur));
                    assert(bits@ =~= bits_before.push('0'));
                    assert(bits@ + candidate_run(state_seq(cur as nat), frame@.skip(i + 2)).0
                        =~= bits_before + (seq!['0'] + candidate_run(next_state('0', scur),
                            rest.skip(2)).0));
                }
            }
            i = i + 2;
        }
        proof {
            assert(frame@.skip(len as int) =~= Seq::<char>::empty());
            assert(bits@ + Seq::<char>::empty() =~= bits@);
            assert(candidate_run(state_seq(n as nat), frame@).0 == bits@);
            assert(candidate_run(state_seq(n as nat), frame@).1 == dist);
        }
        let ghost result_before = result@;
        if dist == 0 {
            result.append(bits.as_str());
        }
        proof {
            if dist == 0 {
                assert(result@ =~= result_before + candidate_run(state_seq(n as nat), frame@).0);
            } else {
                assert(result@ + decoded_all(frame@, n + 1) =~= result_before + (Seq::<
                    char>::empty() + decoded_all(frame@, n + 1)));
            }
            assert(result@ + decoded_all(frame@, n + 1) == decoded_all(frame@, 0));
        }
        n = n + 1;
    }
    proof {
        assert(decoded_all(frame@, 64) =~= Seq::<char>::empty());
        assert(result@ + Seq::<char>::empty() =~= result@);
    }
    Ok(result)
}

/// Law (round trip, the true path): the candidate that starts at the state
/// the encoder started in follows the encoded stream exactly, accumulating
/// zero distance and recovering the encoded frame bit for bit.
pub proof fn lemma_true_path(d: Seq<char>, s: Seq<char>)
    requires
        is_bit_seq(d),
        state_wf(s),
    ensures
        candidate_run(s, encode_output(d, s)).0 =~= d,
        candidate_run(s, encode_output(d, s)).1 == 0,
    decreases d.len(),
{
    let rec = encode_output(d, s);
    lemma_encode_output_len(d, s);
    if d.len() == 0 {
    } else {
        let b = d[0];
        let ns = next_state(b, s);
        assert(state_wf(ns)) by {
            assert(forall|i: int| 0 <= i < 6 ==> is_bit_char(#[trigger] ns[i]) == (
                if i == 0 { is_bit_char(b) } else { is_bit_char(s[i - 1]) }));
        }
        let tail = encode_output(d.skip(1), ns);
        lemma_encode_output_len(d.skip(1), ns);
        assert(rec.take(2) =~= step_output(b, s));
        assert(rec.skip(2) =~= tail);
        let other: char = if b == '1' {
            '0'
        } else {
            '1'
        };
        assert(hamming_distance2(step_output(b, s), rec.take(2)) == 0);
        assert(step_output(other, s)[0] != step_output(b, s)[0]
            && step_output(other, s)[1] != step_output(b, s)[1]);
        assert(hamming_distance2(step_output(other, s), rec.take(2)) == 2);
        assert(is_bit_seq(d.skip(1))) by {
            assert(forall|i: int| 0 <= i < d.skip(1).len() ==> d.skip(1)[i] == d[i + 1]);
        }
        lemma_true_path(d.skip(1), ns);
        assert(candidate_run(s, rec).0 =~= seq![b] + d.skip(1));
        assert(seq![b] + d.skip(1) =~= d);
    }
}


/// XOR of two bit characters.
spec fn cx(a: char, b: char) -> char {
    if (a == '1') == (b == '1') {
        '0'
    } else {
        '1'
    }
}

/// Pointwise XOR of two register states.
spec fn xor_state(t: Seq<char>, s: Seq<char>) -> Seq<char> {
    Seq::new(6, |i: int| cx(t[i], s[i]))
}

/// The only input-bit difference that keeps the first parity bits of two
/// paths equal, as a function of the state difference.
spec fn forced_bit(delta: Seq<char>) -> char {
    bit_char((bit_val(delta[1]) + bit_val(delta[2]) + bit_val(delta[4]) + bit_val(delta[5])) % 2)
}

/// Whether a state difference can keep both parity streams identical for
/// `k` more steps: the input difference is forced by the first parity bit,
/// and the second parity bit must also vanish at every step.
spec fn survives(delta: Seq<char>, k: nat) -> bool
    decreases k,
{
    if k == 0 {
        true
    } else {
        parity_second(forced_bit(delta), delta) == '0' && survives(
            next_state(forced_bit(delta), delta), (k - 1) as nat)
    }
}

/// `forced_bit`, written on state numbers.
spec fn forced_val(n: nat) -> nat {
    ((n / 16) % 2 + (n / 8) % 2 + (n / 2) % 2 + n % 2) % 2
}

/// The second parity bit of the forced transition vanishes, on state numbers.
spec fn second_parity_vanishes(n: nat) -> bool {
    (forced_val(n) + (n / 32) % 2 + (n / 16) % 2 + (n / 8) % 2 + n % 2) % 2 == 0
}

/// `survives`, written on state numbers.
spec fn survives_num(n: nat, k: nat) -> bool
    decreases k,
{
    if k == 0 {
        true
    } else {
        second_parity_vanishes(n) && survives_num(32 * forced_val(n) + n / 2, (k - 1) as nat)
    }
}

proof fn lemma_state_seq_bits(n: nat)
    requires
        n < 64,
    ensures
        bit_val(state_seq(n)[0]) == (n / 32) % 2,
        bit_val(state_seq(n)[1]) == (n / 16) % 2,
        bit_val(state_seq(n)[2]) == (n / 8) % 2,
        bit_val(state_seq(n)[3]) == (n / 4) % 2,
        bit_val(state_seq(n)[4]) == (n / 2) % 2,
        bit_val(state_seq(n)[5]) == n % 2,
{
    vstd::arithmetic::power2::lemma2_to64();
    vstd::arithmetic::div_mod::lemma_div_basics(n as int);
    crate::bits::lemma_bits_of_index(n, 6, 0);
    crate::bits::lemma_bits_of_index(n, 6, 1);
    crate::bits::lemma_bits_of_index(n, 6, 2);
    crate::bits::lemma_bits_of_index(n, 6, 3);
    crate::bits::lemma_bits_of_index(n, 6, 4);
    crate::bits::lemma_bits_of_index(n, 6, 5);
}

/// On matching state numbers, the difference automaton and its arithmetic
/// twin agree.
proof fn lemma_survives_bridge(n: nat, k: nat)
    requires
        n < 64,
    ensures
        survives(state_seq(n), k) == survives_num(n, k),
    decreases k,
{
    if k > 0 {
        lemma_state_seq_wf(n);
        lemma_state_seq_bits(n);
        let delta = state_seq(n);
        let fb = forced_bit(delta);
        assert(bit_val(fb) == forced_val(n));
        assert(is_bit_char(fb));
        assert((parity_second(fb, delta) == '0') == second_parity_vanishes(n));
        lemma_next_state_num(fb, n);
        let m = 32 * bit_val(fb) + n / 2;
        assert(m < 64);
        lemma_state_roundtrip(next_state(fb, delta));
        assert(state_seq(state_num(next_state(fb, delta))) =~= next_state(fb, delta));
        lemma_survives_bridge(m, (k - 1) as nat);
    }
}

proof fn lemma_survives_monotone(delta: Seq<char>, j: nat, k: nat)
    requires
        j <= k,
        survives(delta, k),
    ensures
        survives(delta, j),
    decreases j,
{
    if j > 0 {
        lemma_survives_monotone(next_state(forced_bit(delta), delta), (j - 1) as nat, (k
            - 1) as nat);
    }
}

/// Every nonzero state difference fails to keep both parity streams equal
/// within six steps: checked for each of the 63 nonzero states.
#[verifier::rlimit(100)]
proof fn lemma_nonzero_delta_dies(n: nat)
    requires
        1 <= n < 64,
    ensures
        !survives_num(n, 6),
{
    reveal_with_fuel(survives_num, 8);
    if n == 1 {
        assert(!survives_num(1, 6));
    } else if n == 2 {
        assert(!survives_num(2, 6));
    } else if n == 3 {
        assert(!survives_num(3, 6));
    } else if n == 4 {
        assert(!survives_num(4, 6));
    } else if n == 5 {
        assert(!survives_num(5, 6));
    } else if n == 6 {
        assert(!survives_num(6, 6));
    } else if n == 7 {
        assert(!survives_num(7, 6));
    } else if n == 8 {
        assert(!survives_num(8, 6));
    } else if n == 9 {
        assert(!survives_num(9, 6));
    } else if n == 10 {
        assert(!survives_num(10, 6));
    } else if n == 11 {
        assert(!survives_num(11, 6));
    } else if n == 12 {
        assert(!survives_num(12, 6));
    } else if n == 13 {
        assert(!survives_num(13, 6));
    } else if n == 14 {
        assert(!survives_num(14, 6));
    } else if n == 15 {
        assert(!survives_num(15, 6));
    } else if n == 16 {
        assert(!survives_num(16, 6));
    } else if n == 17 {
        assert(!survives_num(17, 6));
    } else if n == 18 {
        assert(!survives_num(18, 6));
    } else if n == 19 {
        assert(!survives_num(19, 6));
    } else if n == 20 {
        assert(!survives_num(20, 6));
    } else if n == 21 {
        assert(!survives_num(21, 6));
    } else if n == 22 {
        assert(!survives_num(22, 6));
    } else if n == 23 {
        assert(!survives_num(23, 6));
    } else if n == 24 {
        assert(!survives_num(24, 6));
    } else if n == 25 {
        assert(!survives_num(25, 6));
    } else if n == 26 {
        assert(!survives_num(26, 6));
    } else if n == 27 {
        assert(!survives_num(27, 6));
    } else if n == 28 {
        assert(!survives_num(28, 6));
    } else if n == 29 {
        assert(!survives_num(29, 6));
    } else if n == 30 {
        assert(!survives_num(30, 6));
    } else if n == 31 {
        assert(!survives_num(31, 6));
    } else if n == 32 {
        assert(!survives_num(32, 6));
    } else if n == 33 {
        assert(!survives_num(33, 6));
    } else if n == 34 {
        assert(!survives_num(34, 6));
    } else if n == 35 {
        assert(!survives_num(35, 6));
    } else if n == 36 {
        assert(!survives_num(36, 6));
    } else if n == 37 {
        assert(!survives_num(37, 6));
    } else if n == 38 {
        assert(!survives_num(38, 6));
    } else if n == 39 {
        assert(!survives_num(39, 6));
    } else if n == 40 {
        assert(!survives_num(40, 6));
    } else if n == 41 {
        assert(!survives_num(41, 6));
    } else if n == 42 {
        assert(!survives_num(42, 6));
    } else if n == 43 {
        assert(!survives_num(43, 6));
    } else if n == 44 {
        assert(!survives_num(44, 6));
    } else if n == 45 {
        assert(!survives_num(45, 6));
    } else if n == 46 {
        assert(!survives_num(46, 6));
    } else if n == 47 {
        assert(!survives_num(47, 6));
    } else if n == 48 {
        assert(!survives_num(48, 6));
    } else if n == 49 {
        assert(!survives_num(49, 6));
    } else if n == 50 {
        assert(!survives_num(50, 6));
    } else if n == 51 {
        assert(!survives_num(51, 6));
    } else if n == 52 {
        assert(!survives_num(52, 6));
    } else if n == 53 {
        assert(!survives_num(53, 6));
    } else if n == 54 {
        assert(!survives_num(54, 6));
    } else if n == 55 {
        assert(!survives_num(55, 6));
    } else if n == 56 {
        assert(!survives_num(56, 6));
    } else if n == 57 {
        assert(!survives_num(57, 6));
    } else if n == 58 {
        assert(!survives_num(58, 6));
    } else if n == 59 {
        assert(!survives_num(59, 6));
    } else if n == 60 {
        assert(!survives_num(60, 6));
    } else if n == 61 {
        assert(!survives_num(61, 6));
    } else if n == 62 {
        assert(!survives_num(62, 6));
    } else if n == 63 {
        assert(!survives_num(63, 6));
    } else {
        assert(false);
    }
}

proof fn lemma_cx_val(a: char, b: char)
    requires
        is_bit_char(a),
        is_bit_char(b),
    ensures
        bit_val(cx(a, b)) == (bit_val(a) + bit_val(b)) % 2,
{
}

/// Dropping an inner `% 2` from the first summand does not change a sum mod 2.
proof fn lemma_mod2_drop(a: nat, k: nat)
    ensures
        ((a % 2) + k) % 2 == (a + k) % 2,
{
    vstd::arithmetic::div_mod::lemma_fundamental_div_mod(a as int, 2);
    vstd::arithmetic::div_mod::lemma_mod_multiples_vanish(
        a as int / 2, (a % 2 + k) as int, 2);
}

/// Two sums that agree mod 2 have their cross terms agree mod 2.
proof fn lemma_mod2_cross(u: nat, v: nat, xx: nat, yy: nat)
    requires
        (u + xx) % 2 == (v + yy) % 2,
    ensures
        (xx + yy) % 2 == (u + v) % 2,
{
    lemma_mod2_drop(u + xx, v + yy);
    assert(((v + yy) % 2 + (v + yy)) % 2 == (u + xx + (v + yy)) % 2);
    vstd::arithmetic::div_mod::lemma_mod_multiples_vanish((v + yy) as int, 0, 2);
    lemma_mod2_drop(v + yy, v + yy);
    assert((u + v + xx + yy) % 2 == 0) by {
        assert(((v + yy) % 2 + (v + yy)) % 2 == ((v + yy) + (v + yy)) % 2);
        assert(((v + yy) + (v + yy)) % 2 == (2 * ((v + yy) as int) + 0) % 2);
    }
    vstd::arithmetic::div_mod::lemma_add_mod_noop((u + v) as int, (xx + yy) as int, 2);
    vstd::arithmetic::div_mod::lemma_mod_bound((u + v) as int, 2);
    vstd::arithmetic::div_mod::lemma_mod_bound((xx + yy) as int, 2);
}

#[verifier::rlimit(100)]
proof fn lemma_mod2_first(u: nat, v: nat, x1: nat, y1: nat, x2: nat, y2: nat, x4: nat,
    y4: nat, x5: nat, y5: nat)
    requires
        u <= 1, v <= 1, x1 <= 1, y1 <= 1, x2 <= 1, y2 <= 1, x4 <= 1, y4 <= 1, x5 <= 1,
        y5 <= 1,
        (u + x1 + x2 + x4 + x5) % 2 == (v + y1 + y2 + y4 + y5) % 2,
    ensures
        ((x1 + y1) % 2 + (x2 + y2) % 2 + (x4 + y4) % 2 + (x5 + y5) % 2) % 2 == (u + v)
            % 2,
{
    let s1 = (x2 + y2) % 2;
    let s2 = (x4 + y4) % 2;
    let s3 = (x5 + y5) % 2;
    lemma_mod2_drop(x1 + y1, s1 + s2 + s3);
    assert(((x1 + y1) % 2 + s1 + s2 + s3) % 2 == ((x1 + y1) + s1 + s2 + s3) % 2);
    lemma_mod2_drop(x2 + y2, (x1 + y1) + s2 + s3);
    assert(((x1 + y1) + s1 + s2 + s3) % 2 == ((x1 + y1) + (x2 + y2) + s2 + s3) % 2);
    lemma_mod2_drop(x4 + y4, (x1 + y1) + (x2 + y2) + s3);
    assert(((x1 + y1) + (x2 + y2) + s2 + s3) % 2 == ((x1 + y1) + (x2 + y2) + (x4 + y4)
        + s3) % 2);
    lemma_mod2_drop(x5 + y5, (x1 + y1) + (x2 + y2) + (x4 + y4));
    assert(((x1 + y1) + (x2 + y2) + (x4 + y4) + s3) % 2 == ((x1 + y1) + (x2 + y2) + (x4
        + y4) + (x5 + y5)) % 2);
    lemma_mod2_cross(u, v, x1 + x2 + x4 + x5, y1 + y2 + y4 + y5);
}

#[verifier::rlimit(100)]
proof fn lemma_mod2_second(u: nat, v: nat, x0: nat, y0: nat, x1: nat, y1: nat, x2: nat,
    y2: nat, x5: nat, y5: nat)
    requires
        u <= 1, v <= 1, x0 <= 1, y0 <= 1, x1 <= 1, y1 <= 1, x2 <= 1, y2 <= 1, x5 <= 1,
        y5 <= 1,
        (u + x0 + x1 + x2 + x5) % 2 == (v + y0 + y1 + y2 + y5) % 2,
    ensures
        ((u + v) % 2 + (x0 + y0) % 2 + (x1 + y1) % 2 + (x2 + y2) % 2 + (x5 + y5) % 2)
            % 2 == 0,
{
    lemma_mod2_drop(u + v, (x0 + y0) % 2 + (x1 + y1) % 2 + (x2 + y2) % 2 + (x5 + y5) % 2);
    lemma_mod2_drop(x0 + y0, (u + v) + (x1 + y1) % 2 + (x2 + y2) % 2 + (x5 + y5) % 2);
    lemma_mod2_drop(x1 + y1, (u + v) + (x0 + y0) + (x2 + y2) % 2 + (x5 + y5) % 2);
    lemma_mod2_drop(x2 + y2, (u + v) + (x0 + y0) + (x1 + y1) + (x5 + y5) % 2);
    lemma_mod2_drop(x5 + y5, (u + v) + (x0 + y0) + (x1 + y1) + (x2 + y2));
    lemma_mod2_cross(u, v, x0 + x1 + x2 + x5, y0 + y1 + y2 + y5);
    let a = u + v;
    let b = x0 + y0 + x1 + y1 + x2 + y2 + x5 + y5;
    assert(b % 2 == a % 2);
    vstd::arithmetic::div_mod::lemma_add_mod_noop(a as int, b as int, 2);
    vstd::arithmetic::div_mod::lemma_mod_multiples_vanish((a % 2) as int, 0, 2);
    assert((a % 2 + a % 2) % 2 == (2 * ((a % 2) as int) + 0) % 2);
    assert((a + b) % 2 == 0);
}

/// If two transitions emit the same two-bit output, the difference of their
/// input bits is forced and the second parity of the difference vanishes.
proof fn lemma_output_match(b1: char, s1: Seq<char>, b2: char, s2: Seq<char>)
    requires
        is_bit_char(b1),
        is_bit_char(b2),
        state_wf(s1),
        state_wf(s2),
        step_output(b1, s1) == step_output(b2, s2),
    ensures
        forced_bit(xor_state(s1, s2)) == cx(b1, b2),
        parity_second(cx(b1, b2), xor_state(s1, s2)) == '0',
{
    let xs = xor_state(s1, s2);
    assert(forall|i: int| 0 <= i < 6 ==> #[trigger] xs[i] == cx(s1[i], s2[i]));
    assert(forall|i: int| 0 <= i < 6 ==> is_bit_char(#[trigger] s1[i]) && is_bit_char(s2[i]));
    lemma_cx_val(s1[0], s2[0]);
    lemma_cx_val(s1[1], s2[1]);
    lemma_cx_val(s1[2], s2[2]);
    lemma_cx_val(s1[4], s2[4]);
    lemma_cx_val(s1[5], s2[5]);
    lemma_cx_val(b1, b2);
    assert(parity_first(b1, s1) == parity_first(b2, s2)) by {
        assert(step_output(b1, s1)[0] == step_output(b2, s2)[0]);
    }
    assert(parity_second(b1, s1) == parity_second(b2, s2)) by {
        assert(step_output(b1, s1)[1] == step_output(b2, s2)[1]);
    }
    let u = bit_val(b1);
    let v = bit_val(b2);
    assert((u + bit_val(s1[1]) + bit_val(s1[2]) + bit_val(s1[4]) + bit_val(s1[5])) % 2
        == (v + bit_val(s2[1]) + bit_val(s2[2]) + bit_val(s2[4]) + bit_val(s2[5])) % 2);
    lemma_mod2_first(u, v, bit_val(s1[1]), bit_val(s2[1]), bit_val(s1[2]), bit_val(s2[2]),
        bit_val(s1[4]), bit_val(s2[4]), bit_val(s1[5]), bit_val(s2[5]));
    assert(bit_val(forced_bit(xs)) == bit_val(cx(b1, b2)));
    assert(forced_bit(xs) == cx(b1, b2));
    assert((u + bit_val(s1[0]) + bit_val(s1[1]) + bit_val(s1[2]) + bit_val(s1[5])) % 2
        == (v + bit_val(s2[0]) + bit_val(s2[1]) + bit_val(s2[2]) + bit_val(s2[5])) % 2);
    lemma_mod2_second(u, v, bit_val(s1[0]), bit_val(s2[0]), bit_val(s1[1]), bit_val(s2[1]),
        bit_val(s1[2]), bit_val(s2[2]), bit_val(s1[5]), bit_val(s2[5]));
    lemma_cx_val(s1[0], s2[0]);
    assert(parity_second(cx(b1, b2), xs) == '0');
}

/// A candidate that accumulates zero distance on an encoded stream keeps the
/// state-difference automaton alive for the whole frame.
proof fn lemma_zero_distance_survives(t: Seq<char>, s: Seq<char>, d: Seq<char>)
    requires
        state_wf(t),
        state_wf(s),
        is_bit_seq(d),
        candidate_run(t, encode_output(d, s)).1 == 0,
    ensures
        survives(xor_state(t, s), d.len()),
    decreases d.len(),
{
    if d.len() > 0 {
        let rec = encode_output(d, s);
        lemma_encode_output_len(d, s);
        assert(rec.take(2) =~= step_output(d[0], s));
        assert(rec.skip(2) =~= encode_output(d.skip(1), next_state(d[0], s)));
        let g = rec.take(2);
        let d_one = hamming_distance2(step_output('1', t), g);
        let d_zero = hamming_distance2(step_output('0', t), g);
        let bp: char = if d_one < d_zero {
            '1'
        } else {
            '0'
        };
        assert(candidate_run(t, rec).1 == hamming_distance2(step_output(bp, t), g)
            + candidate_run(next_state(bp, t), rec.skip(2)).1);
        assert(hamming_distance2(step_output(bp, t), g) == 0);
        assert(step_output(bp, t) =~= step_output(d[0], s));
        assert(is_bit_char(d[0]));
        lemma_output_match(bp, t, d[0], s);
        let delta = xor_state(t, s);
        let nt = next_state(bp, t);
        let ns = next_state(d[0], s);
        assert(state_wf(nt)) by {
            assert(forall|i: int| 0 <= i < 6 ==> is_bit_char(#[trigger] nt[i]) == (if i
                == 0 { is_bit_char(bp) } else { is_bit_char(t[i - 1]) }));
        }
        assert(state_wf(ns)) by {
            assert(forall|i: int| 0 <= i < 6 ==> is_bit_char(#[trigger] ns[i]) == (if i
                == 0 { is_bit_char(d[0]) } else { is_bit_char(s[i - 1]) }));
        }
        assert(is_bit_seq(d.skip(1))) by {
            assert(forall|i: int| 0 <= i < d.skip(1).len() ==> d.skip(1)[i] == d[i + 1]);
        }
        assert(candidate_run(nt, rec.skip(2)).1 == 0);
        lemma_zero_distance_survives(nt, ns, d.skip(1));
        assert(xor_state(nt, ns) =~= next_state(forced_bit(delta), delta)) by {
            assert(forall|i: int| 0 <= i < 6 ==> #[trigger] xor_state(nt, ns)[i] == cx(nt[i],
                ns[i]));
            assert(forall|i: int| 0 <= i < 6 ==> #[trigger] delta[i] == cx(t[i], s[i]));
            assert(cx(nt[0], ns[0]) == forced_bit(delta));
            assert(forall|i: int| 1 <= i < 6 ==> cx(#[trigger] nt[i], ns[i]) == cx(t[i - 1],
                s[i - 1]));
        }
        assert(survives(delta, d.len()));
    }
}

/// A candidate that starts anywhere but the encoder's initial state keeps a
/// positive distance on a frame of at least the register width.
proof fn lemma_other_candidates_die(t: Seq<char>, s: Seq<char>, d: Seq<char>)
    requires
        state_wf(t),
        state_wf(s),
        is_bit_seq(d),
        d.len() >= 6,
        t != s,
    ensures
        candidate_run(t, encode_output(d, s)).1 > 0,
{
    if candidate_run(t, encode_output(d, s)).1 == 0 {
        lemma_zero_distance_survives(t, s, d);
        let delta = xor_state(t, s);
        assert(state_wf(delta)) by {
            assert(forall|i: int| 0 <= i < 6 ==> #[trigger] delta[i] == cx(t[i], s[i]));
            assert(forall|i: int| 0 <= i < 6 ==> is_bit_char(cx(#[trigger] t[i], s[i])));
        }
        lemma_survives_monotone(delta, 6, d.len());
        let m = state_num(delta);
        lemma_state_roundtrip(delta);
        if m == 0 {
            crate::bits::lemma_bits_of_zero(6);
            assert(forall|i: int| 0 <= i < 6 ==> #[trigger] delta[i] == '0');
            assert forall|i: int| 0 <= i < 6 implies t[i] == s[i] by {
                assert(delta[i] == cx(t[i], s[i]));
                assert(delta[i] == '0');
                assert(is_bit_char(t[i]) && is_bit_char(s[i]));
            }
            assert(t =~= s);
            assert(false);
        } else {
            assert(survives(state_seq(m), 6)) by {
                assert(state_seq(m) =~= delta);
            }
            lemma_survives_bridge(m, 6);
            lemma_nonzero_delta_dies(m);
            assert(false);
        }
    }
}

proof fn lemma_decoded_all_rest_empty(d: Seq<char>, n: int)
    requires
        is_bit_seq(d),
        d.len() >= 6,
        1 <= n <= 64,
    ensures
        decoded_all(encode_output(d, zero_state()), n) =~= Seq::<char>::empty(),
    decreases 64 - n,
{
    if n < 64 {
        lemma_state_seq_wf(n as nat);
        lemma_state_seq_wf(0);
        assert(vstd::arithmetic::power2::pow2(6) == 64) by {
            vstd::arithmetic::power2::lemma2_to64();
        }
        crate::bits::lemma_bits_of_value(n as nat, 6);
        crate::bits::lemma_bits_of_value(0, 6);
        assert(state_seq(n as nat) != zero_state());
        lemma_other_candidates_die(state_seq(n as nat), zero_state(), d);
        lemma_decoded_all_rest_empty(d, n + 1);
    }
}

/// Law (round trip): decoding an encoded frame with no bits flipped recovers
/// exactly the padded frame — the data bits followed by the flush padding —
/// and so recovers the data itself as a prefix; a frame at least as long as
/// the register is recovered verbatim.
pub proof fn lemma_round_trip(d: Seq<char>)
    requires
        is_bit_seq(d),
    ensures
        decoded_all(encode_output(padded(d), zero_state()), 0) =~= padded(d),
        padded(d).take(d.len() as int) =~= d,
        d.len() >= 6 ==> decoded_all(encode_output(padded(d), zero_state()), 0) =~= d,
{
    lemma_padded_wf(d);
    let p = padded(d);
    let rec = encode_output(p, zero_state());
    lemma_state_seq_wf(0);
    lemma_true_path(p, zero_state());
    lemma_decoded_all_rest_empty(p, 1);
    assert(state_seq(0) == zero_state());
    assert(candidate_run(state_seq(0), rec).1 == 0);
    assert(decoded_all(rec, 0) =~= candidate_run(state_seq(0), rec).0 + decoded_all(rec, 1));
    assert(candidate_run(state_seq(0), rec).0 + decoded_all(rec, 1) =~= p);
}

} // verus!
