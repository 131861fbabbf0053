//! The register state machine of the convolutional code: a six-bit shift
//! register, the two generator tap sets, and the precomputed transition table
//! over all 64 register states.

use vstd::prelude::*;
use vstd::string::{StrSliceExecFns, StringExecFns};
use vstd::arithmetic::power2::pow2;
use crate::bits::{
    is_bit_char, is_bit_seq, bit_val, bit_char, binary_value, bits_of,
    lemma_bits_of_len, lemma_bits_of_of_value, lemma_binary_value_bound,
    lemma_binary_value_prepend,
};
use crate::utils::convert_char_bit_to_int;

verus! {

/// A well-formed register state: six bit characters, most recent bit first.
pub open spec fn state_wf(s: Seq<char>) -> bool {
    s.len() == 6 && is_bit_seq(s)
}

/// The all-zero register state.
pub open spec fn zero_state() -> Seq<char> {
    bits_of(0, 6)
}

/// The register state read as a number, most significant (= most recent) bit first.
pub open spec fn state_num(s: Seq<char>) -> nat {
    binary_value(s)
}

/// The register state with the given number.
pub open spec fn state_seq(n: nat) -> Seq<char> {
    bits_of(n, 6)
}

/// First parity bit: the new bit XORed with register taps 1, 2, 4, 5.
pub open spec fn parity_first(b: char, s: Seq<char>) -> char {
    bit_char((bit_val(b) + bit_val(s[1]) + bit_val(s[2]) + bit_val(s[4]) + bit_val(s[5])) % 2)
}

/// Second parity bit: the new bit XORed with register taps 0, 1, 2, 5.
pub open spec fn parity_second(b: char, s: Seq<char>) -> char {
    bit_char((bit_val(b) + bit_val(s[0]) + bit_val(s[1]) + bit_val(s[2]) + bit_val(s[5])) % 2)
}

/// The two-bit output emitted when bit `b` is shifted into state `s`.
pub open spec fn step_output(b: char, s: Seq<char>) -> Seq<char> {
    seq![parity_first(b, s), parity_second(b, s)]
}

/// The register state after shifting bit `b` into state `s`.
pub open spec fn next_state(b: char, s: Seq<char>) -> Seq<char> {
    seq![b] + s.take(5)
}

/// XOR of a start bit with the register bits at the given tap positions,
/// consumed left to right.
pub open spec fn xor_fold(indexes: Seq<usize>, acc: nat, s: Seq<char>) -> nat
    decreases indexes.len(),
{
    if indexes.len() == 0 {
        acc
    } else {
        xor_fold(indexes.skip(1), (acc + bit_val(s[indexes[0] as int])) % 2, s)
    }
}

pub proof fn lemma_state_seq_wf(n: nat)
    ensures
        state_wf(state_seq(n)),
{
    lemma_bits_of_len(n, 6);
}

/// A well-formed state is recovered from its number, which is below 64.
pub proof fn lemma_state_roundtrip(s: Seq<char>)
    requires
        state_wf(s),
    ensures
        state_num(s) < 64,
        state_seq(state_num(s)) =~= s,
{
    lemma_binary_value_bound(s);
    assert(pow2(6) == 64) by {
        vstd::arithmetic::power2::lemma2_to64();
    }
    lemma_bits_of_of_value(s);
}

/// Shifting bit `b` into the state numbered `n` reaches the state numbered
/// `32 * b + n / 2`.
pub proof fn lemma_next_state_num(b: char, n: nat)
    requires
        is_bit_char(b),
        n < 64,
    ensures
        state_wf(next_state(b, state_seq(n))),
        state_num(next_state(b, state_seq(n))) == 32 * bit_val(b) + n / 2,
{
    let s = state_seq(n);
    lemma_state_seq_wf(n);
    let t = next_state(b, s);
    assert(state_wf(t)) by {
        assert(forall|i: int| 0 <= i < 6 ==> is_bit_char(#[trigger] t[i]) == (
            if i == 0 { is_bit_char(b) } else { is_bit_char(s[i - 1]) }));
    }
    lemma_binary_value_prepend(b, s.take(5));
    assert(pow2(5) == 32) by {
        vstd::arithmetic::power2::lemma2_to64();
    }
    assert(s.drop_last() =~= s.take(5));
    assert(binary_value(s) == 2 * binary_value(s.take(5)) + bit_val(s.last()));
    assert(pow2(6) == 64) by {
        vstd::arithmetic::power2::lemma2_to64();
    }
    crate::bits::lemma_bits_of_value(n, 6);
    assert(binary_value(s.take(5)) == n / 2 && bit_val(s.last()) == n % 2) by {
        vstd::arithmetic::div_mod::lemma_fundamental_div_mod_converse(
            n as int, 2, binary_value(s.take(5)) as int, bit_val(s.last()) as int);
    }
}

/// The two transitions out of one register state: the state reached and the
/// two-bit output emitted, for an incoming `'0'` and an incoming `'1'`.
pub struct StateTransitions {
    pub next_if_zero: usize,
    pub output_if_zero: String,
    pub next_if_one: usize,
    pub output_if_one: String,
}

/// Whether entry `n` of a table holds exactly the transitions of state `n`.
pub open spec fn transition_wf(t: StateTransitions, n: int) -> bool {
    &&& t.next_if_zero == state_num(next_state('0', state_seq(n as nat)))
    &&& t.next_if_one == state_num(next_state('1', state_seq(n as nat)))
    &&& t.output_if_zero@ == step_output('0', state_seq(n as nat))
    &&& t.output_if_one@ == step_output('1', state_seq(n as nat))
}

/// The transition table of the six-bit register: entry `n` describes the two
/// transitions out of the state numbered `n`.
pub struct StatesMap {
    pub transitions: Vec<StateTransitions>,
}

impl StatesMap {
    /// The table covers all 64 states and each entry is exact.
    pub open spec fn wf(&self) -> bool {
        self.transitions@.len() == 64 && forall|n: int|
            0 <= n < 64 ==> transition_wf(#[trigger] self.transitions@[n], n)
    }
}

/// The encoder's shift register, holding the six most recent input bits,
/// most recent first.
pub struct BitSM {
    registers: String,
}

impl View for BitSM {
    type V = Seq<char>;

    closed spec fn view(&self) -> Seq<char> {
        self.registers@
    }
}

/// Builds the two-character string of the given bit values.
fn two_bit_string(c1: usize, c2: usize) -> (r: String)
    requires
        c1 <= 1,
        c2 <= 1,
    ensures
        r@ =~= seq![bit_char(c1 as nat), bit_char(c2 as nat)],
{
    proof {
        reveal_strlit("00");
        reveal_strlit("01");
        reveal_strlit("10");
        reveal_strlit("11");
    }
    if c1 == 0 && c2 == 0 {
        String::from_str("00")
    } else if c1 == 0 && c2 == 1 {
        String::from_str("01")
    } else if c1 == 1 && c2 == 0 {
        String::from_str("10")
    } else {
        String::from_str("11")
    }
}

/// Writes the state numbered `n` as its six-bit string.
fn state_string(n: usize) -> (r: String)
    requires
        n < 64,
    ensures
        r@ =~= state_seq(n as nat),
{
    let mut s = String::new();
    let mut d: usize = 32;
    let mut i: usize = 0;
    proof {
        vstd::arithmetic::power2::lemma2_to64();
        vstd::arithmetic::div_mod::lemma_basic_div(n as int, 64);
    }
    while i < 6
        invariant
            n < 64,
            i <= 6,
            d == pow2((5 - i) as nat) || (i == 6 && d == 0),
            s@.len() == i,
            is_bit_seq(s@),
            binary_value(s@) == (n as nat) / pow2((6 - i) as nat),
        decreases 6 - i,
    {
        proof {
            reveal_strlit("0");
            reveal_strlit("1");
            assert(pow2((6 - i) as nat) == 2 * pow2((5 - i) as nat)) by {
                vstd::arithmetic::power2::lemma_pow2_unfold((6 - i) as nat);
            }
            vstd::arithmetic::power2::lemma_pow2_pos((5 - i) as nat);
            assert((n as int / d as int) / 2 == n as int / (d as int * 2)) by {
                vstd::arithmetic::div_mod::lemma_div_denominator(n as int, d as int, 2);
            }
        }
        let ghost prev = s@;
        if (n / d) % 2 == 1 {
            s.append("1");
            assert(s@ =~= prev.push('1'));
        } else {
            s.append("0");
            assert(s@ =~= prev.push('0'));
        }
        proof {
            assert(s@.drop_last() =~= prev);
            assert(binary_value(s@) == 2 * binary_value(prev) + ((n / d) % 2)) by {
                vstd::arithmetic::div_mod::lemma_mod_bound((n / d) as int, 2);
            }
            assert(2 * (n as int / (d as int * 2)) + (n as int / d as int) % 2
                == n as int / d as int) by {
                vstd::arithmetic::div_mod::lemma_fundamental_div_mod((n / d) as int, 2);
            }
        }
        if i < 5 {
            d = d / 2;
        } else {
            d = 0;
        }
        i = i + 1;
        proof {
            if i < 6 {
                assert(pow2((6 - i) as nat) == 2 * pow2((5 - i) as nat)) by {
                    vstd::arithmetic::power2::lemma_pow2_unfold((6 - i) as nat);
                }
            }
        }
    }
    proof {
        vstd::arithmetic::power2::lemma2_to64();
        vstd::arithmetic::div_mod::lemma_div_basics(n as int);
        assert(pow2((6 - i) as nat) == 1);
        assert(binary_value(s@) == n as nat);
        lemma_bits_of_of_value(s@);
    }
    s
}

impl BitSM {
    /// Whether the register is well formed: six bit characters.
    pub open spec fn wf(&self) -> bool {
        state_wf(self@)
    }

    /// A fresh encoder whose register holds six zero bits.
    pub fn new() -> (r: BitSM)
        ensures
            r.wf(),
            r@ =~= zero_state(),
    {
        let registers = String::from_str("000000");
        proof {
            reveal_strlit("000000");
            crate::bits::lemma_bits_of_zero(6);
        }
        BitSM { registers }
    }

    /// Width of the shift register.
    pub fn get_register_size(&self) -> (r: usize)
        ensures
            r == self@.len(),
    {
        self.registers.unicode_len()
    }

    /// Shifts the next bit in at the front, dropping the oldest bit.
    pub fn shift_register(&mut self, next_bit: char)
        requires
            old(self).wf(),
            is_bit_char(next_bit),
        ensures
            final(self).wf(),
            final(self)@ =~= next_state(next_bit, old(self)@),
    {
        proof {
            reveal_strlit("0");
            reveal_strlit("1");
        }
        let ghost orig = self.registers@;
        let head = if next_bit == '1' {
            String::from_str("1")
        } else {
            String::from_str("0")
        };
        let tail = self.registers.as_str().substring_char(0, 5);
        let new_registers = head.concat(tail);
        self.registers = new_registers;
        proof {
            assert(self.registers@ =~= seq![next_bit] + orig.take(5));
            assert(forall|i: int| 0 <= i < 6 ==> is_bit_char(#[trigger] self.registers@[i]));
        }
    }

    /// The register contents as a bit string.
    pub fn get_current_state(&self) -> (r: &str)
        ensures
            r@ == self@,
    {
        self.registers.as_str()
    }

    /// XOR of the next bit with the state bits at the given tap positions.
    pub fn sum_control_bits(&self, indexes: Vec<usize>, next_bit: char, state: &String) -> (r: usize)
        requires
            is_bit_char(next_bit),
            is_bit_seq(state@),
            forall|i: int| 0 <= i < indexes@.len() ==> #[trigger] indexes@[i] < state@.len(),
        ensures
            r == xor_fold(indexes@, bit_val(next_bit), state@),
            r <= 1,
    {
        let mut transition = convert_char_bit_to_int(next_bit);
        let mut i: usize = 0;
        let n = indexes.len();
        proof {
            assert(indexes@.skip(0) =~= indexes@);
        }
        while i < n
            invariant
                i <= n,
                n == indexes@.len(),
                is_bit_seq(state@),
                forall|j: int| 0 <= j < indexes@.len() ==> #[trigger] indexes@[j] < state@.len(),
                transition <= 1,
                xor_fold(indexes@, bit_val(next_bit), state@)
                    == xor_fold(indexes@.skip(i as int), transition as nat, state@),
            decreases n - i,
        {
            let idx = indexes[i];
            let c = state.as_str().get_char(idx);
            let x = convert_char_bit_to_int(c);
            proof {
                assert(indexes@.skip(i as int)[0] == indexes@[i as int]);
                assert(indexes@.skip(i as int).skip(1) =~= indexes@.skip(i + 1));
            }
            transition = (transition + x) % 2;
            i = i + 1;
        }
        proof {
            assert(indexes@.skip(n as int) =~= Seq::<usize>::empty());
        }
        transition
    }

    /// First parity bit of a transition: taps 1, 2, 4 and 5.
    pub fn get_first_control_bit(&self, next_bit: char, state: &String) -> (r: usize)
        requires
            is_bit_char(next_bit),
            is_bit_seq(state@),
            state@.len() >= 6,
        ensures
            r == bit_val(parity_first(next_bit, state@)),
            r <= 1,
    {
        let mut index_sequence: Vec<usize> = Vec::new();
        index_sequence.push(1);
        index_sequence.push(2);
        index_sequence.push(4);
        index_sequence.push(5);
        let r = self.sum_control_bits(index_sequence, next_bit, state);
        proof {
            lemma_xor_fold_taps(index_sequence@, bit_val(next_bit), state@);
        }
        r
    }

    /// Second parity bit of a transition: taps 0, 1, 2 and 5.
    pub fn get_second_control_bit(&self, next_bit: char, state: &String) -> (r: usize)
        requires
            is_bit_char(next_bit),
            is_bit_seq(state@),
            state@.len() >= 6,
        ensures
            r == bit_val(parity_second(next_bit, state@)),
            r <= 1,
    {
        let mut index_sequence: Vec<usize> = Vec::new();
        index_sequence.push(0);
        index_sequence.push(1);
        index_sequence.push(2);
        index_sequence.push(5);
        let r = self.sum_control_bits(index_sequence, next_bit, state);
        proof {
            lemma_xor_fold_taps(index_sequence@, bit_val(next_bit), state@);
        }
        r
    }

    /// Both parity bits of the transition taken when `next_bit` is shifted
    /// into `state`.
    pub fn get_next_control_bits(&self, next_bit: char, state: &String) -> (r: (usize, usize))
        requires
            is_bit_char(next_bit),
            is_bit_seq(state@),
            state@.len() >= 6,
        ensures
            r.0 == bit_val(parity_first(next_bit, state@)),
            r.1 == bit_val(parity_second(next_bit, state@)),
            r.0 <= 1,
            r.1 <= 1,
    {
        let first_bit = self.get_first_control_bit(next_bit, state);
        let second_bit = self.get_second_control_bit(next_bit, state);
        (first_bit, second_bit)
    }

    /// Builds the transition table of the six-bit register: for each of the
    /// 64 states, the state reached and the two parity bits emitted when a
    /// `'0'` or a `'1'` is shifted in.
    pub fn states_map(&self) -> (r: StatesMap)
        ensures
            r.wf(),
    {
        let mut transitions: Vec<StateTransitions> = Vec::new();
        let mut n: usize = 0;
        while n < 64
            invariant
                n <= 64,
                transitions@.len() == n,
                forall|k: int| 0 <= k < n ==> transition_wf(#[trigger] transitions@[k], k),
            decreases 64 - n,
        {
            let st = state_string(n);
            proof {
                lemma_state_seq_wf(n as nat);
            }
            let zero_bits = self.get_next_control_bits('0', &st);
            let one_bits = self.get_next_control_bits('1', &st);
            let entry = StateTransitions {
                next_if_zero: n / 2,
                output_if_zero: two_bit_string(zero_bits.0, zero_bits.1),
                next_if_one: 32 + n / 2,
                output_if_one: two_bit_string(one_bits.0, one_bits.1),
            };
            proof {
                lemma_next_state_num('0', n as nat);
                lemma_next_state_num('1', n as nat);
                assert(entry.output_if_zero@ =~= step_output('0', state_seq(n as nat)));
                assert(entry.output_if_one@ =~= step_output('1', state_seq(n as nat)));
            }
            transitions.push(entry);
            n = n + 1;
        }
        StatesMap { transitions }
    }
}

/// Folding a four-tap list equals the direct sum of the four tap bits mod 2.
proof fn lemma_xor_fold_taps(indexes: Seq<usize>, acc: nat, s: Seq<char>)
    requires
        indexes.len() == 4,
        acc <= 1,
        forall|i: int| 0 <= i < 4 ==> #[trigger] indexes[i] < s.len(),
    ensures
        xor_fold(indexes, acc, s) == (acc + bit_val(s[indexes[0] as int]) + bit_val(
            s[indexes[1] as int]) + bit_val(s[indexes[2] as int]) + bit_val(
            s[indexes[3] as int])) % 2,
{
    let i1 = indexes.skip(1);
    let i2 = indexes.skip(2);
    let i3 = indexes.skip(3);
    let i4 = indexes.skip(4);
    assert(i1.skip(1) =~= i2);
    assert(i2.skip(1) =~= i3);
    assert(i3.skip(1) =~= i4);
    assert(i4.len() == 0);
    assert(i1[0] == indexes[1] && i2[0] == indexes[2] && i3[0] == indexes[3]);
    let x1 = bit_val(s[indexes[0] as int]);
    let x2 = bit_val(s[indexes[1] as int]);
    let x3 = bit_val(s[indexes[2] as int]);
    let x4 = bit_val(s[indexes[3] as int]);
    let a1 = (acc + x1) % 2;
    let a2 = (a1 + x2) % 2;
    let a3 = (a2 + x3) % 2;
    let a4 = (a3 + x4) % 2;
    assert(xor_fold(indexes, acc, s) == xor_fold(i1, a1, s));
    assert(xor_fold(i1, a1, s) == xor_fold(i2, a2, s));
    assert(xor_fold(i2, a2, s) == xor_fold(i3, a3, s));
    assert(xor_fold(i3, a3, s) == xor_fold(i4, a4, s));
    assert(xor_fold(i4, a4, s) == a4);
    assert(a1 == (acc + x1) % 2);
    assert(a2 == (acc + x1 + x2) % 2) by {
        vstd::arithmetic::div_mod::lemma_add_mod_noop((acc + x1) as int, x2 as int, 2);
        vstd::arithmetic::div_mod::lemma_small_mod(x2, 2);
    }
    assert(a3 == (acc + x1 + x2 + x3) % 2) by {
        vstd::arithmetic::div_mod::lemma_add_mod_noop((acc + x1 + x2) as int, x3 as int, 2);
        vstd::arithmetic::div_mod::lemma_small_mod(x3, 2);
    }
    assert(a4 == (acc + x1 + x2 + x3 + x4) % 2) by {
        vstd::arithmetic::div_mod::lemma_add_mod_noop((acc + x1 + x2 + x3) as int, x4 as int, 2);
        vstd::arithmetic::div_mod::lemma_small_mod(x4, 2);
    }
}

/// Law: every state of a built table has exactly two outgoing transitions,
/// and the two states they reach differ.
pub proof fn lemma_table_complete(m: StatesMap)
    requires
        m.wf(),
    ensures
        m.transitions@.len() == 64,
        forall|n: int| 0 <= n < 64 ==> (#[trigger] m.transitions@[n]).next_if_zero
            != m.transitions@[n].next_if_one,
        forall|n: int| 0 <= n < 64 ==> (#[trigger] m.transitions@[n]).next_if_zero < 64
            && m.transitions@[n].next_if_one < 64,
{
    assert forall|n: int| 0 <= n < 64 implies (#[trigger] m.transitions@[n]).next_if_zero
        != m.transitions@[n].next_if_one && m.transitions@[n].next_if_zero < 64
        && m.transitions@[n].next_if_one < 64 by {
        lemma_next_state_num('0', n as nat);
        lemma_next_state_num('1', n as nat);
    }
}

/// Law: the transition table is a function of the register width alone; any
/// two well-formed tables are structurally identical.
pub proof fn lemma_table_deterministic(m1: StatesMap, m2: StatesMap)
    requires
        m1.wf(),
        m2.wf(),
    ensures
        m1.transitions@.len() == m2.transitions@.len(),
        forall|n: int| 0 <= n < 64 ==> (#[trigger] m1.transitions@[n]).next_if_zero
            == m2.transitions@[n].next_if_zero,
        forall|n: int| 0 <= n < 64 ==> (#[trigger] m1.transitions@[n]).next_if_one
            == m2.transitions@[n].next_if_one,
        forall|n: int| 0 <= n < 64 ==> (#[trigger] m1.transitions@[n]).output_if_zero@
            == m2.transitions@[n].output_if_zero@,
        forall|n: int| 0 <= n < 64 ==> (#[trigger] m1.transitions@[n]).output_if_one@
            == m2.transitions@[n].output_if_one@,
{
}

} // verus!
