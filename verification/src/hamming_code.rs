//! Hamming single-error-correcting block code: data bits interleaved with
//! parity bits at the power-of-two positions, a decoder that extracts the
//! data and reports a correction position, and a repair step that flips the
//! indicated data bit.

use vstd::prelude::*;
use vstd::string::{StrSliceExecFns, StringExecFns};
use vstd::arithmetic::power2::pow2;
use crate::bits::{is_bit_char, is_bit_seq};
use crate::utils::{is_power_of_two, power_of_two};

verus! {

/// Searches upward for the least count `c` of parity bits with
/// `pow2(c) >= c + len + 1`, starting at `c`.
pub open spec fn redundant_search(len: nat, c: nat) -> nat
    decreases len + 3 - c,
{
    if pow2(c) >= c + len + 1 {
        c
    } else if c > len + 2 {
        0
    } else {
        redundant_search(len, (c + 1) as nat)
    }
}

/// Number of parity bits a frame of `len` data bits needs.
pub open spec fn spec_redundant(len: nat) -> nat {
    redundant_search(len, 0)
}

/// The least `c` with `pow2(c) >= n`.
pub open spec fn clog2_search(n: nat, c: nat) -> nat
    decreases n + 1 - c,
{
    if pow2(c) >= n {
        c
    } else if c > n {
        0
    } else {
        clog2_search(n, (c + 1) as nat)
    }
}

/// The least `c` with `pow2(c) >= n`.
pub open spec fn clog2(n: nat) -> nat {
    clog2_search(n, 0)
}

/// How many of the 1-indexed positions `1..=j` are powers of two.
pub open spec fn pow_count(j: int) -> int
    decreases j,
{
    if j <= 0 {
        0
    } else {
        pow_count(j - 1) + (if is_power_of_two(j as nat) {
            1int
        } else {
            0int
        })
    }
}

/// XOR of the data positions (1-indexed, non-power) at which the placed data
/// bit is one, over positions `1..=k` of a codeword of data `d`.
pub open spec fn data_syndrome_of(d: Seq<char>, k: int) -> usize
    decreases k,
{
    if k <= 0 {
        0usize
    } else {
        let prev = data_syndrome_of(d, k - 1);
        if !is_power_of_two(k as nat) && d[k - 1 - pow_count(k)] == '1' {
            prev ^ (k as usize)
        } else {
            prev
        }
    }
}

/// The encoded codeword of a data frame: data bits at the non-power
/// positions in order, and at each power position `x` the bit `x` of the
/// XOR of the one-valued data positions.
pub open spec fn hamming_encoded(d: Seq<char>) -> Seq<char> {
    Seq::new(
        (d.len() + spec_redundant(d.len())) as nat,
        |i: int|
            if !is_power_of_two((i + 1) as nat) {
                d[i - pow_count(i + 1)]
            } else if data_syndrome_of(d, d.len() + spec_redundant(d.len()) as int) & ((i
                + 1) as usize) != 0 {
                '1'
            } else {
                '0'
            },
    )
}

/// XOR of the 1-indexed positions of the one bits among positions `1..=k`.
pub open spec fn syndrome_prefix(e: Seq<char>, k: int) -> usize
    decreases k,
{
    if k <= 0 {
        0usize
    } else if e[k - 1] == '1' {
        syndrome_prefix(e, k - 1) ^ (k as usize)
    } else {
        syndrome_prefix(e, k - 1)
    }
}

/// The data bits of a codeword: the characters at the non-power positions.
pub open spec fn extract_data(e: Seq<char>, k: int) -> Seq<char>
    decreases k,
{
    if k <= 0 {
        Seq::empty()
    } else if is_power_of_two(k as nat) {
        extract_data(e, k - 1)
    } else {
        extract_data(e, k - 1).push(e[k - 1])
    }
}

/// Whether re-encoding the extracted data disagrees with the received
/// codeword at some power position.
pub open spec fn parity_mismatch_exists(e: Seq<char>) -> bool {
    exists|i: int|
        0 <= i < e.len() && is_power_of_two((i + 1) as nat) && hamming_encoded(
            extract_data(e, e.len() as int))[i] != e[i]
}

/// Re-encoding the extracted data yields at least as many bits as received;
/// the decoder's parity comparison walks the received length.
pub open spec fn reencode_covers(e: Seq<char>) -> bool {
    extract_data(e, e.len() as int).len() + spec_redundant(
        extract_data(e, e.len() as int).len()) >= e.len()
}

/// The correction position the decoder reports: zero for a clean syndrome,
/// zero when a power syndrome is explained by a parity-bit error, and
/// otherwise the 1-indexed data position of the flipped bit.
pub open spec fn correction(e: Seq<char>) -> nat {
    let syn = syndrome_prefix(e, e.len() as int) as nat;
    if syn == 0 {
        0
    } else if is_power_of_two(syn) && parity_mismatch_exists(e) {
        0
    } else {
        (syn - clog2(syn)) as nat
    }
}

/// The opposite bit character.
pub open spec fn flipped_char(c: char) -> char {
    if c == '1' {
        '0'
    } else {
        '1'
    }
}

/// The codeword with the bit at position `p` flipped.
pub open spec fn flip_at(e: Seq<char>, p: int) -> Seq<char> {
    e.update(p, flipped_char(e[p]))
}

/// What decoding with repair yields: the extracted data, with the bit at
/// the reported correction position flipped when one is reported.
pub open spec fn repaired(e: Seq<char>) -> Seq<char> {
    let data = extract_data(e, e.len() as int);
    if correction(e) == 0 {
        data
    } else {
        data.update(correction(e) - 1, flipped_char(data[correction(e) - 1]))
    }
}

proof fn lemma_pow2_ge(c: nat)
    ensures
        pow2(c) >= c + 1,
    decreases c,
{
    if c == 0 {
        assert(pow2(0) == 1) by {
            vstd::arithmetic::power2::lemma2_to64();
        }
    } else {
        lemma_pow2_ge((c - 1) as nat);
        assert(pow2(c) == 2 * pow2((c - 1) as nat)) by {
            vstd::arithmetic::power2::lemma_pow2_unfold(c);
        }
    }
}

proof fn lemma_redundant_ok_beyond(len: nat, c: nat)
    requires
        c >= len + 2,
    ensures
        pow2(c) >= c + len + 1,
    decreases c,
{
    if c == len + 2 {
        lemma_pow2_at_len_plus_two(len);
    } else {
        lemma_redundant_ok_beyond(len, (c - 1) as nat);
        assert(pow2(c) == 2 * pow2((c - 1) as nat)) by {
            vstd::arithmetic::power2::lemma_pow2_unfold(c);
        }
    }
}

proof fn lemma_pow2_at_len_plus_two(len: nat)
    ensures
        pow2(len + 2) >= 2 * len + 3,
    decreases len,
{
    if len == 0 {
        assert(pow2(2) == 4) by {
            vstd::arithmetic::power2::lemma2_to64();
        }
    } else {
        lemma_pow2_at_len_plus_two((len - 1) as nat);
        assert(pow2(len + 2) == 2 * pow2((len + 1) as nat)) by {
            vstd::arithmetic::power2::lemma_pow2_unfold(len + 2);
        }
    }
}

/// The search result is the least satisfying count at or after `c`.
proof fn lemma_redundant_search_char(len: nat, c: nat, r: nat)
    requires
        c <= r,
        pow2(r) >= r + len + 1,
        forall|c2: nat| c <= c2 < r ==> pow2(c2) < c2 + len + 1,
    ensures
        redundant_search(len, c) == r,
    decreases r - c,
{
    if c < r {
        assert(pow2(c) < c + len + 1);
        if c > len + 2 {
            lemma_redundant_ok_beyond(len, c);
            assert(false);
        }
        lemma_redundant_search_char(len, (c + 1) as nat, r);
    }
}

proof fn lemma_clog2_char(n: nat, c: nat, r: nat)
    requires
        c <= r,
        pow2(r) >= n,
        forall|c2: nat| c <= c2 < r ==> pow2(c2) < n,
    ensures
        clog2_search(n, c) == r,
    decreases r - c,
{
    if c < r {
        assert(pow2(c) < n);
        if c > n {
            lemma_pow2_ge(c);
            assert(false);
        }
        lemma_clog2_char(n, (c + 1) as nat, r);
    }
}

proof fn lemma_pow2_is_power(k: nat)
    ensures
        is_power_of_two(pow2(k)),
    decreases k,
{
    if k == 0 {
        assert(pow2(0) == 1) by {
            vstd::arithmetic::power2::lemma2_to64();
        }
    } else {
        lemma_pow2_is_power((k - 1) as nat);
        let p = pow2((k - 1) as nat);
        assert(pow2(k) == 2 * p) by {
            vstd::arithmetic::power2::lemma_pow2_unfold(k);
        }
        vstd::arithmetic::power2::lemma_pow2_pos((k - 1) as nat);
        assert((2 * p) % 2 == 0 && (2 * p) / 2 == p);
    }
}

proof fn lemma_power_is_pow2(m: nat)
    requires
        is_power_of_two(m),
    ensures
        exists|k: nat| pow2(k) == m,
    decreases m,
{
    if m == 1 {
        assert(pow2(0) == 1) by {
            vstd::arithmetic::power2::lemma2_to64();
        }
    } else {
        lemma_power_is_pow2(m / 2);
        let k = choose|k: nat| pow2(k) == m / 2;
        assert(pow2(k + 1) == 2 * pow2(k)) by {
            vstd::arithmetic::power2::lemma_pow2_unfold(k + 1);
        }
        assert(pow2(k + 1) == m);
    }
}

/// Positions `1..=m` hold exactly `c` powers of two when `m` lies between
/// `pow2(c - 1)` and `pow2(c)`.
proof fn lemma_pow_count_range(m: int, c: nat)
    requires
        0 <= m < pow2(c),
        c == 0 || pow2((c - 1) as nat) <= m,
    ensures
        pow_count(m) == c,
    decreases m,
{
    vstd::arithmetic::power2::lemma2_to64();
    if m == 0 {
        if c > 0 {
            vstd::arithmetic::power2::lemma_pow2_pos((c - 1) as nat);
            assert(false);
        }
    } else {
        assert(c >= 1) by {
            if c == 0 {
                assert(pow2(0) == 1);
            }
        }
        if m == pow2((c - 1) as nat) {
            lemma_pow2_is_power((c - 1) as nat);
            if c == 1 {
                lemma_pow_count_range(m - 1, 0);
            } else {
                assert(pow2((c - 2) as nat) <= m - 1) by {
                    lemma_pow2_ge((c - 2) as nat);
                    assert(pow2((c - 1) as nat) == 2 * pow2((c - 2) as nat)) by {
                        vstd::arithmetic::power2::lemma_pow2_unfold((c - 1) as nat);
                    }
                    vstd::arithmetic::power2::lemma_pow2_pos((c - 2) as nat);
                }
                assert(m - 1 < pow2((c - 1) as nat));
                lemma_pow_count_range(m - 1, (c - 1) as nat);
            }
        } else {
            assert(pow2((c - 1) as nat) < m);
            assert(!is_power_of_two(m as nat)) by {
                if is_power_of_two(m as nat) {
                    lemma_power_is_pow2(m as nat);
                    let k = choose|k: nat| pow2(k) == m as nat;
                    if k <= c - 1 {
                        vstd::arithmetic::power2::lemma_pow2(k);
                        vstd::arithmetic::power2::lemma_pow2((c - 1) as nat);
                        vstd::arithmetic::power::lemma_pow_increases(2, k, (c - 1) as nat);
                    } else {
                        vstd::arithmetic::power2::lemma_pow2(k);
                        vstd::arithmetic::power2::lemma_pow2(c);
                        vstd::arithmetic::power::lemma_pow_increases(2, c, k);
                    }
                }
            }
            lemma_pow_count_range(m - 1, c);
        }
    }
}

/// The number of data positions up to `j` never drops and never outruns `j`.
proof fn lemma_pow_count_monotone(a: int, b: int)
    requires
        0 <= a <= b,
    ensures
        pow_count(a) <= pow_count(b),
        a - pow_count(a) <= b - pow_count(b),
    decreases b - a,
{
    if a < b {
        lemma_pow_count_monotone(a, b - 1);
    }
}

/// The minimality facts of `spec_redundant`.
proof fn lemma_spec_redundant_props(len: nat)
    ensures
        pow2(spec_redundant(len)) >= spec_redundant(len) + len + 1,
        forall|c: nat| c < spec_redundant(len) ==> pow2(c) < c + len + 1,
{
    lemma_redundant_props_from(len, 0);
}

proof fn lemma_redundant_props_from(len: nat, c: nat)
    requires
        forall|c2: nat| c2 < c ==> pow2(c2) < c2 + len + 1,
    ensures
        pow2(redundant_search(len, c)) >= redundant_search(len, c) + len + 1,
        forall|c2: nat| c2 < redundant_search(len, c) ==> pow2(c2) < c2 + len + 1,
        redundant_search(len, c) >= c,
    decreases len + 3 - c,
{
    if pow2(c) >= c + len + 1 {
    } else if c > len + 2 {
        lemma_redundant_ok_beyond(len, c);
        assert(false);
    } else {
        lemma_redundant_props_from(len, (c + 1) as nat);
    }
}

/// A codeword of `n` data bits holds exactly `spec_redundant(n)` parity
/// positions.
proof fn lemma_total_powers(n: nat)
    ensures
        pow_count((n + spec_redundant(n)) as int) == spec_redundant(n),
{
    let r = spec_redundant(n);
    lemma_spec_redundant_props(n);
    if r == 0 {
        assert(pow2(0) >= n + 1);
        assert(pow2(0) == 1) by {
            vstd::arithmetic::power2::lemma2_to64();
        }
        assert(n == 0);
    } else {
        assert(pow2((r - 1) as nat) < (r - 1) + n + 1);
        assert(n + r < pow2(r));
        lemma_pow_count_range((n + r) as int, r);
    }
}

/// XOR keeps values under a fixed power-of-two bound.
proof fn lemma_xor_bound(a: usize, b: usize)
    requires
        a < 0x20000000,
        b < 0x20000000,
    ensures
        (a ^ b) < 0x20000000,
{
    assert(a < 0x20000000 && b < 0x20000000 ==> (a ^ b) < 0x20000000) by (bit_vector);
}

proof fn lemma_syndrome_bound(e: Seq<char>, k: int)
    requires
        0 <= k <= 0x10000000,
    ensures
        syndrome_prefix(e, k) < 0x20000000,
    decreases k,
{
    if k > 0 {
        lemma_syndrome_bound(e, k - 1);
        lemma_xor_bound(syndrome_prefix(e, k - 1), k as usize);
    }
}

/// Extraction keeps bits and never yields more characters than positions.
proof fn lemma_extract_data_props(e: Seq<char>, k: int)
    requires
        is_bit_seq(e),
        0 <= k <= e.len(),
    ensures
        extract_data(e, k).len() <= k,
        is_bit_seq(extract_data(e, k)),
    decreases k,
{
    if k > 0 {
        lemma_extract_data_props(e, k - 1);
        if !is_power_of_two(k as nat) {
            let t = extract_data(e, k);
            assert(forall|i: int| 0 <= i < t.len() ==> is_bit_char(#[trigger] t[i]) == (
                if i < t.len() - 1 { is_bit_char(extract_data(e, k - 1)[i]) } else { is_bit_char(
                    e[k - 1]) }));
        }
    }
}


proof fn lemma_xor_shuffle(x: usize, y: usize, z: usize)
    ensures
        (x ^ z) ^ y == (x ^ y) ^ z,
        x ^ 0 == x,
{
    assert((x ^ z) ^ y == (x ^ y) ^ z && x ^ 0 == x) by (bit_vector);
}

proof fn lemma_xor_cancel(x: usize, k: usize)
    ensures
        (x ^ k) ^ k == x,
{
    assert((x ^ k) ^ k == x) by (bit_vector);
}

/// Positions `1..=j` never hold more powers than positions.
proof fn lemma_pow_count_le(j: int)
    requires
        0 <= j,
    ensures
        0 <= pow_count(j) <= j,
    decreases j,
{
    if j > 0 {
        lemma_pow_count_le(j - 1);
    }
}

/// The extracted data has one character per non-power position.
proof fn lemma_extract_len(e: Seq<char>, k: int)
    requires
        0 <= k <= e.len(),
    ensures
        extract_data(e, k).len() == k - pow_count(k),
    decreases k,
{
    lemma_pow_count_le(k);
    if k > 0 {
        lemma_extract_len(e, k - 1);
        lemma_pow_count_le(k - 1);
    }
}

/// Extracting the data of an encoded frame recovers the frame.
proof fn lemma_extract_prefix(d: Seq<char>, k: int)
    requires
        0 <= k <= d.len() + spec_redundant(d.len()),
    ensures
        extract_data(hamming_encoded(d), k) =~= d.take(k - pow_count(k)),
        k - pow_count(k) <= d.len(),
    decreases k,
{
    let total = d.len() + spec_redundant(d.len());
    lemma_total_powers(d.len());
    lemma_pow_count_le(k);
    lemma_pow_count_monotone(k, total as int);
    if k > 0 {
        lemma_extract_prefix(d, k - 1);
        lemma_pow_count_le(k - 1);
        if !is_power_of_two(k as nat) {
            assert(hamming_encoded(d)[k - 1] == d[k - 1 - pow_count(k)]);
            assert(d.take(k - pow_count(k)) =~= d.take(k - 1 - pow_count(k - 1)).push(
                d[k - 1 - pow_count(k)]));
        }
    }
}

proof fn lemma_extract_of_encoded(d: Seq<char>)
    ensures
        extract_data(hamming_encoded(d), (d.len() + spec_redundant(d.len())) as int) =~= d,
{
    let total = d.len() + spec_redundant(d.len());
    lemma_total_powers(d.len());
    lemma_extract_prefix(d, total as int);
    assert(d.take(d.len() as int) =~= d);
}

/// Updating a power position leaves the extracted data unchanged; updating
/// a data position updates exactly the matching data character.
proof fn lemma_extract_update(e: Seq<char>, p: int, c: char, k: int)
    requires
        0 <= p < e.len(),
        0 <= k <= e.len(),
    ensures
        is_power_of_two((p + 1) as nat) ==> extract_data(e.update(p, c), k) =~= extract_data(
            e, k),
        !is_power_of_two((p + 1) as nat) && k <= p ==> extract_data(e.update(p, c), k)
            =~= extract_data(e, k),
        !is_power_of_two((p + 1) as nat) && k > p ==> extract_data(e.update(p, c), k)
            =~= extract_data(e, k).update(p - pow_count(p + 1), c),
    decreases k,
{
    let f = e.update(p, c);
    if k > 0 {
        lemma_extract_update(e, p, c, k - 1);
        lemma_extract_len(e, k - 1);
        lemma_extract_len(e, p);
        if p + 1 <= k - 1 {
            lemma_pow_count_monotone(p + 1, k - 1);
        }
        lemma_pow_count_le(p + 1);
        if !is_power_of_two(k as nat) {
            if k - 1 == p {
                assert(f[k - 1] == c);
                assert(p - pow_count(p + 1) == extract_data(e, p).len());
            } else {
                assert(f[k - 1] == e[k - 1]);
            }
        }
    }
}

/// Flipping one bit of a frame flips its 1-indexed position into the
/// syndrome.
proof fn lemma_syndrome_update(e: Seq<char>, p: int, c: char, k: int)
    requires
        0 <= p < e.len(),
        0 <= k <= e.len(),
        c != e[p],
        is_bit_char(c),
        is_bit_char(e[p]),
    ensures
        k <= p ==> syndrome_prefix(e.update(p, c), k) == syndrome_prefix(e, k),
        k > p ==> syndrome_prefix(e.update(p, c), k) == syndrome_prefix(e, k) ^ ((p
            + 1) as usize),
    decreases k,
{
    let f = e.update(p, c);
    if k > 0 {
        lemma_syndrome_update(e, p, c, k - 1);
        if k - 1 == p {
            assert(f[k - 1] == c);
            if c == '1' {
                assert(syndrome_prefix(f, k) == syndrome_prefix(e, k - 1) ^ (k as usize));
            } else {
                assert(e[k - 1] == '1');
                assert(syndrome_prefix(f, k) == syndrome_prefix(e, k) ^ (k as usize)) by {
                    lemma_xor_cancel(syndrome_prefix(e, k - 1), k as usize);
                }
            }
        } else {
            assert(f[k - 1] == e[k - 1]);
            if k - 1 > p && e[k - 1] == '1' {
                lemma_xor_shuffle(syndrome_prefix(e, k - 1), (p + 1) as usize, k as usize);
            }
        }
    }
}


proof fn lemma_xor_self(x: usize)
    ensures
        x ^ x == 0,
        0usize ^ x == x,
        x ^ 0 == x,
{
    assert(x ^ x == 0 && 0usize ^ x == x && x ^ 0 == x) by (bit_vector);
}

proof fn lemma_xor_assoc(x: usize, y: usize, z: usize)
    ensures
        x ^ (y ^ z) == (x ^ y) ^ z,
{
    assert(x ^ (y ^ z) == (x ^ y) ^ z) by (bit_vector);
}

proof fn lemma_pow2_shl(j: nat)
    requires
        j < 32,
    ensures
        pow2(j) == (1usize << (j as usize)) as nat,
        0 < pow2(j) < usize::MAX,
{
    vstd::bits::lemma_usize_pow2_no_overflow(j);
    vstd::bits::lemma_usize_shl_is_mul(1, j as usize);
}

proof fn lemma_xor_below_pow2(a: usize, b: usize, j: nat)
    requires
        j < 31,
        (a as nat) < pow2(j),
        (b as nat) < pow2(j),
    ensures
        ((a ^ b) as nat) < pow2(j),
{
    lemma_pow2_shl(j);
    let jj = j as usize;
    assert(jj < 31 && a < (1usize << jj) && b < (1usize << jj) ==> (a ^ b) < (1usize
        << jj)) by (bit_vector);
}

proof fn lemma_xor_disjoint_add(a: usize, j: nat)
    requires
        j < 31,
        (a as nat) < pow2(j),
    ensures
        ((a ^ (pow2(j) as usize)) as nat) == a + pow2(j),
{
    lemma_pow2_shl(j);
    let jj = j as usize;
    assert(jj < 31 && a < (1usize << jj) ==> ((a ^ (1usize << jj)) == a + (1usize
        << jj))) by (bit_vector);
}

proof fn lemma_bit_test(s: usize, j: nat)
    requires
        j < 31,
    ensures
        ((s & (pow2(j) as usize)) != 0) <==> (((s as nat) / pow2(j)) % 2 == 1),
{
    lemma_pow2_shl(j);
    let jj = j as usize;
    assert(((s & (1usize << jj)) != 0 <==> ((s >> jj) % 2 == 1)) || jj >= 31) by (bit_vector);
    vstd::bits::lemma_usize_shr_is_div(s, jj);
}

proof fn lemma_mod_pow2_step(s: nat, j: nat)
    ensures
        s % pow2(j + 1) == s % pow2(j) + pow2(j) * ((s / pow2(j)) % 2),
{
    vstd::arithmetic::power2::lemma_pow2_pos(j);
    assert(pow2(j + 1) == 2 * pow2(j)) by {
        vstd::arithmetic::power2::lemma_pow2_unfold(j + 1);
    }
    vstd::arithmetic::div_mod::lemma_mod_breakdown(s as int, pow2(j) as int, 2);
}

/// The XOR of positions up to `k` stays below any power of two above `k`.
proof fn lemma_data_syndrome_bound(d: Seq<char>, k: int, j: nat)
    requires
        0 <= k,
        (k as nat) < pow2(j),
        j < 31,
    ensures
        (data_syndrome_of(d, k) as nat) < pow2(j),
    decreases k,
{
    vstd::arithmetic::power2::lemma_pow2_pos(j);
    if k > 0 {
        lemma_data_syndrome_bound(d, k - 1, j);
        if !is_power_of_two(k as nat) && d[k - 1 - pow_count(k)] == '1' {
            lemma_xor_below_pow2(data_syndrome_of(d, k - 1), k as usize, j);
        }
    }
}

/// A power position holds one plus as many powers as its predecessor, and
/// its count pins its exponent.
proof fn lemma_power_position(k: int) -> (j: nat)
    requires
        k >= 1,
        is_power_of_two(k as nat),
    ensures
        pow2(j) == k,
        pow_count(k - 1) == j,
        pow_count(k) == j + 1,
    decreases k,
{
    lemma_power_is_pow2(k as nat);
    let j = choose|j: nat| pow2(j) == k as nat;
    if j == 0 {
        assert(pow2(0) == 1) by {
            vstd::arithmetic::power2::lemma2_to64();
        }
        assert(pow_count(0) == 0);
    } else {
        assert(pow2((j - 1) as nat) <= k - 1 < pow2(j)) by {
            vstd::arithmetic::power2::lemma_pow2_unfold(j);
            vstd::arithmetic::power2::lemma_pow2_pos((j - 1) as nat);
        }
        lemma_pow_count_range(k - 1, j);
    }
    j
}

/// The bound the parity count of a codeword obeys under the length limit.
proof fn lemma_redundant_small(n: nat)
    requires
        n <= 0x1000000,
    ensures
        spec_redundant(n) <= 26,
{
    lemma_spec_redundant_props(n);
    if spec_redundant(n) > 26 {
        assert(pow2(26) < 26 + n + 1);
        assert(pow2(26) == 0x4000000) by {
            vstd::arithmetic::power2::lemma2_to64();
        }
    }
}


/// Walking a codeword, the syndrome splits into the data contribution and
/// the already-scanned low bits of the parity word.
proof fn lemma_syndrome_split(d: Seq<char>, k: int)
    requires
        d.len() <= 0x1000000,
        0 <= k <= d.len() + spec_redundant(d.len()),
    ensures
        syndrome_prefix(hamming_encoded(d), k) == data_syndrome_of(d, k) ^ ((
        (data_syndrome_of(d, (d.len() + spec_redundant(d.len())) as int) as nat) % pow2(
            pow_count(k) as nat)) as usize),
    decreases k,
{
    let n = d.len();
    let r = spec_redundant(n);
    let total = (n + r) as int;
    let e = hamming_encoded(d);
    let s_full = data_syndrome_of(d, total);
    lemma_redundant_small(n);
    lemma_total_powers(n);
    lemma_pow_count_le(k);
    lemma_pow_count_monotone(k, total);
    vstd::arithmetic::power2::lemma2_to64();
    let j = pow_count(k - 1) as nat;
    let mu = (((s_full as nat) % pow2(pow_count(k - 1) as nat)) as usize);
    vstd::arithmetic::power2::lemma_pow2_pos(j);
    vstd::arithmetic::div_mod::lemma_mod_bound(s_full as int, pow2(j) as int);
    if k == 0 {
        assert(pow2(0) == 1);
        vstd::arithmetic::div_mod::lemma_mod_bound(s_full as int, 1);
        lemma_xor_self(0);
    } else {
        lemma_syndrome_split(d, k - 1);
        lemma_pow_count_le(k - 1);
        lemma_pow_count_monotone(k - 1, total);
        assert(j <= 26);
        let dd = data_syndrome_of(d, k - 1);
        assert(syndrome_prefix(e, k - 1) == dd ^ mu);
        if is_power_of_two(k as nat) {
            let jp = lemma_power_position(k);
            assert(jp == j);
            let b = ((s_full as nat) / pow2(j)) % 2;
            lemma_bit_test(s_full, j);
            lemma_mod_pow2_step(s_full as nat, j);
            assert(data_syndrome_of(d, k) == dd);
            assert(e[k - 1] == (if s_full & (k as usize) != 0 {
                '1'
            } else {
                '0'
            }));
            assert((k as usize) == (pow2(j) as usize));
            if b == 1 {
                assert(e[k - 1] == '1');
                assert(syndrome_prefix(e, k) == (dd ^ mu) ^ (k as usize));
                lemma_xor_disjoint_add(mu, j);
                assert(((mu ^ (k as usize)) as nat) == mu + pow2(j));
                assert((s_full as nat) % pow2(j + 1) == (mu as nat) + pow2(j));
                lemma_xor_assoc(dd, mu, k as usize);
                assert(syndrome_prefix(e, k) == dd ^ (mu ^ (k as usize)));
            } else {
                assert(e[k - 1] == '0');
                assert(syndrome_prefix(e, k) == dd ^ mu);
                assert((s_full as nat) % pow2(j + 1) == mu as nat);
            }
        } else {
            assert(pow_count(k) == pow_count(k - 1));
            assert(e[k - 1] == d[k - 1 - pow_count(k)]);
            if d[k - 1 - pow_count(k)] == '1' {
                assert(data_syndrome_of(d, k) == dd ^ (k as usize));
                assert(syndrome_prefix(e, k) == (dd ^ mu) ^ (k as usize));
                lemma_xor_shuffle(dd, mu, k as usize);
            } else {
                assert(data_syndrome_of(d, k) == dd);
                assert(syndrome_prefix(e, k) == dd ^ mu);
            }
        }
    }
}

/// The syndrome of an uncorrupted codeword vanishes.
proof fn lemma_codeword_syndrome_zero(d: Seq<char>)
    requires
        d.len() <= 0x1000000,
    ensures
        syndrome_prefix(hamming_encoded(d), hamming_encoded(d).len() as int) == 0,
{
    let n = d.len();
    let r = spec_redundant(n);
    let total = (n + r) as int;
    let e = hamming_encoded(d);
    let s_full = data_syndrome_of(d, total);
    lemma_redundant_small(n);
    lemma_total_powers(n);
    lemma_spec_redundant_props(n);
    vstd::arithmetic::power2::lemma2_to64();
    if total == 0 {
    } else {
        assert(r >= 1) by {
            if r == 0 {
                assert(pow2(0) == 1);
            }
        }
        assert(total < pow2(r));
        assert(r < 31);
        lemma_syndrome_split(d, total);
        lemma_data_syndrome_bound(d, total, r);
        vstd::arithmetic::div_mod::lemma_small_mod(s_full as nat, pow2(r));
        assert(pow_count(total) == r);
        lemma_xor_self(s_full);
    }
}

proof fn lemma_clog2_props(n: nat)
    ensures
        pow2(clog2(n)) >= n,
        forall|c: nat| c < clog2(n) ==> pow2(c) < n,
{
    lemma_clog2_props_from(n, 0);
}

proof fn lemma_clog2_props_from(n: nat, c: nat)
    requires
        forall|c2: nat| c2 < c ==> pow2(c2) < n,
    ensures
        pow2(clog2_search(n, c)) >= n,
        forall|c2: nat| c2 < clog2_search(n, c) ==> pow2(c2) < n,
        clog2_search(n, c) >= c,
    decreases n + 1 - c,
{
    if pow2(c) >= n {
    } else if c > n {
        lemma_pow2_ge(c);
        assert(false);
    } else {
        lemma_clog2_props_from(n, (c + 1) as nat);
    }
}

/// At a non-power position, the number of powers below equals the ceiling
/// logarithm, which is how the decoder maps a syndrome to a data position.
proof fn lemma_nonpower_clog2(m: int)
    requires
        m >= 1,
        !is_power_of_two(m as nat),
    ensures
        clog2(m as nat) == pow_count(m),
{
    let c = clog2(m as nat);
    lemma_clog2_props(m as nat);
    vstd::arithmetic::power2::lemma2_to64();
    assert(m >= 2) by {
        if m == 1 {
            assert(is_power_of_two(1));
        }
    }
    assert(c >= 1) by {
        if c == 0 {
            assert(pow2(0) == 1);
        }
    }
    assert(pow2(c) > m) by {
        if pow2(c) == m {
            lemma_pow2_is_power(c);
        }
    }
    assert(pow2((c - 1) as nat) < m);
    lemma_pow_count_range(m, c);
}

/// Law (round trip): decoding an uncorrupted codeword reports no correction
/// and extracts exactly the frame that was encoded.
pub proof fn lemma_hamming_round_trip(d: Seq<char>)
    requires
        d.len() <= 0x1000000,
    ensures
        correction(hamming_encoded(d)) == 0,
        extract_data(hamming_encoded(d), hamming_encoded(d).len() as int) =~= d,
        repaired(hamming_encoded(d)) =~= d,
{
    lemma_codeword_syndrome_zero(d);
    lemma_extract_of_encoded(d);
}

/// Law (single-error correction): flipping any one bit of an encoded frame
/// and decoding with repair recovers the frame exactly; the flipped frame
/// also meets the decoder's preconditions.
pub proof fn lemma_single_error_corrected(d: Seq<char>, p: int)
    requires
        is_bit_seq(d),
        d.len() <= 0x1000000,
        0 <= p < hamming_encoded(d).len(),
    ensures
        repaired(flip_at(hamming_encoded(d), p)) =~= d,
        is_power_of_two(syndrome_prefix(flip_at(hamming_encoded(d), p), flip_at(
            hamming_encoded(d), p).len() as int) as nat) ==> reencode_covers(flip_at(
            hamming_encoded(d), p)),
        correction(flip_at(hamming_encoded(d), p)) <= extract_data(flip_at(
            hamming_encoded(d), p), flip_at(hamming_encoded(d), p).len() as int).len(),
        is_bit_seq(flip_at(hamming_encoded(d), p)),
{
    let n = d.len();
    let r = spec_redundant(n);
    let total = (n + r) as int;
    let e = hamming_encoded(d);
    let c = flipped_char(e[p]);
    let f = flip_at(e, p);
    lemma_total_powers(n);
    lemma_redundant_small(n);
    lemma_codeword_syndrome_zero(d);
    lemma_extract_of_encoded(d);
    lemma_extract_len(e, total);
    assert forall|i: int| 0 <= i < e.len() implies is_bit_char(#[trigger] e[i]) by {
        if !is_power_of_two((i + 1) as nat) {
            lemma_pow_count_le(i);
            lemma_pow_count_monotone(i + 1, total);
            assert(pow_count(i + 1) == pow_count(i));
            assert(0 <= i - pow_count(i + 1) < n);
            assert(e[i] == d[i - pow_count(i + 1)]);
        }
    }
    assert(is_bit_seq(e));
    assert(is_bit_seq(f)) by {
        assert(forall|i: int| 0 <= i < f.len() ==> is_bit_char(#[trigger] f[i]) == (
            if i == p { is_bit_char(c) } else { is_bit_char(e[i]) }));
    }
    assert(c != e[p]);
    lemma_syndrome_update(e, p, c, total);
    lemma_xor_self((p + 1) as usize);
    assert(syndrome_prefix(f, total) == (p + 1) as usize);
    assert(f.len() == total);
    lemma_extract_update(e, p, c, total);
    lemma_pow_count_le(p + 1);
    if is_power_of_two((p + 1) as nat) {
        assert(extract_data(f, total) =~= d);
        assert(reencode_covers(f)) by {
            assert(extract_data(f, total).len() == n);
        }
        assert(parity_mismatch_exists(f)) by {
            assert(hamming_encoded(extract_data(f, f.len() as int)) == e) by {
                assert(extract_data(f, f.len() as int) =~= d);
            }
            assert(0 <= p < f.len() && is_power_of_two((p + 1) as nat) && hamming_encoded(
                extract_data(f, f.len() as int))[p] != f[p]);
        }
        assert(correction(f) == 0);
        assert(repaired(f) =~= d);
    } else {
        let idx = p - pow_count(p + 1);
        lemma_pow_count_monotone(p + 1, total);
        assert(idx + 1 <= n);
        lemma_pow_count_le(p);
        assert(pow_count(p + 1) == pow_count(p));
        assert(idx >= 0);
        assert(extract_data(f, total) =~= d.update(idx, c));
        assert(e[p] == d[idx]);
        assert(!is_power_of_two(syndrome_prefix(f, total) as nat));
        lemma_nonpower_clog2(p + 1);
        assert(correction(f) == (p + 1) - pow_count(p + 1));
        assert(correction(f) == idx + 1);
        assert(correction(f) <= extract_data(f, total).len()) by {
            assert(extract_data(f, total).len() == total - pow_count(total));
        }
        let data = extract_data(f, f.len() as int);
        assert(data[idx] == c);
        assert(flipped_char(c) == d[idx]) by {
            assert(is_bit_char(d[idx]));
        }
        assert(repaired(f) =~= d.update(idx, c).update(idx, d[idx]));
        assert(d.update(idx, c).update(idx, d[idx]) =~= d);
    }
}
/// Number of parity bits a frame of the given length needs: the least
/// count whose power of two covers data, parity and the overall-parity slot.
pub fn get_redundant_bit_count(frame_len: u32) -> (r: usize)
    requires
        frame_len <= 0x10000000,
    ensures
        r == spec_redundant(frame_len as nat),
        r <= 31,
{
    let mut bit_to_check: u32 = 0;
    let mut p: u64 = 1;
    proof {
        vstd::arithmetic::power2::lemma2_to64();
        vstd::arithmetic::power2::lemma2_to64_rest();
    }
    while p < bit_to_check as u64 + frame_len as u64 + 1
        invariant
            frame_len <= 0x10000000,
            p == pow2(bit_to_check as nat),
            bit_to_check <= 31,
            forall|c2: nat| c2 < bit_to_check as nat ==> pow2(c2) < c2 + frame_len as nat + 1,
        decreases 32 - bit_to_check,
    {
        proof {
            vstd::arithmetic::power2::lemma2_to64();
            vstd::arithmetic::power2::lemma2_to64_rest();
            assert(pow2((bit_to_check + 1) as nat) == 2 * pow2(bit_to_check as nat)) by {
                vstd::arithmetic::power2::lemma_pow2_unfold((bit_to_check + 1) as nat);
            }
            if bit_to_check == 31 {
                assert(pow2(31) == 0x80000000);
                assert(false);
            }
        }
        bit_to_check = bit_to_check + 1;
        p = p * 2;
    }
    proof {
        lemma_redundant_search_char(frame_len as nat, 0, bit_to_check as nat);
    }
    bit_to_check as usize
}

/// Encodes a data frame: the data bits go to the non-power positions in
/// order, and each power position receives the matching bit of the XOR of
/// the one-valued data positions.
pub fn encode(frame: String) -> (r: String)
    requires
        is_bit_seq(frame@),
        frame@.len() <= 0x1000000,
    ensures
        r@ == hamming_encoded(frame@),
        is_bit_seq(r@),
        r@.len() == frame@.len() + spec_redundant(frame@.len()),
{
    let n = frame.unicode_len();
    let redundant_bits = get_redundant_bit_count(n as u32);
    let total = n + redundant_bits;
    let ghost d = frame@;
    proof {
        lemma_total_powers(n as nat);
    }
    let mut result_vec: Vec<char> = Vec::new();
    let mut control_bit_sum: usize = 0;
    let mut data_used: usize = 0;
    let mut index: usize = 0;
    while index < total
        invariant
            frame@ == d,
            is_bit_seq(d),
            d.len() == n,
            n <= 0x1000000,
            total == n + redundant_bits,
            redundant_bits <= 31,
            pow_count(total as int) == redundant_bits,
            index <= total,
            result_vec@.len() == index,
            data_used == index - pow_count(index as int),
            data_used <= n,
            control_bit_sum == data_syndrome_of(d, index as int),
            forall|j: int| 0 <= j < index && !is_power_of_two((j + 1) as nat)
                ==> #[trigger] result_vec@[j] == d[j - pow_count(j + 1)],
            forall|j: int| 0 <= j < index && is_power_of_two((j + 1) as nat)
                ==> #[trigger] result_vec@[j] == '0',
            forall|j: int| 0 <= j < index ==> is_bit_char(#[trigger] result_vec@[j]),
        decreases total - index,
    {
        proof {
            assert(pow_count(index + 1) == pow_count(index as int) + (
                if is_power_of_two((index + 1) as nat) { 1int } else { 0int }));
            lemma_pow_count_monotone(index + 1, total as int);
        }
        if power_of_two(index + 1) {
            result_vec.push('0');
        } else {
            let next_data_bit = frame.as_str().get_char(data_used);
            result_vec.push(next_data_bit);
            if next_data_bit == '1' {
                control_bit_sum = control_bit_sum ^ (index + 1);
            }
            data_used = data_used + 1;
        }
        index = index + 1;
    }
    let ghost full_sum = data_syndrome_of(d, total as int);
    let mut x: usize = 1;
    let ghost data_pass: Seq<char> = result_vec@;
    proof {
        vstd::arithmetic::power2::lemma2_to64();
        assert(1 == pow2(0));
    }
    while x <= total
        invariant
            total <= 0x2000000,
            result_vec@.len() == total,
            control_bit_sum == full_sum,
            x >= 1,
            exists|c: nat| x == pow2(c),
            forall|j: int| 0 <= j < total && !is_power_of_two((j + 1) as nat)
                ==> #[trigger] result_vec@[j] == data_pass[j],
            forall|j: int| 0 <= j < total && is_power_of_two((j + 1) as nat) && j + 1 < x
                ==> #[trigger] result_vec@[j] == (if full_sum & ((j + 1) as usize) != 0 { '1' } else { '0' }),
            forall|j: int| 0 <= j < total && is_power_of_two((j + 1) as nat) && j + 1 >= x
                ==> #[trigger] result_vec@[j] == data_pass[j],
            forall|j: int| 0 <= j < total ==> is_bit_char(#[trigger] result_vec@[j]),
        decreases 2 * total - x,
    {
        let bit_is_set = (control_bit_sum & x) > 0;
        if bit_is_set {
            result_vec.set(x - 1, '1');
        } else {
            result_vec.set(x - 1, '0');
        }
        proof {
            let c = choose|c: nat| x == pow2(c);
            lemma_pow2_is_power(c);
            assert(is_power_of_two(x as nat));
            assert(pow2((c + 1) as nat) == 2 * pow2(c)) by {
                vstd::arithmetic::power2::lemma_pow2_unfold((c + 1) as nat);
            }
            assert(2 * x == pow2((c + 1) as nat));
            assert forall|j: int| 0 <= j < total && #[trigger] is_power_of_two((j + 1) as nat)
                && j + 1 < 2 * x implies result_vec@[j] == (if full_sum & ((j + 1) as usize)
                != 0 { '1' } else { '0' }) by {
                if j + 1 == x {
                } else if j + 1 < x {
                } else {
                    lemma_power_is_pow2((j + 1) as nat);
                    let k = choose|k: nat| pow2(k) == (j + 1) as nat;
                    if k <= c {
                        if k < c {
                            vstd::arithmetic::power2::lemma_pow2_strictly_increases(k, c);
                        }
                        assert(false);
                    } else {
                        if c + 1 < k {
                            vstd::arithmetic::power2::lemma_pow2_strictly_increases((c + 1) as nat, k);
                        }
                        assert(false);
                    }
                }
            }
            assert forall|j: int| 0 <= j < total && #[trigger] is_power_of_two((j + 1) as nat)
                && j + 1 >= 2 * x implies result_vec@[j] == data_pass[j] by {
                assert(j + 1 != x);
            }
        }
        x = x * 2;
    }
    proof {
        assert forall|j: int| 0 <= j < total && #[trigger] is_power_of_two((j + 1) as nat)
            implies j + 1 < x by {
            if j + 1 >= x {
                lemma_power_is_pow2((j + 1) as nat);
            }
        }
    }
    let mut result = String::new();
    let mut i: usize = 0;
    while i < total
        invariant
            result_vec@.len() == total,
            i <= total,
            result@ == result_vec@.take(i as int),
            forall|j: int| 0 <= j < total ==> is_bit_char(#[trigger] result_vec@[j]),
        decreases total - i,
    {
        proof {
            reveal_strlit("0");
            reveal_strlit("1");
            assert(result_vec@.take(i + 1) =~= result_vec@.take(i as int).push(result_vec@[i as int]));
        }
        let ghost before = result@;
        let c = result_vec[i];
        if c == '1' {
            result.append("1");
        } else {
            result.append("0");
        }
        proof {
            assert(result@ =~= before.push(c));
        }
        i = i + 1;
    }
    proof {
        assert(result_vec@.take(total as int) =~= result_vec@);
        assert(result@ =~= hamming_encoded(d));
    }
    result
}

/// Decodes a codeword: extracts the data bits and reports the correction
/// position — zero when the syndrome is clean or is a parity-bit error, and
/// otherwise the 1-indexed data position whose bit must be flipped.
pub fn decode(frame: String) -> (r: (String, usize))
    requires
        is_bit_seq(frame@),
        frame@.len() <= 0x1000000,
        is_power_of_two(syndrome_prefix(frame@, frame@.len() as int) as nat)
            ==> reencode_covers(frame@),
    ensures
        r.0@ == extract_data(frame@, frame@.len() as int),
        r.1 == correction(frame@),
{
    let len = frame.unicode_len();
    let ghost e = frame@;
    let mut control_bit_sum: usize = 0;
    let mut result_frame = String::new();
    let mut index: usize = 0;
    while index < len
        invariant
            frame@ == e,
            is_bit_seq(e),
            e.len() == len,
            len <= 0x1000000,
            index <= len,
            control_bit_sum == syndrome_prefix(e, index as int),
            control_bit_sum < 0x20000000,
            result_frame@ == extract_data(e, index as int),
        decreases len - index,
    {
        proof {
            reveal_strlit("0");
            reveal_strlit("1");
            lemma_xor_bound(control_bit_sum, (index + 1) as usize);
        }
        let next_frame_bit = frame.as_str().get_char(index);
        if next_frame_bit == '1' {
            control_bit_sum = control_bit_sum ^ (index + 1);
        }
        let ghost before = result_frame@;
        if !power_of_two(index + 1) {
            if next_frame_bit == '1' {
                result_frame.append("1");
            } else {
                result_frame.append("0");
            }
            proof {
                assert(result_frame@ =~= before.push(e[index as int]));
            }
        }
        index = index + 1;
    }
    proof {
        lemma_extract_data_props(e, len as int);
    }
    let encoded_frame = encode(result_frame.clone());
    if power_of_two(control_bit_sum) {
        let mut i: usize = 0;
        while i < len
            invariant
                frame@ == e,
                is_bit_seq(e),
                e.len() == len,
                i <= len,
                is_power_of_two(syndrome_prefix(e, len as int) as nat),
                syndrome_prefix(e, len as int) > 0,
                encoded_frame@ == hamming_encoded(extract_data(e, len as int)),
                encoded_frame@.len() >= len,
                result_frame@ == extract_data(e, len as int),
                forall|j: int| 0 <= j < i && is_power_of_two((j + 1) as nat)
                    ==> hamming_encoded(extract_data(e, len as int))[j] == e[j],
            decreases len - i,
        {
            if power_of_two(i + 1) {
                let expected = encoded_frame.as_str().get_char(i);
                let got = frame.as_str().get_char(i);
                if expected != got {
                    proof {
                        assert(parity_mismatch_exists(e));
                    }
                    return (result_frame, 0);
                }
            }
            i = i + 1;
        }
        proof {
            assert(!parity_mismatch_exists(e));
        }
    }
    if control_bit_sum > 0 {
        let ghost syn = control_bit_sum as nat;
        let mut x: usize = 1;
        let mut control_bit_counter: usize = 0;
        proof {
            vstd::arithmetic::power2::lemma2_to64();
        }
        while x < control_bit_sum
            invariant
                control_bit_sum < 0x20000000,
                syn == control_bit_sum as nat,
                x == pow2(control_bit_counter as nat),
                1 <= x <= 0x40000000,
                control_bit_counter <= x,
                forall|c2: nat| c2 < control_bit_counter as nat ==> pow2(c2) < syn,
            decreases 2 * control_bit_sum - x,
        {
            proof {
                assert(pow2((control_bit_counter + 1) as nat) == 2 * pow2(
                    control_bit_counter as nat)) by {
                    vstd::arithmetic::power2::lemma_pow2_unfold((control_bit_counter + 1) as nat);
                }
            }
            x = x * 2;
            control_bit_counter = control_bit_counter + 1;
        }
        proof {
            lemma_clog2_char(syn, 0, control_bit_counter as nat);
            lemma_pow2_ge(control_bit_counter as nat);
            assert(control_bit_counter as nat <= syn);
        }
        return (result_frame, control_bit_sum - control_bit_counter);
    }
    (result_frame, 0)
}

/// Decodes a codeword and repairs a single corrupted data bit: when the
/// decoder reports a nonzero correction position, that data bit is flipped.
pub fn decode_and_fix(frame: String) -> (r: String)
    requires
        is_bit_seq(frame@),
        frame@.len() <= 0x1000000,
        is_power_of_two(syndrome_prefix(frame@, frame@.len() as int) as nat)
            ==> reencode_covers(frame@),
        correction(frame@) <= extract_data(frame@, frame@.len() as int).len(),
    ensures
        r@ == repaired(frame@),
{
    let (decoded_frame, control_bit_sum) = decode(frame);
    if control_bit_sum > 0 {
        proof {
            reveal_strlit("0");
            reveal_strlit("1");
        }
        let dlen = decoded_frame.unicode_len();
        let prefix = decoded_frame.as_str().substring_char(0, control_bit_sum - 1);
        let flipped_bit = decoded_frame.as_str().get_char(control_bit_sum - 1);
        let mut fixed = String::new();
        fixed.append(prefix);
        if flipped_bit == '1' {
            fixed.append("0");
        } else {
            fixed.append("1");
        }
        let suffix = decoded_frame.as_str().substring_char(control_bit_sum, dlen);
        fixed.append(suffix);
        proof {
            let data = extract_data(frame@, frame@.len() as int);
            let c = correction(frame@) as int;
            assert(fixed@ =~= data.update(c - 1, (if data[c - 1] == '1' {
                '0'
            } else {
                '1'
            })));
        }
        fixed
    } else {
        decoded_frame
    }
}

} // verus!
