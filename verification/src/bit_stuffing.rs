//! HDLC-style bit stuffing: a serialized frame is the payload with a zero
//! bit inserted after every run of five consecutive one bits, wrapped in a
//! flag pattern on both ends; deserializing strips the flag patterns and
//! drops the character following each run of five ones.

use vstd::prelude::*;
use vstd::string::{StrSliceExecFns, StringExecFns};

verus! {

/// The flag pattern that delimits a serialized frame.
pub open spec fn hdlc_flag() -> Seq<char> {
    seq!['0', '1', '1', '1', '1', '1', '1', '0']
}

/// A run of five one bits, the trigger for stuffing.
pub open spec fn five_ones() -> Seq<char> {
    seq!['1', '1', '1', '1', '1']
}

/// The payload with a zero bit inserted after every run of five consecutive
/// ones; `ones` counts the ones of the run in progress.
pub open spec fn stuffed(s: Seq<char>, ones: nat) -> Seq<char>
    decreases s.len(),
{
    if s.len() == 0 {
        Seq::empty()
    } else if s[0] == '1' && ones == 4 {
        seq!['1', '0'] + stuffed(s.skip(1), 0)
    } else if s[0] == '1' {
        seq!['1'] + stuffed(s.skip(1), ones + 1)
    } else {
        seq![s[0]] + stuffed(s.skip(1), 0)
    }
}

/// The input with every leftmost, non-overlapping occurrence of the flag
/// pattern removed.
pub open spec fn deflagged(s: Seq<char>) -> Seq<char>
    decreases s.len(),
{
    if s.len() < 8 {
        s
    } else if s.take(8) == hdlc_flag() {
        deflagged(s.skip(8))
    } else {
        seq![s[0]] + deflagged(s.skip(1))
    }
}

/// The start positions of the leftmost, non-overlapping runs of five ones,
/// scanning from position `i`.
pub open spec fn stuff_matches(s: Seq<char>, i: int) -> Seq<int>
    decreases s.len() - i,
{
    if i < 0 || i + 5 > s.len() {
        Seq::empty()
    } else if s.subrange(i, i + 5) == five_ones() {
        seq![i] + stuff_matches(s, i + 5)
    } else {
        stuff_matches(s, i + 1)
    }
}

/// The characters of `s` from position `i` on, dropping each position named
/// in the ascending list `ts`.
pub open spec fn keep_except(s: Seq<char>, i: int, ts: Seq<int>) -> Seq<char>
    decreases s.len() - i,
{
    if i < 0 || i >= s.len() {
        Seq::empty()
    } else if ts.len() > 0 && ts[0] == i {
        keep_except(s, i + 1, ts.skip(1))
    } else {
        seq![s[i]] + keep_except(s, i + 1, ts)
    }
}

/// The de-stuffed payload: the character after each run of five ones is
/// dropped.
pub open spec fn destuffed(s: Seq<char>) -> Seq<char> {
    keep_except(s, 0, stuff_matches(s, 0).map_values(|p: int| p + 5))
}

/// Tests whether the flag pattern starts at position `i`.
fn matches_flag(s: &str, i: usize) -> (r: bool)
    requires
        i + 8 <= s@.len(),
        i <= usize::MAX - 8,
    ensures
        r == (s@.subrange(i as int, i as int + 8) == hdlc_flag()),
{
    let r = s.get_char(i) == '0' && s.get_char(i + 1) == '1' && s.get_char(i + 2) == '1'
        && s.get_char(i + 3) == '1' && s.get_char(i + 4) == '1' && s.get_char(i + 5) == '1'
        && s.get_char(i + 6) == '1' && s.get_char(i + 7) == '0';
    proof {
        let sub = s@.subrange(i as int, i as int + 8);
        assert(forall|j: int| 0 <= j < 8 ==> #[trigger] sub[j] == s@[i + j]);
        if r {
            assert(sub =~= hdlc_flag());
        }
        if sub == hdlc_flag() {
            assert(s@[i as int] == '0' && s@[i + 1] == '1' && s@[i + 2] == '1' && s@[i + 3]
                == '1' && s@[i + 4] == '1' && s@[i + 5] == '1' && s@[i + 6] == '1' && s@[i
                + 7] == '0');
        }
    }
    r
}

/// Tests whether five ones start at position `i`.
fn matches_ones(s: &str, i: usize) -> (r: bool)
    requires
        i + 5 <= s@.len(),
        i <= usize::MAX - 5,
    ensures
        r == (s@.subrange(i as int, i as int + 5) == five_ones()),
{
    let r = s.get_char(i) == '1' && s.get_char(i + 1) == '1' && s.get_char(i + 2) == '1'
        && s.get_char(i + 3) == '1' && s.get_char(i + 4) == '1';
    proof {
        let sub = s@.subrange(i as int, i as int + 5);
        assert(forall|j: int| 0 <= j < 5 ==> #[trigger] sub[j] == s@[i + j]);
        if r {
            assert(sub =~= five_ones());
        }
        if sub == five_ones() {
            assert(s@[i as int] == '1' && s@[i + 1] == '1' && s@[i + 2] == '1' && s@[i + 3]
                == '1' && s@[i + 4] == '1');
        }
    }
    r
}

/// Serializes one frame: stuffs a zero after every run of five ones and
/// wraps the result in flags.
pub fn serialize_frame(frame: String) -> (r: String)
    ensures
        r@ == hdlc_flag() + stuffed(frame@, 0) + hdlc_flag(),
{
    let len = frame.unicode_len();
    let mut result = String::new();
    proof {
        reveal_strlit("01111110");
        assert("01111110"@ =~= hdlc_flag());
    }
    result.append("01111110");
    let mut ones: usize = 0;
    let mut i: usize = 0;
    proof {
        assert(frame@.skip(0) =~= frame@);
        assert(result@ =~= hdlc_flag());
    }
    while i < len
        invariant
            i <= len,
            len == frame@.len(),
            ones <= 4,
            result@ + stuffed(frame@.skip(i as int), ones as nat) =~= hdlc_flag() + stuffed(
                frame@, 0),
        decreases len - i,
    {
        let c = frame.as_str().get_char(i);
        let piece = frame.as_str().substring_char(i, i + 1);
        proof {
            reveal_strlit("0");
            assert(piece@ =~= seq![frame@[i as int]]);
            assert(frame@.skip(i as int)[0] == frame@[i as int]);
            assert(frame@.skip(i as int).skip(1) =~= frame@.skip(i + 1));
        }
        result.append(piece);
        if c == '1' {
            if ones == 4 {
                result.append("0");
                ones = 0;
            } else {
                ones = ones + 1;
            }
        } else {
            ones = 0;
        }
        i = i + 1;
    }
    proof {
        reveal_strlit("01111110");
        assert("01111110"@ =~= hdlc_flag());
        assert(stuffed(frame@.skip(len as int), ones as nat) =~= Seq::<char>::empty());
        assert(result@ =~= hdlc_flag() + stuffed(frame@, 0));
    }
    result.append("01111110");
    result
}

/// Serializes every frame.
pub fn serialize_frames(frames: Vec<String>) -> (r: Vec<String>)
    ensures
        r@.len() == frames@.len(),
        forall|i: int| 0 <= i < frames@.len() ==> (#[trigger] r@[i])@ == hdlc_flag() + stuffed(
            frames@[i]@, 0) + hdlc_flag(),
{
    let mut result_frame: Vec<String> = Vec::new();
    let mut i: usize = 0;
    while i < frames.len()
        invariant
            i <= frames@.len(),
            result_frame@.len() == i,
            forall|k: int| 0 <= k < i ==> (#[trigger] result_frame@[k])@ == hdlc_flag()
                + stuffed(frames@[k]@, 0) + hdlc_flag(),
        decreases frames@.len() - i,
    {
        let serialized = serialize_frame(frames[i].clone());
        result_frame.push(serialized);
        i = i + 1;
    }
    result_frame
}

/// Deserializes one frame: removes every leftmost occurrence of the flag
/// pattern, then drops the character after each remaining run of five ones.
pub fn deserialize_frame(frame: String) -> (r: String)
    ensures
        r@ == destuffed(deflagged(frame@)),
{
    let len = frame.unicode_len();
    let mut df = String::new();
    let mut i: usize = 0;
    proof {
        assert(frame@.skip(0) =~= frame@);
    }
    while i < len
        invariant
            i <= len,
            len == frame@.len(),
            deflagged(frame@) =~= df@ + deflagged(frame@.skip(i as int)),
        decreases len - i,
    {
        if len - i >= 8 && matches_flag(frame.as_str(), i) {
            proof {
                let rest = frame@.skip(i as int);
                assert(rest.take(8) =~= frame@.subrange(i as int, i + 8));
                assert(rest.skip(8) =~= frame@.skip(i + 8));
            }
            i = i + 8;
        } else {
            let piece = frame.as_str().substring_char(i, i + 1);
            proof {
                let rest = frame@.skip(i as int);
                if len - i >= 8 {
                    assert(rest.take(8) =~= frame@.subrange(i as int, i + 8));
                }
                assert(piece@ =~= seq![frame@[i as int]]);
                assert(rest[0] == frame@[i as int]);
                assert(rest.skip(1) =~= frame@.skip(i + 1));
            }
            df.append(piece);
            i = i + 1;
        }
    }
    proof {
        assert(deflagged(frame@.skip(len as int)) =~= Seq::<char>::empty());
        assert(df@ =~= deflagged(frame@));
    }
    let dlen = df.unicode_len();
    let ghost ds = df@;
    let mut positions: Vec<usize> = Vec::new();
    let mut j: usize = 0;
    proof {
        assert(positions@.map_values(|p: usize| p as int) =~= Seq::<int>::empty());
        assert(Seq::<int>::empty() + stuff_matches(ds, 0) =~= stuff_matches(ds, 0));
    }
    while j < dlen
        invariant
            j <= dlen,
            dlen == ds.len(),
            ds == df@,
            stuff_matches(ds, 0) =~= positions@.map_values(|p: usize| p as int)
                + stuff_matches(ds, j as int),
            forall|a: int| 0 <= a < positions@.len() ==> #[trigger] positions@[a] + 5 <= j,
            forall|a: int, b: int| 0 <= a < b < positions@.len()
                ==> #[trigger] positions@[a] + 5 <= #[trigger] positions@[b],
        decreases dlen - j,
    {
        let ghost pos_before = positions@;
        if dlen - j >= 5 && matches_ones(df.as_str(), j) {
            positions.push(j);
            proof {
                assert(positions@.map_values(|p: usize| p as int) =~= pos_before.map_values(
                    |p: usize| p as int).push(j as int));
                assert(stuff_matches(ds, j as int) =~= seq![j as int] + stuff_matches(ds, j
                    + 5));
                assert(pos_before.map_values(|p: usize| p as int) + (seq![j as int]
                    + stuff_matches(ds, j + 5)) =~= positions@.map_values(|p: usize| p as int)
                    + stuff_matches(ds, j + 5));
            }
            j = j + 5;
        } else {
            proof {
                if dlen - j >= 5 {
                    assert(stuff_matches(ds, j as int) =~= stuff_matches(ds, j + 1));
                }
            }
            j = j + 1;
        }
    }
    proof {
        assert(stuff_matches(ds, j as int) =~= Seq::<int>::empty());
        assert(positions@.map_values(|p: usize| p as int) + Seq::<int>::empty()
            =~= positions@.map_values(|p: usize| p as int));
        assert(stuff_matches(ds, 0) =~= positions@.map_values(|p: usize| p as int));
    }
    let ghost targets = stuff_matches(ds, 0).map_values(|p: int| p + 5);
    let mut out = String::new();
    let mut ptr: usize = 0;
    let mut k: usize = 0;
    proof {
        assert(targets.skip(0) =~= targets);
        assert(targets.len() == positions@.len());
        assert(forall|a: int| 0 <= a < targets.len() ==> #[trigger] targets[a] == positions@[a]
            + 5);
    }
    while k < dlen
        invariant
            k <= dlen,
            dlen == ds.len(),
            ds == df@,
            ptr <= positions@.len(),
            targets == stuff_matches(ds, 0).map_values(|p: int| p + 5),
            targets.len() == positions@.len(),
            forall|a: int| 0 <= a < targets.len() ==> #[trigger] targets[a] == positions@[a]
                + 5,
            forall|a: int, b: int| 0 <= a < b < positions@.len()
                ==> #[trigger] positions@[a] + 5 <= #[trigger] positions@[b],
            forall|a: int| ptr <= a < targets.len() ==> #[trigger] targets[a] >= k,
            forall|a: int| 0 <= a < positions@.len() ==> #[trigger] positions@[a] + 5 <= dlen,
            keep_except(ds, 0, targets) =~= out@ + keep_except(ds, k as int, targets.skip(
                ptr as int)),
        decreases dlen - k,
    {
        proof {
            if ptr < targets.len() {
                assert(targets.skip(ptr as int)[0] == targets[ptr as int]);
            }
            assert(targets.skip(ptr as int).len() == targets.len() - ptr);
        }
        if ptr < positions.len() && k == positions[ptr] + 5 {
            proof {
                assert(targets.skip(ptr as int).skip(1) =~= targets.skip(ptr + 1));
                assert(keep_except(ds, k as int, targets.skip(ptr as int)) =~= keep_except(
                    ds, k + 1, targets.skip(ptr + 1)));
                assert(forall|a: int| ptr + 1 <= a < targets.len() ==> #[trigger] targets[a]
                    >= k + 1);
            }
            ptr = ptr + 1;
        } else {
            let piece = df.as_str().substring_char(k, k + 1);
            proof {
                assert(piece@ =~= seq![ds[k as int]]);
                if ptr < targets.len() {
                    assert(targets.skip(ptr as int)[0] != k);
                }
                assert(keep_except(ds, k as int, targets.skip(ptr as int)) =~= seq![ds[
                    k as int]] + keep_except(ds, k + 1, targets.skip(ptr as int)));
                assert(forall|a: int| ptr <= a < targets.len() ==> #[trigger] targets[a] >= k
                    + 1);
            }
            out.append(piece);
        }
        k = k + 1;
    }
    proof {
        assert(keep_except(ds, dlen as int, targets.skip(ptr as int)) =~= Seq::<char>::empty());
        assert(out@ =~= keep_except(ds, 0, targets));
    }
    out
}

/// Deserializes every frame.
pub fn deserialize_frames(frames: Vec<String>) -> (r: Vec<String>)
    ensures
        r@.len() == frames@.len(),
        forall|i: int| 0 <= i < frames@.len() ==> (#[trigger] r@[i])@ == destuffed(deflagged(
            frames@[i]@)),
{
    let mut result_frame: Vec<String> = Vec::new();
    let mut i: usize = 0;
    while i < frames.len()
        invariant
            i <= frames@.len(),
            result_frame@.len() == i,
            forall|k: int| 0 <= k < i ==> (#[trigger] result_frame@[k])@ == destuffed(
                deflagged(frames@[k]@)),
        decreases frames@.len() - i,
    {
        let deserialized = deserialize_frame(frames[i].clone());
        result_frame.push(deserialized);
        i = i + 1;
    }
    result_frame
}

} // verus!
