//! Length-checksum framing, specialized: renders numbers in binary and
//! concatenates checksum-prefixed frames into one raw bit string.

use vstd::prelude::*;
use vstd::string::StringExecFns;
use crate::bits::{binary_digits, bits_of};
use crate::converters::concat_views;

verus! {

/// The raw rendering of a run of frames: for each frame its checksum byte
/// followed by its bytes, all concatenated in order.
pub open spec fn checksummed_frames(frames: Seq<Vec<String>>) -> Seq<char>
    decreases frames.len(),
{
    if frames.len() == 0 {
        Seq::empty()
    } else {
        bits_of((frames[0]@.len() + 1) as nat, 8) + concat_views(frames[0]@)
            + checksummed_frames(frames.skip(1))
    }
}

/// Renders a number in binary, most significant digit first, without
/// leading zeros (`"0"` for zero).
pub fn decimal_to_binary(decimal_number: usize) -> (r: String)
    ensures
        r@ == binary_digits(decimal_number as nat),
{
    crate::converters::decimal_to_binary(decimal_number)
}

/// The checksum byte of a frame: its byte count plus one, as eight bits.
pub fn get_frame_check_sum(frame: &Vec<String>) -> (r: String)
    requires
        frame@.len() + 1 < 256,
    ensures
        r@ == bits_of((frame@.len() + 1) as nat, 8),
{
    crate::checksum_algo::get_frame_check_sum(frame)
}

/// The checksum byte followed by the frame's bytes, as one raw bit string.
pub fn get_raw_byte_sequence_from_frame(frame: &Vec<String>) -> (r: String)
    requires
        frame@.len() + 1 < 256,
    ensures
        r@ == bits_of((frame@.len() + 1) as nat, 8) + concat_views(frame@),
{
    crate::checksum_algo::get_raw_byte_sequence_from_frame(frame)
}

/// Concatenates the checksum-prefixed rendering of every frame in order.
pub fn get_string_from_frames(frames: &Vec<Vec<String>>) -> (r: String)
    requires
        forall|i: int| 0 <= i < frames@.len() ==> (#[trigger] frames@[i])@.len() + 1 < 256,
    ensures
        r@ == checksummed_frames(frames@),
{
    let mut final_string = String::new();
    let mut i: usize = 0;
    proof {
        assert(frames@.skip(0) =~= frames@);
    }
    while i < frames.len()
        invariant
            i <= frames@.len(),
            forall|k: int| 0 <= k < frames@.len() ==> (#[trigger] frames@[k])@.len() + 1 < 256,
            checksummed_frames(frames@) =~= final_string@ + checksummed_frames(
                frames@.skip(i as int)),
        decreases frames@.len() - i,
    {
        let piece = get_raw_byte_sequence_from_frame(&frames[i]);
        final_string.append(piece.as_str());
        proof {
            assert(frames@.skip(i as int)[0] == frames@[i as int]);
            assert(frames@.skip(i as int).skip(1) =~= frames@.skip(i + 1));
            assert(checksummed_frames(frames@) =~= final_string@ + checksummed_frames(
                frames@.skip(i + 1)));
        }
        i = i + 1;
    }
    proof {
        assert(checksummed_frames(frames@.skip(frames@.len() as int)) =~= Seq::<char>::empty());
        assert(final_string@ + Seq::<char>::empty() =~= final_string@);
    }
    final_string
}

} // verus!
