//! Byte-level flag framing: a frame of byte strings is wrapped in flag
//! bytes, with an escape byte inserted before any data byte that looks like
//! a flag or an escape, and the inverse strips one framed, escaped frame
//! off the front of a byte sequence.

use vstd::prelude::*;
use vstd::string::StringExecFns;
use crate::converters::{
    views_of, concat_views, lemma_concat_views_take, lemma_views_of_push, lemma_views_of_skip,
};

verus! {

/// The flag byte that delimits a frame.
pub open spec fn flag_byte() -> Seq<char> {
    seq!['0', '0', '0', '0', '0', '0', '0', '0']
}

/// The escape byte inserted before flag-like data bytes.
pub open spec fn esc_byte() -> Seq<char> {
    seq!['0', '0', '0', '0', '0', '1', '0', '0']
}

/// The frame's bytes with every flag-like byte preceded by an escape.
pub open spec fn escaped(s: Seq<Seq<char>>) -> Seq<Seq<char>>
    decreases s.len(),
{
    if s.len() == 0 {
        Seq::empty()
    } else if s[0] == flag_byte() || s[0] == esc_byte() {
        seq![esc_byte(), s[0]] + escaped(s.skip(1))
    } else {
        seq![s[0]] + escaped(s.skip(1))
    }
}

/// A framed frame: flag, escaped bytes, flag.
pub open spec fn with_flags(s: Seq<Seq<char>>) -> Seq<Seq<char>> {
    seq![flag_byte()] + escaped(s) + seq![flag_byte()]
}

/// The first frame found in a byte sequence, with its consumed length:
/// an escape consumes the following byte literally, up to two flags are
/// swallowed as delimiters, and the first unescaped byte after the second
/// flag ends the scan.
pub open spec fn first_frame(s: Seq<Seq<char>>, flags: int, esc: bool) -> (Seq<Seq<char>>, int)
    decreases s.len(),
{
    if s.len() == 0 {
        (Seq::empty(), 0)
    } else if s[0] == esc_byte() && !esc {
        let r = first_frame(s.skip(1), flags, true);
        (r.0, 1 + r.1)
    } else if s[0] == flag_byte() && flags < 2 && !esc {
        let r = first_frame(s.skip(1), flags + 1, false);
        (r.0, 1 + r.1)
    } else if flags < 2 {
        let r = first_frame(s.skip(1), flags, false);
        (seq![s[0]] + r.0, 1 + r.1)
    } else {
        (Seq::empty(), 1)
    }
}

/// Builds the flag byte string.
fn flag_string() -> (r: String)
    ensures
        r@ == flag_byte(),
{
    proof {
        reveal_strlit("00000000");
        assert("00000000"@ =~= flag_byte());
    }
    String::from_str("00000000")
}

/// Builds the escape byte string.
fn esc_string() -> (r: String)
    ensures
        r@ == esc_byte(),
{
    proof {
        reveal_strlit("00000100");
        assert("00000100"@ =~= esc_byte());
    }
    String::from_str("00000100")
}

/// Wraps one frame in flags, escaping every flag-like data byte.
pub fn get_frame_with_flags(frame: &Vec<String>) -> (r: Vec<String>)
    ensures
        views_of(r@) == with_flags(views_of(frame@)),
{
    let flag = flag_string();
    let esc = esc_string();
    let mut frame_with_flags: Vec<String> = Vec::new();
    let flag_copy = flag.clone();
    proof {
        lemma_views_of_push(Seq::empty(), flag_copy);
    }
    frame_with_flags.push(flag_copy);
    let ghost vs = views_of(frame@);
    let ghost mut acc: Seq<Seq<char>> = Seq::empty();
    proof {
        assert(views_of(frame_with_flags@) =~= seq![flag_byte()] + acc);
        assert(vs.skip(0) =~= vs);
        assert(acc + escaped(vs) =~= escaped(vs));
    }
    let mut i: usize = 0;
    while i < frame.len()
        invariant
            i <= frame@.len(),
            flag@ == flag_byte(),
            esc@ == esc_byte(),
            vs == views_of(frame@),
            vs.len() == frame@.len(),
            views_of(frame_with_flags@) =~= seq![flag_byte()] + acc,
            escaped(vs) =~= acc + escaped(vs.skip(i as int)),
        decreases frame@.len() - i,
    {
        let byte_str = &frame[i];
        proof {
            assert(vs[i as int] == frame@[i as int]@);
            assert(vs.skip(i as int)[0] == vs[i as int]);
            assert(vs.skip(i as int).skip(1) =~= vs.skip(i + 1));
        }
        let ghost acc_before = acc;
        let ghost out_before = frame_with_flags@;
        if byte_str.eq(&flag) || byte_str.eq(&esc) {
            let escape_copy = esc.clone();
            let byte_copy = byte_str.clone();
            proof {
                lemma_views_of_push(out_before, escape_copy);
                lemma_views_of_push(out_before.push(escape_copy), byte_copy);
            }
            frame_with_flags.push(escape_copy);
            frame_with_flags.push(byte_copy);
            proof {
                acc = acc + seq![esc_byte(), vs[i as int]];
            }
        } else {
            let byte_copy = byte_str.clone();
            proof {
                lemma_views_of_push(out_before, byte_copy);
            }
            frame_with_flags.push(byte_copy);
            proof {
                acc = acc + seq![vs[i as int]];
            }
        }
        proof {
            assert(views_of(frame_with_flags@) =~= seq![flag_byte()] + acc);
            assert(escaped(vs) =~= acc + escaped(vs.skip(i + 1)));
        }
        i = i + 1;
    }
    proof {
        lemma_views_of_push(frame_with_flags@, flag);
    }
    frame_with_flags.push(flag);
    proof {
        assert(escaped(vs.skip(vs.len() as int)) =~= Seq::<Seq<char>>::empty());
        assert(acc + Seq::<Seq<char>>::empty() =~= acc);
        assert(views_of(frame_with_flags@) =~= with_flags(vs));
    }
    frame_with_flags
}

/// Wraps every frame in flags.
pub fn get_frames_with_flags(frames: &Vec<Vec<String>>) -> (r: Vec<Vec<String>>)
    ensures
        r@.len() == frames@.len(),
        forall|i: int| 0 <= i < frames@.len() ==> views_of((#[trigger] r@[i])@) == with_flags(
            views_of(frames@[i]@)),
{
    let mut frames_with_flags: Vec<Vec<String>> = Vec::new();
    let mut i: usize = 0;
    while i < frames.len()
        invariant
            i <= frames@.len(),
            frames_with_flags@.len() == i,
            forall|k: int| 0 <= k < i ==> views_of((#[trigger] frames_with_flags@[k])@)
                == with_flags(views_of(frames@[k]@)),
        decreases frames@.len() - i,
    {
        let frame_with_flag = get_frame_with_flags(&frames[i]);
        frames_with_flags.push(frame_with_flag);
        i = i + 1;
    }
    frames_with_flags
}

/// Joins a frame's byte strings into one raw character string.
pub fn get_raw_byte_sequence_from_frame(frame: &Vec<String>) -> (r: String)
    ensures
        r@ == concat_views(frame@),
{
    let mut result = String::new();
    let mut i: usize = 0;
    proof {
        assert(concat_views(frame@.take(0)) =~= Seq::<char>::empty()) by {
            assert(frame@.take(0) =~= Seq::<String>::empty());
        }
    }
    while i < frame.len()
        invariant
            i <= frame@.len(),
            result@ =~= concat_views(frame@.take(i as int)),
        decreases frame@.len() - i,
    {
        result.append(frame[i].as_str());
        proof {
            lemma_concat_views_take(frame@, i as int);
        }
        i = i + 1;
    }
    proof {
        assert(frame@.take(frame@.len() as int) =~= frame@);
    }
    result
}

/// Strips the first framed frame off the front of a byte sequence: swallows
/// the delimiting flags, unescapes the data bytes, and returns the cleaned
/// frame together with the unread remainder.
pub fn get_first_cleaned_frame(bytes_vec: Vec<String>) -> (r: (Vec<String>, Vec<String>))
    ensures
        views_of(r.0@) == first_frame(views_of(bytes_vec@), 0, false).0,
        r.1@ == bytes_vec@.skip(first_frame(views_of(bytes_vec@), 0, false).1),
{
    let flag = flag_string();
    let esc = esc_string();
    let mut v = bytes_vec;
    let ghost orig = bytes_vec@;
    let ghost ovs = views_of(bytes_vec@);
    let mut number_of_flags: usize = 0;
    let mut esc_set = false;
    let mut final_frame: Vec<String> = Vec::new();
    proof {
        assert(v@ =~= orig.skip(0));
        assert(views_of(v@) =~= ovs.skip(0));
        assert(views_of(final_frame@) =~= Seq::<Seq<char>>::empty());
        assert(ovs.skip(0) =~= ovs);
    }
    while v.len() > 0
        invariant_except_break
            flag@ == flag_byte(),
            esc@ == esc_byte(),
            ovs == views_of(orig),
            ovs.len() == orig.len(),
            number_of_flags <= 2,
            v@.len() <= orig.len(),
            v@ =~= orig.skip(orig.len() - v@.len()),
            views_of(v@) =~= ovs.skip(orig.len() - v@.len()),
            first_frame(ovs, 0, false).0 =~= views_of(final_frame@) + first_frame(
                views_of(v@), number_of_flags as int, esc_set).0,
            first_frame(ovs, 0, false).1 == (orig.len() - v@.len()) + first_frame(
                views_of(v@), number_of_flags as int, esc_set).1,
        ensures
            ovs == views_of(orig),
            views_of(final_frame@) =~= first_frame(ovs, 0, false).0,
            v@ =~= orig.skip(first_frame(ovs, 0, false).1),
        decreases v@.len(),
    {
        let ghost v_before = v@;
        let ghost k = orig.len() - v_before.len();
        let byte_str = v.remove(0);
        proof {
            assert(v@ =~= v_before.skip(1));
            assert(orig.skip(k).skip(1) =~= orig.skip(k + 1));
            assert(v@ =~= orig.skip(k + 1));
            lemma_views_of_skip(v_before, 1);
            assert(ovs.skip(k).skip(1) =~= ovs.skip(k + 1));
            assert(views_of(v@) =~= views_of(v_before).skip(1));
            assert(views_of(v@) =~= ovs.skip(k + 1));
            assert(views_of(v_before)[0] == byte_str@);
        }
        if byte_str.eq(&esc) && !esc_set {
            esc_set = true;
            continue ;
        }
        if byte_str.eq(&flag) && number_of_flags < 2 && !esc_set {
            number_of_flags = number_of_flags + 1;
        } else if number_of_flags < 2 {
            let ghost before = final_frame@;
            final_frame.push(byte_str);
            proof {
                assert(views_of(final_frame@) =~= views_of(before).push(views_of(v_before)[0]));
            }
        } else {
            break ;
        }
        esc_set = false;
    }
    (final_frame, v)
}

} // verus!
