//! Data-link-layer channel coding: a convolutional encoder/decoder built on a
//! shift-register state machine, a Hamming single-error-correcting block code,
//! HDLC-style bit stuffing, byte-level flag framing, and checksum framing.
//!
//! Frames are strings of `'0'`/`'1'` characters; every transform is specified
//! over the `Seq<char>` views of those strings.

pub mod bit_counter;
pub mod bit_stuffing;
pub mod bits;
pub mod checksum_algo;
pub mod convo_code_trees;
pub mod converters;
pub mod flag_setup;
pub mod hamming_code;
pub mod nasa_convo_code;
pub mod nodes;
pub mod state_machine;
pub mod steps;
pub mod utils;
