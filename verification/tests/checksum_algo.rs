use data_link_layer_algos::checksum_algo::{
    get_frame_check_sum, get_raw_byte_sequence_from_frame, pop_check_sum_from_frame,
    pop_frame_from_bytes_vec,
};
use data_link_layer_algos::converters::{
    get_frames_from_vectors, get_string_from_frames, split_raw_byte_sequence,
};

fn strings(xs: &[&str]) -> Vec<String> {
    xs.iter().map(|s| s.to_string()).collect()
}

#[test]
fn checksum_algo_from_bytes_to_frames() {
    let vec_of_bytes = strings(&[
        "00000100", "00000101", "00001101", "00111111", "00000101", "00001111", "01001101",
        "00000011", "00100001",
    ]);
    let ready_frames = get_frames_from_vectors(vec_of_bytes, pop_frame_from_bytes_vec);
    assert_eq!(
        ready_frames,
        vec![
            strings(&["00000101", "00001101", "00111111"]),
            strings(&["00001111", "01001101", "00000011", "00100001"]),
        ]
    );
}

#[test]
fn frame_popped_from_check_summed_frames_successfully() {
    let raw_bytes_vec = strings(&["00000010", "10000000", "10001000"]);
    let (popped_frame, rest) = pop_frame_from_bytes_vec(raw_bytes_vec);
    assert_eq!(popped_frame, strings(&["10000000"]));
    assert_eq!(rest, strings(&["10001000"]));
}

#[test]
fn checksum_from_frame_success() {
    let frame = strings(&["00001000"]);
    let (checksum, _rest) = pop_check_sum_from_frame(frame);
    assert_eq!(checksum, 8);
}

#[test]
fn vector_of_bytes_from_raw_sequence() {
    let frames = vec![
        strings(&["00000101", "00001101", "00111111"]),
        strings(&["00001111", "01001101", "00000011", "00100001"]),
    ];
    let raw_sequence = get_string_from_frames(&frames, get_raw_byte_sequence_from_frame);
    let vec_of_bytes = split_raw_byte_sequence(raw_sequence.as_str());
    assert_eq!(
        vec_of_bytes,
        strings(&[
            "00000100", "00000101", "00001101", "00111111", "00000101", "00001111",
            "01001101", "00000011", "00100001",
        ])
    );
}

#[test]
fn checksum_algo_checksum_appended() {
    let frame1 = strings(&["00000101", "00001101", "00111111"]);
    let frame2 = strings(&["00001111", "01001101", "00000011", "00100001"]);
    let raw_sequence1 = get_raw_byte_sequence_from_frame(&frame1);
    let raw_sequence2 = get_raw_byte_sequence_from_frame(&frame2);
    assert_eq!(raw_sequence1, String::from("00000100000001010000110100111111"));
    assert_eq!(raw_sequence2, String::from("0000010100001111010011010000001100100001"));
}

#[test]
fn checksum_algo_frames_to_string() {
    let frames = vec![
        strings(&["00000101", "00001101", "00111111"]),
        strings(&["00001111", "01001101", "00000011", "00100001"]),
    ];
    assert_eq!(
        get_string_from_frames(&frames, get_raw_byte_sequence_from_frame),
        "000001000000010100001101001111110000010100001111010011010000001100100001"
    );
}

#[test]
fn checksum_algo_frame_checksum_is_valid() {
    let frame = strings(&["10000000", "00011000"]);
    let frame_check_sum = get_frame_check_sum(&frame);
    assert_eq!(frame_check_sum, String::from("00000011"))
}

#[test]
fn split_keeps_a_short_tail_chunk() {
    let chunks = split_raw_byte_sequence("111100001010");
    assert_eq!(chunks, strings(&["11110000", "1010"]));
}
