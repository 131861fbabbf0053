use data_link_layer_algos::converters::{get_frames_from_vectors, get_string_from_frames};
use data_link_layer_algos::flag_setup::{
    get_first_cleaned_frame, get_frame_with_flags, get_frames_with_flags,
    get_raw_byte_sequence_from_frame,
};

const FLAG: &str = "00000000";
const ESC: &str = "00000100";

fn strings(xs: &[&str]) -> Vec<String> {
    xs.iter().map(|s| s.to_string()).collect()
}

#[test]
fn flag_setup_from_bytes_to_frames() {
    let vec_of_bytes = strings(&[
        "00000000", "00000101", "00001101", "00111111", "00000000", "00000000", "00001111",
        "01001101", "00000011", "00100001", "00000000",
    ]);
    let ready_frames = get_frames_from_vectors(vec_of_bytes, get_first_cleaned_frame);
    assert_eq!(
        ready_frames,
        vec![
            strings(&["00000101", "00001101", "00111111"]),
            strings(&["00001111", "01001101", "00000011", "00100001"]),
        ]
    );
}

#[test]
fn from_bytes_to_frames_with_esc() {
    let vec_of_bytes = strings(&[
        "00000000", "00000101", "00000100", "00000000", "00001101", "00111111", "00000000",
        "00000000", "00001111", "01001101", "00000100", "00000100", "00000011", "00100001",
        "00000000",
    ]);
    let ready_frames = get_frames_from_vectors(vec_of_bytes, get_first_cleaned_frame);
    assert_eq!(
        ready_frames,
        vec![
            strings(&["00000101", "00000000", "00001101", "00111111"]),
            strings(&["00001111", "01001101", "00000100", "00000011", "00100001"]),
        ]
    );
}

#[test]
fn first_frame_cleaned_and_retrieved() {
    let mock_bytes_vec = strings(&[FLAG, "01010101", "10000000", FLAG]);
    let (final_frame, rest) = get_first_cleaned_frame(mock_bytes_vec);
    assert_eq!(final_frame, strings(&["01010101", "10000000"]));
    assert_eq!(rest, Vec::<String>::new());
}

#[test]
fn flag_set_to_frame() {
    let frame = strings(&["10001000", "10010010"]);
    let frame_with_flags = get_frame_with_flags(&frame);
    assert_eq!(frame_with_flags, strings(&[FLAG, "10001000", "10010010", FLAG]))
}

#[test]
fn flag_set_to_frame_with_esc() {
    let frame = strings(&["10001000", "00000000", "00000000", "00000100", "10010010"]);
    let frame_with_flags = get_frame_with_flags(&frame);
    assert_eq!(
        frame_with_flags,
        strings(&[
            FLAG, "10001000", ESC, "00000000", ESC, "00000000", ESC, "00000100", "10010010",
            FLAG,
        ])
    )
}

#[test]
fn frames_converted_to_raw_byte_string() {
    let frames = vec![
        strings(&["10001000", "10010010"]),
        strings(&["10101010", "00000010"]),
        strings(&["00010001", "01101010"]),
    ];
    let frames_with_flags = get_frames_with_flags(&frames);
    let raw_byte_string =
        get_string_from_frames(&frames_with_flags, get_raw_byte_sequence_from_frame);
    assert_eq!(
        raw_byte_string,
        "000000001000100010010010000000000000000010101010000000100000000000000000000100010110101000000000"
    )
}

#[test]
fn setup_frames_with_flags() {
    let frames = vec![
        strings(&["10001000", "10010010"]),
        strings(&["10101010", "00000010"]),
        strings(&["00010001", "01101010"]),
    ];
    let frames_with_flags = get_frames_with_flags(&frames);
    assert_eq!(
        frames_with_flags,
        vec![
            strings(&[FLAG, "10001000", "10010010", FLAG]),
            strings(&[FLAG, "10101010", "00000010", FLAG]),
            strings(&[FLAG, "00010001", "01101010", FLAG]),
        ]
    )
}
