use data_link_layer_algos::bit_counter::{
    decimal_to_binary, get_frame_check_sum, get_raw_byte_sequence_from_frame,
    get_string_from_frames,
};

fn strings(xs: &[&str]) -> Vec<String> {
    xs.iter().map(|s| s.to_string()).collect()
}

#[test]
fn bit_counter_checksum_appended() {
    let frame1 = strings(&["00000101", "00001101", "00111111"]);
    let frame2 = strings(&["00001111", "01001101", "00000011", "00100001"]);
    let raw_sequence1 = get_raw_byte_sequence_from_frame(&frame1);
    let raw_sequence2 = get_raw_byte_sequence_from_frame(&frame2);
    assert_eq!(raw_sequence1, String::from("00000100000001010000110100111111"));
    assert_eq!(raw_sequence2, String::from("0000010100001111010011010000001100100001"));
}

#[test]
fn bit_counter_frames_to_string() {
    let frames = vec![
        strings(&["00000101", "00001101", "00111111"]),
        strings(&["00001111", "01001101", "00000011", "00100001"]),
    ];
    assert_eq!(
        get_string_from_frames(&frames),
        "000001000000010100001101001111110000010100001111010011010000001100100001"
    );
}

#[test]
fn bit_counter_frame_checksum_is_valid() {
    let frame = strings(&["10000000", "00011000"]);
    let frame_check_sum = get_frame_check_sum(&frame);
    assert_eq!(frame_check_sum, String::from("00000011"))
}

#[test]
fn binary_rendering_drops_leading_zeros() {
    assert_eq!(decimal_to_binary(3), "11");
    assert_eq!(decimal_to_binary(0), "0");
    assert_eq!(decimal_to_binary(10), "1010");
    assert_eq!(decimal_to_binary(256), "100000000");
}
