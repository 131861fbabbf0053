use data_link_layer_algos::bit_stuffing::{
    deserialize_frame, deserialize_frames, serialize_frame, serialize_frames,
};

fn strings(xs: &[&str]) -> Vec<String> {
    xs.iter().map(|s| s.to_string()).collect()
}

#[test]
fn frame_deserialized() {
    let frame = String::from("0111111010100100011111010001100101001111110");
    let result_frame = deserialize_frame(frame);
    assert_eq!(result_frame, "10100100011111100011001010")
}

#[test]
fn frames_deserialize() {
    let frames = strings(&[
        "0111111010100100011111010001100101001111110",
        "01111110111110111110111110111110111110101111110",
        "011111101010101010101010101010101111110",
    ]);
    let result_frames = deserialize_frames(frames);
    assert_eq!(
        result_frames,
        strings(&[
            "10100100011111100011001010",
            "11111111111111111111111111",
            "10101010101010101010101",
        ])
    );
}

#[test]
fn frame_bit_stuffed() {
    let frame = String::from("10100100011111100011001010");
    let result_frame = serialize_frame(frame);
    assert_eq!(result_frame, "0111111010100100011111010001100101001111110")
}

#[test]
fn frames_bit_stuffed() {
    let frames = strings(&[
        "10100100011111100011001010",
        "11111111111111111111111111",
        "10101010101010101010101",
    ]);
    let result_frames = serialize_frames(frames);
    assert_eq!(
        result_frames,
        strings(&[
            "0111111010100100011111010001100101001111110",
            "01111110111110111110111110111110111110101111110",
            "011111101010101010101010101010101111110",
        ])
    );
}

#[test]
fn stuffing_round_trip() {
    for payload in ["", "11111", "1111111111", "010111110111", "000000"] {
        let serialized = serialize_frame(String::from(payload));
        assert_eq!(deserialize_frame(serialized), payload);
    }
}

#[test]
fn five_trailing_ones_get_a_stuffed_zero() {
    assert_eq!(serialize_frame(String::from("11111")), "0111111011111001111110");
}
