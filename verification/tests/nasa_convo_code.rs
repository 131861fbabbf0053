use data_link_layer_algos::nasa_convo_code::{decode, encode, CodingError};
use data_link_layer_algos::state_machine::BitSM;

#[test]
fn nasa_convo_code_frame_encoded_1() {
    let frame = String::from("111010111010");
    let mut bit_sm = BitSM::new();
    let states_map = bit_sm.states_map();
    let encoded_frame = encode(frame, &mut bit_sm, &states_map);
    assert_eq!(encoded_frame, "111001011100010010110000");
}

#[test]
fn nasa_convo_code_frame_encoded_2() {
    let frame = String::from("0101001101111");
    let mut bit_sm = BitSM::new();
    let states_map = bit_sm.states_map();
    let encoded_frame = encode(frame, &mut bit_sm, &states_map);
    assert_eq!(encoded_frame, "00110100101110010000011111");
}

#[test]
fn nasa_convo_code_frame_encoded_3() {
    let frame = String::from("1110110101000011110111001010101010101001001001001101111111101001101010010101010101001001001001010101001010100100110010111110101010010111010");
    let mut bit_sm = BitSM::new();
    let states_map = bit_sm.states_map();
    let encoded_frame = encode(frame, &mut bit_sm, &states_map);
    assert_eq!(
        encoded_frame,
        "11100101111111100110110001110101011001010000001110000101000011001100110011000010100111010111010111100000011111010011110010111001010000101011001010100100001100110011000010100111010111010111011001000011000010101001000000101001111000110011011001000111101101111100001010101001110000"
    );
}

#[test]
fn nasa_convo_code_frame_encoded_4() {
    let frame = String::from("111");
    let mut bit_sm = BitSM::new();
    let states_map = bit_sm.states_map();
    let encoded_frame = encode(frame, &mut bit_sm, &states_map);
    assert_eq!(encoded_frame, "111001010001");
}

#[test]
fn nasa_convo_code_frame_decoded_1() {
    let frame = String::from("111001011100010010110000");
    let bit_sm = BitSM::new();
    let decoded_frame = decode(frame, &bit_sm.states_map()).unwrap();
    assert_eq!(decoded_frame, "111010111010");
}

#[test]
fn nasa_convo_code_frame_decoded_2() {
    let frame = String::from("00110100101110010000011111");
    let bit_sm = BitSM::new();
    let decoded_frame = decode(frame, &bit_sm.states_map()).unwrap();
    assert_eq!(decoded_frame, "0101001101111");
}

#[test]
fn frame_decoded_3() {
    let frame = String::from("11100101111111100110110001110101011001010000001110000101000011001100110011000010100111010111010111100000011111010011110010111001010000101011001010100100001100110011000010100111010111010111011001000011000010101001000000101001111000110011011001000111101101111100001010101001110000");
    let bit_sm = BitSM::new();
    let decoded_frame = decode(frame, &bit_sm.states_map()).unwrap();
    assert_eq!(
        decoded_frame,
        "1110110101000011110111001010101010101001001001001101111111101001101010010101010101001001001001010101001010100100110010111110101010010111010"
    );
}

#[test]
fn frame_decoded_4() {
    let frame = String::from("111001010001");
    let bit_sm = BitSM::new();
    let decoded_frame = decode(frame, &bit_sm.states_map()).unwrap();
    assert_eq!(decoded_frame, "111000");
}

#[test]
fn round_trip_recovers_padded_frame() {
    let bit_sm = BitSM::new();
    let states_map = bit_sm.states_map();
    for data in ["", "1", "111", "101010101", "11110000111100001111"] {
        let mut encoder = BitSM::new();
        let encoded = encode(String::from(data), &mut encoder, &states_map);
        let decoded = decode(encoded, &states_map).unwrap();
        let mut padded = String::from(data);
        while padded.len() < 6 {
            padded.push('0');
        }
        assert_eq!(decoded, padded);
    }
}

#[test]
fn decode_of_empty_frame_is_empty() {
    let bit_sm = BitSM::new();
    let decoded = decode(String::new(), &bit_sm.states_map()).unwrap();
    assert_eq!(decoded, "");
}

#[test]
fn decode_rejects_odd_length() {
    let bit_sm = BitSM::new();
    let result = decode(String::from("101"), &bit_sm.states_map());
    assert_eq!(result, Err(CodingError::MalformedInput));
}

#[test]
fn decode_rejects_non_bit_characters() {
    let bit_sm = BitSM::new();
    let result = decode(String::from("10a1"), &bit_sm.states_map());
    assert_eq!(result, Err(CodingError::MalformedInput));
}

#[test]
fn decode_of_corrupted_frame_is_empty() {
    let bit_sm = BitSM::new();
    let states_map = bit_sm.states_map();
    let mut encoder = BitSM::new();
    let encoded = encode(String::from("111010111010"), &mut encoder, &states_map);
    let mut corrupted: Vec<char> = encoded.chars().collect();
    corrupted[3] = if corrupted[3] == '1' { '0' } else { '1' };
    let corrupted: String = corrupted.into_iter().collect();
    let decoded = decode(corrupted, &states_map).unwrap();
    assert_eq!(decoded, "");
}

#[test]
fn encoder_output_is_twice_the_padded_length() {
    let bit_sm = BitSM::new();
    let states_map = bit_sm.states_map();
    let mut encoder = BitSM::new();
    let encoded = encode(String::from("10110011"), &mut encoder, &states_map);
    assert_eq!(encoded.len(), 16);
    let mut short_encoder = BitSM::new();
    let encoded_short = encode(String::from("1"), &mut short_encoder, &states_map);
    assert_eq!(encoded_short.len(), 12);
}
