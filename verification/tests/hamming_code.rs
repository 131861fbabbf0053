use data_link_layer_algos::hamming_code::{decode, decode_and_fix, encode};

#[test]
fn hamming_code_frame_encoded_1() {
    let frame = String::from("101");
    let result_frame = encode(frame);
    assert_eq!(String::from("101101"), result_frame);
}

#[test]
fn hamming_code_frame_encoded_2() {
    let frame = String::from("1000001");
    let result_frame = encode(frame);
    assert_eq!(String::from("00100001001"), result_frame);
}

#[test]
fn hamming_code_frame_encoded_3() {
    let frame = String::from("0100010000111101");
    let result_frame = encode(frame);
    assert_eq!(String::from("100110000100001011101"), result_frame);
}

#[test]
fn hamming_code_frame_encoded_4() {
    let frame = String::from("0011111001011000");
    let result_frame_2 = encode(frame);
    assert_eq!(String::from("000101101110010011000"), result_frame_2)
}

#[test]
fn frame_encoded_5() {
    let frame = String::from("100100101110001");
    let result_frame_2 = encode(frame);
    assert_eq!(String::from("11110010001011110001"), result_frame_2)
}

#[test]
fn hamming_code_frame_decoded_1() {
    let frame = String::from("11110010001011110001");
    let (result_frame_2, control_bit_sum) = decode(frame);
    assert_eq!(control_bit_sum, 0);
    assert_eq!(String::from("100100101110001"), result_frame_2)
}

#[test]
fn hamming_code_frame_decoded_2() {
    let frame = String::from("000101101110010011000");
    let (result_frame_2, control_bit_sum) = decode(frame);
    assert_eq!(control_bit_sum, 0);
    assert_eq!(String::from("0011111001011000"), result_frame_2)
}

#[test]
fn frame_decoded_and_fixed() {
    let frame = String::from("001101101110010011000");
    let result_frame_2 = decode_and_fix(frame);
    assert_eq!(String::from("0011111001011000"), result_frame_2)
}

#[test]
fn frame_decoded_and_fixed_2() {
    let frame = String::from("000101101110000011000");
    let result_frame_2 = decode_and_fix(frame);
    assert_eq!(String::from("0011111001011000"), result_frame_2)
}

#[test]
fn frame_decoded_and_fixed_5() {
    let frame = String::from("000110000100001011101");
    let result_frame = decode_and_fix(frame);
    assert_eq!(String::from("0100010000111101"), result_frame);
}

#[test]
fn every_single_bit_flip_is_corrected() {
    for data in ["1", "101", "1000001", "0011111001011000", "10010010111000110101"] {
        let encoded = encode(String::from(data));
        for p in 0..encoded.len() {
            let mut corrupted: Vec<char> = encoded.chars().collect();
            corrupted[p] = if corrupted[p] == '1' { '0' } else { '1' };
            let corrupted: String = corrupted.into_iter().collect();
            assert_eq!(decode_and_fix(corrupted), data);
        }
    }
}

#[test]
fn clean_codeword_needs_no_fix() {
    let encoded = encode(String::from("110011"));
    let (decoded, correction) = decode(encoded.clone());
    assert_eq!(correction, 0);
    assert_eq!(decoded, "110011");
    assert_eq!(decode_and_fix(encoded), "110011");
}

#[test]
fn empty_frame_encodes_to_empty() {
    assert_eq!(encode(String::new()), "");
}
