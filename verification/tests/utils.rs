use data_link_layer_algos::converters;
use data_link_layer_algos::utils::{binary_to_decimal, convert_char_bit_to_int, power_of_two};

#[test]
fn test_binary_to_decimal() {
    assert_eq!(2, binary_to_decimal("10"));
    assert_eq!(10, binary_to_decimal("1010"));
    assert_eq!(256, binary_to_decimal("100000000"));
    let x: u32 = 256;
    assert_eq!(1, x.count_ones());
    let x: u32 = 259;
    assert_eq!(3, x.count_ones());
}

#[test]
fn power_of_two_recognizes_powers() {
    assert!(!power_of_two(0));
    assert!(power_of_two(1));
    assert!(power_of_two(2));
    assert!(!power_of_two(3));
    assert!(power_of_two(1024));
    assert!(!power_of_two(1023));
}

#[test]
fn bit_characters_convert_to_their_value() {
    assert_eq!(convert_char_bit_to_int('0'), 0);
    assert_eq!(convert_char_bit_to_int('1'), 1);
}

#[test]
fn max_bits_of_byte_alphabet_is_eight() {
    assert_eq!(converters::get_max_bits_from_symbol_size(256), 8);
    assert_eq!(converters::get_max_bits_from_symbol_size(1), 0);
    assert_eq!(converters::get_max_bits_from_symbol_size(255), 7);
}

#[test]
fn binary_rendering_and_parsing_invert() {
    for n in [0usize, 1, 2, 5, 255, 256, 1000, 65535] {
        let rendered = converters::decimal_to_binary(n);
        assert_eq!(converters::binary_to_decimal(rendered.as_str()), n);
    }
}
