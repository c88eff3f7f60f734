use basalt_engine::crc32c;

#[test]
fn matches_known_check_value() {
    // Standard CRC-32C check value for the ASCII string "123456789".
    assert_eq!(crc32c(b"123456789"), 0xE306_9283);
}

#[test]
fn empty_input_is_zero() {
    assert_eq!(crc32c(b""), 0);
}

#[test]
fn different_inputs_differ() {
    assert_ne!(crc32c(b"abc"), crc32c(b"abd"));
}

#[test]
fn single_byte_values() {
    // CRC-32C of a single zero byte and of "a".
    assert_eq!(crc32c(&[0u8]), 0x527D_5351);
    assert_eq!(crc32c(b"a"), 0xC1D0_4330);
}

#[test]
fn thirty_two_zero_bytes() {
    // Test vector from RFC 3720, B.4: 32 bytes of zeros.
    assert_eq!(crc32c(&[0u8; 32]), 0x8A91_36AA);
    // 32 bytes of 0xFF.
    assert_eq!(crc32c(&[0xFFu8; 32]), 0x62A8_AB43);
}

#[test]
fn ascending_bytes_vector() {
    // RFC 3720, B.4: 32 bytes ascending from 0.
    let data: Vec<u8> = (0u8..32).collect();
    assert_eq!(crc32c(&data), 0x46DD_794E);
}
