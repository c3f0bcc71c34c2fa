use c32::checksum::{c32_checksum, checksum_as_u32, checksum_of_digest, message_to_check};

#[test]
fn checksum_of_known_payloads() {
    let payload = [
        0xa4, 0x6f, 0xf8, 0x88, 0x86, 0xc2, 0xef, 0x97, 0x62, 0xd9, 0x70, 0xb4, 0xd2, 0xc6, 0x36,
        0x78, 0x83, 0x5b, 0xd3, 0x9d,
    ];
    assert_eq!(c32_checksum(22, &payload), [0x71, 0xb4, 0xba, 0x47]);
    assert_eq!(c32_checksum(0, &[]), [0x14, 0x06, 0xe0, 0x58]);
    assert_eq!(c32_checksum(0, &[0u8; 20]), [0x94, 0xa0, 0x09, 0x11]);
    let mut one = [0u8; 20];
    one[19] = 1;
    assert_eq!(c32_checksum(0, &one), [0x9d, 0x35, 0xb5, 0xb9]);
}

#[test]
fn checksum_depends_on_version_and_payload() {
    let payload = [1u8, 2, 3];
    assert_ne!(c32_checksum(0, &payload), c32_checksum(1, &payload));
    assert_ne!(c32_checksum(0, &payload), c32_checksum(0, &[1u8, 2, 4]));
    // the version is hashed as a byte in front of the payload
    assert_eq!(c32_checksum(7, &[]).len(), 4);
    assert_ne!(c32_checksum(7, &[]), [7, 0, 0, 0]);
}

#[test]
fn checksum_is_the_front_of_the_digest() {
    let mut digest = [0u8; 32];
    for (index, byte) in digest.iter_mut().enumerate() {
        *byte = 0xa0 + index as u8;
    }
    assert_eq!(checksum_of_digest(&digest), [0xa0, 0xa1, 0xa2, 0xa3]);
}

#[test]
fn hashed_message_is_version_then_payload() {
    assert_eq!(message_to_check(22, &[]), vec![22]);
    assert_eq!(message_to_check(0, &[9, 8, 7]), vec![0, 9, 8, 7]);
    assert_eq!(message_to_check(255, &[0]), vec![255, 0]);
}

#[test]
fn checksum_as_integer_is_little_endian() {
    assert_eq!(checksum_as_u32(&[0x78, 0x56, 0x34, 0x12]), 0x12345678);
    assert_eq!(checksum_as_u32(&[1, 0, 0, 0]), 1);
    assert_eq!(checksum_as_u32(&[0, 0, 0, 1]), 0x0100_0000);
    assert_eq!(checksum_as_u32(&[0xff, 0xff, 0xff, 0xff]), u32::MAX);
    assert_eq!(checksum_as_u32(&[0x71, 0xb4, 0xba, 0x47]), 1203418225);
}
