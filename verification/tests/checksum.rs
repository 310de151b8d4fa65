use slip_framing::crc::{calc_crc8, check_crc};
use slip_framing::error::FrameError;

#[test]
fn crc() {
    // Testdata
    let data = [0x31, 0x32, 0x33, 0x34, 0x35, 0x36, 0x37, 0x38, 0x39, 0xF4];

    // Calculated CRC Value
    let crc_value = calc_crc8(&data[..9]);

    // Check the calculate Value
    assert_eq!(crc_value, 0xF4);

    // Check the CRC check function
    assert_eq!(Ok(()), check_crc(&data[..=9]));
}

#[test]
fn crc_of_nothing_is_zero() {
    assert_eq!(calc_crc8(&[]), 0x00);
    assert_eq!(check_crc(&[]), Ok(()));
}

#[test]
fn crc_of_single_bytes() {
    // One byte is the polynomial's remainder of that byte times x^8.
    assert_eq!(calc_crc8(&[0x00]), 0x00);
    assert_eq!(calc_crc8(&[0x01]), 0x07);
    assert_eq!(calc_crc8(&[0x02]), 0x0E);
    assert_eq!(calc_crc8(&[0x80]), 0x89);
    assert_eq!(calc_crc8(&[0xFF]), 0xF3);
}

#[test]
fn crc_of_payload_vector() {
    assert_eq!(calc_crc8(&[0xDE, 0xAD, 0x00, 0xBE, 0xEF]), 0x24);
}

#[test]
fn crc_leading_zeros_do_not_count() {
    assert_eq!(calc_crc8(&[0x00, 0x00, 0x31, 0x32]), calc_crc8(&[0x31, 0x32]));
}

#[test]
fn check_crc_rejects_wrong_trailer() {
    let data = [0x31, 0x32, 0x33, 0x34, 0x35, 0x36, 0x37, 0x38, 0x39, 0xF5];
    assert_eq!(check_crc(&data), Err(FrameError::ChecksumMismatch));
    assert_eq!(check_crc(&[0x01]), Err(FrameError::ChecksumMismatch));
}

#[test]
fn message_with_own_crc_verifies() {
    let mut message = [0u8; 17];
    for seed in 0..=255u8 {
        for (i, slot) in message.iter_mut().take(16).enumerate() {
            *slot = seed.wrapping_mul(31).wrapping_add((i as u8).wrapping_mul(17));
        }
        for len in 0..=16usize {
            let sum = calc_crc8(&message[..len]);
            let kept = message[len];
            message[len] = sum;
            assert_eq!(check_crc(&message[..=len]), Ok(()));
            message[len] = kept;
        }
    }
}

#[test]
fn changed_byte_changes_crc() {
    let message = [0xDE, 0xAD, 0x00, 0xBE, 0xEF, 0x24];
    assert_eq!(check_crc(&message), Ok(()));
    for at in 0..message.len() {
        for value in 0..=255u8 {
            if value != message[at] {
                let mut changed = message;
                changed[at] = value;
                assert_ne!(calc_crc8(&changed), calc_crc8(&message));
                assert_eq!(check_crc(&changed), Err(FrameError::ChecksumMismatch));
            }
        }
    }
}
