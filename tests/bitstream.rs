use rsteglib::{bits_to_bytes, message_bits};

#[test]
fn image_encoder_get_message_as_bits_test() {
    let test_bits = vec![0, 1, 1, 0, 1, 0, 0, 0];
    let bits = message_bits("h".as_bytes());

    assert_eq!(bits, test_bits);
}

#[test]
fn encoder_test_get_bit_vec_len() {
    let bits = message_bits("h".as_bytes());

    assert_eq!(8, bits.len());
}

#[test]
fn encoder_test_get_bit_vec() {
    let test_bits = vec![0, 1, 1, 0, 1, 0, 0, 0];
    let bits = message_bits("h".as_bytes());

    assert_eq!(bits, test_bits);
}

#[test]
fn lib_test_get_bit_vec_len() {
    let bits = message_bits("h".as_bytes());

    assert_eq!(8, bits.len());
}

#[test]
fn lib_test_get_bit_vec() {
    let test_bits = vec![0, 1, 1, 0, 1, 0, 0, 0];
    let bits = message_bits("h".as_bytes());

    assert_eq!(bits, test_bits);
}

#[test]
fn message_bits_of_two_bytes() {
    let bits = message_bits(&[0x80, 0x01]);

    assert_eq!(bits, vec![1, 0, 0, 0, 0, 0, 0, 0, 0, 0, 0, 0, 0, 0, 0, 1]);
}

#[test]
fn message_bits_of_empty_message() {
    assert!(message_bits(&[]).is_empty());
}

#[test]
fn bits_to_bytes_packs_msb_first() {
    assert_eq!(bits_to_bytes(&[0, 1, 1, 0, 1, 0, 0, 0]), vec![0x68]);
    assert_eq!(bits_to_bytes(&[1, 1, 1, 1, 1, 1, 1, 1, 0, 0, 0, 0, 0, 0, 0, 1]), vec![0xff, 0x01]);
}

#[test]
fn bits_to_bytes_reads_short_last_group_as_number() {
    assert_eq!(bits_to_bytes(&[0, 1, 1, 0, 1, 0, 0, 0, 1, 0, 1]), vec![0x68, 5]);
}

#[test]
fn bits_to_bytes_of_empty_stream() {
    assert!(bits_to_bytes(&[]).is_empty());
}

#[test]
fn bits_round_trip() {
    let message = b"Hidden in plain sight".to_vec();

    assert_eq!(bits_to_bytes(&message_bits(&message)), message);
}
