use rand::Rng;
use stegno::bits::{bitify_message, get_bit_at};
use stegno::error::{CapacityError, DecodeError};
use stegno::files::bmp::{extract, inject, SENTINEL};

const EOF: &str = "\n";

fn generate_image(length: usize) -> Vec<u8> {
    let mut rng = rand::thread_rng();
    let img: Vec<u8> = (0..(length + 1) * 8).map(|_| rng.gen()).collect();
    img
}

#[test]
fn test_inject_over_zeros() {
    let msg = "What is the color of the night?";
    // Add more byte, for the EOF
    let res = inject(&vec![0; (msg.len() + 1) * 8], msg).unwrap();

    let expected: Vec<u8> = bitify_message(msg)
        .iter()
        // Adding the eof
        .chain(bitify_message(EOF).iter())
        // Converting to the format appropriate by encryption
        .map(|&bit| bit as u8)
        .collect();
    assert_eq!(expected, res);
}

#[test]
fn test_enrypt_over_data() {
    let msg = "Sanguine, my brother. Sanguine.";
    let carrier = generate_image(msg.len());

    let res = inject(&carrier, msg).unwrap();
    let expected = bitify_message((String::from(msg) + EOF).as_str());

    assert_eq!(expected.len(), res.len());
    // Assert the LSB is the same as the cipher's
    for (&byte, bit) in res.iter().zip(expected) {
        assert_eq!(bit as u8, byte % 2);
    }

    for (&res, original) in res.iter().zip(carrier) {
        for bit_idx in 1..8 {
            assert_eq!(
                get_bit_at(original, bit_idx),
                get_bit_at(res, bit_idx)
            )
        }
    }
}

#[test]
pub fn test_encrypt_and_decrypt() {
    let msg = "He's dead, Jim...";
    let img = generate_image(msg.len() + 10);
    let injected = inject(&img, msg).unwrap();
    let extracted = extract(&injected).unwrap();
    assert_eq!(msg, extracted);
}

#[test]
pub fn test_encrypt_to_tiny_image() {
    let msg = "What do we say to the god of death?";
    let img = generate_image(msg.len() - 1);
    let injected = inject(&img, msg);
    assert!(injected.is_err())
}

#[test]
fn sentinel_is_a_line_feed() {
    assert_eq!(0x0A, SENTINEL);
    assert_eq!(EOF.as_bytes(), [SENTINEL]);
}

#[test]
fn hi_in_320_zero_bytes_comes_back() {
    let carrier = vec![0u8; 320];
    let hidden = inject(&carrier, "Hi").unwrap();
    assert_eq!(320, hidden.len());
    // 'H' = 0x48, 'i' = 0x69, then the line feed 0x0A.
    let expected: Vec<u8> = vec![0, 1, 0, 0, 1, 0, 0, 0,
                                 0, 1, 1, 0, 1, 0, 0, 1,
                                 0, 0, 0, 0, 1, 0, 1, 0];
    assert_eq!(expected, hidden[..24]);
    assert!(hidden[24..].iter().all(|&byte| byte == 0));
    assert_eq!(Ok(String::from("Hi")), extract(&hidden));
}

#[test]
fn ascii_text_comes_back_from_any_carrier_with_room() {
    let texts = ["", "a", "Hi", "tabs\tand spaces", "\u{0}\u{1}\u{7f}", "~!@#$%^&*()"];
    for text in texts {
        let needed = 8 * (text.len() + 1);
        for spare in [0usize, 1, 7, 8, 13] {
            let carrier: Vec<u8> = (0..needed + spare).map(|i| (i * 37 + 11) as u8).collect();
            let hidden = inject(&carrier, text).unwrap();
            assert_eq!(Ok(String::from(text)), extract(&hidden));
        }
    }
}

#[test]
fn inject_needs_eight_bytes_for_each_byte_and_the_sentinel() {
    let text = "capacity";
    let needed = 8 * (text.len() + 1);
    assert_eq!(Err(CapacityError), inject(&vec![0xAA; needed - 1], text));
    assert!(inject(&vec![0xAA; needed], text).is_ok());
    assert!(inject(&vec![0xAA; needed + 1], text).is_ok());
}

#[test]
fn inject_counts_bytes_not_characters() {
    // Two characters, five bytes in UTF-8.
    let text = "\u{e9}\u{20ac}";
    assert_eq!(5, text.len());
    assert_eq!(Err(CapacityError), inject(&vec![0; 8 * 6 - 1], text));
    assert!(inject(&vec![0; 8 * 6], text).is_ok());
}

#[test]
fn inject_into_a_short_carrier_is_a_capacity_error() {
    assert_eq!(Err(CapacityError), inject(&vec![], ""));
    assert_eq!(Err(CapacityError), inject(&vec![1, 2, 3, 4, 5, 6, 7], ""));
    assert_eq!(Err(CapacityError), inject(&vec![0; 8], "x"));
    assert_eq!(Err(CapacityError), inject(&vec![0; 23], "Hi"));
}

#[test]
fn inject_of_empty_text_writes_the_sentinel() {
    let hidden = inject(&vec![0xFF; 8], "").unwrap();
    assert_eq!(vec![0xFE, 0xFE, 0xFE, 0xFE, 0xFF, 0xFE, 0xFF, 0xFE], hidden);
    assert_eq!(Ok(String::new()), extract(&hidden));
}

#[test]
fn inject_changes_lowest_bits_only() {
    let carrier: Vec<u8> = (0..200usize).map(|i| (i * 131 + 7) as u8).collect();
    let text = "isolation";
    let hidden = inject(&carrier, text).unwrap();
    assert_eq!(carrier.len(), hidden.len());
    for (before, after) in carrier.iter().zip(hidden.iter()) {
        assert_eq!(before >> 1, after >> 1);
    }
    let used = 8 * (text.len() + 1);
    assert_eq!(carrier[used..], hidden[used..]);
}

#[test]
fn inject_leaves_the_carrier_it_was_given() {
    let carrier = vec![0xFFu8; 16];
    let copy = carrier.clone();
    let hidden = inject(&carrier, "z").unwrap();
    assert_eq!(copy, carrier);
    assert_ne!(carrier, hidden);
}

#[test]
fn extract_of_an_empty_carrier_finds_no_sentinel() {
    assert_eq!(Err(DecodeError::MissingSentinel), extract(&vec![]));
}

#[test]
fn extract_without_a_sentinel_fails() {
    // Sixteen zero bits spell two NUL characters and no line feed.
    assert_eq!(Err(DecodeError::MissingSentinel), extract(&vec![0; 16]));
    let mut hidden = inject(&vec![0; 24], "Hi").unwrap();
    hidden.truncate(16);
    assert_eq!(Err(DecodeError::MissingSentinel), extract(&hidden));
}

#[test]
fn extract_rejects_a_byte_that_is_not_utf8() {
    // Lowest bits 1111_1111 spell 0xFF.
    assert_eq!(Err(DecodeError::InvalidUtf8), extract(&vec![1; 8]));
    let mut carrier = inject(&vec![0; 32], "ok").unwrap();
    carrier[8] |= 1;
    assert_eq!(Err(DecodeError::InvalidUtf8), extract(&carrier));
}

#[test]
fn extract_stops_at_the_first_sentinel() {
    let mut hidden = inject(&vec![0; 24], "Hi").unwrap();
    // What follows the sentinel is never decoded, valid or not.
    hidden.extend(vec![1u8; 64]);
    assert_eq!(Ok(String::from("Hi")), extract(&hidden));
}

#[test]
fn extract_reads_a_text_with_a_line_feed_up_to_it() {
    let hidden = inject(&vec![0; 80], "one\ntwo").unwrap();
    assert_eq!(Ok(String::from("one")), extract(&hidden));
}

#[test]
fn extract_does_not_read_back_text_outside_ascii() {
    let hidden = inject(&vec![0; 64], "\u{e9}").unwrap();
    assert_eq!(Err(DecodeError::InvalidUtf8), extract(&hidden));
}

#[test]
fn extract_reads_leftover_bits_as_their_number() {
    // Four carrier bytes whose lowest bits are 1010: the number ten, a line feed.
    assert_eq!(Ok(String::new()), extract(&vec![1, 0, 1, 0]));
    // 'A', then three leftover bits 101: the number five, no line feed.
    let mut carrier = vec![0, 1, 0, 0, 0, 0, 0, 1];
    carrier.extend([1, 0, 1]);
    assert_eq!(Err(DecodeError::MissingSentinel), extract(&carrier));
}

#[test]
fn extract_looks_at_lowest_bits_only() {
    let hidden = inject(&vec![0; 40], "odd").unwrap();
    let noisy: Vec<u8> = hidden.iter().map(|&byte| byte | 0xFE).collect();
    assert_eq!(Ok(String::from("odd")), extract(&noisy));
}

#[test]
fn capacity_error_in_words() {
    assert_eq!("File too small for given message", CapacityError.message());
}
