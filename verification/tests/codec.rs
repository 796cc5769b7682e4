use utf256::utf256_to_utf8;
use utf256::utf8_to_utf256;
use utf256::DecodeError;

#[test]
fn encode_empty() {
    let out = utf8_to_utf256(&[]);
    assert!(out.is_empty());
}

#[test]
fn decode_empty() {
    let r: Result<Vec<u8>, DecodeError> = utf256_to_utf8(&[]);
    assert_eq!(r, Ok(Vec::new()));
}

#[test]
fn expansion_ratio() {
    let inputs: Vec<Vec<u8>> = vec![vec![], vec![0x00], vec![0x12, 0x34], vec![0xFF, 0x00, 0xAB]];
    for input in inputs {
        let out = utf8_to_utf256(&input);
        assert_eq!(out.len(), 8 * input.len());
    }
}

#[test]
fn sentinel_values_only() {
    let input: Vec<u8> = vec![0x00, 0x01, 0x7F, 0x80, 0xAA, 0x55, 0xFF];
    let out = utf8_to_utf256(&input);
    for b in out {
        assert!(b == 0x00 || b == 0xFF);
    }
}

#[test]
fn malformed_length_rejected() {
    assert_eq!(utf256_to_utf8(&[0x00]), Err(DecodeError::MalformedLength));
    assert_eq!(
        utf256_to_utf8(&[0x00, 0xFF, 0x00, 0xFF, 0x00, 0xFF, 0x00]),
        Err(DecodeError::MalformedLength)
    );
    assert_eq!(
        utf256_to_utf8(&[0x00, 0x00, 0x00, 0x00, 0x00, 0x00, 0x00, 0x00, 0x00]),
        Err(DecodeError::MalformedLength)
    );
}

#[test]
fn invalid_sentinel_rejected() {
    let r = utf256_to_utf8(&[0x00, 0x00, 0x00, 0x00, 0x00, 0x00, 0x00, 0x01]);
    assert_eq!(
        r,
        Err(DecodeError::InvalidSentinel {
            value: 0x01,
            chunk: 0,
        })
    );
}

#[test]
fn invalid_sentinel_reports_first() {
    // Two bad bytes; the first one, at index 3 in chunk 0, is reported.
    let mut input: Vec<u8> = vec![0x00; 16];
    input[3] = 0x7F;
    input[12] = 0x42;
    assert_eq!(
        utf256_to_utf8(&input),
        Err(DecodeError::InvalidSentinel {
            value: 0x7F,
            chunk: 0,
        })
    );
}

#[test]
fn invalid_sentinel_in_second_chunk() {
    let mut input: Vec<u8> = vec![0xFF; 16];
    input[9] = 0xFE;
    assert_eq!(
        utf256_to_utf8(&input),
        Err(DecodeError::InvalidSentinel {
            value: 0xFE,
            chunk: 1,
        })
    );
}

#[test]
fn bit_order() {
    let out = utf8_to_utf256(&[0xB0]);
    assert_eq!(out, vec![0xFF, 0x00, 0xFF, 0xFF, 0x00, 0x00, 0x00, 0x00]);
    assert_eq!(utf256_to_utf8(&out), Ok(vec![0xB0]));
}

#[test]
fn known_pair() {
    let out = utf8_to_utf256(&[0x41]);
    assert_eq!(out, vec![0x00, 0xFF, 0x00, 0x00, 0x00, 0x00, 0x00, 0xFF]);
    assert_eq!(utf256_to_utf8(&out), Ok(vec![0x41]));
}

#[test]
fn round_trip_every_byte_value() {
    let mut input: Vec<u8> = Vec::new();
    let mut b: u16 = 0;
    while b <= 0xFF {
        input.push(b as u8);
        b += 1;
    }
    let encoded = utf8_to_utf256(&input);
    assert_eq!(encoded.len(), 8 * input.len());
    assert_eq!(utf256_to_utf8(&encoded), Ok(input));
}

#[test]
fn round_trip_mixed_data() {
    let input: Vec<u8> = vec![0xDE, 0xAD, 0xBE, 0xEF, 0x00, 0xFF, 0x10, 0x01];
    let encoded = utf8_to_utf256(&input);
    assert_eq!(utf256_to_utf8(&encoded), Ok(input));
}
