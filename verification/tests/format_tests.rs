use keyring_cursed::format::{decode_part, encode_part};
use keyring_cursed::{Corruption, Error};

#[test]
fn test_encode_decode_roundtrip() {
    let payload = b"hello world";
    let encoded = encode_part(2, 5, payload);
    let (part, total, decoded) = decode_part(&encoded).unwrap();

    assert_eq!(part, 2);
    assert_eq!(total, 5);
    assert_eq!(decoded, payload);
}

#[test]
fn test_encode_format() {
    let encoded = encode_part(1, 3, b"data");
    assert_eq!(&encoded, b"1/3|data");
}

#[test]
fn test_decode_empty_payload() {
    let encoded = encode_part(1, 1, b"");
    let (part, total, payload) = decode_part(&encoded).unwrap();

    assert_eq!(part, 1);
    assert_eq!(total, 1);
    assert!(payload.is_empty());
}

#[test]
fn test_decode_binary_payload() {
    let binary_data: Vec<u8> = (0..=255).collect();
    let encoded = encode_part(1, 1, &binary_data);
    let (_, _, decoded) = decode_part(&encoded).unwrap();

    assert_eq!(decoded, binary_data);
}

#[test]
fn test_decode_invalid_missing_separator() {
    let result = decode_part(b"1/3data");
    assert!(result.is_err());
}

#[test]
fn test_decode_invalid_part_zero() {
    let result = decode_part(b"0/3|data");
    assert!(result.is_err());
}

#[test]
fn test_decode_invalid_part_exceeds_total() {
    let result = decode_part(b"5/3|data");
    assert!(result.is_err());
}

#[test]
fn decode_reports_missing_separator() {
    assert!(matches!(
        decode_part(b"1/3data"),
        Err(Error::CorruptedSecret(Corruption::MissingSeparator))
    ));
}

#[test]
fn decode_reports_missing_slash() {
    assert!(matches!(
        decode_part(b"13|data"),
        Err(Error::CorruptedSecret(Corruption::MissingSlash))
    ));
}

#[test]
fn decode_rejects_non_numeric_fields() {
    assert!(matches!(
        decode_part(b"a/3|x"),
        Err(Error::CorruptedSecret(Corruption::BadPartNumber))
    ));
    assert!(matches!(
        decode_part(b"1/b|x"),
        Err(Error::CorruptedSecret(Corruption::BadTotalNumber))
    ));
    assert!(matches!(
        decode_part(b"/3|x"),
        Err(Error::CorruptedSecret(Corruption::BadPartNumber))
    ));
    assert!(matches!(
        decode_part(b"1/|x"),
        Err(Error::CorruptedSecret(Corruption::BadTotalNumber))
    ));
}

#[test]
fn decode_reports_part_out_of_range() {
    assert!(matches!(
        decode_part(b"0/3|d"),
        Err(Error::CorruptedSecret(Corruption::PartOutOfRange { part: 0, total: 3 }))
    ));
    assert!(matches!(
        decode_part(b"5/3|d"),
        Err(Error::CorruptedSecret(Corruption::PartOutOfRange { part: 5, total: 3 }))
    ));
}

#[test]
fn decode_rejects_oversized_field() {
    assert!(matches!(
        decode_part(b"99999999999999999999999999/1|x"),
        Err(Error::CorruptedSecret(Corruption::BadPartNumber))
    ));
}

#[test]
fn encode_with_embedded_separator_round_trips() {
    let payload = b"a|b|c";
    let encoded = encode_part(3, 7, payload);
    let (part, total, decoded) = decode_part(&encoded).unwrap();
    assert_eq!(part, 3);
    assert_eq!(total, 7);
    assert_eq!(decoded, payload);
}

#[test]
fn roundtrip_at_extremes_of_part_range() {
    let encoded = encode_part(1, 9999, b"first");
    let (part, total, decoded) = decode_part(&encoded).unwrap();
    assert_eq!((part, total), (1, 9999));
    assert_eq!(decoded, b"first");

    let encoded = encode_part(9999, 9999, b"");
    let (part, total, decoded) = decode_part(&encoded).unwrap();
    assert_eq!((part, total), (9999, 9999));
    assert!(decoded.is_empty());
}
