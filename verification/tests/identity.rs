use ark_cli::checksum::{crc32, update, ALL_ONES};
use ark_cli::hex;
use ark_cli::resource_id::{ParseError, ResourceId};

#[test]
fn crc32_of_check_string() {
    assert_eq!(crc32(b"123456789"), 0xCBF4_3926);
}

#[test]
fn crc32_of_nothing_is_zero() {
    assert_eq!(crc32(b""), 0);
}

#[test]
fn crc32_of_single_byte() {
    assert_eq!(crc32(b"a"), 0xE8B7_BE43);
}

#[test]
fn crc32_in_two_parts_equals_crc32_of_whole() {
    let whole = crc32(b"hello world");
    let reg = update(ALL_ONES, b"hello");
    let reg = update(reg, b" world");
    assert_eq!(reg ^ ALL_ONES, whole);
}

#[test]
fn hex_encode_writes_high_nibble_first() {
    assert_eq!(hex::encode(&[0xab, 0x01, 0xf0]), "ab01f0");
    assert_eq!(hex::encode(&[]), "");
}

#[test]
fn hex_decode_reads_lowercase_only() {
    assert_eq!(hex::decode("ab01f0"), Some(vec![0xab, 0x01, 0xf0]));
    assert_eq!(hex::decode(""), Some(vec![]));
    assert_eq!(hex::decode("AB"), None);
    assert_eq!(hex::decode("abc"), None);
    assert_eq!(hex::decode("0g"), None);
    assert_eq!(hex::decode("é0"), None);
}

#[test]
fn hex_round_trip_of_every_byte() {
    let mut bytes = Vec::new();
    for b in 0..=255u8 {
        bytes.push(b);
    }
    let text = hex::encode(&bytes);
    assert_eq!(text.len(), 512);
    assert_eq!(hex::decode(&text), Some(bytes));
}

#[test]
fn from_content_takes_digest_and_length() {
    let id = ResourceId::from_content(b"hello");
    assert_eq!(id, ResourceId { digest: 0x3610_A686, size: 5 });
    let empty = ResourceId::from_content(b"");
    assert_eq!(empty, ResourceId { digest: 0, size: 0 });
}

#[test]
fn from_content_is_deterministic() {
    let content = b"the same bytes";
    assert_eq!(ResourceId::from_content(content), ResourceId::from_content(content));
    assert_ne!(ResourceId::from_content(b"hello"), ResourceId::from_content(b"world"));
}

#[test]
fn to_string_is_fixed_width_hex() {
    let id = ResourceId { digest: 0x3610_A686, size: 5 };
    assert_eq!(id.to_string(), "3610a686-0000000000000005");
    let zero = ResourceId { digest: 0, size: 0 };
    assert_eq!(zero.to_string(), "00000000-0000000000000000");
    let max = ResourceId { digest: u32::MAX, size: u64::MAX };
    assert_eq!(max.to_string(), "ffffffff-ffffffffffffffff");
    let mixed = ResourceId { digest: 0x0102_0304, size: 0x0102_0304_0506_0708 };
    assert_eq!(mixed.to_string(), "01020304-0102030405060708");
}

#[test]
fn parse_reads_canonical_text() {
    assert_eq!(
        ResourceId::parse("3610a686-0000000000000005"),
        Ok(ResourceId { digest: 0x3610_A686, size: 5 })
    );
    assert_eq!(
        ResourceId::parse("01020304-0102030405060708"),
        Ok(ResourceId { digest: 0x0102_0304, size: 0x0102_0304_0506_0708 })
    );
}

#[test]
fn parse_inverts_to_string() {
    let ids = [
        ResourceId::from_content(b"hello"),
        ResourceId::from_content(b""),
        ResourceId { digest: u32::MAX, size: u64::MAX },
        ResourceId { digest: 0xDEAD_BEEF, size: 1 << 40 },
    ];
    for id in ids {
        assert_eq!(ResourceId::parse(&id.to_string()), Ok(id));
    }
}

#[test]
fn to_string_inverts_parse() {
    let text = "abc12345-00000000000000ff";
    let id = ResourceId::parse(text).unwrap();
    assert_eq!(id.to_string(), text);
}

#[test]
fn parse_rejects_wrong_length() {
    assert_eq!(ResourceId::parse(""), Err(ParseError::WrongLength));
    assert_eq!(ResourceId::parse("3610a686-5"), Err(ParseError::WrongLength));
    assert_eq!(ResourceId::parse("3610a686-00000000000000050"), Err(ParseError::WrongLength));
    assert_eq!(ResourceId::parse("3610a686-000000000000005"), Err(ParseError::WrongLength));
}

#[test]
fn parse_rejects_malformed_separator() {
    assert_eq!(ResourceId::parse("3610a686_0000000000000005"), Err(ParseError::MalformedSeparator));
    assert_eq!(ResourceId::parse("3610a6860-000000000000005"), Err(ParseError::MalformedSeparator));
    assert_eq!(ResourceId::parse("3610a686 000000000000000Z"), Err(ParseError::MalformedSeparator));
}

#[test]
fn parse_rejects_invalid_characters() {
    assert_eq!(ResourceId::parse("3610A686-0000000000000005"), Err(ParseError::InvalidCharacter));
    assert_eq!(ResourceId::parse("3610a68g-0000000000000005"), Err(ParseError::InvalidCharacter));
    assert_eq!(ResourceId::parse("3610a686-000000000000000x"), Err(ParseError::InvalidCharacter));
    assert_eq!(ResourceId::parse("3610a686--000000000000005"), Err(ParseError::InvalidCharacter));
    assert_eq!(ResourceId::parse("3610a68é-0000000000000005"), Err(ParseError::InvalidCharacter));
}

#[test]
fn parse_counts_characters_not_bytes() {
    // 24 characters, 25 bytes
    assert_eq!(ResourceId::parse("3610a68é-000000000000005"), Err(ParseError::WrongLength));
}
