use ark_cli::checksum::crc32;
use ark_cli::format::{Format, FormatError};
use ark_cli::record::{first, scan, Entry, CHECKSUM_LEN, HEADER_LEN, OVERHEAD};

fn hello_frame() -> Vec<u8> {
    vec![0, 5, 0, 0, 0, 0, 0, 0, 0, 104, 101, 108, 108, 111, 79, 155, 166, 60]
}

fn world_frame() -> Vec<u8> {
    vec![0, 5, 0, 0, 0, 0, 0, 0, 0, 119, 111, 114, 108, 100, 138, 44, 193, 48]
}

fn foreign_frame() -> Vec<u8> {
    vec![7, 1, 0, 0, 0, 0, 0, 0, 0, 120, 66, 158, 243, 72]
}

#[test]
fn raw_has_tag_zero() {
    assert_eq!(Format::Raw.tag(), 0);
    assert_eq!(Format::from_tag(0), Ok(Format::Raw));
}

#[test]
fn unknown_tags_name_no_format() {
    assert_eq!(Format::from_tag(1), Err(FormatError { tag: 1 }));
    assert_eq!(Format::from_tag(255), Err(FormatError { tag: 255 }));
}

#[test]
fn raw_encode_and_decode_are_identity() {
    assert_eq!(Format::Raw.encode(b"hello"), b"hello".to_vec());
    assert_eq!(Format::Raw.decode(b"hello"), Ok(b"hello".to_vec()));
    assert_eq!(Format::Raw.encode(b""), Vec::<u8>::new());
    assert_eq!(Format::Raw.decode(&[0, 255, 7]), Ok(vec![0, 255, 7]));
}

#[test]
fn decode_inverts_encode() {
    let contents: [&[u8]; 4] = [b"", b"a", b"hello world", &[0, 1, 2, 254, 255]];
    for content in contents {
        let stored = Format::Raw.encode(content);
        assert_eq!(Format::Raw.decode(&stored), Ok(content.to_vec()));
    }
}

#[test]
fn record_sizes() {
    assert_eq!(HEADER_LEN, 9);
    assert_eq!(CHECKSUM_LEN, 4);
    assert_eq!(OVERHEAD, 13);
}

#[test]
fn entry_carries_tag_payload_and_checksum() {
    let entry = Entry::new(Format::Raw, b"hello".to_vec());
    assert_eq!(entry.tag(), 0);
    assert_eq!(entry.format(), Ok(Format::Raw));
    assert_eq!(entry.payload(), &b"hello".to_vec());
    assert_eq!(entry.checksum(), 0x3CA6_9B4F);
}

#[test]
fn checksum_covers_tag_length_and_payload() {
    let entry = Entry::new(Format::Raw, b"world".to_vec());
    let mut covered = vec![0u8, 5, 0, 0, 0, 0, 0, 0, 0];
    covered.extend_from_slice(b"world");
    assert_eq!(entry.checksum(), crc32(&covered));
    assert_eq!(entry.checksum(), 0x30C1_2C8A);
}

#[test]
fn frame_layout_is_tag_length_payload_checksum() {
    assert_eq!(Entry::new(Format::Raw, b"hello".to_vec()).frame(), hello_frame());
    assert_eq!(Entry::new(Format::Raw, b"world".to_vec()).frame(), world_frame());
}

#[test]
fn frame_of_empty_payload() {
    let frame = Entry::new(Format::Raw, Vec::new()).frame();
    assert_eq!(frame, vec![0, 0, 0, 0, 0, 0, 0, 0, 0, 174, 20, 9, 230]);
    assert_eq!(frame.len(), OVERHEAD);
}

#[test]
fn first_reads_one_record_and_ignores_what_follows() {
    let mut stream = hello_frame();
    stream.extend_from_slice(&[1, 2, 3]);
    let entry = first(&stream).unwrap();
    assert_eq!(entry.tag(), 0);
    assert_eq!(entry.payload(), &b"hello".to_vec());
    assert_eq!(entry.checksum(), 0x3CA6_9B4F);
}

#[test]
fn first_of_too_short_stream_is_none() {
    assert!(first(&[]).is_none());
    assert!(first(&[0; 12]).is_none());
    assert!(first(&hello_frame()[..17]).is_none());
}

#[test]
fn first_rejects_length_beyond_stream() {
    let mut stream = vec![0u8];
    stream.extend_from_slice(&u64::MAX.to_le_bytes());
    stream.extend_from_slice(&[0; 40]);
    assert!(first(&stream).is_none());
}

#[test]
fn first_rejects_mismatched_checksum() {
    for position in 0..hello_frame().len() {
        let mut stream = hello_frame();
        stream[position] ^= 0x01;
        assert!(first(&stream).is_none(), "flipped byte {}", position);
    }
}

#[test]
fn scan_of_empty_stream() {
    let out = scan(&[]);
    assert!(out.entries.is_empty());
    assert_eq!(out.valid_len, 0);
}

#[test]
fn scan_reads_records_in_order() {
    let mut stream = hello_frame();
    stream.extend_from_slice(&world_frame());
    let out = scan(&stream);
    assert_eq!(out.entries.len(), 2);
    assert_eq!(out.entries[0].payload(), &b"hello".to_vec());
    assert_eq!(out.entries[1].payload(), &b"world".to_vec());
    assert_eq!(out.valid_len, 36);
}

#[test]
fn scan_inverts_frame() {
    let payloads: [&[u8]; 4] = [b"", b"a", b"hello world", &[0, 1, 2, 254, 255]];
    let mut stream = Vec::new();
    for payload in payloads {
        stream.extend_from_slice(&Entry::new(Format::Raw, payload.to_vec()).frame());
    }
    let out = scan(&stream);
    assert_eq!(out.valid_len, stream.len());
    assert_eq!(out.entries.len(), payloads.len());
    for (entry, payload) in out.entries.iter().zip(payloads) {
        assert_eq!(entry.tag(), 0);
        assert_eq!(entry.payload().as_slice(), payload);
    }
}

#[test]
fn scan_keeps_records_of_unknown_format() {
    let mut stream = foreign_frame();
    stream.extend_from_slice(&hello_frame());
    let out = scan(&stream);
    assert_eq!(out.entries.len(), 2);
    assert_eq!(out.entries[0].tag(), 7);
    assert_eq!(out.entries[0].format(), Err(FormatError { tag: 7 }));
    assert_eq!(out.entries[0].payload(), &b"x".to_vec());
    assert_eq!(out.entries[1].format(), Ok(Format::Raw));
    assert_eq!(out.valid_len, stream.len());
}

#[test]
fn scan_of_stream_cut_at_any_byte_keeps_whole_records() {
    let mut stream = hello_frame();
    stream.extend_from_slice(&world_frame());
    stream.extend_from_slice(&Entry::new(Format::Raw, Vec::new()).frame());
    for cut in 0..=stream.len() {
        let out = scan(&stream[..cut]);
        let expected = if cut < 18 {
            0
        } else if cut < 36 {
            1
        } else if cut < 49 {
            2
        } else {
            3
        };
        assert_eq!(out.entries.len(), expected, "cut at {}", cut);
        assert_eq!(out.valid_len, [0, 18, 36, 49][expected], "cut at {}", cut);
        if expected > 0 {
            assert_eq!(out.entries[0].payload(), &b"hello".to_vec());
        }
        if expected > 1 {
            assert_eq!(out.entries[1].payload(), &b"world".to_vec());
        }
    }
}

#[test]
fn scan_stops_at_damaged_record() {
    let mut stream = hello_frame();
    stream.extend_from_slice(&world_frame());
    stream.extend_from_slice(&hello_frame());
    stream[18 + 10] ^= 0xFF;
    let out = scan(&stream);
    assert_eq!(out.entries.len(), 1);
    assert_eq!(out.entries[0].payload(), &b"hello".to_vec());
    assert_eq!(out.valid_len, 18);
}
