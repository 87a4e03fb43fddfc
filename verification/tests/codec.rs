use gc_wal::error::{DecodeError, WalError};
use gc_wal::event::GcEvent;
use gc_wal::footer::{Footer, FOOTER_SIZE};
use gc_wal::time::Timestamp;
use gc_wal::wire::{get_le, put_le};

fn event(start: i64, end: i64, keys: &[&str]) -> GcEvent {
    GcEvent {
        start_time: Some(Timestamp::new(start, 0)),
        end_time: Some(Timestamp::new(end, 0)),
        keys: keys.iter().map(|k| k.to_string()).collect(),
    }
}

#[test]
fn little_endian_numbers() {
    let mut out = vec![9u8];
    put_le(&mut out, 0x0102_0304, 4);
    put_le(&mut out, 0xABCD, 2);
    put_le(&mut out, 0x1122_3344_5566_7788, 8);
    put_le(&mut out, 0x1234, 0);
    assert_eq!(
        out,
        vec![9, 4, 3, 2, 1, 0xCD, 0xAB, 0x88, 0x77, 0x66, 0x55, 0x44, 0x33, 0x22, 0x11]
    );
    assert_eq!(get_le(&out, 1, 4), 0x0102_0304);
    assert_eq!(get_le(&out, 5, 2), 0xABCD);
    assert_eq!(get_le(&out, 7, 8), 0x1122_3344_5566_7788);
    assert_eq!(get_le(&out, 3, 0), 0);
}

#[test]
fn put_le_writes_the_low_bytes_only() {
    let mut out = Vec::new();
    put_le(&mut out, 0x0102_0304_0506, 2);
    assert_eq!(out, vec![6, 5]);
}

#[test]
fn timestamp_bytes_are_twos_complement() {
    let mut out = Vec::new();
    Timestamp::new(i64::MIN, i32::MIN).write(&mut out);
    assert_eq!(out, vec![0, 0, 0, 0, 0, 0, 0, 0x80, 0, 0, 0, 0x80]);
    assert_eq!(Timestamp::read(&out, 0), Timestamp::new(i64::MIN, i32::MIN));
    let mut out = vec![7u8];
    Timestamp::new(i64::MAX, i32::MAX).write(&mut out);
    assert_eq!(
        out,
        vec![7, 0xFF, 0xFF, 0xFF, 0xFF, 0xFF, 0xFF, 0xFF, 0x7F, 0xFF, 0xFF, 0xFF, 0x7F]
    );
    assert_eq!(Timestamp::read(&out, 1), Timestamp::new(i64::MAX, i32::MAX));
}

#[test]
fn timestamps_compare_by_instant() {
    let a = Timestamp::new(1, 0);
    let b = Timestamp::new(0, 1_000_000_000);
    let c = Timestamp::new(0, 999_999_999);
    let d = Timestamp::new(2, -1_500_000_000);
    assert!(a.at_or_before(&b));
    assert!(b.at_or_before(&a));
    assert!(!a.before(&b));
    assert!(c.before(&a));
    assert!(!a.at_or_before(&c));
    assert!(d.before(&c));
    assert!(Timestamp::new(i64::MIN, i32::MIN).before(&Timestamp::new(i64::MAX, i32::MAX)));
    assert!(!Timestamp::new(i64::MAX, i32::MAX).at_or_before(&Timestamp::new(i64::MIN, i32::MIN)));
}

#[test]
fn frame_layout_is_bit_exact() {
    let e = GcEvent {
        start_time: Some(Timestamp::new(-1, -2)),
        end_time: Some(Timestamp::new(1, 2)),
        keys: vec!["ab".to_string(), "é".to_string()],
    };
    let bytes = e.encode().unwrap();
    let expected: Vec<u8> = vec![
        34, 0, 0, 0, // payload length
        0xFF, 0xFF, 0xFF, 0xFF, 0xFF, 0xFF, 0xFF, 0xFF, 0xFE, 0xFF, 0xFF, 0xFF, // start
        1, 0, 0, 0, 0, 0, 0, 0, 2, 0, 0, 0, // end
        2, 0, // key count
        2, 0, b'a', b'b', // first key
        2, 0, 0xC3, 0xA9, // second key
    ];
    assert_eq!(bytes, expected);
}

#[test]
fn round_trip_aligned() {
    let e = event(10, 20, &[]);
    assert!(e.is_aligned());
    let bytes = e.encode().unwrap();
    assert_eq!(bytes.len(), 30);
    assert_eq!(GcEvent::decode(&bytes), Ok(e));
}

#[test]
fn round_trip_keyed() {
    let e = event(15, 25, &["a", "", "key-three", "ключ"]);
    assert!(!e.is_aligned());
    let bytes = e.encode().unwrap();
    assert_eq!(GcEvent::decode(&bytes), Ok(e.clone()));
    assert_eq!(GcEvent::decode_at(&bytes, 0), Ok((e, bytes.len())));
}

#[test]
fn round_trip_extreme_times() {
    let e = GcEvent {
        start_time: Some(Timestamp::new(i64::MIN, i32::MIN)),
        end_time: Some(Timestamp::new(i64::MAX, i32::MAX)),
        keys: vec!["k".to_string()],
    };
    let bytes = e.encode().unwrap();
    assert_eq!(GcEvent::decode(&bytes), Ok(e));
}

#[test]
fn round_trip_start_equal_to_end() {
    let e = GcEvent {
        start_time: Some(Timestamp::new(0, 1_000_000_000)),
        end_time: Some(Timestamp::new(1, 0)),
        keys: Vec::new(),
    };
    let bytes = e.encode().unwrap();
    assert_eq!(GcEvent::decode(&bytes), Ok(e));
}

#[test]
fn round_trip_largest_key() {
    let e = event(1, 2, &["x".repeat(0xFFFF).as_str()]);
    let bytes = e.encode().unwrap();
    assert_eq!(bytes.len(), 4 + 26 + 2 + 0xFFFF);
    assert_eq!(&bytes[30..32], &[0xFF, 0xFF]);
    assert_eq!(GcEvent::decode(&bytes), Ok(e));
}

#[test]
fn round_trip_most_keys() {
    let keys: Vec<String> = (0..0xFFFF).map(|_| String::new()).collect();
    let e = GcEvent {
        start_time: Some(Timestamp::new(1, 0)),
        end_time: Some(Timestamp::new(2, 0)),
        keys,
    };
    let bytes = e.encode().unwrap();
    assert_eq!(bytes.len(), 4 + 26 + 2 * 0xFFFF);
    assert_eq!(&bytes[28..30], &[0xFF, 0xFF]);
    assert_eq!(GcEvent::decode(&bytes), Ok(e));
}

#[test]
fn encode_rejects_start_after_end() {
    assert_eq!(event(21, 20, &[]).encode(), Err(WalError::InvalidInvariant));
    let e = GcEvent {
        start_time: Some(Timestamp::new(5, 1)),
        end_time: Some(Timestamp::new(5, 0)),
        keys: Vec::new(),
    };
    assert_eq!(e.encode(), Err(WalError::InvalidInvariant));
}

#[test]
fn validity_is_what_encode_asks_for() {
    assert!(event(10, 20, &["a"]).is_valid());
    assert!(event(20, 20, &[]).is_valid());
    assert!(!event(21, 20, &[]).is_valid());
    let mut e = event(1, 2, &[]);
    e.end_time = None;
    assert!(!e.is_valid());
    assert!(!event(1, 2, &["x".repeat(0x1_0000).as_str()]).is_valid());
}

#[test]
fn encode_rejects_missing_times() {
    let mut e = event(1, 2, &["a"]);
    e.start_time = None;
    assert_eq!(e.encode(), Err(WalError::InvalidInvariant));
    let mut e = event(1, 2, &["a"]);
    e.end_time = None;
    assert_eq!(e.encode(), Err(WalError::InvalidInvariant));
}

#[test]
fn encode_rejects_too_long_key() {
    let e = event(1, 2, &["x".repeat(0x1_0000).as_str()]);
    assert_eq!(e.encode(), Err(WalError::InvalidInvariant));
}

#[test]
fn encode_rejects_too_many_keys() {
    let keys: Vec<String> = (0..0x1_0000).map(|_| String::new()).collect();
    let e = GcEvent {
        start_time: Some(Timestamp::new(1, 0)),
        end_time: Some(Timestamp::new(2, 0)),
        keys,
    };
    assert_eq!(e.encode(), Err(WalError::InvalidInvariant));
}

#[test]
fn decode_truncated_length() {
    let bytes = event(10, 20, &["a"]).encode().unwrap();
    for kept in 0..4 {
        assert_eq!(GcEvent::decode(&bytes[..kept]), Err(DecodeError::TruncatedFrame));
    }
}

#[test]
fn decode_truncated_payload() {
    let bytes = event(10, 20, &["a", "bc"]).encode().unwrap();
    for kept in 4..bytes.len() {
        assert_eq!(GcEvent::decode(&bytes[..kept]), Err(DecodeError::TruncatedFrame));
    }
}

#[test]
fn decode_ignores_what_follows_the_frame() {
    let e = event(10, 20, &["a"]);
    let mut bytes = e.encode().unwrap();
    let size = bytes.len();
    bytes.extend_from_slice(&[0xDE, 0xAD, 0xBE]);
    assert_eq!(GcEvent::decode(&bytes), Ok(e.clone()));
    assert_eq!(GcEvent::decode_at(&bytes, 0), Ok((e, size)));
    assert_eq!(GcEvent::decode_at(&bytes, size), Err(DecodeError::TruncatedFrame));
    assert_eq!(GcEvent::decode_at(&bytes, size + 3), Err(DecodeError::TruncatedFrame));
    assert_eq!(GcEvent::decode_at(&bytes, size + 4), Err(DecodeError::TruncatedFrame));
    assert_eq!(GcEvent::decode_at(&bytes, usize::MAX), Err(DecodeError::TruncatedFrame));
}

#[test]
fn decode_at_reads_the_second_frame() {
    let a = event(10, 20, &[]);
    let b = event(15, 25, &["a"]);
    let mut bytes = a.encode().unwrap();
    bytes.extend_from_slice(&b.encode().unwrap());
    assert_eq!(GcEvent::decode_at(&bytes, 30), Ok((b, bytes.len())));
}

#[test]
fn decode_corrupt_short_payload() {
    let mut bytes = vec![25, 0, 0, 0];
    bytes.extend_from_slice(&[0u8; 25]);
    assert_eq!(GcEvent::decode(&bytes), Err(DecodeError::CorruptFrame));
    assert_eq!(GcEvent::decode(&[0, 0, 0, 0]), Err(DecodeError::CorruptFrame));
}

#[test]
fn decode_corrupt_key_reaches_past_the_frame() {
    let mut bytes = event(10, 20, &["abc"]).encode().unwrap();
    bytes[30] = 4;
    assert_eq!(GcEvent::decode(&bytes), Err(DecodeError::CorruptFrame));
}

#[test]
fn decode_corrupt_key_count_too_high() {
    let mut bytes = event(10, 20, &["abc"]).encode().unwrap();
    bytes[28] = 2;
    assert_eq!(GcEvent::decode(&bytes), Err(DecodeError::CorruptFrame));
}

#[test]
fn decode_corrupt_bytes_left_over() {
    let mut bytes = event(10, 20, &["abc"]).encode().unwrap();
    bytes[28] = 0;
    assert_eq!(GcEvent::decode(&bytes), Err(DecodeError::CorruptFrame));
    let mut bytes = event(10, 20, &[]).encode().unwrap();
    bytes[0] = 27;
    bytes.push(0);
    assert_eq!(GcEvent::decode(&bytes), Err(DecodeError::CorruptFrame));
}

#[test]
fn decode_corrupt_key_not_utf8() {
    let mut bytes = event(10, 20, &["abc"]).encode().unwrap();
    bytes[33] = 0xFF;
    assert_eq!(GcEvent::decode(&bytes), Err(DecodeError::CorruptFrame));
    let mut bytes = event(10, 20, &["é"]).encode().unwrap();
    bytes[33] = b'a';
    assert_eq!(GcEvent::decode(&bytes), Err(DecodeError::CorruptFrame));
}

#[test]
fn decode_corrupt_start_after_end() {
    let mut bytes = event(10, 20, &[]).encode().unwrap();
    bytes[4] = 21;
    assert_eq!(GcEvent::decode(&bytes), Err(DecodeError::CorruptFrame));
}

#[test]
fn decode_keys_are_the_text_of_their_bytes() {
    let mut bytes = event(10, 20, &["abc", "de"]).encode().unwrap();
    bytes[32] = b'x';
    bytes[37] = 0xC3;
    bytes[38] = 0xA9;
    let back = GcEvent::decode(&bytes).unwrap();
    assert_eq!(back.keys, vec!["xbc".to_string(), "é".to_string()]);
}

#[test]
fn footer_layout_is_bit_exact() {
    let f = Footer { latest_event_time: Some(Timestamp::new(25, 7)) };
    assert!(f.is_sealed());
    let bytes = f.encode();
    assert_eq!(
        bytes,
        vec![0xFF, 0xFF, 0xFF, 0xFF, 25, 0, 0, 0, 0, 0, 0, 0, 7, 0, 0, 0]
    );
    assert_eq!(bytes.len(), FOOTER_SIZE);
}

#[test]
fn footer_round_trip() {
    let f = Footer { latest_event_time: Some(Timestamp::new(-25, i32::MAX)) };
    let bytes = f.encode();
    assert_eq!(Footer::decode(&bytes), Ok(f));
}

#[test]
fn footer_that_seals_nothing_does_not_decode() {
    let f = Footer { latest_event_time: None };
    assert!(!f.is_sealed());
    let bytes = f.encode();
    assert_eq!(bytes, vec![0u8; 16]);
    assert_eq!(Footer::decode(&bytes), Err(DecodeError::CorruptFrame));
}

#[test]
fn footer_of_wrong_size_does_not_decode() {
    let bytes = Footer { latest_event_time: Some(Timestamp::new(1, 2)) }.encode();
    assert_eq!(Footer::decode(&bytes[..15]), Err(DecodeError::TruncatedFrame));
    assert_eq!(Footer::decode(&[]), Err(DecodeError::TruncatedFrame));
    let mut longer = bytes.clone();
    longer.push(0);
    assert_eq!(Footer::decode(&longer), Err(DecodeError::CorruptFrame));
}

#[test]
fn footer_with_another_marker_does_not_decode() {
    let mut bytes = Footer { latest_event_time: Some(Timestamp::new(1, 2)) }.encode();
    bytes[0] = 0xFE;
    assert_eq!(Footer::decode(&bytes), Err(DecodeError::CorruptFrame));
    for marker in [[0u8, 0, 0, 0], [26, 0, 0, 0], [0xFF, 0xFF, 0xFF, 0x7F]] {
        bytes[..4].copy_from_slice(&marker);
        assert_eq!(Footer::decode(&bytes), Err(DecodeError::CorruptFrame));
    }
}

#[test]
fn footer_is_never_a_frame() {
    let sealed = Footer { latest_event_time: Some(Timestamp::new(26, 0)) }.encode();
    assert_eq!(GcEvent::decode(&sealed), Err(DecodeError::TruncatedFrame));
    let open = Footer { latest_event_time: None }.encode();
    assert_eq!(GcEvent::decode(&open), Err(DecodeError::CorruptFrame));
    let behind = event(30, 40, &[]).encode().unwrap();
    for kept in 0..=behind.len() {
        let mut bytes = sealed.clone();
        bytes.extend_from_slice(&behind[..kept]);
        assert_eq!(GcEvent::decode(&bytes), Err(DecodeError::TruncatedFrame));
        let mut bytes = open.clone();
        bytes.extend_from_slice(&behind[..kept]);
        assert_eq!(GcEvent::decode(&bytes), Err(DecodeError::CorruptFrame));
    }
}

#[test]
fn errors_have_a_message() {
    assert_eq!(DecodeError::TruncatedFrame.message(), "truncated frame");
    assert_eq!(DecodeError::CorruptFrame.message(), "corrupt frame");
    assert_eq!(WalError::InvalidInvariant.message(), "invalid invariant");
}
