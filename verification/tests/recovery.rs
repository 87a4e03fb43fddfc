use gc_wal::error::WalError;
use gc_wal::event::GcEvent;
use gc_wal::footer::Footer;
use gc_wal::recovery::{recover, Repair, StoredSegment};
use gc_wal::segment::SegmentState;
use gc_wal::time::Timestamp;
use gc_wal::wal::Wal;
use gc_wal::writer::WalConfig;

fn e(start: i64, end: i64, keys: &[&str]) -> GcEvent {
    GcEvent {
        start_time: Some(Timestamp::new(start, 0)),
        end_time: Some(Timestamp::new(end, 0)),
        keys: keys.iter().map(|k| k.to_string()).collect(),
    }
}

fn t(seconds: i64) -> Option<Timestamp> {
    Some(Timestamp::new(seconds, 0))
}

fn config() -> WalConfig {
    WalConfig { max_segment_bytes: 50, max_segment_age: None }
}

fn frames(events: &[GcEvent]) -> Vec<u8> {
    let mut bytes = Vec::new();
    for event in events {
        bytes.extend_from_slice(&event.encode().unwrap());
    }
    bytes
}

fn sealed(events: &[GcEvent], latest: i64) -> Vec<u8> {
    let mut bytes = frames(events);
    bytes.extend_from_slice(&Footer { latest_event_time: t(latest) }.encode());
    bytes
}

#[test]
fn recovery_after_an_unclean_shutdown() {
    let mut bytes = frames(&[e(10, 20, &[])]);
    bytes.extend_from_slice(&[0xDE, 0xAD, 0xBE]);
    let files = vec![StoredSegment { id: 0, bytes }];
    let found = recover(&files, config(), 0).unwrap();
    assert_eq!(found.repairs, vec![Repair::Truncate { id: 0, len: 30 }]);
    let mut wal = found.wal;
    assert_eq!(wal.replay(None), vec![e(10, 20, &[])]);
    assert_eq!(wal.active().len(), 30);
    let receipt = wal.append(&e(15, 25, &["a"])).unwrap();
    assert_eq!((receipt.segment, receipt.offset), (0, 30));
    assert_eq!(wal.replay(None), vec![e(10, 20, &[]), e(15, 25, &["a"])]);
}

#[test]
fn recovery_cuts_a_partial_frame_wherever_it_ends() {
    let whole = [e(10, 20, &[]), e(15, 25, &["a", "bc"])];
    let partial = e(30, 40, &["torn"]).encode().unwrap();
    for kept in 1..partial.len() {
        let mut bytes = frames(&whole);
        let len = bytes.len();
        bytes.extend_from_slice(&partial[..kept]);
        let files = vec![
            StoredSegment { id: 0, bytes: sealed(&[e(1, 2, &[])], 2) },
            StoredSegment { id: 1, bytes },
        ];
        let found = recover(&files, config(), 0).unwrap();
        assert_eq!(
            found.repairs,
            vec![Repair::Keep { id: 0 }, Repair::Truncate { id: 1, len }]
        );
        assert_eq!(found.wal.active().len(), len);
        assert_eq!(
            found.wal.replay(None),
            vec![e(1, 2, &[]), e(10, 20, &[]), e(15, 25, &["a", "bc"])]
        );
    }
}

#[test]
fn recovery_cuts_what_follows_the_footer_of_a_sealed_segment() {
    let partial = e(30, 40, &[]).encode().unwrap();
    for latest in [26i64, 25, 40, 1_700_000_000] {
        for kept in 0..=partial.len() {
            let mut bytes = sealed(&[e(1, 2, &[]), e(3, latest, &["k"])], latest);
            let len = bytes.len() - 16;
            bytes.extend_from_slice(&partial[..kept]);
            let last = vec![StoredSegment { id: 0, bytes: bytes.clone() }];
            let found = recover(&last, config(), 0).unwrap();
            assert_eq!(found.repairs, vec![Repair::Truncate { id: 0, len }]);
            assert_eq!(found.wal.replay(None), vec![e(1, 2, &[]), e(3, latest, &["k"])]);
            assert_eq!(found.wal.active().len(), len);
            let earlier = vec![
                StoredSegment { id: 0, bytes },
                StoredSegment { id: 1, bytes: Vec::new() },
            ];
            let found = recover(&earlier, config(), 0).unwrap();
            let repair = if kept == 0 {
                Repair::Keep { id: 0 }
            } else {
                Repair::Reseal { id: 0, len, footer: Footer { latest_event_time: t(latest) } }
            };
            assert_eq!(found.repairs, vec![repair, Repair::Keep { id: 1 }]);
            assert_eq!(found.wal.replay(None), vec![e(1, 2, &[]), e(3, latest, &["k"])]);
        }
    }
}

#[test]
fn recovery_of_nothing_is_a_new_log() {
    let found = recover(&Vec::new(), config(), 7).unwrap();
    assert_eq!(found.repairs, Vec::<Repair>::new());
    assert_eq!(found.wal.sealed_count(), 0);
    assert_eq!(found.wal.active().id(), 0);
    assert!(found.wal.active().is_empty());
    assert_eq!(found.wal.config(), config());
}

#[test]
fn recovery_keeps_what_was_stored_whole() {
    let files = vec![
        StoredSegment { id: 2, bytes: sealed(&[e(1, 2, &[]), e(0, 9, &[])], 9) },
        StoredSegment { id: 5, bytes: sealed(&[e(3, 4, &[])], 4) },
        StoredSegment { id: 6, bytes: frames(&[e(5, 6, &["k"])]) },
    ];
    let found = recover(&files, config(), 0).unwrap();
    assert_eq!(
        found.repairs,
        vec![Repair::Keep { id: 2 }, Repair::Keep { id: 5 }, Repair::Keep { id: 6 }]
    );
    let wal = found.wal;
    assert_eq!(wal.sealed_count(), 2);
    assert_eq!(wal.segment(0).unwrap().id(), 2);
    assert_eq!(wal.segment(0).unwrap().state(), SegmentState::Sealed);
    assert_eq!(wal.segment(0).unwrap().footer(), Some(Footer { latest_event_time: t(9) }));
    assert_eq!(wal.segment(1).unwrap().id(), 5);
    assert_eq!(wal.active().id(), 6);
    assert_eq!(wal.active().state(), SegmentState::Active);
    assert_eq!(
        wal.replay(None),
        vec![e(1, 2, &[]), e(0, 9, &[]), e(3, 4, &[]), e(5, 6, &["k"])]
    );
    assert_eq!(wal.replay(t(5)), vec![e(0, 9, &[]), e(5, 6, &["k"])]);
}

#[test]
fn recovery_reopens_a_last_segment_that_was_sealed() {
    let files = vec![StoredSegment { id: 0, bytes: sealed(&[e(1, 2, &[]), e(0, 9, &[])], 9) }];
    let found = recover(&files, config(), 0).unwrap();
    assert_eq!(found.repairs, vec![Repair::Truncate { id: 0, len: 60 }]);
    let mut wal = found.wal;
    assert_eq!(wal.sealed_count(), 0);
    assert_eq!(wal.active().state(), SegmentState::Active);
    assert_eq!(wal.active().latest_event_time(), t(9));
    assert_eq!(wal.append(&e(3, 4, &[])).unwrap().offset, 60);
}

#[test]
fn recovery_seals_anew_what_was_never_sealed() {
    let mut torn = frames(&[e(1, 2, &[]), e(0, 9, &[])]);
    torn.extend_from_slice(&[7, 7]);
    let mut wrong_footer = frames(&[e(3, 4, &[])]);
    wrong_footer.extend_from_slice(&Footer { latest_event_time: t(5) }.encode());
    let files = vec![
        StoredSegment { id: 0, bytes: torn },
        StoredSegment { id: 1, bytes: frames(&[e(10, 20, &[])]) },
        StoredSegment { id: 2, bytes: wrong_footer },
        StoredSegment { id: 3, bytes: Vec::new() },
    ];
    let found = recover(&files, config(), 0).unwrap();
    assert_eq!(
        found.repairs,
        vec![
            Repair::Reseal { id: 0, len: 60, footer: Footer { latest_event_time: t(9) } },
            Repair::Reseal { id: 1, len: 30, footer: Footer { latest_event_time: t(20) } },
            Repair::Reseal { id: 2, len: 30, footer: Footer { latest_event_time: t(4) } },
            Repair::Keep { id: 3 },
        ]
    );
    let wal = found.wal;
    assert_eq!(wal.sealed_count(), 3);
    for i in 0..3 {
        assert_eq!(wal.segment(i).unwrap().state(), SegmentState::Sealed);
    }
    assert_eq!(wal.segment(0).unwrap().footer(), Some(Footer { latest_event_time: t(9) }));
    assert_eq!(wal.segment(0).unwrap().len(), 60);
    assert_eq!(wal.active().id(), 3);
    assert_eq!(
        wal.replay(None),
        vec![e(1, 2, &[]), e(0, 9, &[]), e(10, 20, &[]), e(3, 4, &[])]
    );
}

#[test]
fn recovery_removes_the_segments_without_events() {
    let files = vec![
        StoredSegment { id: 0, bytes: Vec::new() },
        StoredSegment { id: 1, bytes: sealed(&[e(1, 2, &[])], 2) },
        StoredSegment { id: 2, bytes: vec![1, 2, 3] },
        StoredSegment { id: 3, bytes: Footer { latest_event_time: t(2) }.encode() },
        StoredSegment { id: 9, bytes: vec![9, 9] },
    ];
    let found = recover(&files, config(), 0).unwrap();
    assert_eq!(
        found.repairs,
        vec![
            Repair::Remove { id: 0 },
            Repair::Keep { id: 1 },
            Repair::Remove { id: 2 },
            Repair::Remove { id: 3 },
            Repair::Truncate { id: 9, len: 0 },
        ]
    );
    assert_eq!(found.wal.sealed_count(), 1);
    assert_eq!(found.wal.segment(0).unwrap().id(), 1);
    assert_eq!(found.wal.active().id(), 9);
    assert!(found.wal.active().is_empty());
    assert_eq!(found.wal.replay(None), vec![e(1, 2, &[])]);
}

#[test]
fn recovery_never_reads_behind_a_corrupt_frame() {
    let mut bytes = frames(&[e(1, 2, &[])]);
    let mut bad = e(3, 4, &["a"]).encode().unwrap();
    bad[4] = 99;
    bytes.extend_from_slice(&bad);
    bytes.extend_from_slice(&frames(&[e(5, 6, &[])]));
    let files = vec![StoredSegment { id: 0, bytes }];
    let found = recover(&files, config(), 0).unwrap();
    assert_eq!(found.repairs, vec![Repair::Truncate { id: 0, len: 30 }]);
    assert_eq!(found.wal.replay(None), vec![e(1, 2, &[])]);
}

#[test]
fn recovery_refuses_segments_out_of_order() {
    let files = vec![
        StoredSegment { id: 1, bytes: sealed(&[e(1, 2, &[])], 2) },
        StoredSegment { id: 1, bytes: Vec::new() },
    ];
    assert!(matches!(recover(&files, config(), 0), Err(WalError::InvalidInvariant)));
    let files = vec![
        StoredSegment { id: 0, bytes: Vec::new() },
        StoredSegment { id: 2, bytes: Vec::new() },
        StoredSegment { id: 1, bytes: Vec::new() },
    ];
    assert!(matches!(recover(&files, config(), 0), Err(WalError::InvalidInvariant)));
}

#[test]
fn a_closed_log_is_recovered_as_it_was() {
    let mut wal = Wal::new(config(), 0);
    let mut written = Vec::new();
    for i in 0..9i64 {
        let event = e(i, 3 * i % 7 + i, &["k", "l"]);
        wal.append(&event).unwrap();
        written.push(event);
    }
    let files: Vec<StoredSegment> = wal
        .close()
        .iter()
        .map(|segment| StoredSegment { id: segment.id(), bytes: segment.to_bytes() })
        .collect();
    assert_eq!(files.len(), 5);
    let found = recover(&files, config(), 0).unwrap();
    assert_eq!(found.wal.replay(None), written);
    assert_eq!(found.wal.sealed_count(), 4);
    assert_eq!(found.repairs[0], Repair::Keep { id: 0 });
    assert_eq!(found.repairs[3], Repair::Keep { id: 3 });
    assert_eq!(found.repairs[4], Repair::Truncate { id: 4, len: 36 });
}

#[test]
fn a_recovered_log_rotates_on() {
    let files = vec![
        StoredSegment { id: 4, bytes: sealed(&[e(1, 2, &[])], 2) },
        StoredSegment { id: 8, bytes: frames(&[e(5, 6, &[])]) },
    ];
    let mut wal = recover(&files, config(), 0).unwrap().wal;
    let receipt = wal.append(&e(7, 8, &[])).unwrap();
    assert_eq!((receipt.segment, receipt.offset), (8, 30));
    assert_eq!(receipt.sealed, Some(Footer { latest_event_time: t(8) }));
    assert_eq!(wal.active().id(), 9);
    assert_eq!(wal.sealed_count(), 2);
}
