use gc_wal::error::WalError;
use gc_wal::event::GcEvent;
use gc_wal::footer::Footer;
use gc_wal::scan::{later_of, read_from, survey, valid_tail, Survey};
use gc_wal::segment::{Segment, SegmentState};
use gc_wal::time::Timestamp;

fn ev(start: i64, end: i64, keys: &[&str]) -> GcEvent {
    GcEvent {
        start_time: Some(Timestamp::new(start, 0)),
        end_time: Some(Timestamp::new(end, 0)),
        keys: keys.iter().map(|k| k.to_string()).collect(),
    }
}

fn frame(start: i64, end: i64, keys: &[&str]) -> Vec<u8> {
    ev(start, end, keys).encode().unwrap()
}

#[test]
fn new_segment_is_active_and_empty() {
    let s = Segment::new(7);
    assert_eq!(s.id(), 7);
    assert_eq!(s.len(), 0);
    assert!(s.is_empty());
    assert_eq!(s.state(), SegmentState::Active);
    assert!(!s.is_sealed());
    assert_eq!(s.latest_event_time(), None);
    assert_eq!(s.footer(), None);
    assert_eq!(s.to_bytes(), Vec::<u8>::new());
    assert_eq!(s.read_range(0), Vec::<GcEvent>::new());
}

#[test]
fn append_gives_the_offset_of_the_frame() {
    let mut s = Segment::new(0);
    assert_eq!(s.append(&frame(10, 20, &[])), Ok(0));
    assert_eq!(s.append(&frame(15, 25, &["a"])), Ok(30));
    assert_eq!(s.append(&frame(1, 2, &[])), Ok(63));
    assert_eq!(s.len(), 93);
    assert!(!s.is_empty());
    assert_eq!(
        s.read_range(0),
        vec![ev(10, 20, &[]), ev(15, 25, &["a"]), ev(1, 2, &[])]
    );
}

#[test]
fn segment_tracks_the_latest_end() {
    let mut s = Segment::new(0);
    s.append(&frame(10, 20, &[])).unwrap();
    assert_eq!(s.latest_event_time(), Some(Timestamp::new(20, 0)));
    s.append(&frame(1, 5, &[])).unwrap();
    assert_eq!(s.latest_event_time(), Some(Timestamp::new(20, 0)));
    s.append(&frame(15, 25, &[])).unwrap();
    assert_eq!(s.latest_event_time(), Some(Timestamp::new(25, 0)));
}

#[test]
fn of_two_equal_instants_the_first_stays() {
    let mut s = Segment::new(0);
    let a = GcEvent {
        start_time: Some(Timestamp::new(0, 0)),
        end_time: Some(Timestamp::new(0, 1_000_000_000)),
        keys: Vec::new(),
    };
    s.append(&a.encode().unwrap()).unwrap();
    s.append(&frame(0, 1, &[])).unwrap();
    assert_eq!(s.latest_event_time(), Some(Timestamp::new(0, 1_000_000_000)));
    assert_eq!(
        later_of(Some(Timestamp::new(1, 0)), Timestamp::new(0, 1_000_000_000)),
        Timestamp::new(1, 0)
    );
    assert_eq!(later_of(None, Timestamp::new(3, 0)), Timestamp::new(3, 0));
    assert_eq!(later_of(Some(Timestamp::new(1, 0)), Timestamp::new(3, 0)), Timestamp::new(3, 0));
}

#[test]
fn append_refuses_what_is_not_one_frame() {
    let mut s = Segment::new(0);
    s.append(&frame(10, 20, &[])).unwrap();
    let whole = frame(15, 25, &["a"]);
    assert_eq!(s.append(&whole[..whole.len() - 1]), Err(WalError::InvalidInvariant));
    assert_eq!(s.append(&[]), Err(WalError::InvalidInvariant));
    assert_eq!(s.append(&[1, 2, 3]), Err(WalError::InvalidInvariant));
    let mut two = whole.clone();
    two.extend_from_slice(&whole);
    assert_eq!(s.append(&two), Err(WalError::InvalidInvariant));
    let mut more = whole.clone();
    more.push(0);
    assert_eq!(s.append(&more), Err(WalError::InvalidInvariant));
    let mut corrupt = whole.clone();
    corrupt[4] = 99;
    assert_eq!(s.append(&corrupt), Err(WalError::InvalidInvariant));
    assert_eq!(s.len(), 30);
    assert_eq!(s.read_range(0), vec![ev(10, 20, &[])]);
    assert_eq!(s.latest_event_time(), Some(Timestamp::new(20, 0)));
}

#[test]
fn seal_gives_the_footer_with_the_latest_end() {
    let mut s = Segment::new(3);
    s.append(&frame(10, 30, &[])).unwrap();
    s.append(&frame(15, 25, &["a"])).unwrap();
    let footer = s.seal().unwrap();
    assert_eq!(footer, Footer { latest_event_time: Some(Timestamp::new(30, 0)) });
    assert_eq!(s.state(), SegmentState::Sealed);
    assert!(s.is_sealed());
    assert_eq!(s.footer(), Some(footer));
    assert_eq!(s.id(), 3);
    assert_eq!(s.len(), 63);
}

#[test]
fn sealed_segment_never_changes() {
    let mut s = Segment::new(0);
    s.append(&frame(10, 20, &[])).unwrap();
    s.seal().unwrap();
    let before = s.to_bytes();
    assert_eq!(s.append(&frame(15, 25, &[])), Err(WalError::InvalidInvariant));
    assert_eq!(s.seal(), Err(WalError::InvalidInvariant));
    assert_eq!(s.state(), SegmentState::Sealed);
    assert_eq!(s.to_bytes(), before);
    assert_eq!(s.read_range(0), vec![ev(10, 20, &[])]);
}

#[test]
fn empty_segment_is_not_sealed() {
    let mut s = Segment::new(0);
    assert_eq!(s.seal(), Err(WalError::InvalidInvariant));
    assert_eq!(s.state(), SegmentState::Active);
    assert_eq!(s.append(&frame(10, 20, &[])), Ok(0));
}

#[test]
fn stored_segment_is_frames_then_footer() {
    let mut s = Segment::new(0);
    s.append(&frame(10, 20, &[])).unwrap();
    assert_eq!(s.to_bytes(), frame(10, 20, &[]));
    assert_eq!(s.frames(), &frame(10, 20, &[])[..]);
    let footer = s.seal().unwrap();
    let mut expected = frame(10, 20, &[]);
    expected.extend_from_slice(&footer.encode());
    assert_eq!(s.to_bytes(), expected);
    assert_eq!(s.frames(), &frame(10, 20, &[])[..]);
    assert_eq!(s.to_bytes().len(), 46);
}

#[test]
fn read_range_starts_at_the_offset() {
    let mut s = Segment::new(0);
    s.append(&frame(10, 20, &[])).unwrap();
    s.append(&frame(15, 25, &["a"])).unwrap();
    s.append(&frame(1, 2, &[])).unwrap();
    assert_eq!(s.read_range(30), vec![ev(15, 25, &["a"]), ev(1, 2, &[])]);
    assert_eq!(s.read_range(63), vec![ev(1, 2, &[])]);
    assert_eq!(s.read_range(93), Vec::<GcEvent>::new());
    assert_eq!(s.read_range(94), Vec::<GcEvent>::new());
    assert_eq!(s.read_range(usize::MAX), Vec::<GcEvent>::new());
}

#[test]
fn read_at_pulls_one_frame() {
    let mut s = Segment::new(0);
    s.append(&frame(10, 20, &[])).unwrap();
    s.append(&frame(15, 25, &["a"])).unwrap();
    assert_eq!(s.read_at(0), Some((ev(10, 20, &[]), 30)));
    assert_eq!(s.read_at(30), Some((ev(15, 25, &["a"]), 63)));
    assert_eq!(s.read_at(63), None);
    assert_eq!(s.read_at(64), None);
    assert_eq!(s.read_at(1), None);
}

#[test]
fn survey_counts_frames_up_to_the_first_bad_one() {
    let mut bytes = frame(10, 20, &[]);
    bytes.extend_from_slice(&frame(15, 45, &["a"]));
    bytes.extend_from_slice(&frame(1, 2, &[]));
    assert_eq!(
        survey(&bytes),
        Survey { end: 93, count: 3, latest: Some(Timestamp::new(45, 0)) }
    );
    assert_eq!(valid_tail(&bytes), 93);
    bytes.extend_from_slice(&[1, 2, 3]);
    assert_eq!(
        survey(&bytes),
        Survey { end: 93, count: 3, latest: Some(Timestamp::new(45, 0)) }
    );
    assert_eq!(valid_tail(&bytes), 93);
    assert_eq!(survey(&[]), Survey { end: 0, count: 0, latest: None });
    assert_eq!(valid_tail(&[0xFF; 10]), 0);
}

#[test]
fn nothing_is_read_behind_a_corrupt_frame() {
    let mut bytes = frame(10, 20, &[]);
    let mut bad = frame(15, 25, &["a"]);
    bad[4] = 99;
    bytes.extend_from_slice(&bad);
    bytes.extend_from_slice(&frame(1, 2, &[]));
    assert_eq!(valid_tail(&bytes), 30);
    assert_eq!(read_from(&bytes, 0), vec![ev(10, 20, &[])]);
    assert_eq!(read_from(&bytes, 63), vec![ev(1, 2, &[])]);
    assert_eq!(read_from(&bytes, 1000), Vec::<GcEvent>::new());
}

#[test]
fn open_keeps_the_frames_that_decode() {
    let mut bytes = frame(10, 20, &[]);
    bytes.extend_from_slice(&frame(15, 25, &["a"]));
    bytes.extend_from_slice(&[0xDE, 0xAD, 0xBE]);
    let s = Segment::open(4, &bytes);
    assert_eq!(s.id(), 4);
    assert_eq!(s.state(), SegmentState::Active);
    assert_eq!(s.len(), 63);
    assert_eq!(s.to_bytes(), bytes[..63].to_vec());
    assert_eq!(s.latest_event_time(), Some(Timestamp::new(25, 0)));
    assert_eq!(s.read_range(0), vec![ev(10, 20, &[]), ev(15, 25, &["a"])]);
}

#[test]
fn open_cuts_off_the_footer_of_a_sealed_segment() {
    let mut s = Segment::new(0);
    s.append(&frame(10, 20, &[])).unwrap();
    s.append(&frame(8, 25, &[])).unwrap();
    s.seal().unwrap();
    let stored = s.to_bytes();
    assert_eq!(valid_tail(&stored), 60);
    let mut again = Segment::open(0, &stored);
    assert_eq!(again.state(), SegmentState::Active);
    assert_eq!(again.len(), 60);
    assert_eq!(again.append(&frame(1, 2, &[])), Ok(60));
}

#[test]
fn open_sealed_takes_a_sealed_segment() {
    let mut s = Segment::new(9);
    s.append(&frame(10, 20, &[])).unwrap();
    s.append(&frame(15, 25, &["a"])).unwrap();
    s.seal().unwrap();
    let stored = s.to_bytes();
    let again = Segment::open_sealed(9, &stored).unwrap();
    assert_eq!(again.id(), 9);
    assert_eq!(again.state(), SegmentState::Sealed);
    assert_eq!(again.footer(), s.footer());
    assert_eq!(again.to_bytes(), stored);
    assert_eq!(again.read_range(0), vec![ev(10, 20, &[]), ev(15, 25, &["a"])]);
}

#[test]
fn open_sealed_refuses_what_is_not_sealed() {
    let mut s = Segment::new(0);
    s.append(&frame(10, 20, &[])).unwrap();
    s.append(&frame(15, 25, &["a"])).unwrap();
    assert!(Segment::open_sealed(0, &s.to_bytes()).is_none());
    assert!(Segment::open_sealed(0, &[]).is_none());
    let footer = Footer { latest_event_time: Some(Timestamp::new(25, 0)) };
    assert!(Segment::open_sealed(0, &footer.encode()).is_none());
    s.seal().unwrap();
    let stored = s.to_bytes();
    let mut wrong_time = stored.clone();
    let at = wrong_time.len() - 12;
    wrong_time[at] = 26;
    let mut wrong_marker = stored.clone();
    let at = wrong_marker.len() - 16;
    wrong_marker[at] = 0;
    assert!(Segment::open_sealed(0, &wrong_marker).is_none());
    assert!(Segment::open_sealed(0, &wrong_time).is_none());
    let mut torn = stored.clone();
    torn[4] = 99;
    assert!(Segment::open_sealed(0, &torn).is_none());
    let mut longer = stored.clone();
    longer.push(0);
    assert!(Segment::open_sealed(0, &longer).is_none());
    assert!(Segment::open_sealed(0, &stored[..stored.len() - 1]).is_none());
    assert!(Segment::open_sealed(0, &stored).is_some());
}
