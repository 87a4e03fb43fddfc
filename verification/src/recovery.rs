//! Recovery: a log out of the segments as they were found in storage.
//!
//! Every stored segment but the last is taken as sealed: where its bytes
//! are a sealed segment it is kept as it is, and where they are not, the
//! frames that decode are kept and sealed anew. The last one is taken as
//! the segment that was being written: the frames that decode are kept,
//! what follows them is cut off, and the writer goes on behind them.

use crate::error::WalError;
use crate::event::GcEventView;
use crate::footer::{Footer, FOOTER_SIZE};
use crate::frame::{decoded, lemma_short_is_no_frame};
use crate::log::{
    all_valid, latest_end, lemma_readable_log, lemma_readable_sound, log_bytes, readable,
    readable_len,
};
use crate::segment::{lemma_intact_events, sealed_image, Segment, SegmentState, SegmentView};
use crate::wal::{all_sealed, ids_increase, joined, lemma_joined_push, segment_views, Wal, WalView};
use crate::writer::{SegmentWriter, WalConfig, WriterView};
use vstd::prelude::*;

verus! {

/// A segment as it was found in storage.
#[derive(Clone, Debug, PartialEq, Eq)]
pub struct StoredSegment {
    /// The sequence number of the segment.
    pub id: u64,
    /// All that is stored of it.
    pub bytes: Vec<u8>,
}

/// A stored segment as contracts see it.
pub ghost struct StoredView {
    pub id: u64,
    pub bytes: Seq<u8>,
}

impl View for StoredSegment {
    type V = StoredView;

    open spec fn view(&self) -> StoredView {
        StoredView { id: self.id, bytes: self.bytes@ }
    }
}

/// What has to be done to a stored segment so that storage holds what the
/// recovered log holds.
#[derive(Clone, Copy, Debug, PartialEq, Eq, Structural)]
pub enum Repair {
    /// Nothing: the segment is stored as the log holds it.
    Keep { id: u64 },
    /// Cut the stored bytes down to `len`.
    Truncate { id: u64, len: usize },
    /// Cut the stored bytes down to `len`, then write `footer` behind them.
    Reseal { id: u64, len: usize, footer: Footer },
    /// Remove the segment: it holds no event.
    Remove { id: u64 },
}

/// A recovered log, and what has to be done to each stored segment.
pub struct Recovered {
    pub wal: Wal,
    /// One repair for each stored segment, in their order.
    pub repairs: Vec<Repair>,
}

/// The stored segments of a vector, as contracts see them.
pub open spec fn stored_views(files: Seq<StoredSegment>) -> Seq<StoredView> {
    Seq::new(files.len(), |i: int| files[i]@)
}

/// Whether the sequence numbers of stored segments grow from each to the next.
pub open spec fn stored_in_order(files: Seq<StoredView>) -> bool {
    forall|i: int, j: int|
        #![trigger files[i], files[j]]
        0 <= i < j < files.len() ==> files[i].id < files[j].id
}

/// What is kept of a stored segment: the frames that decode, from the
/// head up to the first one that does not, as an active segment.
pub open spec fn salvaged(file: StoredView) -> SegmentView {
    SegmentView {
        id: file.id,
        bytes: file.bytes.take(readable_len(file.bytes) as int),
        state: SegmentState::Active,
        latest: latest_end(readable(file.bytes)),
    }
}

/// The sealed segments of the log that is recovered from stored segments
/// which all come before the last: what is kept of each, sealed, but for
/// those that hold no event.
pub open spec fn recovered_sealed(files: Seq<StoredView>) -> Seq<SegmentView>
    decreases files.len(),
{
    if files.len() == 0 {
        Seq::empty()
    } else if readable(files.last().bytes).len() == 0 {
        recovered_sealed(files.drop_last())
    } else {
        recovered_sealed(files.drop_last()).push(salvaged(files.last()).sealed())
    }
}

/// The log that is recovered from stored segments.
pub open spec fn recovered(files: Seq<StoredView>, config: WalConfig, now: u64) -> WalView {
    if files.len() == 0 {
        WalView {
            sealed: Seq::empty(),
            writer: WriterView { active: SegmentView::empty(0), config, opened_at: now, now },
        }
    } else {
        WalView {
            sealed: recovered_sealed(files.drop_last()),
            writer: WriterView { active: salvaged(files.last()), config, opened_at: now, now },
        }
    }
}

/// The repair of a stored segment that comes before the last.
pub open spec fn repair_sealed(file: StoredView) -> Repair {
    if readable(file.bytes).len() == 0 {
        Repair::Remove { id: file.id }
    } else if sealed_image(file.bytes) {
        Repair::Keep { id: file.id }
    } else {
        Repair::Reseal {
            id: file.id,
            len: readable_len(file.bytes) as usize,
            footer: salvaged(file).footer(),
        }
    }
}

/// The repair of the last stored segment.
pub open spec fn repair_active(file: StoredView) -> Repair {
    if readable_len(file.bytes) == file.bytes.len() {
        Repair::Keep { id: file.id }
    } else {
        Repair::Truncate { id: file.id, len: readable_len(file.bytes) as usize }
    }
}

/// The repairs of stored segments, one for each.
pub open spec fn repairs(files: Seq<StoredView>) -> Seq<Repair> {
    Seq::new(
        files.len(),
        |i: int|
            if i + 1 == files.len() {
                repair_active(files[i])
            } else {
                repair_sealed(files[i])
            },
    )
}

/// The events that can be read from stored segments, those of the first,
/// then those of the second, and so on.
pub open spec fn stored_events(files: Seq<StoredView>) -> Seq<GcEventView>
    decreases files.len(),
{
    if files.len() == 0 {
        Seq::empty()
    } else {
        stored_events(files.drop_last()) + readable(files.last().bytes)
    }
}

/// What is kept of a stored segment is as every segment is, and holds the
/// events that can be read from the stored bytes.
pub proof fn lemma_salvaged(file: StoredView)
    ensures
        salvaged(file).intact(),
        salvaged(file).events() == readable(file.bytes),
        salvaged(file).bytes == log_bytes(readable(file.bytes)),
{
    let events = readable(file.bytes);
    let none = Seq::<u8>::empty();
    lemma_readable_sound(file.bytes);
    lemma_short_is_no_frame(none);
    lemma_readable_log(events, none);
    assert(log_bytes(events) + none =~= log_bytes(events));
    assert(events + readable(none) =~= events);
}

/// The bytes of a sealed segment, read as frames, give the events of the
/// segment and stop at its footer.
pub proof fn lemma_sealed_image_readable(bytes: Seq<u8>)
    requires
        sealed_image(bytes),
    ensures
        readable(bytes) == readable(bytes.take(bytes.len() - FOOTER_SIZE)),
        readable_len(bytes) == bytes.len() - FOOTER_SIZE,
{
    let frames = bytes.take(bytes.len() - FOOTER_SIZE);
    let footer = bytes.skip(bytes.len() - FOOTER_SIZE);
    let events = readable(frames);
    lemma_readable_sound(frames);
    assert(frames.take(frames.len() as int) =~= frames);
    assert(bytes =~= log_bytes(events) + footer);
    lemma_short_is_no_frame(footer);
    lemma_readable_log(events, footer);
    assert(events + readable(footer) =~= events);
}

/// Recovery after an unclean shutdown: where the stored bytes are the
/// frames of valid events followed by bytes that do not decode, what is
/// kept are those frames, whole, and the events are those events. So the
/// segment is cut where the first frame that does not decode starts, and
/// the next append writes there.
pub proof fn lemma_salvaged_torn(id: u64, events: Seq<GcEventView>, tail: Seq<u8>)
    requires
        all_valid(events),
        decoded(tail) is Err,
    ensures
        salvaged(StoredView { id, bytes: log_bytes(events) + tail }).events() == events,
        salvaged(StoredView { id, bytes: log_bytes(events) + tail }).bytes == log_bytes(events),
        readable_len(log_bytes(events) + tail) == log_bytes(events).len(),
{
    let file = StoredView { id, bytes: log_bytes(events) + tail };
    lemma_salvaged(file);
    lemma_readable_log(events, tail);
    assert(events + readable(tail) =~= events);
}

/// Recovery of a sealed segment with bytes behind its footer: whatever
/// follows the footer, short of four gigabytes, what is kept are the
/// frames of the segment, and the events are its events. The footer and
/// what follows it are cut off.
pub proof fn lemma_salvaged_sealed(id: u64, segment: SegmentView, tail: Seq<u8>)
    requires
        segment.intact(),
        segment.state == SegmentState::Sealed,
        FOOTER_SIZE + tail.len() < crate::footer::MARKER_SIZE + crate::footer::SEALED_MARKER,
    ensures
        salvaged(StoredView { id, bytes: segment.image() + tail }).events() == segment.events(),
        salvaged(StoredView { id, bytes: segment.image() + tail }).bytes == segment.bytes,
{
    let rest = segment.footer().bytes() + tail;
    segment.footer().lemma_no_frame(tail);
    lemma_intact_events(segment.bytes);
    lemma_salvaged_torn(id, segment.events(), rest);
    assert(segment.image() + tail =~= log_bytes(segment.events()) + rest);
}

/// Recovery after a write was cut short: where the stored bytes are the
/// frames of valid events followed by the first bytes of one more frame,
/// however many, what is kept are the frames of those events, whole, and
/// the events are those events.
pub proof fn lemma_salvaged_partial(
    id: u64,
    events: Seq<GcEventView>,
    partial: GcEventView,
    kept: nat,
)
    requires
        all_valid(events),
        partial.valid(),
        kept < partial.frame().len(),
    ensures
        salvaged(
            StoredView { id, bytes: log_bytes(events) + partial.frame().take(kept as int) },
        ).events() == events,
        salvaged(
            StoredView { id, bytes: log_bytes(events) + partial.frame().take(kept as int) },
        ).bytes == log_bytes(events),
        readable_len(log_bytes(events) + partial.frame().take(kept as int)) == log_bytes(
            events,
        ).len(),
{
    crate::frame::lemma_partial_frame_truncated(partial, kept);
    lemma_salvaged_torn(id, events, partial.frame().take(kept as int));
}

/// The recovered sealed segments are sealed, in order, and hold the events
/// that can be read from the stored segments.
proof fn lemma_recovered_sealed(files: Seq<StoredView>, bound: int)
    requires
        stored_in_order(files),
        forall|i: int| 0 <= i < files.len() ==> (#[trigger] files[i]).id < bound,
    ensures
        all_sealed(recovered_sealed(files)),
        ids_increase(recovered_sealed(files)),
        forall|i: int|
            0 <= i < recovered_sealed(files).len() ==> (#[trigger] recovered_sealed(files)[i]).id
                < bound,
        joined(recovered_sealed(files)) == stored_events(files),
    decreases files.len(),
{
    if files.len() > 0 {
        let last = files.last();
        let rest = files.drop_last();
        assert forall|i: int| 0 <= i < rest.len() implies (#[trigger] rest[i]).id < last.id by {
            assert(rest[i] == files[i]);
        }
        assert forall|i: int, j: int|
            #![trigger rest[i], rest[j]]
            0 <= i < j < rest.len() implies rest[i].id < rest[j].id by {
            assert(rest[i] == files[i] && rest[j] == files[j]);
        }
        lemma_recovered_sealed(rest, last.id as int);
        lemma_recovered_sealed(rest, bound);
        lemma_salvaged(last);
        if readable(last.bytes).len() == 0 {
            assert(stored_events(rest) + readable(last.bytes) =~= stored_events(rest));
        } else {
            lemma_joined_push(recovered_sealed(rest), salvaged(last).sealed());
        }
    }
}

/// The events of a recovered log are the events that can be read from the
/// stored segments, in the order of the segments; and the log is as every
/// log is.
pub proof fn lemma_recovered(files: Seq<StoredView>, config: WalConfig, now: u64)
    requires
        stored_in_order(files),
    ensures
        recovered(files, config, now).intact(),
        recovered(files, config, now).events() == stored_events(files),
{
    let wal = recovered(files, config, now);
    lemma_joined_push(wal.sealed, wal.writer.active);
    if files.len() == 0 {
        lemma_short_is_no_frame(Seq::<u8>::empty());
        assert(wal.events() =~= stored_events(files));
        assert(log_bytes(Seq::<GcEventView>::empty()) =~= Seq::<u8>::empty());
    } else {
        let last = files.last();
        let rest = files.drop_last();
        assert forall|i: int| 0 <= i < rest.len() implies (#[trigger] rest[i]).id < last.id by {
            assert(rest[i] == files[i]);
        }
        assert forall|i: int, j: int|
            #![trigger rest[i], rest[j]]
            0 <= i < j < rest.len() implies rest[i].id < rest[j].id by {
            assert(rest[i] == files[i] && rest[j] == files[j]);
        }
        lemma_recovered_sealed(rest, last.id as int);
        lemma_salvaged(last);
        let all = wal.segments();
        assert forall|i: int, j: int|
            #![trigger all[i], all[j]]
            0 <= i < j < all.len() implies all[i].id < all[j].id by {
            if j < wal.sealed.len() {
                assert(all[i] == wal.sealed[i] && all[j] == wal.sealed[j]);
            } else {
                assert(all[i] == wal.sealed[i]);
            }
        }
    }
}

/// Recovers a log from its stored segments, given oldest first. Stored
/// segments whose sequence numbers do not grow from each to the next are
/// refused.
pub fn recover(files: &Vec<StoredSegment>, config: WalConfig, now: u64) -> (r: Result<
    Recovered,
    WalError,
>)
    ensures
        match r {
            Ok(found) => {
                &&& stored_in_order(stored_views(files@))
                &&& found.wal.wf()
                &&& found.wal@ == recovered(stored_views(files@), config, now)
                &&& found.wal@.events() == stored_events(stored_views(files@))
                &&& found.repairs@ == repairs(stored_views(files@))
            },
            Err(e) => e == WalError::InvalidInvariant && !stored_in_order(stored_views(files@)),
        },
{
    let ghost views = stored_views(files@);
    let count = files.len();
    let mut fixes: Vec<Repair> = Vec::new();
    if count == 0 {
        proof {
            lemma_recovered(views, config, now);
            assert(fixes@ =~= repairs(views));
        }
        return Ok(Recovered { wal: Wal::new(config, now), repairs: fixes });
    }
    let mut i: usize = 1;
    while i < count
        invariant
            1 <= i <= count == files@.len(),
            views == stored_views(files@),
            forall|j: int| 0 < j < i ==> (#[trigger] views[j - 1]).id < views[j].id,
        decreases count - i,
    {
        if files[i - 1].id >= files[i].id {
            assert(views[i - 1].id >= views[i as int].id);
            return Err(WalError::InvalidInvariant);
        }
        assert(views[i - 1].id < views[i as int].id);
        i += 1;
    }
    proof {
        lemma_in_order(views);
        lemma_recovered(views, config, now);
    }
    let last = count - 1;
    let mut sealed: Vec<Segment> = Vec::new();
    let mut k: usize = 0;
    proof {
        assert(views.take(0) =~= Seq::<StoredView>::empty());
        assert(segment_views(sealed@) =~= recovered_sealed(views.take(0)));
    }
    while k < last
        invariant
            k <= last < count == files@.len(),
            views == stored_views(files@),
            stored_in_order(views),
            segment_views(sealed@) == recovered_sealed(views.take(k as int)),
            fixes@.len() == k,
            forall|j: int| 0 <= j < k ==> #[trigger] fixes@[j] == repair_sealed(views[j]),
        decreases last - k,
    {
        let file = &files[k];
        let ghost done = segment_views(sealed@);
        proof {
            assert(views.take(k + 1).drop_last() =~= views.take(k as int));
            assert(views.take(k + 1).last() == views[k as int]);
            assert(file@ == views[k as int]);
            lemma_salvaged(file@);
            if sealed_image(file.bytes@) {
                lemma_sealed_image_readable(file.bytes@);
            }
        }
        match Segment::open_sealed(file.id, file.bytes.as_slice()) {
            Some(segment) => {
                proof {
                    assert(segment@ == salvaged(file@).sealed());
                    assert(segment_views(sealed@.push(segment)) =~= done.push(segment@));
                }
                sealed.push(segment);
                fixes.push(Repair::Keep { id: file.id });
            },
            None => {
                let mut segment = Segment::open(file.id, file.bytes.as_slice());
                if segment.is_empty() {
                    fixes.push(Repair::Remove { id: file.id });
                } else {
                    let len = segment.len();
                    match segment.seal() {
                        Ok(footer) => {
                            proof {
                                assert(segment_views(sealed@.push(segment)) =~= done.push(
                                    segment@,
                                ));
                            }
                            sealed.push(segment);
                            fixes.push(Repair::Reseal { id: file.id, len, footer });
                        },
                        Err(_) => {},
                    }
                }
            },
        }
        k += 1;
    }
    let file = &files[last];
    let active = Segment::open(file.id, file.bytes.as_slice());
    proof {
        assert(file@ == views[last as int]);
        assert(views.take(last as int) =~= views.drop_last());
        lemma_salvaged(file@);
    }
    if active.len() == file.bytes.len() {
        fixes.push(Repair::Keep { id: file.id });
    } else {
        fixes.push(Repair::Truncate { id: file.id, len: active.len() });
    }
    proof {
        assert(fixes@ =~= repairs(views));
    }
    match SegmentWriter::resume(active, config, now) {
        Ok(writer) => {
            let wal = Wal::from_parts(sealed, writer);
            Ok(Recovered { wal, repairs: fixes })
        },
        Err(_) => Err(WalError::InvalidInvariant),
    }
}

/// Stored segments whose sequence numbers grow from each to its neighbour
/// are in order.
proof fn lemma_in_order(files: Seq<StoredView>)
    requires
        forall|j: int| 0 < j < files.len() ==> (#[trigger] files[j - 1]).id < files[j].id,
    ensures
        stored_in_order(files),
{
    assert forall|i: int, j: int|
        #![trigger files[i], files[j]]
        0 <= i < j < files.len() implies files[i].id < files[j].id by {
        lemma_in_order_from(files, i, j);
    }
}

proof fn lemma_in_order_from(files: Seq<StoredView>, i: int, j: int)
    requires
        forall|j: int| 0 < j < files.len() ==> (#[trigger] files[j - 1]).id < files[j].id,
        0 <= i < j < files.len(),
    ensures
        files[i].id < files[j].id,
    decreases j - i,
{
    assert(files[j - 1].id < files[j].id);
    if i < j - 1 {
        lemma_in_order_from(files, i, j - 1);
    }
}

} // verus!
