//! The reader: a place in the log from which events are pulled one at a
//! time, each decoded only when it is asked for.

use crate::event::{GcEvent, GcEventView};
use crate::frame::{decoded, lemma_decoded_is_frame, lemma_short_is_no_frame};
use crate::log::{
    lemma_log_bytes_concat, lemma_log_bytes_one, lemma_readable_sound, lemma_since_after_latest,
    lemma_since_concat, log_bytes, qualifies, readable, since,
};
use crate::segment::SegmentView;
use crate::time::Timestamp;
use crate::wal::{ids_increase, joined, Wal, WalView};
use vstd::prelude::*;

verus! {

/// A place in a log, and the time from which on events are wanted. A
/// reader stays good while events are appended to the log, while segments
/// are sealed, and while segments that it has left behind are removed.
#[derive(Clone, Copy, Debug, PartialEq, Eq, Structural)]
pub struct SegmentReader {
    /// The sequence number of the segment that the reader is in.
    pub segment: u64,
    /// The offset in that segment of the frame that is read next.
    pub offset: usize,
    /// Events whose window ends before this time are not handed out.
    pub from_time: Option<Timestamp>,
}

/// The events of a segment from an offset on, up to the first frame that
/// does not decode. Past the end of the segment there are none.
pub open spec fn events_from(segment: SegmentView, offset: nat) -> Seq<GcEventView> {
    if offset <= segment.bytes.len() {
        readable(segment.bytes.skip(offset as int))
    } else {
        Seq::empty()
    }
}

/// What one segment holds for a reader: nothing where the reader is in a
/// later segment, the events from the reader's offset on where it is in
/// this one, and all events where it is in an earlier one.
pub open spec fn share(segment: SegmentView, reader: SegmentReader) -> Seq<GcEventView> {
    if segment.id < reader.segment {
        Seq::empty()
    } else if segment.id == reader.segment {
        events_from(segment, reader.offset as nat)
    } else {
        segment.events()
    }
}

/// The events of a run of segments that a reader has not gone through.
pub open spec fn ahead(segments: Seq<SegmentView>, reader: SegmentReader) -> Seq<GcEventView>
    decreases segments.len(),
{
    if segments.len() == 0 {
        Seq::empty()
    } else {
        ahead(segments.drop_last(), reader) + share(segments.last(), reader)
    }
}

/// The events that a reader has still to hand out: those ahead of it whose
/// window does not end before its time.
pub open spec fn pending(wal: WalView, reader: SegmentReader) -> Seq<GcEventView> {
    since(ahead(wal.segments(), reader), reader.from_time)
}

/// Whether a segment is nothing but whole frames from an offset on.
pub open spec fn whole_from(segment: SegmentView, offset: nat) -> bool {
    &&& offset <= segment.bytes.len()
    &&& log_bytes(readable(segment.bytes.skip(offset as int))) == segment.bytes.skip(
        offset as int,
    )
}

/// Whether a reader stands where a frame starts or its segment ends. A
/// reader whose segment the log does not hold stands nowhere, and counts
/// as standing well.
pub open spec fn on_frame(wal: WalView, reader: SegmentReader) -> bool {
    forall|i: int|
        0 <= i < wal.segments().len() && (#[trigger] wal.segments()[i]).id == reader.segment
            ==> whole_from(wal.segments()[i], reader.offset as nat)
}

/// Behind a frame that decodes, a run of whole frames goes on as one.
proof fn lemma_whole_from_next(segment: SegmentView, offset: nat, next: nat)
    requires
        whole_from(segment, offset),
        decoded(segment.bytes.skip(offset as int)) is Ok,
        next == offset + decoded(segment.bytes.skip(offset as int))->Ok_0.1,
    ensures
        whole_from(segment, next),
{
    let here = segment.bytes.skip(offset as int);
    let (event, size) = decoded(here)->Ok_0;
    lemma_decoded_is_frame(here);
    crate::event::lemma_payload_len(event);
    let rest = here.skip(size as int);
    assert(rest =~= segment.bytes.skip(next as int));
    lemma_log_bytes_concat(seq![event], readable(rest));
    lemma_log_bytes_one(event);
    lemma_readable_sound(rest);
    assert(here =~= here.take(size as int) + rest);
    assert(log_bytes(readable(rest)) =~= rest);
}

proof fn lemma_ahead_none(segments: Seq<SegmentView>, reader: SegmentReader)
    requires
        forall|j: int| 0 <= j < segments.len() ==> (#[trigger] segments[j]).id < reader.segment,
    ensures
        ahead(segments, reader) == Seq::<GcEventView>::empty(),
    decreases segments.len(),
{
    if segments.len() > 0 {
        let rest = segments.drop_last();
        assert forall|j: int| 0 <= j < rest.len() implies (#[trigger] rest[j]).id
            < reader.segment by {
            assert(rest[j] == segments[j]);
        }
        lemma_ahead_none(rest, reader);
        assert(segments.last() == segments[segments.len() - 1]);
        assert(ahead(segments, reader) =~= Seq::<GcEventView>::empty());
    }
}

/// The events of a run of segments are those of its first segment, then
/// those of the others.
pub proof fn lemma_joined_first(segments: Seq<SegmentView>)
    requires
        segments.len() > 0,
    ensures
        joined(segments) == segments[0].events() + joined(segments.drop_first()),
    decreases segments.len(),
{
    if segments.len() == 1 {
        assert(segments.drop_last() =~= Seq::<SegmentView>::empty());
        assert(segments.drop_first() =~= Seq::<SegmentView>::empty());
        assert(joined(Seq::<SegmentView>::empty()) =~= Seq::<GcEventView>::empty());
        assert(joined(segments) =~= segments[0].events() + joined(segments.drop_first()));
    } else {
        lemma_joined_first(segments.drop_last());
        assert(segments.drop_last().drop_first() =~= segments.drop_first().drop_last());
        assert(segments.drop_first().last() == segments.last());
        assert(segments.drop_last()[0] == segments[0]);
        assert(joined(segments) =~= segments[0].events() + joined(segments.drop_first()));
    }
}

/// What is ahead of a reader, seen from the segment that it is in or that
/// it comes to next: its share of that segment, then all events of the
/// segments behind it.
proof fn lemma_ahead_at(segments: Seq<SegmentView>, reader: SegmentReader, k: int)
    requires
        ids_increase(segments),
        0 <= k < segments.len(),
        forall|j: int| 0 <= j < k ==> (#[trigger] segments[j]).id < reader.segment,
        segments[k].id >= reader.segment,
    ensures
        ahead(segments, reader) == share(segments[k], reader) + joined(segments.skip(k + 1)),
    decreases segments.len(),
{
    let rest = segments.drop_last();
    let last = segments.last();
    if k == segments.len() - 1 {
        assert forall|j: int| 0 <= j < rest.len() implies (#[trigger] rest[j]).id
            < reader.segment by {
            assert(rest[j] == segments[j]);
        }
        lemma_ahead_none(rest, reader);
        assert(segments.skip(k + 1) =~= Seq::<SegmentView>::empty());
        assert(ahead(segments, reader) =~= share(segments[k], reader) + joined(
            segments.skip(k + 1),
        ));
    } else {
        assert forall|i: int, j: int|
            #![trigger rest[i], rest[j]]
            0 <= i < j < rest.len() implies rest[i].id < rest[j].id by {
            assert(rest[i] == segments[i] && rest[j] == segments[j]);
        }
        assert forall|j: int| 0 <= j < k implies (#[trigger] rest[j]).id < reader.segment by {
            assert(rest[j] == segments[j]);
        }
        assert(rest[k] == segments[k]);
        lemma_ahead_at(rest, reader, k);
        assert(segments[k].id < segments[segments.len() - 1].id);
        assert(rest.skip(k + 1) =~= segments.skip(k + 1).drop_last());
        assert(segments.skip(k + 1).last() == last);
        assert(ahead(segments, reader) =~= share(segments[k], reader) + joined(
            segments.skip(k + 1),
        ));
    }
}

/// A replay of a run of events hands out its first event where the
/// window of that event does not end too early, then what it hands out of
/// the others.
pub proof fn lemma_since_first(event: GcEventView, rest: Seq<GcEventView>, from: Option<Timestamp>)
    ensures
        since(seq![event] + rest, from) == (if qualifies(event, from) {
            seq![event] + since(rest, from)
        } else {
            since(rest, from)
        }),
{
    lemma_since_concat(seq![event], rest, from);
    let none = Seq::<GcEventView>::empty();
    assert(seq![event].drop_last() =~= none);
    assert(since(none, from) =~= none);
    assert(seq![event].last() == event);
    if qualifies(event, from) {
        assert(since(seq![event], from) =~= seq![event]);
    } else {
        assert(since(seq![event], from) =~= none);
        assert(none + since(rest, from) =~= since(rest, from));
    }
}

/// In a log whose sequence numbers grow, a reader stands well where it
/// stands well in the one segment that has its sequence number.
proof fn lemma_one_segment(segments: Seq<SegmentView>, reader: SegmentReader, k: int)
    requires
        ids_increase(segments),
        0 <= k < segments.len(),
        segments[k].id == reader.segment,
    ensures
        forall|i: int|
            0 <= i < segments.len() && (#[trigger] segments[i]).id == reader.segment ==> i == k,
{
    assert forall|i: int|
        0 <= i < segments.len() && (#[trigger] segments[i]).id == reader.segment implies i
        == k by {
        if i < k {
            assert(segments[i].id < segments[k].id);
        } else if i > k {
            assert(segments[k].id < segments[i].id);
        }
    }
}

/// An append puts the event behind what a reader has still to hand
/// out, wherever in the log the reader stands on a frame: a reader that
/// has come to the end of the log finds there what is appended later.
pub proof fn lemma_follow(wal: WalView, reader: SegmentReader, event: GcEventView)
    requires
        wal.intact(),
        event.valid(),
        on_frame(wal, reader),
        reader.segment <= wal.writer.active.id,
    ensures
        on_frame(wal.appended(event), reader),
        pending(wal.appended(event), reader) == pending(wal, reader) + since(
            seq![event],
            reader.from_time,
        ),
{
    let active = wal.writer.active;
    let grown = active.grown(event);
    let after = wal.appended(event);
    let before = wal.segments();
    let now = after.segments();
    let last = wal.sealed.len() as int;
    let from = reader.from_time;
    crate::wal::lemma_appended(wal, event);
    crate::segment::lemma_grown(active, event);
    assert(before[last] == active);
    // What the reader has ahead in the segment that took the event.
    assert(share(grown, reader) == share(active, reader) + seq![event]) by {
        if active.id == reader.segment {
            let offset = reader.offset as int;
            assert(whole_from(active, reader.offset as nat));
            let rest = active.bytes.skip(offset);
            crate::segment::lemma_readable_push(rest, event.frame());
            assert(grown.bytes.skip(offset) =~= rest + event.frame());
            assert(readable(rest).push(event) =~= readable(rest) + seq![event]);
        } else {
            assert(active.events().push(event) =~= active.events() + seq![event]);
        }
    }
    assert(whole_from(grown, reader.offset as nat) || active.id != reader.segment) by {
        if active.id == reader.segment {
            let offset = reader.offset as int;
            let rest = active.bytes.skip(offset);
            crate::segment::lemma_readable_push(rest, event.frame());
            assert(grown.bytes.skip(offset) =~= rest + event.frame());
        }
    }
    lemma_ahead_push(wal.sealed, active, reader);
    lemma_ahead_push(wal.sealed, grown, reader);
    let old_ahead = ahead(before, reader);
    assert(ahead(wal.sealed.push(grown), reader) =~= old_ahead + seq![event]);
    if wal.writer.full(grown) {
        let next = SegmentView::empty((grown.id + 1) as u64);
        lemma_ahead_same(wal.sealed, grown, grown.sealed(), reader);
        lemma_ahead_push(wal.sealed.push(grown.sealed()), next, reader);
        lemma_short_is_no_frame(Seq::<u8>::empty());
        assert(next.bytes.skip(0) =~= next.bytes);
        assert(share(next, reader) =~= Seq::<GcEventView>::empty());
        assert(ahead(now, reader) =~= old_ahead + seq![event]);
        assert forall|i: int|
            0 <= i < now.len() && (#[trigger] now[i]).id == reader.segment implies whole_from(
            now[i],
            reader.offset as nat,
        ) by {
            if i < last {
                assert(now[i] == before[i]);
            } else if i == last {
                assert(now[i] == grown.sealed());
                assert(whole_from(grown, reader.offset as nat));
            }
        }
    } else {
        assert(now =~= wal.sealed.push(grown));
        assert forall|i: int|
            0 <= i < now.len() && (#[trigger] now[i]).id == reader.segment implies whole_from(
            now[i],
            reader.offset as nat,
        ) by {
            if i < last {
                assert(now[i] == before[i]);
            }
        }
    }
    lemma_since_concat(old_ahead, seq![event], from);
}

proof fn lemma_ahead_push(segments: Seq<SegmentView>, segment: SegmentView, reader: SegmentReader)
    ensures
        ahead(segments.push(segment), reader) == ahead(segments, reader) + share(
            segment,
            reader,
        ),
{
    assert(segments.push(segment).drop_last() =~= segments);
}

/// What a reader has ahead does not change when its last segment is sealed.
proof fn lemma_ahead_same(
    segments: Seq<SegmentView>,
    segment: SegmentView,
    sealed: SegmentView,
    reader: SegmentReader,
)
    requires
        sealed == segment.sealed(),
    ensures
        ahead(segments.push(sealed), reader) == ahead(segments.push(segment), reader),
{
    lemma_ahead_push(segments, segment, reader);
    lemma_ahead_push(segments, sealed, reader);
}

/// A reader at the head of a log has all its events ahead.
pub proof fn lemma_reader_start(wal: WalView, from_time: Option<Timestamp>)
    requires
        wal.intact(),
    ensures
        pending(wal, SegmentReader { segment: 0, offset: 0, from_time }) == since(
            wal.events(),
            from_time,
        ),
        on_frame(wal, SegmentReader { segment: 0, offset: 0, from_time }),
{
    let reader = SegmentReader { segment: 0, offset: 0, from_time };
    let segments = wal.segments();
    assert forall|i: int|
        0 <= i < segments.len() && (#[trigger] segments[i]).id == reader.segment implies whole_from(
        segments[i],
        reader.offset as nat,
    ) by {
        assert(segments[i].intact());
        assert(segments[i].bytes.skip(0) =~= segments[i].bytes);
    }
    lemma_ahead_at(segments, reader, 0);
    lemma_joined_first(segments);
    assert(segments.skip(1) =~= segments.drop_first());
    assert(segments[0].bytes.skip(0) =~= segments[0].bytes);
}

impl SegmentReader {
    /// A reader at the head of a log.
    pub fn new(from_time: Option<Timestamp>) -> (reader: SegmentReader)
        ensures
            reader == (SegmentReader { segment: 0, offset: 0, from_time }),
    {
        SegmentReader { segment: 0, offset: 0, from_time }
    }

    /// Puts the reader into the segment at `k`, at its head.
    fn enter(&mut self, wal: &Wal, k: usize)
        requires
            wal.wf(),
            k < wal@.segments().len(),
            forall|j: int|
                0 <= j < k ==> (#[trigger] wal@.segments()[j]).id < wal@.segments()[k as int].id,
            pending(wal@, *old(self)) == since(
                joined(wal@.segments().skip(k as int)),
                old(self).from_time,
            ),
        ensures
            *final(self) == (SegmentReader {
                segment: wal@.segments()[k as int].id,
                offset: 0,
                ..*old(self)
            }),
            pending(wal@, *final(self)) == pending(wal@, *old(self)),
    {
        self.segment = wal.at(k).id();
        self.offset = 0;
        proof {
            let segments = wal@.segments();
            lemma_ahead_at(segments, *self, k as int);
            lemma_joined_first(segments.skip(k as int));
            assert(segments.skip(k as int).drop_first() =~= segments.skip(k + 1));
            assert(segments[k as int].bytes.skip(0) =~= segments[k as int].bytes);
        }
    }

    /// Hands out the next event of `wal` whose window does not end before
    /// the reader's time, and moves behind it. Only the frames that it
    /// passes are decoded, and a sealed segment whose latest event time is
    /// before the reader's time is passed over without being read. At the
    /// end of the log there is nothing to hand out; the reader stays there
    /// and goes on when events have been appended.
    pub fn next(&mut self, wal: &Wal) -> (r: Option<GcEvent>)
        requires
            wal.wf(),
        ensures
            final(self).from_time == old(self).from_time,
            on_frame(wal@, *old(self)) ==> on_frame(wal@, *final(self)),
            old(self).segment <= wal@.writer.active.id ==> final(self).segment
                <= wal@.writer.active.id,
            match r {
                Some(event) => pending(wal@, *old(self)) == seq![event@] + pending(
                    wal@,
                    *final(self),
                ),
                None => {
                    &&& pending(wal@, *old(self)) == Seq::<GcEventView>::empty()
                    &&& pending(wal@, *final(self)) == Seq::<GcEventView>::empty()
                },
            },
    {
        let ghost segments = wal@.segments();
        let ghost start = *self;
        let from = self.from_time;
        let count = wal.sealed_count();
        let mut k: usize = 0;
        while k < count && wal.at(k).id() < self.segment
            invariant
                wal.wf(),
                segments == wal@.segments(),
                k <= count == wal@.sealed.len(),
                forall|j: int| 0 <= j < k ==> (#[trigger] segments[j]).id < self.segment,
            decreases count - k,
        {
            k += 1;
        }
        if wal.at(k).id() < self.segment {
            proof {
                assert forall|j: int| 0 <= j < segments.len() implies (#[trigger] segments[j]).id
                    < self.segment by {
                    if j < k {
                    } else {
                        assert(j == k);
                    }
                }
                lemma_ahead_none(segments, *self);
                assert(since(Seq::<GcEventView>::empty(), from) =~= Seq::<GcEventView>::empty());
            }
            return None;
        }
        proof {
            lemma_ahead_at(segments, *self, k as int);
            assert(segments[k as int].intact());
            assert(segments[k as int].bytes.skip(0) =~= segments[k as int].bytes);
        }
        if wal.at(k).id() > self.segment {
            proof {
                lemma_joined_first(segments.skip(k as int));
                assert(segments.skip(k as int).drop_first() =~= segments.skip(k + 1));
                assert forall|j: int| 0 <= j < k implies (#[trigger] segments[j]).id
                    < segments[k as int].id by {}
            }
            self.enter(wal, k);
        }
        loop
            invariant
                wal.wf(),
                segments == wal@.segments(),
                k <= count == wal@.sealed.len(),
                start == *old(self),
                self.from_time == from,
                start.from_time == from,
                segments[k as int].id == self.segment,
                forall|j: int| 0 <= j < k ==> (#[trigger] segments[j]).id < self.segment,
                pending(wal@, start) == pending(wal@, *self),
                on_frame(wal@, start) ==> whole_from(segments[k as int], self.offset as nat),
            decreases
                    count - k,
                    (if self.offset <= segments[k as int].bytes.len() {
                        segments[k as int].bytes.len() - self.offset
                    } else {
                        0
                    }),
        {
            let segment = wal.at(k);
            let ghost here = *self;
            let ghost behind = joined(segments.skip(k + 1));
            proof {
                lemma_ahead_at(segments, here, k as int);
                lemma_since_concat(share(segments[k as int], here), behind, from);
            }
            let pass = k < count && self.offset == 0 && match (from, segment.latest_event_time()) {
                (Some(time), Some(latest)) => latest.before(&time),
                _ => false,
            };
            if pass {
                proof {
                    assert(segments[k as int] == wal@.sealed[k as int]);
                    assert(segments[k as int].intact());
                    assert(segments[k as int].bytes.skip(0) =~= segments[k as int].bytes);
                    lemma_since_after_latest(segments[k as int].events(), from->0);
                }
            } else {
                match segment.read_at(self.offset) {
                    Some((event, next)) => {
                        self.offset = next;
                        proof {
                            if on_frame(wal@, start) {
                                lemma_whole_from_next(
                                    segments[k as int],
                                    here.offset as nat,
                                    next as nat,
                                );
                            }
                            let bytes = segments[k as int].bytes;
                            let found = bytes.skip(here.offset as int);
                            assert(found.skip(next - here.offset) =~= bytes.skip(next as int));
                            assert(share(segments[k as int], here) == seq![event@] + share(
                                segments[k as int],
                                *self,
                            ));
                            lemma_ahead_at(segments, *self, k as int);
                            assert(ahead(segments, here) =~= seq![event@] + ahead(segments, *self));
                            lemma_since_first(event@, ahead(segments, *self), from);
                        }
                        let hand_out = match from {
                            Some(time) => time.at_or_before(&event.end_time.unwrap()),
                            None => true,
                        };
                        if hand_out {
                            proof {
                                lemma_one_segment(segments, *self, k as int);
                                assert(segments[k as int].id <= segments[count as int].id);
                            }
                            return Some(event);
                        }
                        continue ;
                    },
                    None => {
                        proof {
                            assert(share(segments[k as int], here) =~= Seq::<GcEventView>::empty());
                            assert(since(Seq::<GcEventView>::empty(), from) =~= Seq::<
                                GcEventView,
                            >::empty());
                        }
                    },
                }
            }
            proof {
                assert(since(share(segments[k as int], here), from) =~= Seq::<GcEventView>::empty());
                assert(pending(wal@, here) =~= since(behind, from));
            }
            if k == count {
                proof {
                    assert(segments.skip(k + 1) =~= Seq::<SegmentView>::empty());
                    assert(since(behind, from) =~= Seq::<GcEventView>::empty());
                    lemma_one_segment(segments, *self, k as int);
                    assert(segments[k as int] == wal@.writer.active);
                }
                return None;
            }
            proof {
                assert(segments[k + 1].intact());
                assert(segments[k + 1].bytes.skip(0) =~= segments[k + 1].bytes);
                assert forall|j: int| 0 <= j < k + 1 implies (#[trigger] segments[j]).id
                    < segments[k + 1].id by {}
            }
            k += 1;
            self.enter(wal, k);
        }
    }
}

impl Wal {
    /// A reader at the head of the log, for the events whose window does
    /// not end before `from_time`; for all events where no time is given.
    pub fn reader(&self, from_time: Option<Timestamp>) -> (reader: SegmentReader)
        requires
            self.wf(),
        ensures
            reader == (SegmentReader { segment: 0, offset: 0, from_time }),
            pending(self@, reader) == since(self@.events(), from_time),
            on_frame(self@, reader),
    {
        proof {
            lemma_reader_start(self@, from_time);
        }
        SegmentReader::new(from_time)
    }
}

} // verus!
