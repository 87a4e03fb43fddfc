//! The log: its sealed segments in the order in which they were made, and
//! the writer with the one segment that is active.

use crate::error::WalError;
use crate::event::{GcEvent, GcEventView};
use crate::footer::Footer;
use crate::frame::{lemma_decoded_is_frame, lemma_short_is_no_frame};
use crate::log::{
    events_view, latest_end, lemma_latest_end, lemma_since_after_latest, lemma_since_concat,
    readable, since,
};
use crate::segment::{lemma_grown, Segment, SegmentState, SegmentView};
use crate::time::Timestamp;
use crate::writer::{SegmentWriter, WalConfig, WriterView};
use vstd::prelude::*;

verus! {

/// The log.
pub struct Wal {
    sealed: Vec<Segment>,
    writer: SegmentWriter,
}

/// A log as contracts see it.
pub ghost struct WalView {
    /// The sealed segments, oldest first.
    pub sealed: Seq<SegmentView>,
    /// The writer, with the active segment.
    pub writer: WriterView,
}

/// What an append to the log did.
#[derive(Clone, Copy, Debug, PartialEq, Eq, Structural)]
pub struct Receipt {
    /// The segment that took the event.
    pub segment: u64,
    /// The offset of the event's frame in that segment.
    pub offset: usize,
    /// The footer of that segment, where the append sealed it.
    pub sealed: Option<Footer>,
}

/// The segments of a vector, as contracts see them.
pub open spec fn segment_views(segments: Seq<Segment>) -> Seq<SegmentView> {
    Seq::new(segments.len(), |i: int| segments[i]@)
}

/// The events of a run of segments: those of the first, then those of the
/// second, and so on.
pub open spec fn joined(segments: Seq<SegmentView>) -> Seq<GcEventView>
    decreases segments.len(),
{
    if segments.len() == 0 {
        Seq::empty()
    } else {
        joined(segments.drop_last()) + segments.last().events()
    }
}

/// Whether the sequence numbers of a run of segments grow from each
/// segment to the next.
pub open spec fn ids_increase(segments: Seq<SegmentView>) -> bool {
    forall|i: int, j: int|
        #![trigger segments[i], segments[j]]
        0 <= i < j < segments.len() ==> segments[i].id < segments[j].id
}

/// Whether every segment of a run is sealed, and as every segment is.
pub open spec fn all_sealed(segments: Seq<SegmentView>) -> bool {
    forall|i: int|
        0 <= i < segments.len() ==> (#[trigger] segments[i]).intact() && segments[i].state
            == SegmentState::Sealed
}

/// Whether a segment is older than a retention boundary: the latest end
/// among its events is before `before`.
pub open spec fn expired(segment: SegmentView, before: Timestamp) -> bool {
    segment.latest is Some && segment.latest->0.instant() < before.instant()
}

/// Whether a replay from `from` on can pass over a segment without
/// reading it: the latest end among its events is before `from`.
pub open spec fn passed_over(segment: SegmentView, from: Option<Timestamp>) -> bool {
    from is Some && expired(segment, from->0)
}

/// The segments of a run that are not older than a retention boundary, in
/// their order.
pub open spec fn retained(segments: Seq<SegmentView>, before: Timestamp) -> Seq<SegmentView>
    decreases segments.len(),
{
    if segments.len() == 0 {
        Seq::empty()
    } else if expired(segments.last(), before) {
        retained(segments.drop_last(), before)
    } else {
        retained(segments.drop_last(), before).push(segments.last())
    }
}

/// The sequence numbers of the segments of a run that are older than a
/// retention boundary, in their order.
pub open spec fn expired_ids(segments: Seq<SegmentView>, before: Timestamp) -> Seq<u64>
    decreases segments.len(),
{
    if segments.len() == 0 {
        Seq::empty()
    } else if expired(segments.last(), before) {
        expired_ids(segments.drop_last(), before).push(segments.last().id)
    } else {
        expired_ids(segments.drop_last(), before)
    }
}

impl WalView {
    /// The segments of the log, oldest first: the sealed ones, then the
    /// active one.
    pub open spec fn segments(self) -> Seq<SegmentView> {
        self.sealed.push(self.writer.active)
    }

    /// The events of the log, in the order in which they were appended.
    pub open spec fn events(self) -> Seq<GcEventView> {
        joined(self.segments())
    }

    /// The log after a valid event was appended to it. Where that made
    /// the active segment hold more bytes than a segment may, the segment
    /// was sealed and the next one is active.
    pub open spec fn appended(self, event: GcEventView) -> WalView {
        let grown = self.writer.active.grown(event);
        WalView {
            sealed: if self.writer.full(grown) {
                self.sealed.push(grown.sealed())
            } else {
                self.sealed
            },
            writer: self.writer.appended(event),
        }
    }

    /// The log after it was told the time `now`. Where the active segment
    /// had been open for as long as a segment may and held an event, it was
    /// sealed and the next one is active.
    pub open spec fn told(self, now: u64) -> WalView {
        let time = if now > self.writer.now {
            now
        } else {
            self.writer.now
        };
        WalView {
            sealed: if (WriterView { now: time, ..self.writer }).aged(time) {
                self.sealed.push(self.writer.active.sealed())
            } else {
                self.sealed
            },
            writer: self.writer.told(now),
        }
    }

    /// What holds of every log: one segment is active, the one of the
    /// writer, every other is sealed, and the sequence numbers grow.
    pub open spec fn intact(self) -> bool {
        &&& self.writer.intact()
        &&& all_sealed(self.sealed)
        &&& ids_increase(self.segments())
    }
}

impl View for Wal {
    type V = WalView;

    closed spec fn view(&self) -> WalView {
        WalView { sealed: segment_views(self.sealed@), writer: self.writer@ }
    }
}

/// The events of a run of segments with one more segment behind it are
/// the events of the run, then those of the segment.
pub proof fn lemma_joined_push(segments: Seq<SegmentView>, segment: SegmentView)
    ensures
        joined(segments.push(segment)) == joined(segments) + segment.events(),
{
    assert(segments.push(segment).drop_last() =~= segments);
}

/// Reads into `out` the events of `bytes` that a replay from `from` on
/// hands out.
fn collect(bytes: &[u8], from: Option<Timestamp>, out: &mut Vec<GcEvent>)
    ensures
        events_view(final(out)@) == events_view(old(out)@) + since(readable(bytes@), from),
{
    let ghost before = events_view(out@);
    let ghost mut done: Seq<GcEventView> = Seq::empty();
    let len = bytes.len();
    let mut at: usize = 0;
    proof {
        assert(bytes@.skip(0) =~= bytes@);
        assert(done + readable(bytes@) =~= readable(bytes@));
        assert(before + since(done, from) =~= before);
    }
    loop
        invariant
            at <= len == bytes@.len(),
            readable(bytes@) == done + readable(bytes@.skip(at as int)),
            events_view(out@) == before + since(done, from),
        ensures
            events_view(out@) == before + since(readable(bytes@), from),
        decreases len - at,
    {
        match GcEvent::decode_at(bytes, at) {
            Ok((event, next)) => {
                proof {
                    let here = bytes@.skip(at as int);
                    lemma_decoded_is_frame(here);
                    crate::event::lemma_payload_len(event@);
                    assert(here.skip(next - at) =~= bytes@.skip(next as int));
                    assert(done + (seq![event@] + readable(bytes@.skip(next as int)))
                        =~= done.push(event@) + readable(bytes@.skip(next as int)));
                    assert(done.push(event@).drop_last() =~= done);
                    done = done.push(event@);
                }
                let hand_out = match from {
                    Some(time) => time.at_or_before(&event.end_time.unwrap()),
                    None => true,
                };
                if hand_out {
                    proof {
                        assert(events_view(out@.push(event)) =~= events_view(out@).push(event@));
                        assert(before + since(done, from) =~= events_view(out@).push(event@));
                    }
                    out.push(event);
                }
                at = next;
            },
            Err(_) => {
                assert(done + readable(bytes@.skip(at as int)) =~= done);
                break ;
            },
        }
    }
}

impl Wal {
    /// Whether the log is as every log is.
    pub open spec fn wf(&self) -> bool {
        self@.intact()
    }

    /// A log without events: one active segment, the first, and no other.
    pub fn new(config: WalConfig, now: u64) -> (wal: Wal)
        ensures
            wal.wf(),
            wal@ == (WalView {
                sealed: Seq::empty(),
                writer: WriterView { active: SegmentView::empty(0), config, opened_at: now, now },
            }),
            wal@.events() == Seq::<GcEventView>::empty(),
    {
        let wal = Wal { sealed: Vec::new(), writer: SegmentWriter::new(0, config, now) };
        proof {
            assert(wal@.sealed =~= Seq::<SegmentView>::empty());
            lemma_joined_push(wal@.sealed, wal@.writer.active);
            lemma_short_is_no_frame(Seq::<u8>::empty());
            assert(wal@.events() =~= Seq::<GcEventView>::empty());
        }
        wal
    }

    /// How many sealed segments the log has.
    pub fn sealed_count(&self) -> (count: usize)
        ensures
            count == self@.sealed.len(),
    {
        self.sealed.len()
    }

    /// The segment at `index`, counted from the oldest; the active one
    /// comes last.
    pub fn segment(&self, index: usize) -> (segment: Option<&Segment>)
        ensures
            match segment {
                Some(segment) => index < self@.segments().len() && segment@
                    == self@.segments()[index as int] && (self.wf() ==> segment.wf()),
                None => index >= self@.segments().len(),
            },
    {
        if index < self.sealed.len() {
            assert(self@.sealed[index as int] == self.sealed@[index as int]@);
            assert(self@.segments()[index as int] == self@.sealed[index as int]);
            Some(&self.sealed[index])
        } else if index == self.sealed.len() {
            Some(self.writer.active())
        } else {
            None
        }
    }

    /// The segment at `index`, which the log has.
    pub(crate) fn at(&self, index: usize) -> (segment: &Segment)
        requires
            self.wf(),
            index < self@.segments().len(),
        ensures
            segment@ == self@.segments()[index as int],
            segment.wf(),
    {
        if index < self.sealed.len() {
            &self.sealed[index]
        } else {
            self.writer.active()
        }
    }

    /// The active segment.
    pub fn active(&self) -> (segment: &Segment)
        ensures
            segment@ == self@.writer.active,
            self.wf() ==> segment.wf(),
    {
        self.writer.active()
    }

    /// When the log seals a segment.
    pub fn config(&self) -> (config: WalConfig)
        ensures
            config == self@.writer.config,
    {
        self.writer.config()
    }

    /// Takes in a segment that the writer has just sealed.
    fn take_sealed(&mut self, segment: Segment)
        requires
            segment.wf(),
            segment@.state == SegmentState::Sealed,
            old(self).writer.wf(),
            all_sealed(old(self)@.sealed),
            ids_increase(old(self)@.sealed.push(segment@)),
            segment@.id < old(self)@.writer.active.id,
        ensures
            final(self).wf(),
            final(self)@ == (WalView {
                sealed: old(self)@.sealed.push(segment@),
                writer: old(self)@.writer,
            }),
    {
        let ghost before = self@.sealed;
        self.sealed.push(segment);
        proof {
            assert(self@.sealed =~= before.push(segment@));
            let all = self@.segments();
            assert forall|i: int, j: int|
                #![trigger all[i], all[j]]
                0 <= i < j < all.len() implies all[i].id < all[j].id by {
                let with = before.push(segment@);
                if j < with.len() {
                    assert(all[i] == with[i] && all[j] == with[j]);
                } else if i < before.len() {
                    assert(all[i] == with[i]);
                    assert(with[i].id < with[before.len() as int].id);
                }
            }
        }
    }

    /// Puts a log together from its sealed segments and its writer.
    pub(crate) fn from_parts(sealed: Vec<Segment>, writer: SegmentWriter) -> (wal: Wal)
        requires
            writer.wf(),
            all_sealed(segment_views(sealed@)),
            ids_increase(segment_views(sealed@).push(writer@.active)),
        ensures
            wal.wf(),
            wal@ == (WalView { sealed: segment_views(sealed@), writer: writer@ }),
    {
        Wal { sealed, writer }
    }

    /// Removes the sealed segments that are older than `before_time`,
    /// those whose latest event time is before it, and gives their sequence
    /// numbers. The active segment always stays.
    pub fn compact(&mut self, before_time: Timestamp) -> (removed: Vec<u64>)
        requires
            old(self).wf(),
        ensures
            final(self).wf(),
            final(self)@ == (WalView {
                sealed: retained(old(self)@.sealed, before_time),
                ..old(self)@
            }),
            removed@ == expired_ids(old(self)@.sealed, before_time),
    {
        let ghost orig = self@.sealed;
        let ghost writer = self@.writer;
        let mut removed: Vec<u64> = Vec::new();
        let mut i: usize = 0;
        let ghost mut k: int = 0;
        proof {
            assert(orig.take(0) =~= Seq::<SegmentView>::empty());
            assert(orig.skip(0) =~= orig);
            assert(self@.sealed =~= retained(orig.take(0), before_time) + orig.skip(0));
        }
        while i < self.sealed.len()
            invariant
                0 <= k <= orig.len(),
                i == retained(orig.take(k), before_time).len(),
                self@.sealed == retained(orig.take(k), before_time) + orig.skip(k),
                self@.writer == writer,
                removed@ == expired_ids(orig.take(k), before_time),
            decreases orig.len() - k,
        {
            let ghost kept = retained(orig.take(k), before_time);
            let ghost here = self@.sealed;
            assert(here[i as int] == orig[k]);
            assert(self.sealed[i as int]@ == here[i as int]);
            let is_expired = match self.sealed[i].latest_event_time() {
                Some(latest) => latest.before(&before_time),
                None => false,
            };
            proof {
                assert(orig.take(k + 1).drop_last() =~= orig.take(k));
                assert(orig.take(k + 1).last() == orig[k]);
            }
            if is_expired {
                let segment = self.sealed.remove(i);
                removed.push(segment.id());
                proof {
                    assert(self@.sealed =~= here.remove(i as int));
                    assert(here.remove(i as int) =~= kept + orig.skip(k + 1));
                }
            } else {
                i += 1;
                proof {
                    assert(here =~= kept.push(orig[k]) + orig.skip(k + 1));
                }
            }
            proof {
                k = k + 1;
            }
        }
        proof {
            assert(orig.take(k) =~= orig);
            assert(self@.sealed =~= retained(orig, before_time));
            let all = old(self)@.segments();
            assert forall|i: int, j: int|
                #![trigger orig[i], orig[j]]
                0 <= i < j < orig.len() implies orig[i].id < orig[j].id by {
                assert(orig[i] == all[i] && orig[j] == all[j]);
            }
            assert forall|i: int| 0 <= i < orig.len() implies (#[trigger] orig[i]).id
                < writer.active.id by {
                assert(orig[i] == all[i]);
                assert(all[orig.len() as int] == writer.active);
            }
            lemma_retained(orig, before_time, writer.active.id as int);
            let now = self@.segments();
            let kept = retained(orig, before_time);
            assert forall|i: int, j: int|
                #![trigger now[i], now[j]]
                0 <= i < j < now.len() implies now[i].id < now[j].id by {
                if j < kept.len() {
                    assert(now[i] == kept[i] && now[j] == kept[j]);
                } else {
                    assert(now[i] == kept[i]);
                }
            }
        }
        removed
    }

    /// Closes the log and hands out its segments, oldest first. The active
    /// segment comes last: sealed where it holds an event, and as it is,
    /// active and empty, where it holds none.
    pub fn close(self) -> (segments: Vec<Segment>)
        requires
            self.wf(),
        ensures
            segment_views(segments@) == self@.sealed.push(
                if self@.writer.active.events().len() > 0 {
                    self@.writer.active.sealed()
                } else {
                    self@.writer.active
                },
            ),
            forall|i: int| 0 <= i < segments@.len() ==> (#[trigger] segments@[i]).wf(),
    {
        let ghost before = self@.sealed;
        let mut segments = self.sealed;
        let last = self.writer.close();
        proof {
            assert forall|i: int| 0 <= i < segments@.len() implies (#[trigger] segments@[i]).wf() by {
                assert(before[i] == segments@[i]@);
            }
        }
        segments.push(last);
        proof {
            assert(segment_views(segments@) =~= before.push(last@));
        }
        segments
    }

    /// Appends an event to the log. Where the active segment then holds
    /// more bytes than a segment may, it is sealed with the latest end
    /// among its events, and the next segment becomes the active one. An
    /// event that is not valid is refused, and the log stays as it is.
    pub fn append(&mut self, event: &GcEvent) -> (r: Result<Receipt, WalError>)
        requires
            old(self).wf(),
        ensures
            final(self).wf(),
            match r {
                Ok(receipt) => {
                    let grown = old(self)@.writer.active.grown(event@);
                    &&& event@.valid()
                    &&& final(self)@ == old(self)@.appended(event@)
                    &&& final(self)@.events() == old(self)@.events().push(event@)
                    &&& receipt == (Receipt {
                        segment: old(self)@.writer.active.id,
                        offset: old(self)@.writer.active.bytes.len() as usize,
                        sealed: if old(self)@.writer.full(grown) {
                            Some(grown.footer())
                        } else {
                            None
                        },
                    })
                },
                Err(e) => {
                    &&& e == WalError::InvalidInvariant
                    &&& !event@.valid()
                    &&& final(self)@ == old(self)@
                },
            },
    {
        let ghost before = self@;
        let done = match self.writer.append(event) {
            Ok(done) => done,
            Err(e) => {
                return Err(e);
            },
        };
        proof {
            lemma_appended(before, event@);
            let grown = before.writer.active.grown(event@);
            if before.writer.full(grown) {
                let sealed = before.sealed.push(grown.sealed());
                let all = before.appended(event@).segments();
                assert forall|i: int, j: int|
                    #![trigger sealed[i], sealed[j]]
                    0 <= i < j < sealed.len() implies sealed[i].id < sealed[j].id by {
                    assert(sealed[i] == all[i] && sealed[j] == all[j]);
                }
            }
        }
        match done.sealed {
            Some(segment) => {
                let footer = segment.footer();
                self.take_sealed(segment);
                Ok(Receipt { segment: done.segment, offset: done.offset, sealed: footer })
            },
            None => Ok(Receipt { segment: done.segment, offset: done.offset, sealed: None }),
        }
    }

    /// Tells the log the time. A time before the latest one told counts as
    /// that one. Where the active segment has been open for as long as a
    /// segment may and holds an event, it is sealed, and the next segment
    /// becomes the active one; where it holds none, it stays and counts as
    /// opened at that time. The events of the log stay as they are.
    pub fn tick(&mut self, now: u64) -> (sealed: Option<Footer>)
        requires
            old(self).wf(),
        ensures
            final(self).wf(),
            final(self)@ == old(self)@.told(now),
            final(self)@.events() == old(self)@.events(),
            sealed == (if final(self)@.sealed.len() > old(self)@.sealed.len() {
                Some(old(self)@.writer.active.footer())
            } else {
                None
            }),
    {
        let ghost before = self@;
        let rotated = self.writer.tick(now);
        proof {
            lemma_told(before, now);
            if rotated is Some {
                let sealed = before.sealed.push(before.writer.active.sealed());
                let all = before.told(now).segments();
                assert forall|i: int, j: int|
                    #![trigger sealed[i], sealed[j]]
                    0 <= i < j < sealed.len() implies sealed[i].id < sealed[j].id by {
                    assert(sealed[i] == all[i] && sealed[j] == all[j]);
                }
            }
        }
        match rotated {
            Some(segment) => {
                let footer = segment.footer();
                self.take_sealed(segment);
                footer
            },
            None => None,
        }
    }

    /// The events of the log whose window does not end before `from_time`,
    /// in the order in which they were appended; all of them where no time
    /// is given. A sealed segment whose latest event time is before
    /// `from_time` is passed over without being read.
    pub fn replay(&self, from_time: Option<Timestamp>) -> (events: Vec<GcEvent>)
        requires
            self.wf(),
        ensures
            events_view(events@) == since(self@.events(), from_time),
            from_time is None ==> events_view(events@) == self@.events(),
    {
        proof {
            crate::log::lemma_since_beginning(self@.events());
        }
        let mut out: Vec<GcEvent> = Vec::new();
        let count = self.sealed.len();
        let ghost sealed = self@.sealed;
        let mut k: usize = 0;
        proof {
            assert(sealed.take(0) =~= Seq::<SegmentView>::empty());
            assert(events_view(out@) =~= since(joined(sealed.take(0)), from_time));
        }
        while k < count
            invariant
                k <= count == self.sealed.len(),
                sealed == self@.sealed,
                self.wf(),
                events_view(out@) == since(joined(sealed.take(k as int)), from_time),
            decreases count - k,
        {
            let segment = &self.sealed[k];
            proof {
                assert(sealed.take(k + 1) =~= sealed.take(k as int).push(sealed[k as int]));
                lemma_joined_push(sealed.take(k as int), sealed[k as int]);
                lemma_since_concat(
                    joined(sealed.take(k as int)),
                    sealed[k as int].events(),
                    from_time,
                );
                assert(sealed[k as int].intact());
            }
            let skip = match (from_time, segment.latest_event_time()) {
                (Some(from), Some(latest)) => latest.before(&from),
                _ => false,
            };
            if skip {
                proof {
                    lemma_since_after_latest(sealed[k as int].events(), from_time->0);
                    assert(events_view(out@) + Seq::<GcEventView>::empty() =~= events_view(out@));
                }
            } else {
                collect(segment.frames(), from_time, &mut out);
            }
            k += 1;
        }
        proof {
            assert(sealed.take(count as int) =~= sealed);
            lemma_joined_push(sealed, self@.writer.active);
            lemma_since_concat(joined(sealed), self@.writer.active.events(), from_time);
        }
        collect(self.writer.active().frames(), from_time, &mut out);
        out
    }
}

/// An append keeps the log as every log is and puts the event at the end
/// of its events, whether or not a segment is sealed on the way.
pub proof fn lemma_appended(wal: WalView, event: GcEventView)
    requires
        wal.intact(),
        event.valid(),
    ensures
        wal.appended(event).intact(),
        wal.appended(event).events() == wal.events().push(event),
{
    let active = wal.writer.active;
    let grown = active.grown(event);
    let after = wal.appended(event);
    let all = wal.segments();
    lemma_grown(active, event);
    lemma_joined_push(wal.sealed, active);
    lemma_joined_push(wal.sealed, grown);
    assert(joined(wal.sealed) + active.events().push(event) =~= (joined(wal.sealed)
        + active.events()).push(event));
    let now = after.segments();
    if wal.writer.full(grown) {
        let sealed = wal.sealed.push(grown.sealed());
        let next = SegmentView::empty((grown.id + 1) as u64);
        lemma_joined_push(wal.sealed, grown.sealed());
        lemma_joined_push(sealed, next);
        lemma_short_is_no_frame(Seq::<u8>::empty());
        assert(joined(sealed) + next.events() =~= joined(sealed));
        assert(crate::log::log_bytes(Seq::<GcEventView>::empty()) =~= Seq::<u8>::empty());
        assert forall|i: int, j: int|
            #![trigger now[i], now[j]]
            0 <= i < j < now.len() implies now[i].id < now[j].id by {
            if j < sealed.len() {
                assert(now[i].id == all[i].id && now[j].id == all[j].id);
            } else {
                assert(now[i].id == all[i].id);
                assert(all[i].id <= all[wal.sealed.len() as int].id);
            }
        }
        assert forall|i: int| 0 <= i < sealed.len() implies (#[trigger] sealed[i]).intact()
            && sealed[i].state == SegmentState::Sealed by {
            if i < wal.sealed.len() {
                assert(sealed[i] == wal.sealed[i]);
            }
        }
    } else {
        assert forall|i: int, j: int|
            #![trigger now[i], now[j]]
            0 <= i < j < now.len() implies now[i].id < now[j].id by {
            assert(now[i].id == all[i].id && now[j].id == all[j].id);
        }
    }
}

/// Telling the log the time keeps it as every log is and keeps its
/// events, whether or not a segment is sealed on the way.
pub proof fn lemma_told(wal: WalView, now: u64)
    requires
        wal.intact(),
    ensures
        wal.told(now).intact(),
        wal.told(now).events() == wal.events(),
{
    let active = wal.writer.active;
    let after = wal.told(now);
    let all = wal.segments();
    let then = after.segments();
    lemma_joined_push(wal.sealed, active);
    if after.sealed.len() > wal.sealed.len() {
        let sealed = wal.sealed.push(active.sealed());
        let next = SegmentView::empty((active.id + 1) as u64);
        lemma_joined_push(wal.sealed, active.sealed());
        lemma_joined_push(sealed, next);
        lemma_short_is_no_frame(Seq::<u8>::empty());
        assert(joined(sealed) + next.events() =~= joined(sealed));
        assert(crate::log::log_bytes(Seq::<GcEventView>::empty()) =~= Seq::<u8>::empty());
        assert forall|i: int, j: int|
            #![trigger then[i], then[j]]
            0 <= i < j < then.len() implies then[i].id < then[j].id by {
            if j < sealed.len() {
                assert(then[i].id == all[i].id && then[j].id == all[j].id);
            } else {
                assert(then[i].id == all[i].id);
                assert(all[i].id <= all[wal.sealed.len() as int].id);
            }
        }
        assert forall|i: int| 0 <= i < sealed.len() implies (#[trigger] sealed[i]).intact()
            && sealed[i].state == SegmentState::Sealed by {
            if i < wal.sealed.len() {
                assert(sealed[i] == wal.sealed[i]);
            }
        }
    } else {
        assert(then =~= all);
    }
}

/// When an append makes the active segment hold more bytes than a segment
/// may, the log gains one sealed segment, the one that was active, and has
/// one active segment, the next one, empty. The footer of the sealed
/// segment names the latest end among its events: no event of the segment
/// ends after it, and one of them ends at it.
pub proof fn lemma_rotation(wal: WalView, event: GcEventView)
    requires
        wal.intact(),
        event.valid(),
        wal.writer.full(wal.writer.active.grown(event)),
    ensures
        ({
            let sealed = wal.writer.active.grown(event).sealed();
            let after = wal.appended(event);
            let latest = sealed.footer().latest_event_time;
            &&& after.intact()
            &&& after.sealed == wal.sealed.push(sealed)
            &&& after.writer.active == SegmentView::empty((sealed.id + 1) as u64)
            &&& sealed.events() == wal.writer.active.events().push(event)
            &&& latest == latest_end(sealed.events())
            &&& latest is Some
            &&& forall|i: int|
                0 <= i < sealed.events().len() ==> (#[trigger] sealed.events()[i]).end_time->0.instant()
                    <= latest->0.instant()
            &&& exists|i: int|
                0 <= i < sealed.events().len() && latest->0 == (
                #[trigger] sealed.events()[i]).end_time->0
        }),
{
    lemma_appended(wal, event);
    lemma_grown(wal.writer.active, event);
    lemma_latest_end(wal.writer.active.grown(event).events());
}

/// The log that holds the events of a run and nothing else: the empty
/// log with the events appended one after the other.
pub open spec fn written(config: WalConfig, now: u64, events: Seq<GcEventView>) -> WalView
    decreases events.len(),
{
    if events.len() == 0 {
        WalView {
            sealed: Seq::empty(),
            writer: WriterView { active: SegmentView::empty(0), config, opened_at: now, now },
        }
    } else {
        written(config, now, events.drop_last()).appended(events.last())
    }
}

/// A log to which valid events were appended holds those events in the
/// order in which they were appended, however many segments they were
/// spread over; and a replay from the beginning hands out just them.
pub proof fn lemma_written(config: WalConfig, now: u64, events: Seq<GcEventView>)
    requires
        crate::log::all_valid(events),
    ensures
        written(config, now, events).intact(),
        written(config, now, events).events() == events,
        since(written(config, now, events).events(), None) == events,
    decreases events.len(),
{
    crate::log::lemma_since_beginning(events);
    if events.len() == 0 {
        let wal = written(config, now, events);
        lemma_joined_push(wal.sealed, wal.writer.active);
        lemma_short_is_no_frame(Seq::<u8>::empty());
        assert(wal.events() =~= events);
        assert(crate::log::log_bytes(Seq::<GcEventView>::empty()) =~= Seq::<u8>::empty());
    } else {
        let rest = events.drop_last();
        assert forall|i: int| 0 <= i < rest.len() implies (#[trigger] rest[i]).valid() by {
            assert(rest[i] == events[i]);
        }
        lemma_written(config, now, rest);
        lemma_appended(written(config, now, rest), events.last());
        assert(rest.push(events.last()) =~= events);
    }
}

/// A sealed segment that a replay passes over holds no event that the
/// replay hands out.
pub proof fn lemma_passed_over(segment: SegmentView, from: Option<Timestamp>)
    requires
        segment.intact(),
        passed_over(segment, from),
    ensures
        since(segment.events(), from) == Seq::<GcEventView>::empty(),
{
    lemma_since_after_latest(segment.events(), from->0);
}

/// A replay that passes over every sealed segment whose footer names a
/// time before `from` hands out what a replay that reads every segment
/// hands out.
pub proof fn lemma_footer_pruning(wal: WalView, from: Timestamp)
    requires
        wal.intact(),
    ensures
        since((WalView { sealed: retained(wal.sealed, from), ..wal }).events(), Some(from))
            == since(wal.events(), Some(from)),
{
    lemma_compact_keeps_replay(wal, from, from);
}

/// The segments that a compaction keeps are sealed and in order as those
/// that it started from, and none of them has a sequence number that the
/// others all stay under.
pub proof fn lemma_retained(segments: Seq<SegmentView>, before: Timestamp, bound: int)
    requires
        all_sealed(segments),
        ids_increase(segments),
        forall|i: int| 0 <= i < segments.len() ==> (#[trigger] segments[i]).id < bound,
    ensures
        all_sealed(retained(segments, before)),
        ids_increase(retained(segments, before)),
        forall|i: int|
            0 <= i < retained(segments, before).len() ==> (#[trigger] retained(
                segments,
                before,
            )[i]).id < bound,
    decreases segments.len(),
{
    if segments.len() > 0 {
        let last = segments.last();
        let rest = segments.drop_last();
        assert forall|i: int| 0 <= i < rest.len() implies (#[trigger] rest[i]).id < last.id by {
            assert(rest[i] == segments[i]);
        }
        assert forall|i: int, j: int|
            #![trigger rest[i], rest[j]]
            0 <= i < j < rest.len() implies rest[i].id < rest[j].id by {
            assert(rest[i] == segments[i] && rest[j] == segments[j]);
        }
        assert forall|i: int| 0 <= i < rest.len() implies (#[trigger] rest[i]).intact() && rest[i].state
            == SegmentState::Sealed by {
            assert(rest[i] == segments[i]);
        }
        lemma_retained(rest, before, last.id as int);
        lemma_retained(rest, before, bound);
    }
}

/// A replay from the retention boundary of a compaction on, or from any
/// later time, hands out after the compaction what it handed out before.
pub proof fn lemma_compact_keeps_replay(wal: WalView, before: Timestamp, from: Timestamp)
    requires
        wal.intact(),
        before.instant() <= from.instant(),
    ensures
        since((WalView { sealed: retained(wal.sealed, before), ..wal }).events(), Some(from))
            == since(wal.events(), Some(from)),
{
    lemma_retained_since(wal.sealed, before, from);
    lemma_joined_push(wal.sealed, wal.writer.active);
    lemma_joined_push(retained(wal.sealed, before), wal.writer.active);
    lemma_since_concat(joined(wal.sealed), wal.writer.active.events(), Some(from));
    lemma_since_concat(
        joined(retained(wal.sealed, before)),
        wal.writer.active.events(),
        Some(from),
    );
}

proof fn lemma_retained_since(segments: Seq<SegmentView>, before: Timestamp, from: Timestamp)
    requires
        all_sealed(segments),
        before.instant() <= from.instant(),
    ensures
        since(joined(retained(segments, before)), Some(from)) == since(
            joined(segments),
            Some(from),
        ),
    decreases segments.len(),
{
    if segments.len() > 0 {
        let last = segments.last();
        let rest = segments.drop_last();
        assert forall|i: int| 0 <= i < rest.len() implies (#[trigger] rest[i]).intact() && rest[i].state
            == SegmentState::Sealed by {
            assert(rest[i] == segments[i]);
        }
        lemma_retained_since(rest, before, from);
        lemma_since_concat(joined(rest), last.events(), Some(from));
        assert(last.intact());
        if expired(last, before) {
            lemma_since_after_latest(last.events(), from);
            assert(since(joined(rest), Some(from)) + Seq::<GcEventView>::empty() =~= since(
                joined(rest),
                Some(from),
            ));
        } else {
            lemma_joined_push(retained(rest, before), last);
            lemma_since_concat(joined(retained(rest, before)), last.events(), Some(from));
        }
    }
}

/// The sequence number of a segment is at least the number of segments
/// before it.
pub proof fn lemma_ids_bound(segments: Seq<SegmentView>, index: int)
    requires
        ids_increase(segments),
        0 <= index < segments.len(),
    ensures
        index <= segments[index].id,
    decreases index,
{
    if index > 0 {
        lemma_ids_bound(segments, index - 1);
        assert(segments[index - 1].id < segments[index].id);
    }
}

} // verus!
