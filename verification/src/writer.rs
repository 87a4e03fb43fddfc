//! The writer: the one that appends to the active segment, and that seals
//! it and opens the next when it has grown too large or too old.

use crate::error::WalError;
use crate::event::{GcEvent, GcEventView};

use crate::segment::{lemma_grown, Segment, SegmentState, SegmentView};
use vstd::prelude::*;

verus! {

/// When a segment is sealed and the next one opened.
#[derive(Clone, Copy, Debug, PartialEq, Eq, Structural)]
pub struct WalConfig {
    /// A segment is sealed as soon as it holds more bytes of frames than this.
    pub max_segment_bytes: usize,
    /// A segment that holds an event is sealed as soon as it has been open
    /// for this long, in the unit in which the writer is told the time.
    /// Without it no segment is sealed for its age.
    pub max_segment_age: Option<u64>,
}

/// The writer of a log's active segment.
pub struct SegmentWriter {
    active: Segment,
    config: WalConfig,
    opened_at: u64,
    now: u64,
}

/// A writer as contracts see it.
pub ghost struct WriterView {
    /// The active segment.
    pub active: SegmentView,
    pub config: WalConfig,
    /// The time at which the active segment was opened.
    pub opened_at: u64,
    /// The latest time that the writer was told.
    pub now: u64,
}

/// What an append did.
pub struct Appended {
    /// The segment that took the event.
    pub segment: u64,
    /// The offset of the event's frame in that segment.
    pub offset: usize,
    /// That segment, where the append made the writer seal it.
    pub sealed: Option<Segment>,
}

impl WriterView {
    /// What holds of every writer: its segment is as every segment is, and
    /// active, and was not opened after the latest time told.
    pub open spec fn intact(self) -> bool {
        &&& self.active.intact()
        &&& self.active.state == SegmentState::Active
        &&& self.opened_at <= self.now
    }

    /// Whether the writer seals a segment that has grown to `segment`: it
    /// holds more bytes than a segment may, and a next sequence number exists.
    pub open spec fn full(self, segment: SegmentView) -> bool {
        segment.bytes.len() > self.config.max_segment_bytes && segment.id < u64::MAX
    }

    /// Whether at the time `now` the active segment has been open for as
    /// long as a segment may.
    pub open spec fn due(self, now: u64) -> bool {
        &&& self.config.max_segment_age is Some
        &&& now - self.opened_at >= self.config.max_segment_age->0
    }

    /// Whether the writer seals its segment at the time `now`: the segment
    /// has been open for as long as a segment may, it holds an event, and a
    /// next sequence number exists.
    pub open spec fn aged(self, now: u64) -> bool {
        &&& self.due(now)
        &&& self.active.events().len() > 0
        &&& self.active.id < u64::MAX
    }

    /// The writer after it has sealed a segment: the next segment, empty,
    /// opened at the latest time told.
    pub open spec fn rotated(self) -> WriterView {
        WriterView {
            active: SegmentView::empty((self.active.id + 1) as u64),
            opened_at: self.now,
            ..self
        }
    }
}

impl WriterView {
    /// The writer after it has appended a valid event: the event stands at
    /// the end of the active segment, or, where that made the segment hold
    /// more bytes than a segment may, the segment was sealed and the next
    /// one is active.
    pub open spec fn appended(self, event: GcEventView) -> WriterView {
        let grown = WriterView { active: self.active.grown(event), ..self };
        if self.full(grown.active) {
            grown.rotated()
        } else {
            grown
        }
    }

    /// The writer after it was told the time `now`. A time before the
    /// latest one told counts as that one. A segment that has been open for
    /// as long as a segment may is sealed where it holds an event; where it
    /// holds none it stays, and counts as opened at that time.
    pub open spec fn told(self, now: u64) -> WriterView {
        let time = if now > self.now {
            now
        } else {
            self.now
        };
        let told = WriterView { now: time, ..self };
        if told.aged(time) {
            told.rotated()
        } else if told.due(time) && told.active.events().len() == 0 {
            WriterView { opened_at: time, ..told }
        } else {
            told
        }
    }
}

impl View for SegmentWriter {
    type V = WriterView;

    closed spec fn view(&self) -> WriterView {
        WriterView {
            active: self.active@,
            config: self.config,
            opened_at: self.opened_at,
            now: self.now,
        }
    }
}

impl SegmentWriter {
    /// Whether the writer is as every writer is.
    pub open spec fn wf(&self) -> bool {
        self@.intact()
    }

    /// A writer on a new, empty segment.
    pub fn new(id: u64, config: WalConfig, now: u64) -> (writer: SegmentWriter)
        ensures
            writer.wf(),
            writer@ == (WriterView { active: SegmentView::empty(id), config, opened_at: now, now }),
    {
        SegmentWriter { active: Segment::new(id), config, opened_at: now, now }
    }

    /// A writer that goes on with `segment`. A sealed segment is handed back.
    pub fn resume(segment: Segment, config: WalConfig, now: u64) -> (r: Result<
        SegmentWriter,
        Segment,
    >)
        requires
            segment.wf(),
        ensures
            match r {
                Ok(writer) => {
                    &&& segment@.state == SegmentState::Active
                    &&& writer.wf()
                    &&& writer@ == (WriterView { active: segment@, config, opened_at: now, now })
                },
                Err(back) => segment@.state == SegmentState::Sealed && back == segment,
            },
    {
        if segment.is_sealed() {
            Err(segment)
        } else {
            Ok(SegmentWriter { active: segment, config, opened_at: now, now })
        }
    }

    /// The active segment.
    pub fn active(&self) -> (segment: &Segment)
        ensures
            segment@ == self@.active,
            self.wf() ==> segment.wf(),
    {
        &self.active
    }

    /// When the writer seals a segment.
    pub fn config(&self) -> (config: WalConfig)
        ensures
            config == self@.config,
    {
        self.config
    }

    /// The latest time that the writer was told.
    pub fn now(&self) -> (now: u64)
        ensures
            now == self@.now,
    {
        self.now
    }

    /// Seals the active segment and opens the next one.
    fn rotate(&mut self) -> (sealed: Segment)
        requires
            old(self).wf(),
            old(self)@.active.events().len() > 0,
            old(self)@.active.id < u64::MAX,
        ensures
            final(self).wf(),
            final(self)@ == old(self)@.rotated(),
            sealed.wf(),
            sealed@ == old(self)@.active.sealed(),
    {
        let mut segment = Segment::new(self.active.id() + 1);
        core::mem::swap(&mut self.active, &mut segment);
        let _ = segment.seal();
        self.opened_at = self.now;
        segment
    }

    /// Appends an event to the active segment. Where the segment then holds
    /// more bytes than a segment may, it is sealed and handed out, and the
    /// next segment is opened. An event that is not valid is refused, and
    /// nothing is written.
    pub fn append(&mut self, event: &GcEvent) -> (r: Result<Appended, WalError>)
        requires
            old(self).wf(),
        ensures
            final(self).wf(),
            match r {
                Ok(done) => {
                    let grown = old(self)@.active.grown(event@);
                    &&& event@.valid()
                    &&& final(self)@ == old(self)@.appended(event@)
                    &&& done.segment == old(self)@.active.id
                    &&& done.offset == old(self)@.active.bytes.len()
                    &&& if old(self)@.full(grown) {
                        &&& done.sealed is Some
                        &&& done.sealed->0.wf()
                        &&& done.sealed->0@ == grown.sealed()
                    } else {
                        done.sealed is None
                    }
                },
                Err(e) => {
                    &&& e == WalError::InvalidInvariant
                    &&& !event@.valid()
                    &&& final(self)@ == old(self)@
                },
            },
    {
        let frame = match event.encode() {
            Ok(frame) => frame,
            Err(e) => {
                return Err(e);
            },
        };
        proof {
            lemma_grown(self@.active, event@);
        }
        let segment = self.active.id();
        let offset = match self.active.append(frame.as_slice()) {
            Ok(offset) => offset,
            Err(e) => {
                return Err(e);
            },
        };
        let sealed = if self.active.len() > self.config.max_segment_bytes && segment < u64::MAX {
            Some(self.rotate())
        } else {
            None
        };
        Ok(Appended { segment, offset, sealed })
    }

    /// Tells the writer the time. A time before the latest one told counts
    /// as that one. Where the active segment has been open for as long as a
    /// segment may and holds an event, it is sealed and handed out, and the
    /// next segment is opened; where it holds none, it stays and counts as
    /// opened at that time.
    pub fn tick(&mut self, now: u64) -> (sealed: Option<Segment>)
        requires
            old(self).wf(),
        ensures
            final(self).wf(),
            final(self)@ == old(self)@.told(now),
            if (WriterView { now: final(self)@.now, ..old(self)@ }).aged(final(self)@.now) {
                &&& sealed is Some
                &&& sealed->0.wf()
                &&& sealed->0@ == old(self)@.active.sealed()
            } else {
                sealed is None
            },
    {
        if now > self.now {
            self.now = now;
        }
        let due = match self.config.max_segment_age {
            Some(age) => self.now - self.opened_at >= age,
            None => false,
        };
        if !due {
            None
        } else if self.active.is_empty() {
            self.opened_at = self.now;
            None
        } else if self.active.id() < u64::MAX {
            Some(self.rotate())
        } else {
            None
        }
    }

    /// Closes the writer and hands out its segment: sealed where it holds
    /// an event, and as it is, active and empty, where it holds none.
    pub fn close(self) -> (segment: Segment)
        requires
            self.wf(),
        ensures
            segment.wf(),
            segment@ == (if self@.active.events().len() > 0 {
                self@.active.sealed()
            } else {
                self@.active
            }),
    {
        let mut segment = self.active;
        let _ = segment.seal();
        segment
    }
}

} // verus!
