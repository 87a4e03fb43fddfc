//! One segment of the log: a run of frames that grows while the segment is
//! active and is closed by a footer once the segment is sealed.

use crate::error::WalError;
use crate::event::{GcEvent, GcEventView};
use crate::footer::{Footer, FOOTER_SIZE};
use crate::frame::{decoded, is_one_frame, lemma_decoded_is_frame, lemma_short_is_no_frame};
use crate::log::{
    all_valid, events_view, latest_end, later, lemma_latest_end, lemma_log_bytes_concat,
    lemma_log_bytes_one, lemma_readable_log, lemma_readable_sound, log_bytes, readable,
    readable_len,
};
use crate::scan::{later_of, read_from, survey};
use crate::time::Timestamp;
use crate::wire::put_bytes;
use vstd::prelude::*;
use vstd::slice::{slice_subrange, slice_to_vec};

verus! {

/// The two states of a segment. An active segment takes appends; a sealed
/// one is closed by its footer and never changes again.
#[derive(Clone, Copy, Debug, PartialEq, Eq, Structural)]
pub enum SegmentState {
    Active,
    Sealed,
}

/// One segment of the log.
pub struct Segment {
    id: u64,
    data: Vec<u8>,
    latest: Option<Timestamp>,
    state: SegmentState,
}

/// A segment as contracts see it.
pub ghost struct SegmentView {
    /// The sequence number of the segment: its place in the order in which
    /// the segments of a log were made.
    pub id: u64,
    /// The frames of the segment, without its footer.
    pub bytes: Seq<u8>,
    pub state: SegmentState,
    /// The latest end among the events of the segment.
    pub latest: Option<Timestamp>,
}

impl SegmentView {
    /// The events of the segment, in the order in which they were appended.
    pub open spec fn events(self) -> Seq<GcEventView> {
        readable(self.bytes)
    }

    /// The footer that closes the segment once it is sealed.
    pub open spec fn footer(self) -> Footer {
        Footer { latest_event_time: self.latest }
    }

    /// The segment as it is stored: its frames, and its footer once it is sealed.
    pub open spec fn image(self) -> Seq<u8> {
        if self.state == SegmentState::Sealed {
            self.bytes + self.footer().bytes()
        } else {
            self.bytes
        }
    }

    /// An active segment without events.
    pub open spec fn empty(id: u64) -> SegmentView {
        SegmentView { id, bytes: Seq::empty(), state: SegmentState::Active, latest: None }
    }

    /// The segment with one more event at its end.
    pub open spec fn grown(self, event: GcEventView) -> SegmentView {
        SegmentView {
            bytes: self.bytes + event.frame(),
            latest: Some(later(self.latest, event.end_time->0)),
            ..self
        }
    }

    /// The segment once it is sealed.
    pub open spec fn sealed(self) -> SegmentView {
        SegmentView { state: SegmentState::Sealed, ..self }
    }

    /// What holds of every segment: its bytes are the frames of its
    /// events and nothing else, its latest event time is the latest end
    /// among them, and a sealed segment is not empty.
    pub open spec fn intact(self) -> bool {
        &&& log_bytes(self.events()) == self.bytes
        &&& self.latest == latest_end(self.events())
        &&& self.state == SegmentState::Sealed ==> self.events().len() > 0
    }
}

/// Whether `bytes` are a sealed segment as it is stored: frames that all
/// decode, at least one, and then the footer with the latest end among
/// their events.
pub open spec fn sealed_image(bytes: Seq<u8>) -> bool {
    &&& bytes.len() >= FOOTER_SIZE
    &&& Footer::decoded(bytes.skip(bytes.len() - FOOTER_SIZE)) is Ok
    &&& readable_len(bytes.take(bytes.len() - FOOTER_SIZE)) == bytes.len() - FOOTER_SIZE
    &&& readable(bytes.take(bytes.len() - FOOTER_SIZE)).len() > 0
    &&& Footer::decoded(bytes.skip(bytes.len() - FOOTER_SIZE))->Ok_0.latest_event_time
        == latest_end(readable(bytes.take(bytes.len() - FOOTER_SIZE)))
}

impl View for Segment {
    type V = SegmentView;

    closed spec fn view(&self) -> SegmentView {
        SegmentView { id: self.id, bytes: self.data@, state: self.state, latest: self.latest }
    }
}

/// The events of a run of bytes that is nothing but frames are read back
/// whole, and an empty run has none.
pub proof fn lemma_intact_events(bytes: Seq<u8>)
    requires
        log_bytes(readable(bytes)) == bytes,
    ensures
        all_valid(readable(bytes)),
        readable(bytes).len() == 0 <==> bytes.len() == 0,
{
    lemma_readable_sound(bytes);
    if readable(bytes).len() > 0 {
        let events = readable(bytes);
        crate::event::lemma_payload_len(events.last());
    }
    if bytes.len() == 0 {
        lemma_short_is_no_frame(bytes);
    }
}

/// Appending the frame of one more event to a run of frames appends the
/// event to its events.
pub proof fn lemma_readable_push(bytes: Seq<u8>, frame: Seq<u8>)
    requires
        log_bytes(readable(bytes)) == bytes,
        is_one_frame(frame),
    ensures
        readable(bytes + frame) == readable(bytes).push(decoded(frame)->Ok_0.0),
        log_bytes(readable(bytes + frame)) == bytes + frame,
{
    let events = readable(bytes);
    let event = decoded(frame)->Ok_0.0;
    lemma_readable_sound(bytes);
    lemma_readable_log(events, frame);
    lemma_decoded_is_frame(frame);
    assert(frame.take(frame.len() as int) =~= frame);
    let none = Seq::<u8>::empty();
    assert(frame.skip(frame.len() as int) =~= none);
    lemma_short_is_no_frame(none);
    assert(readable(none) =~= Seq::<GcEventView>::empty());
    assert(readable(frame) =~= seq![event]);
    assert(events + seq![event] =~= events.push(event));
    lemma_log_bytes_concat(events, seq![event]);
    lemma_log_bytes_one(event);
}

impl Segment {
    /// Whether the segment is as every segment is.
    pub open spec fn wf(&self) -> bool {
        self@.intact()
    }

    /// A new segment: active and empty.
    pub fn new(id: u64) -> (segment: Segment)
        ensures
            segment.wf(),
            segment@ == SegmentView::empty(id),
    {
        let segment = Segment {
            id,
            data: Vec::new(),
            latest: None,
            state: SegmentState::Active,
        };
        proof {
            let none = Seq::<u8>::empty();
            assert(segment@.bytes =~= none);
            lemma_short_is_no_frame(none);
            assert(log_bytes(readable(none)) =~= none);
        }
        segment
    }

    /// The sequence number of the segment.
    pub fn id(&self) -> (id: u64)
        ensures
            id == self@.id,
    {
        self.id
    }

    /// How many bytes of frames the segment holds.
    pub fn len(&self) -> (len: usize)
        ensures
            len == self@.bytes.len(),
    {
        self.data.len()
    }

    /// Whether the segment holds no event.
    pub fn is_empty(&self) -> (b: bool)
        requires
            self.wf(),
        ensures
            b == (self@.events().len() == 0),
    {
        proof {
            lemma_intact_events(self@.bytes);
        }
        self.data.len() == 0
    }

    /// Whether the segment is active or sealed.
    pub fn state(&self) -> (state: SegmentState)
        ensures
            state == self@.state,
    {
        self.state
    }

    /// Whether the segment is sealed.
    pub fn is_sealed(&self) -> (b: bool)
        ensures
            b == (self@.state == SegmentState::Sealed),
    {
        match self.state {
            SegmentState::Sealed => true,
            SegmentState::Active => false,
        }
    }

    /// The latest end among the events of the segment, if it has any.
    pub fn latest_event_time(&self) -> (latest: Option<Timestamp>)
        ensures
            latest == self@.latest,
    {
        self.latest
    }

    /// The footer of the segment, once it is sealed.
    pub fn footer(&self) -> (footer: Option<Footer>)
        ensures
            footer == (if self@.state == SegmentState::Sealed {
                Some(self@.footer())
            } else {
                None
            }),
    {
        match self.state {
            SegmentState::Sealed => Some(Footer { latest_event_time: self.latest }),
            SegmentState::Active => None,
        }
    }

    /// The frames of the segment.
    pub fn frames(&self) -> (bytes: &[u8])
        ensures
            bytes@ == self@.bytes,
    {
        self.data.as_slice()
    }

    /// The segment as it is stored: its frames, and its footer once it is sealed.
    pub fn to_bytes(&self) -> (bytes: Vec<u8>)
        ensures
            bytes@ == self@.image(),
    {
        let mut out = slice_to_vec(self.data.as_slice());
        match self.state {
            SegmentState::Sealed => {
                let footer = Footer { latest_event_time: self.latest };
                let tail = footer.encode();
                put_bytes(&mut out, tail.as_slice());
            },
            SegmentState::Active => {},
        }
        out
    }

    /// Appends one frame and gives the offset at which it stands. The
    /// segment has to be active and `frame` one whole frame of a valid
    /// event, or nothing is appended.
    pub fn append(&mut self, frame: &[u8]) -> (r: Result<usize, WalError>)
        requires
            old(self).wf(),
        ensures
            final(self).wf(),
            match r {
                Ok(offset) => {
                    &&& old(self)@.state == SegmentState::Active
                    &&& is_one_frame(frame@)
                    &&& offset == old(self)@.bytes.len()
                    &&& final(self)@ == (SegmentView {
                        bytes: old(self)@.bytes + frame@,
                        latest: Some(
                            later(old(self)@.latest, decoded(frame@)->Ok_0.0.end_time->0),
                        ),
                        ..old(self)@
                    })
                    &&& final(self)@.events() == old(self)@.events().push(decoded(frame@)->Ok_0.0)
                },
                Err(e) => {
                    &&& e == WalError::InvalidInvariant
                    &&& old(self)@.state == SegmentState::Sealed || !is_one_frame(frame@)
                    &&& final(self)@ == old(self)@
                },
            },
    {
        if self.is_sealed() {
            return Err(WalError::InvalidInvariant);
        }
        assert(frame@.skip(0) =~= frame@);
        let event = match GcEvent::decode_at(frame, 0) {
            Ok((event, next)) => {
                if next != frame.len() {
                    return Err(WalError::InvalidInvariant);
                }
                event
            },
            Err(_) => {
                return Err(WalError::InvalidInvariant);
            },
        };
        proof {
            lemma_readable_push(self@.bytes, frame@);
            lemma_decoded_is_frame(frame@);
            let events = self@.events();
            assert(events.push(event@).drop_last() =~= events);
        }
        let offset = self.data.len();
        let latest = later_of(self.latest, event.end_time.unwrap());
        put_bytes(&mut self.data, frame);
        self.latest = Some(latest);
        Ok(offset)
    }

    /// Seals the segment and gives its footer. The segment has to be
    /// active and hold an event, or it stays as it is.
    pub fn seal(&mut self) -> (r: Result<Footer, WalError>)
        requires
            old(self).wf(),
        ensures
            final(self).wf(),
            match r {
                Ok(footer) => {
                    &&& old(self)@.state == SegmentState::Active
                    &&& old(self)@.events().len() > 0
                    &&& final(self)@ == (SegmentView { state: SegmentState::Sealed, ..old(self)@ })
                    &&& footer == final(self)@.footer()
                    &&& footer.latest_event_time == latest_end(old(self)@.events())
                },
                Err(e) => {
                    &&& e == WalError::InvalidInvariant
                    &&& old(self)@.state == SegmentState::Sealed || old(self)@.events().len() == 0
                    &&& final(self)@ == old(self)@
                },
            },
    {
        if self.is_sealed() || self.is_empty() {
            return Err(WalError::InvalidInvariant);
        }
        self.state = SegmentState::Sealed;
        Ok(Footer { latest_event_time: self.latest })
    }

    /// Decodes the frame at `offset`: the event, and the offset of the
    /// next frame. There is nothing to read at the end of the segment, past
    /// it, or where `offset` is not the start of a frame that decodes.
    pub fn read_at(&self, offset: usize) -> (r: Option<(GcEvent, usize)>)
        ensures
            match r {
                Some((event, next)) => {
                    &&& offset <= self@.bytes.len()
                    &&& decoded(self@.bytes.skip(offset as int)) == Ok::<
                        (GcEventView, nat),
                        crate::error::DecodeError,
                    >((event@, (next - offset) as nat))
                    &&& offset < next <= self@.bytes.len()
                    &&& event@.valid()
                },
                None => offset > self@.bytes.len() || decoded(self@.bytes.skip(offset as int))
                    is Err,
            },
    {
        if offset > self.data.len() {
            return None;
        }
        match GcEvent::decode_at(self.data.as_slice(), offset) {
            Ok((event, next)) => {
                proof {
                    lemma_decoded_is_frame(self@.bytes.skip(offset as int));
                    crate::event::lemma_payload_len(event@);
                }
                Some((event, next))
            },
            Err(_) => None,
        }
    }

    /// The events of the segment from `from_offset` on, in order. From an
    /// offset past the end there are none.
    pub fn read_range(&self, from_offset: usize) -> (events: Vec<GcEvent>)
        ensures
            events_view(events@) == (if from_offset <= self@.bytes.len() {
                readable(self@.bytes.skip(from_offset as int))
            } else {
                Seq::empty()
            }),
    {
        read_from(self.data.as_slice(), from_offset)
    }

    /// Opens stored bytes as an active segment: the frames that decode,
    /// from the head up to the first one that does not, are kept, and what
    /// follows them is cut off.
    pub fn open(id: u64, bytes: &[u8]) -> (segment: Segment)
        ensures
            segment.wf(),
            segment@ == (SegmentView {
                id,
                bytes: bytes@.take(readable_len(bytes@) as int),
                state: SegmentState::Active,
                latest: latest_end(readable(bytes@)),
            }),
            segment@.events() == readable(bytes@),
    {
        let found = survey(bytes);
        let data = slice_to_vec(slice_subrange(bytes, 0, found.end));
        proof {
            lemma_readable_sound(bytes@);
            let events = readable(bytes@);
            let none = Seq::<u8>::empty();
            lemma_short_is_no_frame(none);
            lemma_readable_log(events, none);
            assert(log_bytes(events) + none =~= log_bytes(events));
            assert(events + readable(none) =~= events);
            assert(data@ =~= bytes@.take(readable_len(bytes@) as int));
        }
        Segment { id, data, latest: found.latest, state: SegmentState::Active }
    }

    /// Opens stored bytes as a sealed segment, where they are one.
    pub fn open_sealed(id: u64, bytes: &[u8]) -> (r: Option<Segment>)
        ensures
            match r {
                Some(segment) => {
                    &&& sealed_image(bytes@)
                    &&& segment.wf()
                    &&& segment@ == (SegmentView {
                        id,
                        bytes: bytes@.take(bytes@.len() - FOOTER_SIZE),
                        state: SegmentState::Sealed,
                        latest: latest_end(readable(bytes@.take(bytes@.len() - FOOTER_SIZE))),
                    })
                    &&& segment@.image() == bytes@
                },
                None => !sealed_image(bytes@),
            },
    {
        let len = bytes.len();
        if len < FOOTER_SIZE {
            return None;
        }
        let split = len - FOOTER_SIZE;
        let tail = slice_subrange(bytes, split, len);
        assert(tail@ =~= bytes@.skip(split as int));
        let footer = match Footer::decode(tail) {
            Ok(footer) => footer,
            Err(_) => {
                return None;
            },
        };
        let frames = slice_subrange(bytes, 0, split);
        assert(frames@ =~= bytes@.take(split as int));
        let found = survey(frames);
        if found.end != split || found.count == 0 {
            return None;
        }
        match (footer.latest_event_time, found.latest) {
            (Some(a), Some(b)) => {
                if a.seconds != b.seconds || a.nanos != b.nanos {
                    return None;
                }
            },
            _ => {
                return None;
            },
        }
        proof {
            lemma_readable_sound(frames@);
            assert(frames@.take(split as int) =~= frames@);
            Footer::lemma_encode_decode(tail@);
            assert(frames@ + tail@ =~= bytes@);
        }
        Some(
            Segment {
                id,
                data: slice_to_vec(frames),
                latest: found.latest,
                state: SegmentState::Sealed,
            },
        )
    }
}

/// A segment that takes the frame of a valid event stays as every segment
/// is, with the event at the end of its events.
pub proof fn lemma_grown(segment: SegmentView, event: GcEventView)
    requires
        segment.intact(),
        segment.state == SegmentState::Active,
        event.valid(),
    ensures
        is_one_frame(event.frame()),
        decoded(event.frame())->Ok_0.0 == event,
        segment.grown(event).intact(),
        segment.grown(event).events() == segment.events().push(event),
{
    let none = Seq::<u8>::empty();
    crate::frame::lemma_decode_encode(event, none);
    assert(event.frame() + none =~= event.frame());
    lemma_readable_push(segment.bytes, event.frame());
    assert(segment.events().push(event).drop_last() =~= segment.events());
}

/// A sealed segment as it is stored is recognised as one.
pub proof fn lemma_sealed_image(segment: SegmentView)
    requires
        segment.intact(),
        segment.state == SegmentState::Sealed,
    ensures
        sealed_image(segment.image()),
        segment.image().take(segment.image().len() - FOOTER_SIZE) == segment.bytes,
{
    let image = segment.image();
    let footer = segment.footer();
    footer.lemma_bytes_len();
    lemma_latest_end(segment.events());
    footer.lemma_decode_encode();
    assert(image.skip(image.len() - FOOTER_SIZE) =~= footer.bytes());
    assert(image.take(image.len() - FOOTER_SIZE) =~= segment.bytes);
}

} // verus!
