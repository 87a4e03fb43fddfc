//! Walking the frames of a run of bytes.

use crate::event::{lemma_payload_len, GcEvent, GcEventView};
use crate::frame::{decoded, lemma_decoded_is_frame};
use crate::log::{
    events_view, latest_end, later, lemma_log_bytes_concat, lemma_log_bytes_one, log_bytes,
    readable, readable_len,
};
use crate::time::Timestamp;
use vstd::prelude::*;

verus! {

/// What a walk over the frames of some bytes found.
#[derive(Clone, Copy, Debug, PartialEq, Eq, Structural)]
pub struct Survey {
    /// Where the first frame that does not decode starts, or the end of
    /// the bytes: the bytes before it are whole frames, and it is safe to
    /// cut the bytes there.
    pub end: usize,
    /// How many frames stand before `end`.
    pub count: usize,
    /// The latest end among the events of those frames.
    pub latest: Option<Timestamp>,
}

/// The later of a time so far, if any, and another time.
pub fn later_of(so_far: Option<Timestamp>, time: Timestamp) -> (t: Timestamp)
    ensures
        t == later(so_far, time),
{
    match so_far {
        Some(t) => if time.at_or_before(&t) {
            t
        } else {
            time
        },
        None => time,
    }
}

/// Where a frame and the events read before it lead: what is read from
/// `bytes` is `done` followed by what is read from `at` on.
proof fn lemma_walk_step(bytes: Seq<u8>, at: nat, done: Seq<GcEventView>)
    requires
        at <= bytes.len(),
        readable(bytes) == done + readable(bytes.skip(at as int)),
        log_bytes(done).len() == at,
        decoded(bytes.skip(at as int)) is Ok,
    ensures
        ({
            let (event, size) = decoded(bytes.skip(at as int))->Ok_0;
            &&& 0 < size
            &&& at + size <= bytes.len()
            &&& event.valid()
            &&& readable(bytes) == done.push(event) + readable(bytes.skip((at + size) as int))
            &&& log_bytes(done.push(event)).len() == at + size
        }),
{
    let here = bytes.skip(at as int);
    let (event, size) = decoded(here)->Ok_0;
    lemma_decoded_is_frame(here);
    lemma_payload_len(event);
    assert(here.skip(size as int) =~= bytes.skip((at + size) as int));
    assert(done + (seq![event] + readable(here.skip(size as int))) =~= done.push(event) + readable(
        bytes.skip((at + size) as int),
    ));
    assert(done.push(event) =~= done + seq![event]);
    lemma_log_bytes_concat(done, seq![event]);
    lemma_log_bytes_one(event);
}

/// Walks the frames of `bytes` from their head up to the first one that
/// does not decode.
pub fn survey(bytes: &[u8]) -> (s: Survey)
    ensures
        s.end == readable_len(bytes@),
        s.end <= bytes@.len(),
        s.count == readable(bytes@).len(),
        s.latest == latest_end(readable(bytes@)),
{
    let len = bytes.len();
    let mut at: usize = 0;
    let mut count: usize = 0;
    let mut latest: Option<Timestamp> = None;
    let ghost mut done: Seq<GcEventView> = Seq::empty();
    proof {
        assert(bytes@.skip(0) =~= bytes@);
        assert(done + readable(bytes@) =~= readable(bytes@));
    }
    loop
        invariant
            at <= len == bytes@.len(),
            count == done.len(),
            count <= at,
            readable(bytes@) == done + readable(bytes@.skip(at as int)),
            log_bytes(done).len() == at,
            latest == latest_end(done),
        ensures
            at <= len,
            at == readable_len(bytes@),
            count == readable(bytes@).len(),
            latest == latest_end(readable(bytes@)),
        decreases len - at,
    {
        match GcEvent::decode_at(bytes, at) {
            Ok((event, next)) => {
                proof {
                    lemma_walk_step(bytes@, at as nat, done);
                    assert(done.push(event@).drop_last() =~= done);
                    done = done.push(event@);
                }
                latest = Some(later_of(latest, event.end_time.unwrap()));
                count = count + 1;
                at = next;
            },
            Err(_) => {
                assert(done + readable(bytes@.skip(at as int)) =~= done);
                break ;
            },
        }
    }
    Survey { end: at, count, latest }
}

/// Where the first frame of `bytes` that does not decode starts, or the
/// end of `bytes`: the point up to which the bytes are whole frames, and
/// at which they can safely be cut.
pub fn valid_tail(bytes: &[u8]) -> (end: usize)
    ensures
        end == readable_len(bytes@),
        end <= bytes@.len(),
{
    survey(bytes).end
}

/// Reads the events of `bytes` from `from` on, up to the first frame that
/// does not decode. From a place past the end there is nothing to read.
pub fn read_from(bytes: &[u8], from: usize) -> (events: Vec<GcEvent>)
    ensures
        events_view(events@) == (if from <= bytes@.len() {
            readable(bytes@.skip(from as int))
        } else {
            Seq::empty()
        }),
{
    let len = bytes.len();
    let mut events: Vec<GcEvent> = Vec::new();
    if from > len {
        assert(events_view(events@) =~= Seq::<GcEventView>::empty());
        return events;
    }
    let mut at: usize = from;
    let ghost all = readable(bytes@.skip(from as int));
    proof {
        assert(events_view(events@) + all =~= all);
    }
    loop
        invariant
            from <= at <= len == bytes@.len(),
            all == events_view(events@) + readable(bytes@.skip(at as int)),
        ensures
            events_view(events@) == all,
        decreases len - at,
    {
        match GcEvent::decode_at(bytes, at) {
            Ok((event, next)) => {
                proof {
                    let here = bytes@.skip(at as int);
                    lemma_decoded_is_frame(here);
                    lemma_payload_len(event@);
                    assert(here.skip(next - at) =~= bytes@.skip(next as int));
                    assert(events_view(events@.push(event)) =~= events_view(events@).push(event@));
                    assert(events_view(events@) + (seq![event@] + readable(
                        bytes@.skip(next as int),
                    )) =~= events_view(events@).push(event@) + readable(bytes@.skip(next as int)));
                }
                events.push(event);
                at = next;
            },
            Err(_) => {
                assert(events_view(events@) + readable(bytes@.skip(at as int)) =~= events_view(
                    events@,
                ));
                break ;
            },
        }
    }
    events
}

} // verus!
