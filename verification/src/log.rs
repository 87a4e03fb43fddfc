//! A run of frames as a sequence of events: what a run of events is written
//! as, what can be read back from bytes, and what follows from the two.

use crate::event::{lemma_payload_len, GcEvent, GcEventView};
use crate::frame::{decoded, lemma_decode_encode, lemma_decoded_is_frame};
use crate::time::Timestamp;
use vstd::prelude::*;

verus! {

/// The events of a vector, as contracts see them.
pub open spec fn events_view(events: Seq<GcEvent>) -> Seq<GcEventView> {
    Seq::new(events.len(), |i: int| events[i]@)
}

/// Whether every event of the run can be written.
pub open spec fn all_valid(events: Seq<GcEventView>) -> bool {
    forall|i: int| 0 <= i < events.len() ==> (#[trigger] events[i]).valid()
}

/// The bytes of a run of events: their frames, one after the other.
pub open spec fn log_bytes(events: Seq<GcEventView>) -> Seq<u8>
    decreases events.len(),
{
    if events.len() == 0 {
        Seq::empty()
    } else {
        log_bytes(events.drop_last()) + events.last().frame()
    }
}

/// The events that can be read from the head of `bytes`: frame after frame,
/// up to the first one that does not decode. Nothing after that frame is
/// read, whatever it holds.
pub open spec fn readable(bytes: Seq<u8>) -> Seq<GcEventView>
    decreases bytes.len(),
{
    match decoded(bytes) {
        Ok((event, size)) => if 0 < size <= bytes.len() {
            seq![event] + readable(bytes.skip(size as int))
        } else {
            Seq::empty()
        },
        Err(_) => Seq::empty(),
    }
}

/// How many bytes the readable events of `bytes` take: where the first frame
/// that does not decode starts, or the end of the bytes.
pub open spec fn readable_len(bytes: Seq<u8>) -> nat {
    log_bytes(readable(bytes)).len()
}

/// The later of a time so far, if any, and another time. Of two that name
/// the same instant the one so far stays.
pub open spec fn later(so_far: Option<Timestamp>, time: Timestamp) -> Timestamp {
    match so_far {
        Some(t) => if t.instant() >= time.instant() {
            t
        } else {
            time
        },
        None => time,
    }
}

/// The latest end among the events of a run, if it has any.
pub open spec fn latest_end(events: Seq<GcEventView>) -> Option<Timestamp>
    decreases events.len(),
{
    if events.len() == 0 {
        None
    } else {
        Some(later(latest_end(events.drop_last()), events.last().end_time->0))
    }
}

/// Whether a replay from `from` on hands out `event`: its window does not
/// end before `from`. Without a `from` every event is handed out.
pub open spec fn qualifies(event: GcEventView, from: Option<Timestamp>) -> bool {
    from is Some ==> event.end_time->0.instant() >= from->0.instant()
}

/// The events of a run that a replay from `from` on hands out, in their order.
pub open spec fn since(events: Seq<GcEventView>, from: Option<Timestamp>) -> Seq<GcEventView>
    decreases events.len(),
{
    if events.len() == 0 {
        Seq::empty()
    } else if qualifies(events.last(), from) {
        since(events.drop_last(), from).push(events.last())
    } else {
        since(events.drop_last(), from)
    }
}

/// The bytes of two runs of events, one behind the other, are the bytes
/// of the first, then those of the second.
pub proof fn lemma_log_bytes_concat(a: Seq<GcEventView>, b: Seq<GcEventView>)
    ensures
        log_bytes(a + b) == log_bytes(a) + log_bytes(b),
    decreases b.len(),
{
    if b.len() == 0 {
        assert(a + b =~= a);
        assert(log_bytes(a) + log_bytes(b) =~= log_bytes(a));
    } else {
        lemma_log_bytes_concat(a, b.drop_last());
        assert((a + b).drop_last() =~= a + b.drop_last());
        assert((a + b).last() == b.last());
        assert(log_bytes(a + b) =~= log_bytes(a) + log_bytes(b));
    }
}

/// The bytes of a run of one event are the frame of the event.
pub proof fn lemma_log_bytes_one(event: GcEventView)
    ensures
        log_bytes(seq![event]) == event.frame(),
{
    let none = Seq::<GcEventView>::empty();
    assert(seq![event].drop_last() =~= none);
    assert(log_bytes(none) =~= Seq::<u8>::empty());
    assert(seq![event].last() == event);
    assert(log_bytes(seq![event]) =~= event.frame());
}

/// A run of valid events is read back as it was written, and reading goes
/// on with what follows it.
pub proof fn lemma_readable_log(events: Seq<GcEventView>, rest: Seq<u8>)
    requires
        all_valid(events),
    ensures
        readable(log_bytes(events) + rest) == events + readable(rest),
    decreases events.len(),
{
    if events.len() == 0 {
        assert(log_bytes(events) + rest =~= rest);
        assert(events + readable(rest) =~= readable(rest));
    } else {
        let first = events[0];
        let others = events.drop_first();
        assert(events =~= seq![first] + others);
        lemma_log_bytes_concat(seq![first], others);
        lemma_log_bytes_one(first);
        let bytes = log_bytes(events) + rest;
        assert(bytes =~= first.frame() + (log_bytes(others) + rest));
        lemma_decode_encode(first, log_bytes(others) + rest);
        lemma_payload_len(first);
        assert(bytes.skip(first.frame().len() as int) =~= log_bytes(others) + rest);
        assert(all_valid(others)) by {
            assert forall|i: int| 0 <= i < others.len() implies (#[trigger] others[i]).valid() by {
                assert(others[i] == events[i + 1]);
            }
        }
        lemma_readable_log(others, rest);
        assert(seq![first] + (others + readable(rest)) =~= events + readable(rest));
    }
}

/// What is read from bytes is a run of valid events whose bytes stand at
/// the head of the bytes.
pub proof fn lemma_readable_sound(bytes: Seq<u8>)
    ensures
        all_valid(readable(bytes)),
        readable_len(bytes) <= bytes.len(),
        bytes.take(readable_len(bytes) as int) == log_bytes(readable(bytes)),
    decreases bytes.len(),
{
    match decoded(bytes) {
        Ok((event, size)) => {
            lemma_decoded_is_frame(bytes);
            lemma_payload_len(event);
            let rest = bytes.skip(size as int);
            lemma_readable_sound(rest);
            let tail = readable(rest);
            assert(readable(bytes) == seq![event] + tail);
            lemma_log_bytes_concat(seq![event], tail);
            lemma_log_bytes_one(event);
            assert(bytes.take(readable_len(bytes) as int) =~= bytes.take(size as int) + rest.take(
                readable_len(rest) as int,
            ));
            assert forall|i: int| 0 <= i < readable(bytes).len() implies (#[trigger] readable(
                bytes,
            )[i]).valid() by {
                if i > 0 {
                    assert(readable(bytes)[i] == tail[i - 1]);
                }
            }
        },
        Err(_) => {
            assert(bytes.take(0) =~= log_bytes(Seq::<GcEventView>::empty()));
        },
    }
}

/// Reading stops where the readable events end: the frame that starts
/// there, if any, does not decode.
pub proof fn lemma_readable_stops(bytes: Seq<u8>)
    ensures
        readable_len(bytes) <= bytes.len(),
        decoded(bytes.skip(readable_len(bytes) as int)) is Err,
    decreases bytes.len(),
{
    lemma_readable_sound(bytes);
    match decoded(bytes) {
        Ok((event, size)) => {
            lemma_decoded_is_frame(bytes);
            lemma_payload_len(event);
            let rest = bytes.skip(size as int);
            lemma_readable_stops(rest);
            lemma_readable_sound(rest);
            lemma_log_bytes_concat(seq![event], readable(rest));
            lemma_log_bytes_one(event);
            assert(bytes.skip(readable_len(bytes) as int) =~= rest.skip(
                readable_len(rest) as int,
            ));
        },
        Err(_) => {
            assert(bytes.skip(0) =~= bytes);
        },
    }
}

/// The latest end of a run is the end of one of its events, and no event
/// of the run ends after it.
pub proof fn lemma_latest_end(events: Seq<GcEventView>)
    ensures
        latest_end(events) is Some <==> events.len() > 0,
        forall|i: int|
            0 <= i < events.len() ==> (#[trigger] events[i]).end_time->0.instant() <= latest_end(
                events,
            )->0.instant(),
        events.len() > 0 ==> exists|i: int|
            0 <= i < events.len() && latest_end(events)->0 == (#[trigger] events[i]).end_time->0,
    decreases events.len(),
{
    if events.len() > 0 {
        let before = events.drop_last();
        lemma_latest_end(before);
        let last = events.len() - 1;
        assert forall|i: int| 0 <= i < events.len() implies (#[trigger] events[i]).end_time->0.instant()
            <= latest_end(events)->0.instant() by {
            if i < last {
                assert(events[i] == before[i]);
            }
        }
        if latest_end(events)->0 == events[last].end_time->0 {
        } else {
            let i = choose|i: int|
                0 <= i < before.len() && latest_end(before)->0 == (#[trigger] before[i]).end_time->0;
            assert(events[i] == before[i]);
        }
    }
}

/// A replay of two runs of events, one behind the other, hands out what
/// it hands out of the first, then what it hands out of the second.
pub proof fn lemma_since_concat(a: Seq<GcEventView>, b: Seq<GcEventView>, from: Option<Timestamp>)
    ensures
        since(a + b, from) == since(a, from) + since(b, from),
    decreases b.len(),
{
    if b.len() == 0 {
        assert(a + b =~= a);
        assert(since(a, from) + since(b, from) =~= since(a, from));
    } else {
        lemma_since_concat(a, b.drop_last(), from);
        assert((a + b).drop_last() =~= a + b.drop_last());
        assert((a + b).last() == b.last());
        assert(since(a + b, from) =~= since(a, from) + since(b, from));
    }
}

/// A replay from a time after the latest end of a run hands out none of
/// the run's events.
pub proof fn lemma_since_after_latest(events: Seq<GcEventView>, from: Timestamp)
    requires
        latest_end(events) is Some ==> latest_end(events)->0.instant() < from.instant(),
    ensures
        since(events, Some(from)) == Seq::<GcEventView>::empty(),
    decreases events.len(),
{
    if events.len() > 0 {
        lemma_latest_end(events);
        lemma_latest_end(events.drop_last());
        let last = events.len() - 1;
        assert(events[last].end_time->0.instant() <= latest_end(events)->0.instant());
        assert forall|i: int| 0 <= i < events.len() - 1 implies (#[trigger] events.drop_last()[i]).end_time->0.instant()
            < from.instant() by {
            assert(events.drop_last()[i] == events[i]);
        }
        if events.len() > 1 {
            let i = choose|i: int|
                0 <= i < events.len() - 1 && latest_end(events.drop_last())->0 == (
                #[trigger] events.drop_last()[i]).end_time->0;
        }
        lemma_since_after_latest(events.drop_last(), from);
    }
}

/// A replay without a lower bound hands out every event.
pub proof fn lemma_since_beginning(events: Seq<GcEventView>)
    ensures
        since(events, None) == events,
    decreases events.len(),
{
    if events.len() > 0 {
        lemma_since_beginning(events.drop_last());
        assert(events.drop_last().push(events.last()) =~= events);
    }
}

} // verus!
