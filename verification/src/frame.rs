//! Reading frames back: what bytes decode to, and the decoder.

use crate::error::DecodeError;
use crate::event::{
    key_bytes, keys_bytes, keys_fit, keys_view, lemma_payload_len, GcEvent, GcEventView,
    FIXED_PAYLOAD_SIZE, LENGTH_SIZE, MAX_KEY_SIZE, MAX_PAYLOAD_SIZE,
};
use crate::text::string_from_utf8;
use crate::time::{Timestamp, TIMESTAMP_SIZE};
use crate::wire::{
    get_le, le_bytes, le_value, lemma_le_bytes_len, lemma_le_bytes_of_value, lemma_le_value_bound,
    lemma_le_value_of_bytes, lemma_pow256_values,
};
use vstd::prelude::*;
use vstd::slice::{slice_subrange, slice_to_vec};
use vstd::utf8::*;

verus! {

/// Whether `frame` is the frame of `event`, and `event` one that can be written.
pub open spec fn is_frame_of(frame: Seq<u8>, event: GcEventView) -> bool {
    event.valid() && event.frame() == frame
}

/// Whether `bytes` end before their first frame does: before its length is
/// complete, or before the payload that the length announces.
pub open spec fn truncated(bytes: Seq<u8>) -> bool {
    bytes.len() < LENGTH_SIZE || bytes.len() < LENGTH_SIZE + le_value(
        bytes.subrange(0, LENGTH_SIZE as int),
    )
}

/// The first frame of `bytes` that are not truncated: the length and as many
/// bytes as it announces.
pub open spec fn first_frame(bytes: Seq<u8>) -> Seq<u8> {
    bytes.take(LENGTH_SIZE + le_value(bytes.subrange(0, LENGTH_SIZE as int)))
}

/// What the head of `bytes` decodes to: the event whose frame the first
/// frame is, with the size of that frame; `TruncatedFrame` where the bytes
/// end before the frame does; `CorruptFrame` where the frame is complete but
/// no valid event has it as its frame.
#[verifier::opaque]
pub open spec fn decoded(bytes: Seq<u8>) -> Result<(GcEventView, nat), DecodeError> {
    if truncated(bytes) {
        Err(DecodeError::TruncatedFrame)
    } else if exists|event: GcEventView| is_frame_of(first_frame(bytes), event) {
        Ok(
            (
                choose|event: GcEventView| is_frame_of(first_frame(bytes), event),
                first_frame(bytes).len(),
            ),
        )
    } else {
        Err(DecodeError::CorruptFrame)
    }
}

/// What decodes at `at` in `bytes`. Past the end of the bytes there is
/// nothing, which counts as a frame cut short.
pub open spec fn decoded_at(bytes: Seq<u8>, at: nat) -> Result<(GcEventView, nat), DecodeError> {
    if at <= bytes.len() {
        decoded(bytes.skip(at as int))
    } else {
        Err(DecodeError::TruncatedFrame)
    }
}

/// Whether `bytes` are one frame and nothing else.
pub open spec fn is_one_frame(bytes: Seq<u8>) -> bool {
    decoded(bytes) is Ok && decoded(bytes)->Ok_0.1 == bytes.len()
}

/// The keys that `bytes` hold, if they hold exactly `count` keys and nothing else.
spec fn parsed_keys(bytes: Seq<u8>, count: nat) -> Option<Seq<Seq<char>>>
    decreases count,
{
    if count == 0 {
        if bytes.len() == 0 {
            Some(Seq::empty())
        } else {
            None
        }
    } else if bytes.len() < 2 || bytes.len() < 2 + le_value(bytes.subrange(0, 2)) || !valid_utf8(
        bytes.subrange(2, 2 + le_value(bytes.subrange(0, 2)) as int),
    ) {
        None
    } else {
        let n = le_value(bytes.subrange(0, 2)) as int;
        match parsed_keys(bytes.skip(2 + n), (count - 1) as nat) {
            Some(rest) => Some(seq![decode_utf8(bytes.subrange(2, 2 + n))] + rest),
            None => None,
        }
    }
}

/// The event that a payload holds, if it holds one.
spec fn parsed_payload(payload: Seq<u8>) -> Option<GcEventView> {
    if payload.len() < FIXED_PAYLOAD_SIZE {
        None
    } else {
        let start = Timestamp::of_bytes(payload.subrange(0, 12));
        let end = Timestamp::of_bytes(payload.subrange(12, 24));
        if start.instant() > end.instant() {
            None
        } else {
            match parsed_keys(payload.skip(26), le_value(payload.subrange(24, 26))) {
                Some(keys) => Some(
                    GcEventView { start_time: Some(start), end_time: Some(end), keys },
                ),
                None => None,
            }
        }
    }
}

proof fn lemma_parsed_keys_sound(bytes: Seq<u8>, count: nat)
    requires
        parsed_keys(bytes, count) is Some,
    ensures
        parsed_keys(bytes, count)->0.len() == count,
        keys_fit(parsed_keys(bytes, count)->0),
        keys_bytes(parsed_keys(bytes, count)->0) == bytes,
    decreases count,
{
    let keys = parsed_keys(bytes, count)->0;
    if count == 0 {
        assert(keys_bytes(keys) =~= bytes);
    } else {
        let head = bytes.subrange(0, 2);
        let n = le_value(head) as int;
        let raw = bytes.subrange(2, 2 + n);
        let tail = bytes.skip(2 + n);
        let rest = parsed_keys(tail, (count - 1) as nat)->0;
        lemma_parsed_keys_sound(tail, (count - 1) as nat);
        let key = decode_utf8(raw);
        assert(keys == seq![key] + rest);
        decode_utf8_encode_utf8(raw);
        lemma_le_bytes_of_value(head);
        lemma_le_value_bound(head);
        lemma_pow256_values();
        assert(keys.drop_first() =~= rest);
        assert(keys[0] == key);
        assert(key_bytes(key) == head + raw);
        assert(keys_bytes(keys) =~= bytes);
        assert forall|i: int| 0 <= i < keys.len() implies encode_utf8(#[trigger] keys[i]).len()
            <= MAX_KEY_SIZE by {
            if i > 0 {
                assert(keys[i] == rest[i - 1]);
            }
        }
    }
}

proof fn lemma_parsed_keys_complete(keys: Seq<Seq<char>>)
    requires
        keys_fit(keys),
    ensures
        parsed_keys(keys_bytes(keys), keys.len()) == Some(keys),
    decreases keys.len(),
{
    let bytes = keys_bytes(keys);
    if keys.len() == 0 {
        assert(parsed_keys(bytes, 0)->0 =~= keys);
    } else {
        let key = keys[0];
        let raw = encode_utf8(key);
        let rest = keys.drop_first();
        assert(keys_fit(rest)) by {
            assert forall|i: int| 0 <= i < rest.len() implies encode_utf8(#[trigger] rest[i]).len()
                <= MAX_KEY_SIZE by {
                assert(rest[i] == keys[i + 1]);
            }
        }
        lemma_parsed_keys_complete(rest);
        lemma_pow256_values();
        lemma_le_bytes_len(raw.len(), 2);
        lemma_le_value_of_bytes(raw.len(), 2);
        encode_utf8_valid_utf8(key);
        encode_utf8_decode_utf8(key);
        assert(bytes == le_bytes(raw.len(), 2) + raw + keys_bytes(rest));
        assert(bytes.subrange(0, 2) =~= le_bytes(raw.len(), 2));
        assert(bytes.subrange(2, 2 + raw.len() as int) =~= raw);
        assert(bytes.skip(2 + raw.len() as int) =~= keys_bytes(rest));
        assert(seq![key] + rest =~= keys);
    }
}

proof fn lemma_parsed_payload_sound(payload: Seq<u8>)
    requires
        parsed_payload(payload) is Some,
        payload.len() <= MAX_PAYLOAD_SIZE,
    ensures
        parsed_payload(payload)->0.valid(),
        parsed_payload(payload)->0.payload() == payload,
{
    let event = parsed_payload(payload)->0;
    let count = le_value(payload.subrange(24, 26));
    lemma_parsed_keys_sound(payload.skip(26), count);
    Timestamp::lemma_bytes_of_bytes(payload.subrange(0, 12));
    Timestamp::lemma_bytes_of_bytes(payload.subrange(12, 24));
    lemma_le_bytes_of_value(payload.subrange(24, 26));
    lemma_le_value_bound(payload.subrange(24, 26));
    lemma_pow256_values();
    assert(event.payload() =~= payload);
}

proof fn lemma_parsed_payload_complete(event: GcEventView)
    requires
        event.valid(),
    ensures
        parsed_payload(event.payload()) == Some(event),
{
    let payload = event.payload();
    let start = event.start_time->0;
    let end = event.end_time->0;
    lemma_payload_len(event);
    start.lemma_bytes_len();
    end.lemma_bytes_len();
    start.lemma_of_bytes_of();
    end.lemma_of_bytes_of();
    lemma_pow256_values();
    lemma_le_bytes_len(event.keys.len(), 2);
    lemma_le_value_of_bytes(event.keys.len(), 2);
    lemma_parsed_keys_complete(event.keys);
    assert(payload.subrange(0, 12) =~= start.bytes());
    assert(payload.subrange(12, 24) =~= end.bytes());
    assert(payload.subrange(24, 26) =~= le_bytes(event.keys.len(), 2));
    assert(payload.skip(26) =~= keys_bytes(event.keys));
}

/// What `decoded` says of bytes that are not truncated, by way of the payload.
proof fn lemma_decoded_by_payload(bytes: Seq<u8>)
    requires
        !truncated(bytes),
    ensures
        decoded(bytes) == (match parsed_payload(first_frame(bytes).skip(LENGTH_SIZE as int)) {
            Some(event) => Ok::<(GcEventView, nat), DecodeError>((event, first_frame(bytes).len())),
            None => Err(DecodeError::CorruptFrame),
        }),
{
    reveal(decoded);
    let frame = first_frame(bytes);
    let head = bytes.subrange(0, LENGTH_SIZE as int);
    let payload = frame.skip(LENGTH_SIZE as int);
    lemma_le_value_bound(head);
    lemma_le_bytes_of_value(head);
    lemma_pow256_values();
    assert(payload.len() == le_value(head));
    assert(frame.take(LENGTH_SIZE as int) =~= head);
    match parsed_payload(payload) {
        Some(event) => {
            lemma_parsed_payload_sound(payload);
            assert(event.frame() =~= frame);
            assert(is_frame_of(frame, event));
            let chosen = choose|event: GcEventView| is_frame_of(frame, event);
            lemma_frame_unique(frame, event, chosen);
        },
        None => {
            if exists|event: GcEventView| is_frame_of(frame, event) {
                let event = choose|event: GcEventView| is_frame_of(frame, event);
                lemma_payload_len(event);
                lemma_le_bytes_len(event.payload().len(), 4);
                assert(event.frame().skip(LENGTH_SIZE as int) =~= event.payload());
                lemma_parsed_payload_complete(event);
            }
        },
    }
}

/// What `decoded` says of bytes, by way of the length that they announce
/// and of the payload that follows it.
proof fn lemma_decoded_at(bytes: Seq<u8>, size: nat, payload: Seq<u8>)
    requires
        bytes.len() >= LENGTH_SIZE ==> size == le_value(bytes.subrange(0, LENGTH_SIZE as int)),
        bytes.len() >= LENGTH_SIZE + size ==> payload == bytes.subrange(
            LENGTH_SIZE as int,
            LENGTH_SIZE + size,
        ),
    ensures
        decoded(bytes) == (if bytes.len() < LENGTH_SIZE || bytes.len() < LENGTH_SIZE + size {
            Err::<(GcEventView, nat), DecodeError>(DecodeError::TruncatedFrame)
        } else {
            match parsed_payload(payload) {
                Some(event) => Ok((event, (LENGTH_SIZE + size) as nat)),
                None => Err(DecodeError::CorruptFrame),
            }
        }),
{
    reveal(decoded);
    if !truncated(bytes) {
        lemma_decoded_by_payload(bytes);
        assert(first_frame(bytes).skip(LENGTH_SIZE as int) =~= payload);
    }
}

/// No two valid events have the same frame.
pub proof fn lemma_frame_unique(frame: Seq<u8>, a: GcEventView, b: GcEventView)
    requires
        is_frame_of(frame, a),
        is_frame_of(frame, b),
    ensures
        a == b,
{
    lemma_payload_len(a);
    lemma_payload_len(b);
    lemma_le_bytes_len(a.payload().len(), 4);
    lemma_le_bytes_len(b.payload().len(), 4);
    assert(a.frame().skip(LENGTH_SIZE as int) =~= a.payload());
    assert(b.frame().skip(LENGTH_SIZE as int) =~= b.payload());
    lemma_parsed_payload_complete(a);
    lemma_parsed_payload_complete(b);
}

/// Decoding the frame of a valid event gives the event back, whatever
/// follows the frame.
pub proof fn lemma_decode_encode(event: GcEventView, rest: Seq<u8>)
    requires
        event.valid(),
    ensures
        decoded(event.frame() + rest) == Ok::<(GcEventView, nat), DecodeError>(
            (event, event.frame().len()),
        ),
{
    reveal(decoded);
    let bytes = event.frame() + rest;
    let size = event.payload().len();
    lemma_payload_len(event);
    lemma_le_bytes_len(size, 4);
    lemma_pow256_values();
    lemma_le_value_of_bytes(size, 4);
    assert(bytes.subrange(0, LENGTH_SIZE as int) =~= le_bytes(size, 4));
    assert(first_frame(bytes) =~= event.frame());
    assert(is_frame_of(first_frame(bytes), event));
    let chosen = choose|event: GcEventView| is_frame_of(first_frame(bytes), event);
    lemma_frame_unique(first_frame(bytes), event, chosen);
}

/// What decodes is valid and stands at the head of the bytes as its frame.
pub proof fn lemma_decoded_is_frame(bytes: Seq<u8>)
    requires
        decoded(bytes) is Ok,
    ensures
        decoded(bytes)->Ok_0.0.valid(),
        decoded(bytes)->Ok_0.1 == decoded(bytes)->Ok_0.0.frame().len(),
        decoded(bytes)->Ok_0.1 <= bytes.len(),
        bytes.take(decoded(bytes)->Ok_0.1 as int) == decoded(bytes)->Ok_0.0.frame(),
{
    reveal(decoded);
}

/// The three ways in which bytes decode: to `TruncatedFrame` exactly where
/// they end before their first frame does; to an event exactly where the
/// first frame is whole and the frame of a valid event, and then to that
/// event; and to `CorruptFrame` else.
pub proof fn lemma_decoded_cases(bytes: Seq<u8>)
    ensures
        truncated(bytes) <==> decoded(bytes) == Err::<(GcEventView, nat), DecodeError>(
            DecodeError::TruncatedFrame,
        ),
        decoded(bytes) is Ok <==> !truncated(bytes) && exists|event: GcEventView|
            is_frame_of(first_frame(bytes), event),
        decoded(bytes) is Ok ==> is_frame_of(first_frame(bytes), decoded(bytes)->Ok_0.0)
            && decoded(bytes)->Ok_0.1 == first_frame(bytes).len(),
{
    reveal(decoded);
}

/// Bytes too few to hold the smallest frame do not decode.
pub proof fn lemma_short_is_no_frame(bytes: Seq<u8>)
    requires
        bytes.len() < LENGTH_SIZE + FIXED_PAYLOAD_SIZE,
    ensures
        decoded(bytes) is Err,
{
    reveal(decoded);
    if !truncated(bytes) && exists|event: GcEventView| is_frame_of(first_frame(bytes), event) {
        let event = choose|event: GcEventView| is_frame_of(first_frame(bytes), event);
        lemma_payload_len(event);
    }
}

/// A frame cut short is truncated: the bytes of a valid event's frame
/// without its last bytes, however many are cut, decode to `TruncatedFrame`.
pub proof fn lemma_partial_frame_truncated(event: GcEventView, kept: nat)
    requires
        event.valid(),
        kept < event.frame().len(),
    ensures
        decoded(event.frame().take(kept as int)) == Err::<(GcEventView, nat), DecodeError>(
            DecodeError::TruncatedFrame,
        ),
{
    reveal(decoded);
    let part = event.frame().take(kept as int);
    let size = event.payload().len();
    lemma_payload_len(event);
    lemma_le_bytes_len(size, 4);
    lemma_pow256_values();
    lemma_le_value_of_bytes(size, 4);
    if kept >= LENGTH_SIZE {
        assert(part.subrange(0, LENGTH_SIZE as int) =~= le_bytes(size, 4));
    }
}

/// What is known of the keys while they are read: the keys read so far,
/// followed by what the bytes still to read hold.
spec fn keys_so_far(done: Seq<Seq<char>>, rest: Option<Seq<Seq<char>>>) -> Option<Seq<Seq<char>>> {
    match rest {
        Some(rest) => Some(done + rest),
        None => None,
    }
}

/// Reads the `count` keys that follow the fixed part of a payload.
fn read_keys(payload: &[u8], count: usize) -> (r: Option<Vec<String>>)
    requires
        FIXED_PAYLOAD_SIZE <= payload@.len(),
    ensures
        match parsed_keys(payload@.skip(FIXED_PAYLOAD_SIZE as int), count as nat) {
            Some(keys) => r is Some && keys_view(r->0@) == keys,
            None => r is None,
        },
{
    let ghost all = payload@.skip(FIXED_PAYLOAD_SIZE as int);
    let len = payload.len();
    let mut keys: Vec<String> = Vec::new();
    let mut at: usize = FIXED_PAYLOAD_SIZE;
    let mut i: usize = 0;
    assert(keys_view(keys@) + parsed_keys(all, count as nat)->0 =~= parsed_keys(
        all,
        count as nat,
    )->0);
    while i < count
        invariant
            i <= count,
            FIXED_PAYLOAD_SIZE <= at <= len == payload@.len(),
            all == payload@.skip(FIXED_PAYLOAD_SIZE as int),
            parsed_keys(all, count as nat) == keys_so_far(
                keys_view(keys@),
                parsed_keys(payload@.skip(at as int), (count - i) as nat),
            ),
        decreases count - i,
    {
        let ghost here = payload@.skip(at as int);
        if len - at < 2 {
            return None;
        }
        let n = get_le(payload, at, 2);
        proof {
            assert(here.subrange(0, 2) =~= payload@.subrange(at as int, at + 2));
            lemma_le_value_bound(here.subrange(0, 2));
            lemma_pow256_values();
        }
        let n = n as usize;
        if len - at - 2 < n {
            return None;
        }
        let raw = slice_to_vec(slice_subrange(payload, at + 2, at + 2 + n));
        assert(here.subrange(2, 2 + n) =~= raw@);
        assert(here.skip(2 + n) =~= payload@.skip(at + 2 + n));
        match string_from_utf8(raw) {
            None => {
                return None;
            },
            Some(key) => {
                proof {
                    encode_utf8_decode_utf8(key@);
                    let rest = parsed_keys(payload@.skip(at + 2 + n), (count - i - 1) as nat);
                    let done = keys_view(keys@);
                    assert(keys_view(keys@.push(key)) =~= done.push(key@));
                    if rest is Some {
                        assert(done + (seq![key@] + rest->0) =~= done.push(key@) + rest->0);
                    }
                }
                keys.push(key);
            },
        }
        at = at + 2 + n;
        i += 1;
    }
    if at != len {
        return None;
    }
    assert(payload@.skip(at as int) =~= Seq::<u8>::empty());
    assert(keys_view(keys@) + Seq::<Seq<char>>::empty() =~= keys_view(keys@));
    Some(keys)
}

/// Reads the event that a payload holds.
fn read_payload(payload: &[u8]) -> (r: Option<GcEvent>)
    ensures
        match parsed_payload(payload@) {
            Some(event) => r is Some && r->0@ == event,
            None => r is None,
        },
{
    if payload.len() < FIXED_PAYLOAD_SIZE {
        return None;
    }
    let start = Timestamp::read(payload, 0);
    let end = Timestamp::read(payload, TIMESTAMP_SIZE);
    if !start.at_or_before(&end) {
        return None;
    }
    let count = get_le(payload, 2 * TIMESTAMP_SIZE, 2);
    proof {
        lemma_le_value_bound(payload@.subrange(24, 26));
        lemma_pow256_values();
    }
    match read_keys(payload, count as usize) {
        Some(keys) => Some(GcEvent { start_time: Some(start), end_time: Some(end), keys }),
        None => None,
    }
}

impl GcEvent {
    /// Decodes the frame that starts at `at` in `bytes`: the event, and
    /// where the next frame starts. What follows the frame is not looked
    /// at. Past the end of the bytes there is nothing to decode, which
    /// counts as a frame cut short.
    pub fn decode_at(bytes: &[u8], at: usize) -> (r: Result<(GcEvent, usize), DecodeError>)
        ensures
            match decoded_at(bytes@, at as nat) {
                Ok((event, size)) => r is Ok && r->Ok_0.0@ == event && r->Ok_0.1 == at + size,
                Err(e) => r is Err && r->Err_0 == e,
            },
    {
        let ghost here = bytes@.skip(at as int);
        let len = bytes.len();
        if at > len {
            return Err(DecodeError::TruncatedFrame);
        }
        if len - at < LENGTH_SIZE {
            proof {
                lemma_decoded_at(here, 0, Seq::empty());
            }
            return Err(DecodeError::TruncatedFrame);
        }
        let size = get_le(bytes, at, LENGTH_SIZE);
        proof {
            assert(here.subrange(0, LENGTH_SIZE as int) =~= bytes@.subrange(
                at as int,
                at + LENGTH_SIZE,
            ));
            lemma_le_value_bound(here.subrange(0, LENGTH_SIZE as int));
            lemma_pow256_values();
        }
        if ((len - at - LENGTH_SIZE) as u64) < size {
            proof {
                lemma_decoded_at(here, size as nat, Seq::empty());
            }
            return Err(DecodeError::TruncatedFrame);
        }
        let next = at + LENGTH_SIZE + size as usize;
        let payload = slice_subrange(bytes, at + LENGTH_SIZE, next);
        proof {
            assert(here.subrange(LENGTH_SIZE as int, LENGTH_SIZE + size) =~= payload@);
            lemma_decoded_at(here, size as nat, payload@);
        }
        match read_payload(payload) {
            Some(event) => Ok((event, next)),
            None => Err(DecodeError::CorruptFrame),
        }
    }

    /// Decodes the frame at the head of `bytes`. What follows the frame is
    /// not looked at.
    pub fn decode(bytes: &[u8]) -> (r: Result<GcEvent, DecodeError>)
        ensures
            match decoded(bytes@) {
                Ok((event, size)) => r is Ok && r->Ok_0@ == event,
                Err(e) => r is Err && r->Err_0 == e,
            },
    {
        assert(bytes@.skip(0) =~= bytes@);
        match GcEvent::decode_at(bytes, 0) {
            Ok((event, _)) => Ok(event),
            Err(e) => Err(e),
        }
    }
}

} // verus!
