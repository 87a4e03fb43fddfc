//! The garbage-collection event and its frame.
//!
//! A frame is a length on four bytes followed by that many bytes of payload.
//! The payload holds the window's start and its end, twelve bytes each, the
//! number of keys on two bytes, and the keys, each as its length on two bytes
//! followed by its UTF-8 bytes. Every number is written least significant
//! byte first.

use crate::error::WalError;
use crate::time::Timestamp;
use crate::wire::{le_bytes, lemma_le_bytes_len, put_bytes, put_le};
use vstd::prelude::*;
use vstd::utf8::*;

verus! {

/// How many bytes the length at the head of a frame takes.
pub const LENGTH_SIZE: usize = 4;

/// How many bytes of a payload come before its keys.
pub const FIXED_PAYLOAD_SIZE: usize = 26;

/// The most keys that an event can carry.
pub const MAX_KEYS: usize = 0xFFFF;

/// The most bytes that one key can take.
pub const MAX_KEY_SIZE: usize = 0xFFFF;

/// The most bytes that a payload can take.
pub const MAX_PAYLOAD_SIZE: u64 = 0xFFFF_FFFF;

/// The record of one window that was garbage collected.
#[derive(Clone, Debug, PartialEq, Eq)]
pub struct GcEvent {
    /// When the window starts.
    pub start_time: Option<Timestamp>,
    /// When the window ends.
    pub end_time: Option<Timestamp>,
    /// The keys of the window, in order; none for an aligned window.
    pub keys: Vec<String>,
}

/// An event as contracts see it: its keys as sequences of characters.
pub ghost struct GcEventView {
    pub start_time: Option<Timestamp>,
    pub end_time: Option<Timestamp>,
    pub keys: Seq<Seq<char>>,
}

/// The keys as sequences of characters.
pub open spec fn keys_view(keys: Seq<String>) -> Seq<Seq<char>> {
    Seq::new(keys.len(), |i: int| keys[i]@)
}

impl View for GcEvent {
    type V = GcEventView;

    open spec fn view(&self) -> GcEventView {
        GcEventView {
            start_time: self.start_time,
            end_time: self.end_time,
            keys: keys_view(self.keys@),
        }
    }
}

/// One key in a payload: the number of its UTF-8 bytes, then the bytes.
pub open spec fn key_bytes(key: Seq<char>) -> Seq<u8> {
    le_bytes(encode_utf8(key).len(), 2) + encode_utf8(key)
}

/// The keys in a payload, one after the other.
pub open spec fn keys_bytes(keys: Seq<Seq<char>>) -> Seq<u8>
    decreases keys.len(),
{
    if keys.len() == 0 {
        Seq::empty()
    } else {
        key_bytes(keys[0]) + keys_bytes(keys.drop_first())
    }
}

/// Whether every key fits the two bytes that announce its length.
pub open spec fn keys_fit(keys: Seq<Seq<char>>) -> bool {
    forall|i: int| 0 <= i < keys.len() ==> encode_utf8(#[trigger] keys[i]).len() <= MAX_KEY_SIZE
}

impl GcEventView {
    /// Whether the event can be written: it has a start and an end, the
    /// start is not after the end, and its keys and its payload fit the
    /// lengths that the frame announces them with.
    pub open spec fn valid(self) -> bool {
        &&& self.start_time is Some
        &&& self.end_time is Some
        &&& self.start_time->0.instant() <= self.end_time->0.instant()
        &&& self.keys.len() <= MAX_KEYS
        &&& keys_fit(self.keys)
        &&& self.payload().len() <= MAX_PAYLOAD_SIZE
    }

    /// The payload of the event's frame.
    pub open spec fn payload(self) -> Seq<u8> {
        self.start_time->0.bytes() + self.end_time->0.bytes() + le_bytes(self.keys.len(), 2)
            + keys_bytes(self.keys)
    }

    /// The event's frame: the length of the payload, then the payload.
    pub open spec fn frame(self) -> Seq<u8> {
        le_bytes(self.payload().len(), 4) + self.payload()
    }

    /// Whether the window has no keys.
    pub open spec fn aligned(self) -> bool {
        self.keys.len() == 0
    }
}

/// The bytes of keys with one more key behind them are the bytes of the
/// keys, then those of the key.
pub proof fn lemma_keys_bytes_push(keys: Seq<Seq<char>>, key: Seq<char>)
    ensures
        keys_bytes(keys.push(key)) == keys_bytes(keys) + key_bytes(key),
    decreases keys.len(),
{
    if keys.len() == 0 {
        let none = Seq::<Seq<char>>::empty();
        assert(keys.push(key).drop_first() =~= none);
        assert(keys =~= none);
        assert(keys_bytes(none) =~= Seq::<u8>::empty());
        assert(keys_bytes(keys.push(key)) =~= keys_bytes(keys) + key_bytes(key));
    } else {
        lemma_keys_bytes_push(keys.drop_first(), key);
        assert(keys.push(key).drop_first() =~= keys.drop_first().push(key));
        assert(keys_bytes(keys.push(key)) =~= keys_bytes(keys) + key_bytes(key));
    }
}

/// A payload takes twenty-six bytes and those of its keys, and a frame
/// four more than its payload.
pub proof fn lemma_payload_len(event: GcEventView)
    ensures
        event.payload().len() == FIXED_PAYLOAD_SIZE + keys_bytes(event.keys).len(),
        event.frame().len() == LENGTH_SIZE + event.payload().len(),
{
    event.start_time->0.lemma_bytes_len();
    event.end_time->0.lemma_bytes_len();
    lemma_le_bytes_len(event.keys.len(), 2);
    lemma_le_bytes_len(event.payload().len(), 4);
}

impl GcEvent {
    /// Whether the window has no keys.
    pub fn is_aligned(&self) -> (b: bool)
        ensures
            b == self@.aligned(),
    {
        self.keys.len() == 0
    }

    /// How many bytes the payload of the event takes, where the event is
    /// valid; nothing where it is not.
    fn payload_size(&self) -> (size: Option<u64>)
        ensures
            match size {
                Some(size) => self@.valid() && size == self@.payload().len(),
                None => !self@.valid(),
            },
    {
        let (start, end) = match (self.start_time, self.end_time) {
            (Some(start), Some(end)) => (start, end),
            _ => {
                return None;
            },
        };
        if !start.at_or_before(&end) {
            return None;
        }
        let count = self.keys.len();
        if count > MAX_KEYS {
            return None;
        }
        let ghost keys = self@.keys;
        proof {
            lemma_payload_len(self@);
        }
        let mut size: u64 = FIXED_PAYLOAD_SIZE as u64;
        let mut i: usize = 0;
        assert(keys.take(0) =~= Seq::<Seq<char>>::empty());
        while i < count
            invariant
                i <= count == self.keys.len() <= MAX_KEYS,
                keys == self@.keys,
                size == FIXED_PAYLOAD_SIZE + keys_bytes(keys.take(i as int)).len(),
                size <= FIXED_PAYLOAD_SIZE + i * (2 + MAX_KEY_SIZE),
                keys_fit(keys.take(i as int)),
            decreases count - i,
        {
            let n = self.keys[i].as_str().as_bytes().len();
            if n > MAX_KEY_SIZE {
                assert(keys[i as int] == self.keys[i as int]@);
                return None;
            }
            proof {
                lemma_keys_bytes_push(keys.take(i as int), keys[i as int]);
                assert(keys.take(i + 1) =~= keys.take(i as int).push(keys[i as int]));
                lemma_le_bytes_len(encode_utf8(keys[i as int]).len(), 2);
                assert(size + 2 + n <= FIXED_PAYLOAD_SIZE + (i + 1) * (2 + MAX_KEY_SIZE))
                    by (nonlinear_arith)
                    requires
                        size <= FIXED_PAYLOAD_SIZE + i * (2 + MAX_KEY_SIZE),
                        n <= MAX_KEY_SIZE,
                ;
                assert(i * (2 + MAX_KEY_SIZE) <= MAX_KEYS * (2 + MAX_KEY_SIZE))
                    by (nonlinear_arith)
                    requires
                        i <= MAX_KEYS,
                ;
            }
            size = size + 2 + n as u64;
            i += 1;
        }
        assert(keys.take(count as int) =~= keys);
        if size > MAX_PAYLOAD_SIZE {
            return None;
        }
        Some(size)
    }

    /// Whether the event can be written.
    pub fn is_valid(&self) -> (b: bool)
        ensures
            b == self@.valid(),
    {
        self.payload_size().is_some()
    }

    /// The frame of the event, or `InvalidInvariant` where the event is not
    /// valid. Nothing is written for an event that is not valid.
    pub fn encode(&self) -> (r: Result<Vec<u8>, WalError>)
        ensures
            match r {
                Ok(bytes) => self@.valid() && bytes@ == self@.frame(),
                Err(e) => !self@.valid() && e == WalError::InvalidInvariant,
            },
    {
        let size = match self.payload_size() {
            Some(size) => size,
            None => {
                return Err(WalError::InvalidInvariant);
            },
        };
        let start = self.start_time.unwrap();
        let end = self.end_time.unwrap();
        let count = self.keys.len();
        let ghost keys = self@.keys;
        let mut out: Vec<u8> = Vec::new();
        put_le(&mut out, size, 4);
        start.write(&mut out);
        end.write(&mut out);
        put_le(&mut out, count as u64, 2);
        let ghost head = out@;
        assert(head =~= le_bytes(size as nat, 4) + (start.bytes() + end.bytes() + le_bytes(
            count as nat,
            2,
        )));
        let mut i: usize = 0;
        assert(keys_bytes(keys.take(0)) =~= Seq::<u8>::empty());
        while i < count
            invariant
                i <= count == self.keys.len(),
                keys == self@.keys,
                out@ =~= head + keys_bytes(keys.take(i as int)),
            decreases count - i,
        {
            let key = self.keys[i].as_str().as_bytes();
            proof {
                lemma_keys_bytes_push(keys.take(i as int), keys[i as int]);
                assert(keys.take(i + 1) =~= keys.take(i as int).push(keys[i as int]));
            }
            put_le(&mut out, key.len() as u64, 2);
            put_bytes(&mut out, key);
            i += 1;
        }
        assert(keys.take(count as int) =~= keys);
        assert(out@ =~= self@.frame());
        Ok(out)
    }
}

} // verus!
