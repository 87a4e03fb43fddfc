//! The footer that closes a sealed segment.
//!
//! A footer takes sixteen bytes: a marker on four, then the latest event
//! time of the segment on twelve. The marker tells a footer that seals a
//! segment from one that was laid down for a segment still open. Neither
//! marker is the length of a payload that a frame can have with what a
//! footer holds behind it, so a footer is never taken for a frame.

use crate::error::DecodeError;
use crate::frame::{
    decoded, first_frame, lemma_decoded_cases, lemma_short_is_no_frame, truncated,
};
use crate::time::Timestamp;
use crate::wire::{
    get_le, le_bytes, le_value, lemma_le_bytes_len, lemma_le_bytes_of_value,
    lemma_le_value_of_bytes, lemma_pow256_values, put_le,
};
use vstd::prelude::*;

verus! {

/// How many bytes a footer takes.
pub const FOOTER_SIZE: usize = 16;

/// How many bytes the marker at the head of a footer takes.
pub const MARKER_SIZE: usize = 4;

/// The marker of a footer that seals a segment.
pub const SEALED_MARKER: u32 = 0xFFFF_FFFF;

/// The marker of a footer that seals nothing.
pub const UNSEALED_MARKER: u32 = 0;

/// What a sealed segment ends with.
#[derive(Clone, Copy, Debug, PartialEq, Eq, Structural)]
pub struct Footer {
    /// The latest end among the events of the segment. A footer without it
    /// seals nothing.
    pub latest_event_time: Option<Timestamp>,
}

impl Footer {
    /// The sixteen bytes of the footer. Without a latest event time they
    /// are the marker of a footer that seals nothing and twelve zero bytes.
    pub open spec fn bytes(self) -> Seq<u8> {
        match self.latest_event_time {
            Some(time) => le_bytes(SEALED_MARKER as nat, 4) + time.bytes(),
            None => le_bytes(UNSEALED_MARKER as nat, 4) + (Timestamp {
                seconds: 0,
                nanos: 0,
            }).bytes(),
        }
    }

    /// What `bytes` decode to as a footer: the footer with the time that
    /// the last twelve bytes spell, where the bytes are sixteen and start
    /// with the marker of a sealed segment; `TruncatedFrame` where they are
    /// fewer than sixteen; `CorruptFrame` where they are more, or start with
    /// any other marker.
    pub open spec fn decoded(bytes: Seq<u8>) -> Result<Footer, DecodeError> {
        if bytes.len() < FOOTER_SIZE {
            Err(DecodeError::TruncatedFrame)
        } else if bytes.len() == FOOTER_SIZE && le_value(bytes.subrange(0, MARKER_SIZE as int))
            == SEALED_MARKER {
            Ok(
                Footer {
                    latest_event_time: Some(
                        Timestamp::of_bytes(
                            bytes.subrange(MARKER_SIZE as int, FOOTER_SIZE as int),
                        ),
                    ),
                },
            )
        } else {
            Err(DecodeError::CorruptFrame)
        }
    }

    /// Whether the footer seals a segment.
    pub fn is_sealed(&self) -> (b: bool)
        ensures
            b == self.latest_event_time is Some,
    {
        self.latest_event_time.is_some()
    }

    /// The sixteen bytes of the footer.
    pub fn encode(&self) -> (bytes: Vec<u8>)
        ensures
            bytes@ == self.bytes(),
            bytes@.len() == FOOTER_SIZE,
    {
        let mut out: Vec<u8> = Vec::new();
        proof {
            self.lemma_bytes_len();
        }
        match self.latest_event_time {
            Some(time) => {
                put_le(&mut out, SEALED_MARKER as u64, 4);
                time.write(&mut out);
            },
            None => {
                let zero = Timestamp { seconds: 0, nanos: 0 };
                put_le(&mut out, UNSEALED_MARKER as u64, 4);
                zero.write(&mut out);
            },
        }
        assert(out@ =~= self.bytes());
        out
    }

    /// Reads `bytes` as a footer.
    pub fn decode(bytes: &[u8]) -> (r: Result<Footer, DecodeError>)
        ensures
            r == Footer::decoded(bytes@),
    {
        if bytes.len() < FOOTER_SIZE {
            return Err(DecodeError::TruncatedFrame);
        }
        if bytes.len() > FOOTER_SIZE {
            return Err(DecodeError::CorruptFrame);
        }
        let marker = get_le(bytes, 0, MARKER_SIZE);
        if marker != SEALED_MARKER as u64 {
            return Err(DecodeError::CorruptFrame);
        }
        let time = Timestamp::read(bytes, MARKER_SIZE);
        Ok(Footer { latest_event_time: Some(time) })
    }

    /// A footer takes sixteen bytes.
    pub proof fn lemma_bytes_len(self)
        ensures
            self.bytes().len() == FOOTER_SIZE,
    {
        lemma_le_bytes_len(SEALED_MARKER as nat, 4);
        lemma_le_bytes_len(UNSEALED_MARKER as nat, 4);
        (Timestamp { seconds: 0, nanos: 0 }).lemma_bytes_len();
        if self.latest_event_time is Some {
            self.latest_event_time->0.lemma_bytes_len();
        }
    }

    /// The bytes of a footer that seals a segment decode to the footer;
    /// those of a footer that seals nothing do not decode.
    pub proof fn lemma_decode_encode(self)
        ensures
            self.latest_event_time is Some ==> Footer::decoded(self.bytes()) == Ok::<
                Footer,
                DecodeError,
            >(self),
            self.latest_event_time is None ==> Footer::decoded(self.bytes()) == Err::<
                Footer,
                DecodeError,
            >(DecodeError::CorruptFrame),
    {
        self.lemma_bytes_len();
        lemma_pow256_values();
        let bytes = self.bytes();
        match self.latest_event_time {
            Some(time) => {
                time.lemma_bytes_len();
                time.lemma_of_bytes_of();
                lemma_le_bytes_len(SEALED_MARKER as nat, 4);
                lemma_le_value_of_bytes(SEALED_MARKER as nat, 4);
                assert(bytes.subrange(MARKER_SIZE as int, FOOTER_SIZE as int) =~= time.bytes());
                assert(bytes.subrange(0, MARKER_SIZE as int) =~= le_bytes(SEALED_MARKER as nat, 4));
            },
            None => {
                let zero = Timestamp { seconds: 0, nanos: 0 };
                zero.lemma_bytes_len();
                lemma_le_bytes_len(UNSEALED_MARKER as nat, 4);
                lemma_le_value_of_bytes(UNSEALED_MARKER as nat, 4);
                assert(bytes.subrange(0, MARKER_SIZE as int) =~= le_bytes(
                    UNSEALED_MARKER as nat,
                    4,
                ));
            },
        }
    }

    /// A footer is never taken for a frame: with whatever follows it, short
    /// of four gigabytes, the bytes of a footer do not decode as a frame.
    pub proof fn lemma_no_frame(self, rest: Seq<u8>)
        requires
            FOOTER_SIZE + rest.len() < MARKER_SIZE + SEALED_MARKER,
        ensures
            decoded(self.bytes() + rest) is Err,
    {
        let bytes = self.bytes() + rest;
        self.lemma_bytes_len();
        lemma_pow256_values();
        lemma_decoded_cases(bytes);
        match self.latest_event_time {
            Some(time) => {
                lemma_le_bytes_len(SEALED_MARKER as nat, 4);
                lemma_le_value_of_bytes(SEALED_MARKER as nat, 4);
                assert(bytes.subrange(0, MARKER_SIZE as int) =~= le_bytes(SEALED_MARKER as nat, 4));
                assert(truncated(bytes));
            },
            None => {
                lemma_le_bytes_len(UNSEALED_MARKER as nat, 4);
                lemma_le_value_of_bytes(UNSEALED_MARKER as nat, 4);
                assert(bytes.subrange(0, MARKER_SIZE as int) =~= le_bytes(
                    UNSEALED_MARKER as nat,
                    4,
                ));
                lemma_short_is_no_frame(first_frame(bytes));
                if decoded(bytes) is Ok {
                    let event = decoded(bytes)->Ok_0.0;
                    crate::event::lemma_payload_len(event);
                }
            },
        }
    }

    /// Bytes that decode as a footer are the bytes of that footer.
    pub proof fn lemma_encode_decode(bytes: Seq<u8>)
        requires
            Footer::decoded(bytes) is Ok,
        ensures
            Footer::decoded(bytes)->Ok_0.bytes() == bytes,
            Footer::decoded(bytes)->Ok_0.latest_event_time is Some,
    {
        let marker = bytes.subrange(0, MARKER_SIZE as int);
        let time = bytes.subrange(MARKER_SIZE as int, FOOTER_SIZE as int);
        Timestamp::lemma_bytes_of_bytes(time);
        lemma_le_bytes_of_value(marker);
        assert(marker + time =~= bytes);
    }
}

} // verus!
