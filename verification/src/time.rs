//! Points in time, as the records carry them.

use crate::wire::{
    get_le, le_bytes, le_value, lemma_le_bytes_len, lemma_le_bytes_of_value,
    lemma_le_value_bound, lemma_le_value_of_bytes, lemma_pow256_values, put_le, signed_of_u32,
    signed_of_u64, to_signed, to_unsigned, unsigned_of_i32, unsigned_of_i64,
};
use vstd::prelude::*;

verus! {

/// How many bytes a timestamp takes in a record.
pub const TIMESTAMP_SIZE: usize = 12;

/// A point in time: whole seconds since the Unix epoch and a count of
/// nanoseconds on top of them. Neither part is confined: the point in time is
/// their sum, so `nanos` may be negative or exceed a second.
#[derive(Clone, Copy, Debug, PartialEq, Eq, Hash, Structural)]
pub struct Timestamp {
    pub seconds: i64,
    pub nanos: i32,
}

impl Timestamp {
    /// The point in time, in nanoseconds since the epoch.
    pub open spec fn instant(self) -> int {
        self.seconds * 1_000_000_000 + self.nanos
    }

    /// The twelve bytes of a timestamp in a record: the seconds on eight
    /// bytes, then the nanoseconds on four, each in two's complement, least
    /// significant byte first.
    pub open spec fn bytes(self) -> Seq<u8> {
        le_bytes(to_unsigned(self.seconds as int, 8), 8) + le_bytes(
            to_unsigned(self.nanos as int, 4),
            4,
        )
    }

    /// The timestamp that twelve bytes spell.
    pub open spec fn of_bytes(bytes: Seq<u8>) -> Timestamp {
        Timestamp {
            seconds: to_signed(le_value(bytes.subrange(0, 8)), 8) as i64,
            nanos: to_signed(le_value(bytes.subrange(8, 12)), 4) as i32,
        }
    }

    /// The point in time that is `nanos` nanoseconds after `seconds`
    /// seconds past the epoch.
    pub fn new(seconds: i64, nanos: i32) -> (t: Timestamp)
        ensures
            t == (Timestamp { seconds, nanos }),
    {
        Timestamp { seconds, nanos }
    }

    /// Whether this point in time is `other` or comes before it.
    pub fn at_or_before(&self, other: &Timestamp) -> (b: bool)
        ensures
            b == (self.instant() <= other.instant()),
    {
        let a: i128 = self.seconds as i128 * 1_000_000_000 + self.nanos as i128;
        let b: i128 = other.seconds as i128 * 1_000_000_000 + other.nanos as i128;
        a <= b
    }

    /// Whether this point in time comes before `other`.
    pub fn before(&self, other: &Timestamp) -> (b: bool)
        ensures
            b == (self.instant() < other.instant()),
    {
        let a: i128 = self.seconds as i128 * 1_000_000_000 + self.nanos as i128;
        let b: i128 = other.seconds as i128 * 1_000_000_000 + other.nanos as i128;
        a < b
    }

    /// Appends the twelve bytes of this timestamp to `out`.
    pub fn write(&self, out: &mut Vec<u8>)
        ensures
            final(out)@ == old(out)@ + self.bytes(),
    {
        let ghost before = out@;
        put_le(out, unsigned_of_i64(self.seconds), 8);
        put_le(out, unsigned_of_i32(self.nanos) as u64, 4);
        assert(out@ =~= before + self.bytes());
    }

    /// Reads the timestamp that the twelve bytes of `bytes` from `at` on spell.
    pub fn read(bytes: &[u8], at: usize) -> (t: Timestamp)
        requires
            at + TIMESTAMP_SIZE <= bytes@.len(),
        ensures
            t == Timestamp::of_bytes(bytes@.subrange(at as int, at + TIMESTAMP_SIZE)),
    {
        let ghost field = bytes@.subrange(at as int, at + TIMESTAMP_SIZE);
        let len = bytes.len();
        let seconds = get_le(bytes, at, 8);
        let nanos = get_le(bytes, at + 8, 4);
        proof {
            assert(field.subrange(0, 8) =~= bytes@.subrange(at as int, at + 8));
            assert(field.subrange(8, 12) =~= bytes@.subrange(at + 8, at + 8 + 4));
            lemma_le_value_bound(field.subrange(8, 12));
            lemma_pow256_values();
        }
        Timestamp { seconds: signed_of_u64(seconds), nanos: signed_of_u32(nanos as u32) }
    }

    /// A timestamp takes twelve bytes.
    pub proof fn lemma_bytes_len(self)
        ensures
            self.bytes().len() == TIMESTAMP_SIZE,
    {
        lemma_le_bytes_len(to_unsigned(self.seconds as int, 8), 8);
        lemma_le_bytes_len(to_unsigned(self.nanos as int, 4), 4);
    }

    /// Reading the bytes of a timestamp gives the timestamp.
    pub proof fn lemma_of_bytes_of(self)
        ensures
            Timestamp::of_bytes(self.bytes()) == self,
    {
        let s = to_unsigned(self.seconds as int, 8);
        let n = to_unsigned(self.nanos as int, 4);
        lemma_pow256_values();
        lemma_le_bytes_len(s, 8);
        lemma_le_bytes_len(n, 4);
        lemma_le_value_of_bytes(s, 8);
        lemma_le_value_of_bytes(n, 4);
        assert(self.bytes().subrange(0, 8) =~= le_bytes(s, 8));
        assert(self.bytes().subrange(8, 12) =~= le_bytes(n, 4));
    }

    /// Twelve bytes are the bytes of the timestamp that they spell.
    pub proof fn lemma_bytes_of_bytes(bytes: Seq<u8>)
        requires
            bytes.len() == TIMESTAMP_SIZE,
        ensures
            Timestamp::of_bytes(bytes).bytes() == bytes,
    {
        let hi = bytes.subrange(0, 8);
        let lo = bytes.subrange(8, 12);
        lemma_pow256_values();
        lemma_le_value_bound(hi);
        lemma_le_value_bound(lo);
        lemma_le_bytes_of_value(hi);
        lemma_le_bytes_of_value(lo);
        assert(hi + lo =~= bytes);
    }
}

} // verus!
