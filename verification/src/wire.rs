//! Fixed-width little-endian integers, the building block of every record.

use vstd::prelude::*;

verus! {

/// The number of values that `width` bytes can hold.
pub open spec fn pow256(width: nat) -> nat
    decreases width,
{
    if width == 0 {
        1
    } else {
        256 * pow256((width - 1) as nat)
    }
}

/// The `width` low-order bytes of `value`, least significant first.
pub open spec fn le_bytes(value: nat, width: nat) -> Seq<u8>
    decreases width,
{
    if width == 0 {
        Seq::empty()
    } else {
        seq![(value % 256) as u8] + le_bytes(value / 256, (width - 1) as nat)
    }
}

/// The number that `bytes` spell, least significant byte first.
pub open spec fn le_value(bytes: Seq<u8>) -> nat
    decreases bytes.len(),
{
    if bytes.len() == 0 {
        0
    } else {
        bytes[0] as nat + 256 * le_value(bytes.drop_first())
    }
}

/// The unsigned number that stands for `value` in two's complement on `width` bytes.
pub open spec fn to_unsigned(value: int, width: nat) -> nat {
    if value >= 0 {
        value as nat
    } else {
        (value + pow256(width)) as nat
    }
}

/// The signed number that `raw` stands for in two's complement on `width` bytes.
pub open spec fn to_signed(raw: nat, width: nat) -> int {
    if 2 * raw < pow256(width) {
        raw as int
    } else {
        raw - pow256(width)
    }
}

/// The number of values that up to eight bytes can hold.
pub proof fn lemma_pow256_values()
    ensures
        pow256(0) == 1,
        pow256(1) == 0x100,
        pow256(2) == 0x1_0000,
        pow256(3) == 0x100_0000,
        pow256(4) == 0x1_0000_0000,
        pow256(5) == 0x100_0000_0000,
        pow256(6) == 0x1_0000_0000_0000,
        pow256(7) == 0x100_0000_0000_0000,
        pow256(8) == 0x1_0000_0000_0000_0000,
{
    reveal_with_fuel(pow256, 10);
}

/// A number written on `width` bytes takes `width` bytes.
pub proof fn lemma_le_bytes_len(value: nat, width: nat)
    ensures
        le_bytes(value, width).len() == width,
    decreases width,
{
    if width > 0 {
        lemma_le_bytes_len(value / 256, (width - 1) as nat);
    }
}

/// The number that some bytes spell is one of those that so many bytes can hold.
pub proof fn lemma_le_value_bound(bytes: Seq<u8>)
    ensures
        le_value(bytes) < pow256(bytes.len()),
    decreases bytes.len(),
{
    if bytes.len() > 0 {
        lemma_le_value_bound(bytes.drop_first());
    }
}

/// Reading back the bytes of a number that fits gives the number.
pub proof fn lemma_le_value_of_bytes(value: nat, width: nat)
    requires
        value < pow256(width),
    ensures
        le_value(le_bytes(value, width)) == value,
    decreases width,
{
    lemma_le_bytes_len(value, width);
    if width > 0 {
        let rest = le_bytes(value / 256, (width - 1) as nat);
        lemma_le_value_of_bytes(value / 256, (width - 1) as nat);
        assert(le_bytes(value, width).drop_first() =~= rest);
    }
}

/// Writing the number that some bytes spell, on as many bytes, gives the bytes.
pub proof fn lemma_le_bytes_of_value(bytes: Seq<u8>)
    ensures
        le_bytes(le_value(bytes), bytes.len()) == bytes,
    decreases bytes.len(),
{
    if bytes.len() > 0 {
        let rest = bytes.drop_first();
        lemma_le_bytes_of_value(rest);
        let v = le_value(bytes);
        assert(v % 256 == bytes[0] as nat);
        assert(v / 256 == le_value(rest));
        assert(le_bytes(v, bytes.len()) =~= bytes);
    } else {
        assert(le_bytes(le_value(bytes), bytes.len()) =~= bytes);
    }
}

/// More bytes can hold no fewer values.
pub proof fn lemma_pow256_monotonic(small: nat, large: nat)
    requires
        small <= large,
    ensures
        pow256(small) <= pow256(large),
    decreases large,
{
    if small < large {
        lemma_pow256_monotonic(small, (large - 1) as nat);
    }
}

/// Appends the `width` low-order bytes of `value` to `out`, least significant first.
pub fn put_le(out: &mut Vec<u8>, value: u64, width: usize)
    requires
        width <= 8,
    ensures
        final(out)@ == old(out)@ + le_bytes(value as nat, width as nat),
{
    let ghost before = out@;
    let mut rest: u64 = value;
    let mut i: usize = 0;
    assert(out@ + le_bytes(rest as nat, (width - i) as nat) == before + le_bytes(
        value as nat,
        width as nat,
    ));
    while i < width
        invariant
            i <= width <= 8,
            out@ + le_bytes(rest as nat, (width - i) as nat) == before + le_bytes(
                value as nat,
                width as nat,
            ),
        decreases width - i,
    {
        let ghost prev = out@;
        out.push((rest % 256) as u8);
        proof {
            let tail = le_bytes((rest / 256) as nat, (width - i - 1) as nat);
            assert(le_bytes(rest as nat, (width - i) as nat) == seq![(rest % 256) as u8] + tail);
            assert(out@ + tail =~= prev + (seq![(rest % 256) as u8] + tail));
        }
        rest = rest / 256;
        i += 1;
    }
    assert(le_bytes(rest as nat, 0) =~= Seq::<u8>::empty());
    assert(out@ + Seq::<u8>::empty() =~= out@);
}

/// Appends `bytes` to `out`.
pub fn put_bytes(out: &mut Vec<u8>, bytes: &[u8])
    ensures
        final(out)@ == old(out)@ + bytes@,
{
    let ghost before = out@;
    out.extend_from_slice(bytes);
    assert(out@ =~= before + bytes@);
}

/// Reads the number that the `width` bytes of `bytes` from `at` on spell,
/// least significant first.
pub fn get_le(bytes: &[u8], at: usize, width: usize) -> (value: u64)
    requires
        at + width <= bytes@.len(),
        width <= 8,
    ensures
        value == le_value(bytes@.subrange(at as int, at + width)),
{
    let len = bytes.len();
    let mut value: u64 = 0;
    let mut i: usize = width;
    assert(bytes@.subrange(at + i, at + width).len() == 0);
    while i > 0
        invariant
            i <= width <= 8,
            at + width <= bytes@.len() == len,
            value == le_value(bytes@.subrange(at + i, at + width)),
        decreases i,
    {
        i -= 1;
        proof {
            let done = bytes@.subrange(at + i + 1, at + width);
            let next = bytes@.subrange(at + i, at + width);
            lemma_le_value_bound(done);
            lemma_pow256_monotonic(done.len(), 7);
            lemma_pow256_values();
            assert(next.drop_first() =~= done);
            assert(next[0] == bytes@[at + i]);
        }
        value = value * 256 + bytes[at + i] as u64;
    }
    value
}

/// The two's complement of a 64-bit number.
pub fn unsigned_of_i64(value: i64) -> (raw: u64)
    ensures
        raw == to_unsigned(value as int, 8),
{
    proof {
        lemma_pow256_values();
    }
    if value >= 0 {
        value as u64
    } else {
        (value as i128 + 0x1_0000_0000_0000_0000i128) as u64
    }
}

/// The 64-bit number that a two's complement stands for.
pub fn signed_of_u64(raw: u64) -> (value: i64)
    ensures
        value == to_signed(raw as nat, 8),
{
    proof {
        lemma_pow256_values();
    }
    if raw < 0x8000_0000_0000_0000u64 {
        raw as i64
    } else {
        (raw as i128 - 0x1_0000_0000_0000_0000i128) as i64
    }
}

/// The two's complement of a 32-bit number.
pub fn unsigned_of_i32(value: i32) -> (raw: u32)
    ensures
        raw == to_unsigned(value as int, 4),
{
    proof {
        lemma_pow256_values();
    }
    if value >= 0 {
        value as u32
    } else {
        (value as i64 + 0x1_0000_0000i64) as u32
    }
}

/// The 32-bit number that a two's complement stands for.
pub fn signed_of_u32(raw: u32) -> (value: i32)
    ensures
        value == to_signed(raw as nat, 4),
{
    proof {
        lemma_pow256_values();
    }
    if raw < 0x8000_0000u32 {
        raw as i32
    } else {
        (raw as i64 - 0x1_0000_0000i64) as i32
    }
}

} // verus!
