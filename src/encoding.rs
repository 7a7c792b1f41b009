use vstd::prelude::*;

verus! {

// The canonical encoding is a subset of CBOR in which every item head carries its
// argument in the eight-byte form, so that each value has exactly one encoding.
pub const MAJOR_UNSIGNED: u8 = 0;

pub const MAJOR_NEGATIVE: u8 = 1;

pub const MAJOR_BYTES: u8 = 2;

pub const MAJOR_ARRAY: u8 = 4;

/// The additional-information value that announces an eight-byte argument.
pub const EIGHT_BYTE_ARGUMENT: u8 = 27;

/// Eight bytes, most significant first.
pub open spec fn be_u64(n: u64) -> Seq<u8> {
    seq![
        (n >> 56u64) as u8,
        (n >> 48u64) as u8,
        (n >> 40u64) as u8,
        (n >> 32u64) as u8,
        (n >> 24u64) as u8,
        (n >> 16u64) as u8,
        (n >> 8u64) as u8,
        n as u8,
    ]
}

/// The head of an item: its major type and an eight-byte argument.
pub open spec fn head(major: u8, n: u64) -> Seq<u8> {
    seq![(major * 32 + EIGHT_BYTE_ARGUMENT) as u8] + be_u64(n)
}

pub open spec fn enc_u64(n: u64) -> Seq<u8> {
    head(MAJOR_UNSIGNED, n)
}

/// A signed integer: non-negative values as unsigned items, a negative `n` as `-1 - n`.
pub open spec fn enc_i64(n: i64) -> Seq<u8> {
    if n >= 0 {
        head(MAJOR_UNSIGNED, n as u64)
    } else {
        head(MAJOR_NEGATIVE, (-1 - n) as u64)
    }
}

pub open spec fn enc_bytes(b: Seq<u8>) -> Seq<u8> {
    head(MAJOR_BYTES, b.len() as u64) + b
}

pub open spec fn enc_array_head(n: nat) -> Seq<u8> {
    head(MAJOR_ARRAY, n as u64)
}

pub fn write_head(out: &mut Vec<u8>, major: u8, n: u64)
    requires
        major < 8,
    ensures
        final(out)@ == old(out)@ + head(major, n),
{
    out.push(major * 32 + EIGHT_BYTE_ARGUMENT);
    out.push((n >> 56u64) as u8);
    out.push((n >> 48u64) as u8);
    out.push((n >> 40u64) as u8);
    out.push((n >> 32u64) as u8);
    out.push((n >> 24u64) as u8);
    out.push((n >> 16u64) as u8);
    out.push((n >> 8u64) as u8);
    out.push(n as u8);
    assert(final(out)@ =~= old(out)@ + head(major, n));
}

pub fn write_u64(out: &mut Vec<u8>, n: u64)
    ensures
        final(out)@ == old(out)@ + enc_u64(n),
{
    write_head(out, MAJOR_UNSIGNED, n);
}

pub fn write_i64(out: &mut Vec<u8>, n: i64)
    ensures
        final(out)@ == old(out)@ + enc_i64(n),
{
    if n >= 0 {
        write_head(out, MAJOR_UNSIGNED, n as u64);
    } else {
        write_head(out, MAJOR_NEGATIVE, (-1 - n) as u64);
    }
}

pub fn write_array_head(out: &mut Vec<u8>, n: usize)
    ensures
        final(out)@ == old(out)@ + enc_array_head(n as nat),
{
    write_head(out, MAJOR_ARRAY, n as u64);
}

pub fn write_bytes(out: &mut Vec<u8>, b: &[u8])
    ensures
        final(out)@ == old(out)@ + enc_bytes(b@),
{
    write_head(out, MAJOR_BYTES, b.len() as u64);
    let ghost start = out@;
    let mut i: usize = 0;
    while i < b.len()
        invariant
            i <= b@.len(),
            out@ == start + b@.subrange(0, i as int),
        decreases b@.len() - i,
    {
        out.push(b[i]);
        i = i + 1;
        assert(out@ =~= start + b@.subrange(0, i as int));
    }
    assert(b@.subrange(0, b@.len() as int) =~= b@);
}

} // verus!
