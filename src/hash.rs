use vstd::prelude::*;

use crate::u256::U256;

verus! {

/// What SHA-256 gives for a byte string, written as lower-case hexadecimal text.
pub uninterp spec fn sha256_hex(data: Seq<u8>) -> Seq<u8>;

pub open spec fn is_lower_hex(c: u8) -> bool {
    (48 <= c <= 57) || (97 <= c <= 102)
}

pub open spec fn hex_digit(c: u8) -> nat {
    if 48 <= c <= 57 {
        (c - 48) as nat
    } else {
        (c - 87) as nat
    }
}

/// The number that a string of hexadecimal digits spells, most significant first.
pub open spec fn hex_value(s: Seq<u8>) -> nat
    decreases s.len(),
{
    if s.len() == 0 {
        0
    } else {
        hex_value(s.drop_last()) * 16 + hex_digit(s.last())
    }
}

pub open spec fn pow16(n: nat) -> nat
    decreases n,
{
    if n == 0 {
        1
    } else {
        16 * pow16((n - 1) as nat)
    }
}

/// The 256-bit number that 64 hexadecimal digits spell.
pub open spec fn u256_from_hex(s: Seq<u8>) -> U256 {
    U256 {
        w3: hex_value(s.subrange(0, 16)) as u64,
        w2: hex_value(s.subrange(16, 32)) as u64,
        w1: hex_value(s.subrange(32, 48)) as u64,
        w0: hex_value(s.subrange(48, 64)) as u64,
    }
}

/// A SHA-256 digest, read as a big-endian 256-bit number.
#[derive(Clone, Copy, Debug, PartialEq, Eq, Structural)]
pub struct Hash(pub U256);

/// The hash of a byte string.
pub open spec fn hash_of(data: Seq<u8>) -> Hash {
    Hash(u256_from_hex(sha256_hex(data)))
}

/// Relies on `sha256::digest`: the SHA-256 digest of the bytes as 64 lower-case
/// hexadecimal digits (`hex::encode` of the 32-byte digest).
#[verifier::external_body]
fn sha256_hex_digest(data: &[u8]) -> (r: Vec<u8>)
    ensures
        r@ == sha256_hex(data@),
        r@.len() == 64,
        forall|i: int| 0 <= i < 64 ==> is_lower_hex(#[trigger] r@[i]),
{
    sha256::digest(data).into_bytes()
}

/// Reads 16 hexadecimal digits starting at `start`.
fn parse_hex_u64(s: &Vec<u8>, start: usize) -> (r: u64)
    requires
        start + 16 <= s@.len(),
        forall|i: int| 0 <= i < s@.len() ==> is_lower_hex(#[trigger] s@[i]),
    ensures
        r as nat == hex_value(s@.subrange(start as int, start + 16)),
{
    let len = s.len();
    let mut acc: u64 = 0;
    let mut i: usize = 0;
    while i < 16
        invariant
            len == s@.len(),
            start + 16 <= s@.len(),
            forall|j: int| 0 <= j < s@.len() ==> is_lower_hex(#[trigger] s@[j]),
            i <= 16,
            acc as nat == hex_value(s@.subrange(start as int, start + i)),
            acc as nat + 1 <= pow16(i as nat),
        decreases 16 - i,
    {
        let c = s[start + i];
        let d: u64 = if c <= 57 {
            (c - 48) as u64
        } else {
            (c - 87) as u64
        };
        proof {
            reveal_with_fuel(pow16, 17);
            assert(pow16(16) == 0x1_0000_0000_0000_0000nat);
            lemma_pow16_mono(i as nat, 15);
            let sub = s@.subrange(start as int, start + i + 1);
            assert(sub.drop_last() =~= s@.subrange(start as int, start + i));
            assert(sub.last() == c);
            let p = pow16(i as nat);
            assert(acc * 16 + d + 1 <= 16 * p) by (nonlinear_arith)
                requires
                    acc + 1 <= p,
                    d < 16,
            ;
        }
        acc = acc * 16 + d;
        i = i + 1;
    }
    acc
}

proof fn lemma_pow16_mono(a: nat, b: nat)
    requires
        a <= b,
    ensures
        pow16(a) <= pow16(b),
    decreases b - a,
{
    if a < b {
        lemma_pow16_mono(a, (b - 1) as nat);
    }
}

impl Hash {
    /// The SHA-256 hash of a canonical encoding.
    pub fn hash(data: &[u8]) -> (r: Hash)
        ensures
            r == hash_of(data@),
    {
        let hex = sha256_hex_digest(data);
        let w3 = parse_hex_u64(&hex, 0);
        let w2 = parse_hex_u64(&hex, 16);
        let w1 = parse_hex_u64(&hex, 32);
        let w0 = parse_hex_u64(&hex, 48);
        Hash(U256 { w0, w1, w2, w3 })
    }

    /// Whether the hash, as a number, is at most the target.
    pub fn matches_target(&self, target: U256) -> (r: bool)
        ensures
            r == (self.0.value() <= target.value()),
    {
        self.0.le(&target)
    }

    pub fn zero() -> (r: Hash)
        ensures
            r.0.value() == 0,
            r == Hash(U256 { w0: 0, w1: 0, w2: 0, w3: 0 }),
    {
        Hash(U256::zero())
    }

    /// The 32 bytes of the number, least significant first.
    pub fn as_bytes(&self) -> (r: [u8; 32])
        ensures
            r@ == le_bytes(self.0),
    {
        let u = self.0;
        let r = [
            u.w0 as u8, (u.w0 >> 8u64) as u8, (u.w0 >> 16u64) as u8, (u.w0 >> 24u64) as u8,
            (u.w0 >> 32u64) as u8, (u.w0 >> 40u64) as u8, (u.w0 >> 48u64) as u8,
            (u.w0 >> 56u64) as u8, u.w1 as u8, (u.w1 >> 8u64) as u8, (u.w1 >> 16u64) as u8,
            (u.w1 >> 24u64) as u8, (u.w1 >> 32u64) as u8, (u.w1 >> 40u64) as u8,
            (u.w1 >> 48u64) as u8, (u.w1 >> 56u64) as u8, u.w2 as u8, (u.w2 >> 8u64) as u8,
            (u.w2 >> 16u64) as u8, (u.w2 >> 24u64) as u8, (u.w2 >> 32u64) as u8,
            (u.w2 >> 40u64) as u8, (u.w2 >> 48u64) as u8, (u.w2 >> 56u64) as u8, u.w3 as u8,
            (u.w3 >> 8u64) as u8, (u.w3 >> 16u64) as u8, (u.w3 >> 24u64) as u8,
            (u.w3 >> 32u64) as u8, (u.w3 >> 40u64) as u8, (u.w3 >> 48u64) as u8,
            (u.w3 >> 56u64) as u8,
        ];
        assert(r@ =~= le_bytes(self.0));
        r
    }
}

/// Eight bytes of a limb, least significant first.
pub open spec fn le_u64(n: u64) -> Seq<u8> {
    seq![
        n as u8,
        (n >> 8u64) as u8,
        (n >> 16u64) as u8,
        (n >> 24u64) as u8,
        (n >> 32u64) as u8,
        (n >> 40u64) as u8,
        (n >> 48u64) as u8,
        (n >> 56u64) as u8,
    ]
}

pub open spec fn le_bytes(u: U256) -> Seq<u8> {
    le_u64(u.w0) + le_u64(u.w1) + le_u64(u.w2) + le_u64(u.w3)
}

/// A 256-bit number as 32 bytes, most significant first.
pub open spec fn be_bytes(u: U256) -> Seq<u8> {
    crate::encoding::be_u64(u.w3) + crate::encoding::be_u64(u.w2) + crate::encoding::be_u64(
        u.w1,
    ) + crate::encoding::be_u64(u.w0)
}

pub open spec fn enc_u256(u: U256) -> Seq<u8> {
    crate::encoding::enc_bytes(be_bytes(u))
}

pub open spec fn enc_hash(h: Hash) -> Seq<u8> {
    enc_u256(h.0)
}

/// Appends the canonical encoding of a 256-bit number: a 32-byte string, most
/// significant byte first.
pub fn write_u256(out: &mut Vec<u8>, u: &U256)
    ensures
        final(out)@ == old(out)@ + enc_u256(*u),
{
    crate::encoding::write_head(out, crate::encoding::MAJOR_BYTES, 32);
    let ghost start = out@;
    write_be_limb(out, u.w3);
    write_be_limb(out, u.w2);
    write_be_limb(out, u.w1);
    write_be_limb(out, u.w0);
    assert(out@ =~= start + be_bytes(*u));
    assert(be_bytes(*u).len() == 32);
    assert(final(out)@ =~= old(out)@ + enc_u256(*u));
}

fn write_be_limb(out: &mut Vec<u8>, n: u64)
    ensures
        final(out)@ == old(out)@ + crate::encoding::be_u64(n),
{
    out.push((n >> 56u64) as u8);
    out.push((n >> 48u64) as u8);
    out.push((n >> 40u64) as u8);
    out.push((n >> 32u64) as u8);
    out.push((n >> 24u64) as u8);
    out.push((n >> 16u64) as u8);
    out.push((n >> 8u64) as u8);
    out.push(n as u8);
    assert(final(out)@ =~= old(out)@ + crate::encoding::be_u64(n));
}

pub fn write_hash(out: &mut Vec<u8>, h: &Hash)
    ensures
        final(out)@ == old(out)@ + enc_hash(*h),
{
    write_u256(out, &h.0);
}

} // verus!
