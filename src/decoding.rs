use vstd::prelude::*;

use crate::encoding::{
    be_u64, enc_array_head, enc_bytes, enc_i64, enc_u64, head, EIGHT_BYTE_ARGUMENT, MAJOR_ARRAY,
    MAJOR_BYTES, MAJOR_NEGATIVE, MAJOR_UNSIGNED,
};

use crate::block::{enc_block, enc_header, enc_transactions, same_transaction, Block, BlockHeader, MerkleRoot};
use crate::crypto::{PublicKey, Signature};
use crate::hash::{be_bytes, enc_hash, enc_u256};
use crate::time::{enc_timestamp, Timestamp};
use crate::transaction::{
    enc_input, enc_inputs, enc_output, enc_outputs, enc_transaction, enc_u128, Transaction,
    TransactionInput, TransactionOutput,
};
use crate::u256::U256;

verus! {

/// The number that eight bytes starting at `p` spell, most significant first.
pub open spec fn be_value(b: Seq<u8>, p: int) -> u64 {
    ((b[p] as u64) << 56u64) | ((b[p + 1] as u64) << 48u64) | ((b[p + 2] as u64) << 40u64) | ((
    b[p + 3] as u64) << 32u64) | ((b[p + 4] as u64) << 24u64) | ((b[p + 5] as u64) << 16u64) | ((
    b[p + 6] as u64) << 8u64) | (b[p + 7] as u64)
}

/// Whether the bytes from `p` on begin with `e`.
pub open spec fn starts_with_at(b: Seq<u8>, p: int, e: Seq<u8>) -> bool {
    0 <= p && p + e.len() <= b.len() && b.subrange(p, p + e.len()) == e
}

proof fn lemma_be_round_trip(n: u64)
    ensures
        be_value(be_u64(n), 0) == n,
{
    let s = be_u64(n);
    assert(be_value(s, 0) == ((((n >> 56u64) as u8) as u64) << 56u64) | ((((n >> 48u64) as u8)
        as u64) << 48u64) | ((((n >> 40u64) as u8) as u64) << 40u64) | ((((n >> 32u64) as u8)
        as u64) << 32u64) | ((((n >> 24u64) as u8) as u64) << 24u64) | ((((n >> 16u64) as u8)
        as u64) << 16u64) | ((((n >> 8u64) as u8) as u64) << 8u64) | ((n as u8) as u64));
    assert(((((n >> 56u64) as u8) as u64) << 56u64) | ((((n >> 48u64) as u8) as u64) << 48u64) | ((
    ((n >> 40u64) as u8) as u64) << 40u64) | ((((n >> 32u64) as u8) as u64) << 32u64) | ((((n
        >> 24u64) as u8) as u64) << 24u64) | ((((n >> 16u64) as u8) as u64) << 16u64) | ((((n
        >> 8u64) as u8) as u64) << 8u64) | ((n as u8) as u64) == n) by (bit_vector);
}

/// Reading eight bytes inside a longer sequence reads them as if alone.
proof fn lemma_be_value_at(b: Seq<u8>, p: int, n: u64)
    requires
        starts_with_at(b, p, be_u64(n)),
    ensures
        be_value(b, p) == n,
{
    let s = b.subrange(p, p + 8);
    assert forall|i: int| 0 <= i < 8 implies b[p + i] == be_u64(n)[i] by {
        assert(s[i] == b[p + i]);
    }
    lemma_be_round_trip(n);
}

/// Reads the eight bytes at `p`.
fn read_be_u64(b: &[u8], p: usize) -> (r: u64)
    requires
        p + 8 <= b@.len(),
    ensures
        r == be_value(b@, p as int),
{
    ((b[p] as u64) << 56u64) | ((b[p + 1] as u64) << 48u64) | ((b[p + 2] as u64) << 40u64) | ((
    b[p + 3] as u64) << 32u64) | ((b[p + 4] as u64) << 24u64) | ((b[p + 5] as u64) << 16u64) | ((
    b[p + 6] as u64) << 8u64) | (b[p + 7] as u64)
}

/// Reads the argument of an item head of the given major type at `p`.
pub fn read_head(b: &[u8], p: usize, major: u8) -> (r: Option<u64>)
    requires
        major < 8,
    ensures
        forall|n: u64| #[trigger] starts_with_at(b@, p as int, head(major, n)) ==> r == Some(n),
        r is Some ==> p + 9 <= b@.len() && b@[p as int] == major * 32 + EIGHT_BYTE_ARGUMENT,
{
    if p > b.len() || b.len() - p < 9 {
        proof {
            assert forall|n: u64| #[trigger] starts_with_at(b@, p as int, head(major, n)) implies false by {}
        }
        return None;
    }
    if b[p] != major * 32 + EIGHT_BYTE_ARGUMENT {
        proof {
            assert forall|n: u64| #[trigger] starts_with_at(b@, p as int, head(major, n)) implies false by {
                assert(b@.subrange(p as int, p + 9)[0] == b@[p as int]);
            }
        }
        return None;
    }
    let v = read_be_u64(b, p + 1);
    proof {
        assert forall|n: u64| #[trigger] starts_with_at(b@, p as int, head(major, n)) implies v == n by {
            assert(b@.subrange(p + 1, p + 9) =~= b@.subrange(p as int, p + 9).subrange(1, 9));
            assert(head(major, n).subrange(1, 9) =~= be_u64(n));
            lemma_be_value_at(b@, p + 1, n);
        }
    }
    Some(v)
}

/// A sequence that starts with `a + c` at `p` starts with `a` at `p` and with `c` right after.
pub proof fn lemma_split(b: Seq<u8>, p: int, a: Seq<u8>, c: Seq<u8>)
    requires
        starts_with_at(b, p, a + c),
    ensures
        starts_with_at(b, p, a),
        starts_with_at(b, p + a.len(), c),
{
    let whole = b.subrange(p, p + (a + c).len());
    assert(whole == a + c);
    assert(b.subrange(p, p + a.len()) =~= whole.subrange(0, a.len() as int));
    assert(whole.subrange(0, a.len() as int) =~= a);
    assert(b.subrange(p + a.len(), p + a.len() + c.len()) =~= whole.subrange(
        a.len() as int,
        (a.len() + c.len()) as int,
    ));
    assert(whole.subrange(a.len() as int, (a.len() + c.len()) as int) =~= c);
}

pub fn read_u64(b: &[u8], p: usize) -> (r: Option<u64>)
    ensures
        forall|n: u64| #[trigger] starts_with_at(b@, p as int, enc_u64(n)) ==> r == Some(n),
{
    read_head(b, p, MAJOR_UNSIGNED)
}

pub fn read_i64(b: &[u8], p: usize) -> (r: Option<i64>)
    ensures
        forall|n: i64| #[trigger] starts_with_at(b@, p as int, enc_i64(n)) ==> r == Some(n),
{
    match read_head(b, p, MAJOR_UNSIGNED) {
        Some(v) => {
            if v <= i64::MAX as u64 {
                proof {
                    assert forall|n: i64| #[trigger] starts_with_at(b@, p as int, enc_i64(n)) implies v as i64 == n by {
                        if n < 0 {
                            assert(b@.subrange(p as int, p + 9)[0] == head(MAJOR_NEGATIVE, (-1 - n) as u64)[0]);
                            assert(b@[p as int] == b@.subrange(p as int, p + 9)[0]);
                        } else {
                            assert(starts_with_at(b@, p as int, head(MAJOR_UNSIGNED, n as u64)));
                        }
                    }
                }
                return Some(v as i64);
            }
            proof {
                assert forall|n: i64| #[trigger] starts_with_at(b@, p as int, enc_i64(n)) implies false by {
                    if n < 0 {
                        assert(b@.subrange(p as int, p + 9)[0] == head(MAJOR_NEGATIVE, (-1 - n) as u64)[0]);
                        assert(b@[p as int] == b@.subrange(p as int, p + 9)[0]);
                    } else {
                        assert(starts_with_at(b@, p as int, head(MAJOR_UNSIGNED, n as u64)));
                    }
                }
            }
            None
        },
        None => {
            match read_head(b, p, MAJOR_NEGATIVE) {
                Some(v) => {
                    if v <= i64::MAX as u64 {
                        proof {
                            assert forall|n: i64| #[trigger] starts_with_at(b@, p as int, enc_i64(n)) implies (-1 - (v as i64)) as i64 == n by {
                                if n >= 0 {
                                    assert(b@.subrange(p as int, p + 9)[0] == head(MAJOR_UNSIGNED, n as u64)[0]);
                                    assert(b@[p as int] == b@.subrange(p as int, p + 9)[0]);
                                } else {
                                    assert(starts_with_at(b@, p as int, head(MAJOR_NEGATIVE, (-1 - n) as u64)));
                                }
                            }
                        }
                        return Some(-1 - v as i64);
                    }
                    proof {
                        assert forall|n: i64| #[trigger] starts_with_at(b@, p as int, enc_i64(n)) implies false by {
                            if n >= 0 {
                                assert(b@.subrange(p as int, p + 9)[0] == head(MAJOR_UNSIGNED, n as u64)[0]);
                                assert(b@[p as int] == b@.subrange(p as int, p + 9)[0]);
                            } else {
                                assert(starts_with_at(b@, p as int, head(MAJOR_NEGATIVE, (-1 - n) as u64)));
                            }
                        }
                    }
                    None
                },
                None => {
                    proof {
                        assert forall|n: i64| #[trigger] starts_with_at(b@, p as int, enc_i64(n)) implies false by {
                            if n >= 0 {
                                assert(starts_with_at(b@, p as int, head(MAJOR_UNSIGNED, n as u64)));
                            } else {
                                assert(starts_with_at(b@, p as int, head(MAJOR_NEGATIVE, (-1 - n) as u64)));
                            }
                        }
                    }
                    None
                },
            }
        },
    }
}

pub fn read_array_head(b: &[u8], p: usize) -> (r: Option<u64>)
    ensures
        forall|n: nat| #[trigger] starts_with_at(b@, p as int, enc_array_head(n)) ==> r == Some(
            n as u64,
        ),
        r is Some ==> p + 9 <= b@.len(),
{
    read_head(b, p, MAJOR_ARRAY)
}

/// Reads a byte string of exactly `N` bytes at `p`.
pub fn read_byte_array<const N: usize>(b: &[u8], p: usize) -> (r: Option<[u8; N]>)
    ensures
        forall|a: [u8; N]| #[trigger] starts_with_at(b@, p as int, enc_bytes(a@)) ==> r == Some(a),
{
    let len = match read_head(b, p, MAJOR_BYTES) {
        Some(len) => len,
        None => {
            proof {
                assert forall|a: [u8; N]| #[trigger] starts_with_at(b@, p as int, enc_bytes(a@)) implies false by {
                    lemma_split(b@, p as int, head(MAJOR_BYTES, a@.len() as u64), a@);
                }
            }
            return None;
        },
    };
    let blen = b.len();
    if len != N as u64 || b.len() - p - 9 < N {
        proof {
            assert forall|a: [u8; N]| #[trigger] starts_with_at(b@, p as int, enc_bytes(a@)) implies false by {
                lemma_split(b@, p as int, head(MAJOR_BYTES, a@.len() as u64), a@);
            }
        }
        return None;
    }
    let start = p + 9;
    let mut out: [u8; N] = [0u8; N];
    let mut i: usize = 0;
    while i < N
        invariant
            start == p + 9,
            blen == b@.len(),
            start + N <= b@.len(),
            i <= N,
            forall|j: int| 0 <= j < i ==> out@[j] == b@[start + j],
        decreases N - i,
    {
        out[i] = b[start + i];
        i = i + 1;
    }
    proof {
        assert forall|a: [u8; N]| #[trigger] starts_with_at(b@, p as int, enc_bytes(a@)) implies out
            == a by {
            lemma_split(b@, p as int, head(MAJOR_BYTES, a@.len() as u64), a@);
            assert forall|j: int| 0 <= j < N implies out[j] == a[j] by {
                assert(b@.subrange(start as int, start + N)[j] == b@[start + j]);
            }
            assert(out =~= a);
        }
    }
    Some(out)
}

pub fn read_u256(b: &[u8], p: usize) -> (r: Option<U256>)
    ensures
        forall|u: U256| #[trigger] starts_with_at(b@, p as int, enc_u256(u)) ==> r == Some(u),
{
    match read_head(b, p, MAJOR_BYTES) {
        Some(32) => {},
        _ => {
            proof {
                assert forall|u: U256| #[trigger] starts_with_at(b@, p as int, enc_u256(u)) implies false by {
                    lemma_split(b@, p as int, head(MAJOR_BYTES, 32), be_bytes(u));
                }
            }
            return None;
        },
    }
    if b.len() - p - 9 < 32 {
        proof {
            assert forall|u: U256| #[trigger] starts_with_at(b@, p as int, enc_u256(u)) implies false by {
                lemma_split(b@, p as int, head(MAJOR_BYTES, 32), be_bytes(u));
            }
        }
        return None;
    }
    let w3 = read_be_u64(b, p + 9);
    let w2 = read_be_u64(b, p + 17);
    let w1 = read_be_u64(b, p + 25);
    let w0 = read_be_u64(b, p + 33);
    proof {
        assert forall|u: U256| #[trigger] starts_with_at(b@, p as int, enc_u256(u)) implies (U256 { w0, w1, w2, w3 }) == u by {
            let q = p + 9;
            lemma_split(b@, p as int, head(MAJOR_BYTES, 32), be_bytes(u));
            let x = be_u64(u.w3);
            let y = be_u64(u.w2);
            let z = be_u64(u.w1);
            let v = be_u64(u.w0);
            lemma_split(b@, q, x + y + z, v);
            lemma_split(b@, q, x + y, z);
            lemma_split(b@, q, x, y);
            lemma_be_value_at(b@, q, u.w3);
            lemma_be_value_at(b@, q + 8, u.w2);
            lemma_be_value_at(b@, q + 16, u.w1);
            lemma_be_value_at(b@, q + 24, u.w0);
        }
    }
    Some(U256 { w0, w1, w2, w3 })
}

pub fn read_hash(b: &[u8], p: usize) -> (r: Option<crate::hash::Hash>)
    ensures
        forall|h: crate::hash::Hash| #[trigger] starts_with_at(b@, p as int, enc_hash(h)) ==> r == Some(h),
{
    match read_u256(b, p) {
        Some(u) => Some(crate::hash::Hash(u)),
        None => {
            proof {
                assert forall|h: crate::hash::Hash| #[trigger] starts_with_at(b@, p as int, enc_hash(h)) implies false by {
                    assert(starts_with_at(b@, p as int, enc_u256(h.0)));
                }
            }
            None
        },
    }
}

pub fn read_u128(b: &[u8], p: usize) -> (r: Option<u128>)
    ensures
        forall|n: u128| #[trigger] starts_with_at(b@, p as int, enc_u128(n)) ==> r == Some(n),
{
    match read_head(b, p, MAJOR_BYTES) {
        Some(16) => {},
        _ => {
            proof {
                assert forall|n: u128| #[trigger] starts_with_at(b@, p as int, enc_u128(n)) implies false by {
                    lemma_split(b@, p as int, head(MAJOR_BYTES, 16), be_u64((n >> 64u128) as u64) + be_u64(n as u64));
                }
            }
            return None;
        },
    }
    if b.len() - p - 9 < 16 {
        proof {
            assert forall|n: u128| #[trigger] starts_with_at(b@, p as int, enc_u128(n)) implies false by {
                lemma_split(b@, p as int, head(MAJOR_BYTES, 16), be_u64((n >> 64u128) as u64) + be_u64(n as u64));
            }
        }
        return None;
    }
    let hi = read_be_u64(b, p + 9);
    let lo = read_be_u64(b, p + 17);
    let v: u128 = ((hi as u128) << 64u128) | (lo as u128);
    proof {
        assert forall|n: u128| #[trigger] starts_with_at(b@, p as int, enc_u128(n)) implies v == n by {
            let x = be_u64((n >> 64u128) as u64);
            let y = be_u64(n as u64);
            lemma_split(b@, p as int, head(MAJOR_BYTES, 16), x + y);
            lemma_split(b@, p + 9, x, y);
            lemma_be_value_at(b@, p + 9, (n >> 64u128) as u64);
            lemma_be_value_at(b@, p + 17, n as u64);
            assert(((((n >> 64u128) as u64) as u128) << 64u128) | ((n as u64) as u128) == n) by (bit_vector);
        }
    }
    Some(v)
}

pub fn read_timestamp(b: &[u8], p: usize) -> (r: Option<Timestamp>)
    ensures
        forall|t: Timestamp| #[trigger] starts_with_at(b@, p as int, enc_timestamp(t)) ==> r == Some(t),
{
    if p > b.len() || b.len() - p < 27 {
        proof {
            assert forall|t: Timestamp| #[trigger] starts_with_at(b@, p as int, enc_timestamp(t)) implies false by {}
        }
        return None;
    }
    let ok = match read_array_head(b, p) {
        Some(2) => true,
        _ => false,
    };
    let seconds = read_i64(b, p + 9);
    let nanos = read_u64(b, p + 18);
    proof {
        assert forall|t: Timestamp| #[trigger] starts_with_at(b@, p as int, enc_timestamp(t)) implies ok
            && seconds == Some(t.seconds) && nanos == Some(t.nanos as u64) by {
            let a = enc_array_head(2);
            let x = enc_i64(t.seconds);
            let y = enc_u64(t.nanos as u64);
            lemma_split(b@, p as int, a + x, y);
            lemma_split(b@, p as int, a, x);
        }
    }
    if !ok {
        return None;
    }
    match (seconds, nanos) {
        (Some(s), Some(n)) => {
            if n > u32::MAX as u64 {
                return None;
            }
            Some(Timestamp { seconds: s, nanos: n as u32 })
        },
        _ => None,
    }
}

pub fn read_input(b: &[u8], p: usize) -> (r: Option<TransactionInput>)
    ensures
        forall|i: TransactionInput| #[trigger] starts_with_at(b@, p as int, enc_input(i)) ==> r == Some(i),
{
    if p > b.len() || b.len() - p < 123 {
        proof {
            assert forall|i: TransactionInput| #[trigger] starts_with_at(b@, p as int, enc_input(i)) implies false by {}
        }
        return None;
    }
    let ok = match read_array_head(b, p) {
        Some(2) => true,
        _ => false,
    };
    let h = read_hash(b, p + 9);
    let sig = read_byte_array::<64>(b, p + 50);
    proof {
        assert forall|i: TransactionInput| #[trigger] starts_with_at(b@, p as int, enc_input(i)) implies ok
            && h == Some(i.prev_transaction_output_hash) && sig == Some(i.signature.0) by {
            let a = enc_array_head(2);
            let x = enc_hash(i.prev_transaction_output_hash);
            let y = enc_bytes(i.signature.0@);
            lemma_split(b@, p as int, a + x, y);
            lemma_split(b@, p as int, a, x);
        }
    }
    if !ok {
        return None;
    }
    match (h, sig) {
        (Some(h), Some(sig)) => Some(TransactionInput { prev_transaction_output_hash: h, signature: Signature(sig) }),
        _ => None,
    }
}

pub fn read_output(b: &[u8], p: usize) -> (r: Option<TransactionOutput>)
    ensures
        forall|o: TransactionOutput| #[trigger] starts_with_at(b@, p as int, enc_output(o)) ==> r == Some(o),
{
    if p > b.len() || b.len() - p < 85 {
        proof {
            assert forall|o: TransactionOutput| #[trigger] starts_with_at(b@, p as int, enc_output(o)) implies false by {}
        }
        return None;
    }
    let ok = match read_array_head(b, p) {
        Some(3) => true,
        _ => false,
    };
    let value = read_u64(b, p + 9);
    let id = read_u128(b, p + 18);
    let pk = read_byte_array::<33>(b, p + 43);
    proof {
        assert forall|o: TransactionOutput| #[trigger] starts_with_at(b@, p as int, enc_output(o)) implies ok
            && value == Some(o.value) && id == Some(o.unique_id) && pk == Some(o.pubkey.0) by {
            let a = enc_array_head(3);
            let x = enc_u64(o.value);
            let y = enc_u128(o.unique_id);
            let z = enc_bytes(o.pubkey.0@);
            lemma_split(b@, p as int, a + x + y, z);
            lemma_split(b@, p as int, a + x, y);
            lemma_split(b@, p as int, a, x);
        }
    }
    if !ok {
        return None;
    }
    match (value, id, pk) {
        (Some(value), Some(unique_id), Some(pk)) => Some(TransactionOutput { value, unique_id, pubkey: PublicKey(pk) }),
        _ => None,
    }
}

pub const INPUT_LEN: usize = 123;

pub const OUTPUT_LEN: usize = 85;

proof fn lemma_inputs_layout(b: Seq<u8>, q: int, s: Seq<TransactionInput>)
    requires
        starts_with_at(b, q, enc_inputs(s)),
    ensures
        enc_inputs(s).len() == INPUT_LEN * s.len(),
        forall|i: int| 0 <= i < s.len() ==> #[trigger] starts_with_at(b, q + INPUT_LEN * i, enc_input(s[i])),
    decreases s.len(),
{
    if s.len() > 0 {
        let rest = s.drop_last();
        lemma_split(b, q, enc_inputs(rest), enc_input(s.last()));
        lemma_inputs_layout(b, q, rest);
        assert forall|i: int| 0 <= i < s.len() implies #[trigger] starts_with_at(b, q + INPUT_LEN * i, enc_input(s[i])) by {
            if i < s.len() - 1 {
                assert(s[i] == rest[i]);
            }
        }
    }
}

proof fn lemma_outputs_layout(b: Seq<u8>, q: int, s: Seq<TransactionOutput>)
    requires
        starts_with_at(b, q, enc_outputs(s)),
    ensures
        enc_outputs(s).len() == OUTPUT_LEN * s.len(),
        forall|i: int| 0 <= i < s.len() ==> #[trigger] starts_with_at(b, q + OUTPUT_LEN * i, enc_output(s[i])),
    decreases s.len(),
{
    if s.len() > 0 {
        let rest = s.drop_last();
        lemma_split(b, q, enc_outputs(rest), enc_output(s.last()));
        lemma_outputs_layout(b, q, rest);
        assert forall|i: int| 0 <= i < s.len() implies #[trigger] starts_with_at(b, q + OUTPUT_LEN * i, enc_output(s[i])) by {
            if i < s.len() - 1 {
                assert(s[i] == rest[i]);
            }
        }
    }
}

/// Reads `n` inputs from `q`.
fn read_inputs(b: &[u8], q: usize, n: u64) -> (r: Option<(Vec<TransactionInput>, usize)>)
    ensures
        forall|s: Seq<TransactionInput>|
            #[trigger] starts_with_at(b@, q as int, enc_inputs(s)) && s.len() == n ==> (r matches Some(
                (v, q2),
            ) && v@ == s && q2 == q + enc_inputs(s).len()),
{
    let blen = b.len();
    let mut v: Vec<TransactionInput> = Vec::new();
    let mut pos: usize = q;
    let mut i: u64 = 0;
    while i < n
        invariant
            blen == b@.len(),
            i <= n,
            v@.len() == i,
            forall|s: Seq<TransactionInput>|
                #[trigger] starts_with_at(b@, q as int, enc_inputs(s)) && s.len() == n ==> pos == q
                    + INPUT_LEN * i && v@ == s.take(i as int),
        decreases n - i,
    {
        let x = match read_input(b, pos) {
            Some(x) => x,
            None => {
                proof {
                    assert forall|s: Seq<TransactionInput>|
                        #[trigger] starts_with_at(b@, q as int, enc_inputs(s)) && s.len() == n implies false by {
                        lemma_inputs_layout(b@, q as int, s);
                        assert(starts_with_at(b@, q + INPUT_LEN * i, enc_input(s[i as int])));
                    }
                }
                return None;
            },
        };
        proof {
            assert forall|s: Seq<TransactionInput>|
                #[trigger] starts_with_at(b@, q as int, enc_inputs(s)) && s.len() == n implies x == s[i as int]
                && pos + INPUT_LEN <= blen by {
                lemma_inputs_layout(b@, q as int, s);
                assert(starts_with_at(b@, q + INPUT_LEN * i, enc_input(s[i as int])));
            }
        }
        if pos > blen || blen - pos < INPUT_LEN {
            return None;
        }
        v.push(x);
        pos = pos + INPUT_LEN;
        i = i + 1;
        proof {
            assert forall|s: Seq<TransactionInput>|
                #[trigger] starts_with_at(b@, q as int, enc_inputs(s)) && s.len() == n implies v@ == s.take(i as int) by {
                assert(v@ =~= s.take(i as int));
            }
        }
    }
    proof {
        assert forall|s: Seq<TransactionInput>|
            #[trigger] starts_with_at(b@, q as int, enc_inputs(s)) && s.len() == n implies v@ == s
            && pos == q + enc_inputs(s).len() by {
            lemma_inputs_layout(b@, q as int, s);
            assert(s.take(i as int) =~= s);
        }
    }
    Some((v, pos))
}

/// Reads `n` outputs from `q`.
fn read_outputs(b: &[u8], q: usize, n: u64) -> (r: Option<(Vec<TransactionOutput>, usize)>)
    ensures
        forall|s: Seq<TransactionOutput>|
            #[trigger] starts_with_at(b@, q as int, enc_outputs(s)) && s.len() == n ==> (r matches Some(
                (v, q2),
            ) && v@ == s && q2 == q + enc_outputs(s).len()),
{
    let blen = b.len();
    let mut v: Vec<TransactionOutput> = Vec::new();
    let mut pos: usize = q;
    let mut i: u64 = 0;
    while i < n
        invariant
            blen == b@.len(),
            i <= n,
            v@.len() == i,
            forall|s: Seq<TransactionOutput>|
                #[trigger] starts_with_at(b@, q as int, enc_outputs(s)) && s.len() == n ==> pos == q
                    + OUTPUT_LEN * i && v@ == s.take(i as int),
        decreases n - i,
    {
        let x = match read_output(b, pos) {
            Some(x) => x,
            None => {
                proof {
                    assert forall|s: Seq<TransactionOutput>|
                        #[trigger] starts_with_at(b@, q as int, enc_outputs(s)) && s.len() == n implies false by {
                        lemma_outputs_layout(b@, q as int, s);
                        assert(starts_with_at(b@, q + OUTPUT_LEN * i, enc_output(s[i as int])));
                    }
                }
                return None;
            },
        };
        proof {
            assert forall|s: Seq<TransactionOutput>|
                #[trigger] starts_with_at(b@, q as int, enc_outputs(s)) && s.len() == n implies x == s[i as int]
                && pos + OUTPUT_LEN <= blen by {
                lemma_outputs_layout(b@, q as int, s);
                assert(starts_with_at(b@, q + OUTPUT_LEN * i, enc_output(s[i as int])));
            }
        }
        if pos > blen || blen - pos < OUTPUT_LEN {
            return None;
        }
        v.push(x);
        pos = pos + OUTPUT_LEN;
        i = i + 1;
        proof {
            assert forall|s: Seq<TransactionOutput>|
                #[trigger] starts_with_at(b@, q as int, enc_outputs(s)) && s.len() == n implies v@ == s.take(i as int) by {
                assert(v@ =~= s.take(i as int));
            }
        }
    }
    proof {
        assert forall|s: Seq<TransactionOutput>|
            #[trigger] starts_with_at(b@, q as int, enc_outputs(s)) && s.len() == n implies v@ == s
            && pos == q + enc_outputs(s).len() by {
            lemma_outputs_layout(b@, q as int, s);
            assert(s.take(i as int) =~= s);
        }
    }
    Some((v, pos))
}

/// Reads a transaction at `p`; returns it and the position after it.
#[verifier::spinoff_prover]
#[verifier::rlimit(100)]
pub fn read_transaction(b: &[u8], p: usize) -> (r: Option<(Transaction, usize)>)
    ensures
        forall|t: Transaction|
            #[trigger] starts_with_at(b@, p as int, enc_transaction(t)) ==> (r matches Some((t2, q))
                && same_transaction(t2, t) && q == p + enc_transaction(t).len()),
{
    let blen = b.len();
    if p > b.len() || b.len() - p < 18 {
        proof {
            assert forall|t: Transaction| #[trigger] starts_with_at(b@, p as int, enc_transaction(t)) implies false by {
                let a = enc_array_head(2);
                let x = enc_array_head(t.inputs@.len());
                let rest = enc_inputs(t.inputs@) + enc_array_head(t.outputs@.len()) + enc_outputs(t.outputs@);
                assert(enc_transaction(t) =~= a + x + rest);
            }
        }
        return None;
    }
    let head_ok = match read_array_head(b, p) {
        Some(2) => true,
        _ => false,
    };
    let n_in = read_array_head(b, p + 9);
    let q0: usize = p + 18;
    proof {
        assert forall|t: Transaction| #[trigger] starts_with_at(b@, p as int, enc_transaction(t)) implies head_ok
            && n_in == Some(t.inputs@.len() as u64) && starts_with_at(b@, p + 18, enc_inputs(t.inputs@))
            && starts_with_at(b@, p + 18 + enc_inputs(t.inputs@).len(), enc_array_head(t.outputs@.len()))
            && starts_with_at(b@, p + 27 + enc_inputs(t.inputs@).len(), enc_outputs(t.outputs@))
            && t.inputs@.len() <= blen && t.outputs@.len() <= blen by {
            let a = enc_array_head(2);
            let x = enc_array_head(t.inputs@.len());
            let y = enc_inputs(t.inputs@);
            let z = enc_array_head(t.outputs@.len());
            let w = enc_outputs(t.outputs@);
            lemma_split(b@, p as int, a + x + y + z, w);
            lemma_split(b@, p as int, a + x + y, z);
            lemma_split(b@, p as int, a + x, y);
            lemma_split(b@, p as int, a, x);
            assert(starts_with_at(b@, p as int, a));
            assert(starts_with_at(b@, p + 9, x));
            assert(starts_with_at(b@, q0 as int, y));
            lemma_inputs_layout(b@, q0 as int, t.inputs@);
            assert(starts_with_at(b@, p + 27 + y.len(), w));
            lemma_outputs_layout(b@, p + 27 + y.len(), t.outputs@);
        }
    }
    if !head_ok {
        return None;
    }
    let n_in = match n_in {
        Some(n) => n,
        None => {
            return None;
        },
    };
    proof {
        assert forall|t: Transaction| #[trigger] starts_with_at(b@, p as int, enc_transaction(t)) implies t.inputs@.len()
            == n_in && starts_with_at(b@, q0 as int, enc_inputs(t.inputs@)) by {}
    }
    let (inputs, q) = match read_inputs(b, q0, n_in) {
        Some(x) => x,
        None => {
            return None;
        },
    };
    proof {
        assert forall|t: Transaction| #[trigger] starts_with_at(b@, p as int, enc_transaction(t)) implies inputs@
            == t.inputs@ && q == p + 18 + enc_inputs(t.inputs@).len() && starts_with_at(
            b@,
            q as int,
            enc_array_head(t.outputs@.len()),
        ) by {}
    }
    let n_out = match read_array_head(b, q) {
        Some(n) => n,
        None => {
            return None;
        },
    };
    proof {
        assert forall|t: Transaction| #[trigger] starts_with_at(b@, p as int, enc_transaction(t)) implies inputs@
            == t.inputs@ && q == p + 18 + enc_inputs(t.inputs@).len() && n_out == t.outputs@.len()
            && q + 9 <= b@.len() by {
            assert(starts_with_at(b@, q as int, enc_array_head(t.outputs@.len())));
        }
    }
    if q > b.len() || b.len() - q < 9 {
        return None;
    }
    let q1: usize = q + 9;
    let (outputs, end) = match read_outputs(b, q1, n_out) {
        Some(x) => x,
        None => {
            return None;
        },
    };
    proof {
        assert forall|t: Transaction| #[trigger] starts_with_at(b@, p as int, enc_transaction(t)) implies outputs@
            == t.outputs@ && end == p + enc_transaction(t).len() by {
            assert(starts_with_at(b@, q1 as int, enc_outputs(t.outputs@)));
            lemma_outputs_layout(b@, q1 as int, t.outputs@);
            assert(t.outputs@.len() == n_out);
        }
    }
    Some((Transaction { inputs, outputs }, end))
}

pub const HEADER_LEN: usize = 168;

proof fn lemma_header_layout(b: Seq<u8>, p: int, h: BlockHeader)
    requires
        starts_with_at(b, p, enc_header(h)),
    ensures
        starts_with_at(b, p, enc_array_head(5)),
        starts_with_at(b, p + 9, enc_timestamp(h.timestamp)),
        starts_with_at(b, p + 36, enc_u64(h.nonce)),
        starts_with_at(b, p + 45, enc_hash(h.prev_block_hash)),
        starts_with_at(b, p + 86, enc_hash(h.merkle_root.0)),
        starts_with_at(b, p + 127, enc_u256(h.target)),
{
    let a = enc_array_head(5);
    let x1 = enc_timestamp(h.timestamp);
    let x2 = enc_u64(h.nonce);
    let x3 = enc_hash(h.prev_block_hash);
    let x4 = enc_hash(h.merkle_root.0);
    let x5 = enc_u256(h.target);
    lemma_split(b, p, a + x1 + x2 + x3 + x4, x5);
    lemma_split(b, p, a + x1 + x2 + x3, x4);
    lemma_split(b, p, a + x1 + x2, x3);
    lemma_split(b, p, a + x1, x2);
    lemma_split(b, p, a, x1);
}

#[verifier::spinoff_prover]
#[verifier::rlimit(100)]
pub fn read_header(b: &[u8], p: usize) -> (r: Option<BlockHeader>)
    ensures
        forall|h: BlockHeader| #[trigger] starts_with_at(b@, p as int, enc_header(h)) ==> r == Some(h),
{
    if p > b.len() || b.len() - p < HEADER_LEN {
        proof {
            assert forall|h: BlockHeader| #[trigger] starts_with_at(b@, p as int, enc_header(h)) implies false by {}
        }
        return None;
    }
    let ok = match read_array_head(b, p) {
        Some(5) => true,
        _ => false,
    };
    let timestamp = read_timestamp(b, p + 9);
    let nonce = read_u64(b, p + 36);
    let prev = read_hash(b, p + 45);
    let merkle = read_hash(b, p + 86);
    let target = read_u256(b, p + 127);
    proof {
        assert forall|h: BlockHeader| #[trigger] starts_with_at(b@, p as int, enc_header(h)) implies ok
            && timestamp == Some(h.timestamp) && nonce == Some(h.nonce) && prev == Some(h.prev_block_hash)
            && merkle == Some(h.merkle_root.0) && target == Some(h.target) by {
            lemma_header_layout(b@, p as int, h);
        }
    }
    if !ok {
        return None;
    }
    match (timestamp, nonce, prev, merkle, target) {
        (Some(timestamp), Some(nonce), Some(prev_block_hash), Some(m), Some(target)) => Some(
            BlockHeader { timestamp, nonce, prev_block_hash, merkle_root: MerkleRoot(m), target },
        ),
        _ => None,
    }
}

proof fn lemma_transactions_layout(b: Seq<u8>, q: int, s: Seq<Transaction>, i: int)
    requires
        starts_with_at(b, q, enc_transactions(s)),
        0 <= i < s.len(),
    ensures
        starts_with_at(b, q + enc_transactions(s.take(i)).len(), enc_transaction(s[i])),
        enc_transactions(s.take(i + 1)) == enc_transactions(s.take(i)) + enc_transaction(s[i]),
    decreases s.len(),
{
    let rest = s.drop_last();
    lemma_split(b, q, enc_transactions(rest), enc_transaction(s.last()));
    assert(s.take(i + 1).drop_last() =~= s.take(i));
    if i < s.len() - 1 {
        lemma_transactions_layout(b, q, rest, i);
        assert(rest.take(i) =~= s.take(i));
        assert(rest[i] == s[i]);
    } else {
        assert(s.take(i) =~= rest);
    }
}

/// Two blocks with the same header and the same transactions.
pub open spec fn same_block(a: Block, b: Block) -> bool {
    &&& a.header == b.header
    &&& a.transactions@.len() == b.transactions@.len()
    &&& forall|i: int|
        0 <= i < a.transactions@.len() ==> same_transaction(
            #[trigger] a.transactions@[i],
            b.transactions@[i],
        )
}

/// Reads `n` transactions from `q`.
#[verifier::rlimit(40)]
fn read_transactions(b: &[u8], q: usize, n: u64) -> (r: Option<(Vec<Transaction>, usize)>)
    ensures
        forall|s: Seq<Transaction>|
            #[trigger] starts_with_at(b@, q as int, enc_transactions(s)) && s.len() == n ==> (r matches Some(
                (v, q2),
            ) && v@.len() == s.len() && (forall|j: int|
                0 <= j < s.len() ==> same_transaction(#[trigger] v@[j], s[j]))
                && q2 == q + enc_transactions(s).len()),
{
    let mut v: Vec<Transaction> = Vec::new();
    let mut pos: usize = q;
    let mut i: u64 = 0;
    while i < n
        invariant
            i <= n,
            v@.len() == i,
            forall|s: Seq<Transaction>|
                #[trigger] starts_with_at(b@, q as int, enc_transactions(s)) && s.len() == n ==> {
                    &&& pos == q + enc_transactions(s.take(i as int)).len()
                    &&& forall|j: int| 0 <= j < i ==> same_transaction(#[trigger] v@[j], s[j])
                },
        decreases n - i,
    {
        proof {
            assert forall|s: Seq<Transaction>|
                #[trigger] starts_with_at(b@, q as int, enc_transactions(s)) && s.len() == n implies starts_with_at(
                b@,
                pos as int,
                enc_transaction(s[i as int]),
            ) by {
                lemma_transactions_layout(b@, q as int, s, i as int);
            }
        }
        let (t, next) = match read_transaction(b, pos) {
            Some(x) => x,
            None => {
                return None;
            },
        };
        proof {
            assert forall|s: Seq<Transaction>|
                #[trigger] starts_with_at(b@, q as int, enc_transactions(s)) && s.len() == n implies next
                == q + enc_transactions(s.take(i + 1)).len() && same_transaction(t, s[i as int]) by {
                lemma_transactions_layout(b@, q as int, s, i as int);
            }
        }
        v.push(t);
        pos = next;
        i = i + 1;
    }
    proof {
        assert forall|s: Seq<Transaction>|
            #[trigger] starts_with_at(b@, q as int, enc_transactions(s)) && s.len() == n implies pos == q
            + enc_transactions(s).len() by {
            assert(s.take(i as int) =~= s);
        }
    }
    Some((v, pos))
}

/// Every transaction takes at least one byte.
proof fn lemma_enc_transactions_min(s: Seq<Transaction>)
    ensures
        enc_transactions(s).len() >= s.len(),
    decreases s.len(),
{
    if s.len() > 0 {
        lemma_enc_transactions_min(s.drop_last());
    }
}

proof fn lemma_header_len(h: BlockHeader)
    ensures
        enc_header(h).len() == HEADER_LEN,
{
}

proof fn lemma_block_layout(b: Seq<u8>, p: int, k: Block)
    requires
        starts_with_at(b, p, enc_block(k)),
    ensures
        starts_with_at(b, p, enc_array_head(2)),
        starts_with_at(b, p + 9, enc_header(k.header)),
        starts_with_at(b, p + 9 + HEADER_LEN, enc_array_head(k.transactions@.len())),
        starts_with_at(b, p + 18 + HEADER_LEN, enc_transactions(k.transactions@)),
        k.transactions@.len() <= b.len(),
        enc_block(k).len() == 18 + HEADER_LEN + enc_transactions(k.transactions@).len(),
{
    let a = enc_array_head(2);
    let x = enc_header(k.header);
    let y = enc_array_head(k.transactions@.len());
    let z = enc_transactions(k.transactions@);
    lemma_split(b, p, a + x + y, z);
    lemma_split(b, p, a + x, y);
    lemma_split(b, p, a, x);
    lemma_header_len(k.header);
    lemma_enc_transactions_min(k.transactions@);
}

/// Reads a block at `p`; returns it and the position after it.
#[verifier::spinoff_prover]
#[verifier::rlimit(100)]
pub fn read_block(b: &[u8], p: usize) -> (r: Option<(Block, usize)>)
    ensures
        forall|k: Block|
            #[trigger] starts_with_at(b@, p as int, enc_block(k)) ==> (r matches Some((k2, q))
                && same_block(k2, k) && q == p + enc_block(k).len()),
{
    let blen = b.len();
    if p > blen || blen - p < HEADER_LEN + 18 {
        proof {
            assert forall|k: Block| #[trigger] starts_with_at(b@, p as int, enc_block(k)) implies false by {}
        }
        return None;
    }
    let ok = match read_array_head(b, p) {
        Some(2) => true,
        _ => false,
    };
    let header = read_header(b, p + 9);
    let n = read_array_head(b, p + 9 + HEADER_LEN);
    let start: usize = p + 18 + HEADER_LEN;
    proof {
        assert forall|k: Block| #[trigger] starts_with_at(b@, p as int, enc_block(k)) implies ok
            && header == Some(k.header) && n == Some(k.transactions@.len() as u64) && starts_with_at(
            b@,
            start as int,
            enc_transactions(k.transactions@),
        ) && k.transactions@.len() <= blen by {
            lemma_block_layout(b@, p as int, k);
        }
    }
    if !ok {
        return None;
    }
    let (header, n) = match (header, n) {
        (Some(h), Some(n)) => (h, n),
        _ => {
            return None;
        },
    };
    proof {
        assert forall|k: Block| #[trigger] starts_with_at(b@, p as int, enc_block(k)) implies k.transactions@.len()
            == n by {}
    }
    let (transactions, end) = match read_transactions(b, start, n) {
        Some(x) => x,
        None => {
            return None;
        },
    };
    let block = Block { header, transactions };
    proof {
        assert forall|k: Block| #[trigger] starts_with_at(b@, p as int, enc_block(k)) implies same_block(block, k)
            && end == p + enc_block(k).len() by {
            lemma_block_layout(b@, p as int, k);
        }
    }
    Some((block, end))
}


proof fn lemma_blocks_layout(b: Seq<u8>, q: int, s: Seq<Block>, i: int)
    requires
        starts_with_at(b, q, crate::block::enc_blocks(s)),
        0 <= i < s.len(),
    ensures
        starts_with_at(b, q + crate::block::enc_blocks(s.take(i)).len(), enc_block(s[i])),
        crate::block::enc_blocks(s.take(i + 1)) == crate::block::enc_blocks(s.take(i)) + enc_block(s[i]),
    decreases s.len(),
{
    let rest = s.drop_last();
    lemma_split(b, q, crate::block::enc_blocks(rest), enc_block(s.last()));
    assert(s.take(i + 1).drop_last() =~= s.take(i));
    if i < s.len() - 1 {
        lemma_blocks_layout(b, q, rest, i);
        assert(rest.take(i) =~= s.take(i));
        assert(rest[i] == s[i]);
    } else {
        assert(s.take(i) =~= rest);
    }
}

/// Every block takes at least one byte.
pub proof fn lemma_enc_blocks_min(s: Seq<Block>)
    ensures
        crate::block::enc_blocks(s).len() >= s.len(),
    decreases s.len(),
{
    if s.len() > 0 {
        lemma_enc_blocks_min(s.drop_last());
    }
}

/// Reads `n` blocks from `q`.
#[verifier::spinoff_prover]
#[verifier::rlimit(60)]
pub fn read_blocks(b: &[u8], q: usize, n: u64) -> (r: Option<(Vec<Block>, usize)>)
    ensures
        forall|s: Seq<Block>|
            #[trigger] starts_with_at(b@, q as int, crate::block::enc_blocks(s)) && s.len() == n ==> (r matches Some(
                (v, q2),
            ) && v@.len() == s.len() && (forall|j: int|
                0 <= j < s.len() ==> same_block(#[trigger] v@[j], s[j]))
                && q2 == q + crate::block::enc_blocks(s).len()),
{
    let mut v: Vec<Block> = Vec::new();
    let mut pos: usize = q;
    let mut i: u64 = 0;
    while i < n
        invariant
            i <= n,
            v@.len() == i,
            forall|s: Seq<Block>|
                #[trigger] starts_with_at(b@, q as int, crate::block::enc_blocks(s)) && s.len() == n ==> {
                    &&& pos == q + crate::block::enc_blocks(s.take(i as int)).len()
                    &&& forall|j: int| 0 <= j < i ==> same_block(#[trigger] v@[j], s[j])
                },
        decreases n - i,
    {
        proof {
            assert forall|s: Seq<Block>|
                #[trigger] starts_with_at(b@, q as int, crate::block::enc_blocks(s)) && s.len() == n implies starts_with_at(
                b@,
                pos as int,
                enc_block(s[i as int]),
            ) by {
                lemma_blocks_layout(b@, q as int, s, i as int);
            }
        }
        let (k, next) = match read_block(b, pos) {
            Some(x) => x,
            None => {
                return None;
            },
        };
        proof {
            assert forall|s: Seq<Block>|
                #[trigger] starts_with_at(b@, q as int, crate::block::enc_blocks(s)) && s.len() == n implies next
                == q + crate::block::enc_blocks(s.take(i + 1)).len() && same_block(k, s[i as int]) by {
                lemma_blocks_layout(b@, q as int, s, i as int);
            }
        }
        v.push(k);
        pos = next;
        i = i + 1;
    }
    proof {
        assert forall|s: Seq<Block>|
            #[trigger] starts_with_at(b@, q as int, crate::block::enc_blocks(s)) && s.len() == n implies pos == q
            + crate::block::enc_blocks(s).len() by {
            assert(s.take(i as int) =~= s);
        }
    }
    Some((v, pos))
}

} // verus!
