use vstd::prelude::*;

use crate::crypto::{PublicKey, Signature};
use crate::encoding::{
    be_u64, enc_array_head, enc_bytes, enc_u64, write_array_head, write_bytes, write_head,
    write_u64, MAJOR_BYTES,
};
use crate::hash::{enc_hash, hash_of, write_hash};

verus! {

/// Spends an earlier output, named by its hash, with the owner's signature over that hash.
#[derive(Clone, Copy, Debug)]
pub struct TransactionInput {
    pub prev_transaction_output_hash: crate::hash::Hash,
    pub signature: Signature,
}

/// An amount in satoshi paid to a public key; `unique_id` keeps equal payments apart.
#[derive(Clone, Copy, Debug)]
pub struct TransactionOutput {
    pub value: u64,
    pub unique_id: u128,
    pub pubkey: PublicKey,
}

#[derive(Debug)]
pub struct Transaction {
    pub inputs: Vec<TransactionInput>,
    pub outputs: Vec<TransactionOutput>,
}

pub open spec fn enc_u128(n: u128) -> Seq<u8> {
    enc_bytes(be_u64((n >> 64u128) as u64) + be_u64(n as u64))
}

pub open spec fn enc_output(o: TransactionOutput) -> Seq<u8> {
    enc_array_head(3) + enc_u64(o.value) + enc_u128(o.unique_id) + enc_bytes(o.pubkey.0@)
}

pub open spec fn enc_input(i: TransactionInput) -> Seq<u8> {
    enc_array_head(2) + enc_hash(i.prev_transaction_output_hash) + enc_bytes(i.signature.0@)
}

pub open spec fn enc_inputs(s: Seq<TransactionInput>) -> Seq<u8>
    decreases s.len(),
{
    if s.len() == 0 {
        seq![]
    } else {
        enc_inputs(s.drop_last()) + enc_input(s.last())
    }
}

pub open spec fn enc_outputs(s: Seq<TransactionOutput>) -> Seq<u8>
    decreases s.len(),
{
    if s.len() == 0 {
        seq![]
    } else {
        enc_outputs(s.drop_last()) + enc_output(s.last())
    }
}

/// The canonical encoding of a transaction: its inputs, then its outputs.
pub open spec fn enc_transaction(t: Transaction) -> Seq<u8> {
    enc_array_head(2) + enc_array_head(t.inputs@.len()) + enc_inputs(t.inputs@) + enc_array_head(
        t.outputs@.len(),
    ) + enc_outputs(t.outputs@)
}

pub open spec fn tx_hash(t: Transaction) -> crate::hash::Hash {
    hash_of(enc_transaction(t))
}

pub open spec fn output_hash(o: TransactionOutput) -> crate::hash::Hash {
    hash_of(enc_output(o))
}

/// Sum of output values.
pub open spec fn sum_outputs(s: Seq<TransactionOutput>) -> int
    decreases s.len(),
{
    if s.len() == 0 {
        0
    } else {
        sum_outputs(s.drop_last()) + s.last().value
    }
}

fn write_u128(out: &mut Vec<u8>, n: u128)
    ensures
        final(out)@ == old(out)@ + enc_u128(n),
{
    write_head(out, MAJOR_BYTES, 16);
    let hi = (n >> 64u128) as u64;
    let lo = n as u64;
    let bytes: [u8; 16] = [
        (hi >> 56u64) as u8,
        (hi >> 48u64) as u8,
        (hi >> 40u64) as u8,
        (hi >> 32u64) as u8,
        (hi >> 24u64) as u8,
        (hi >> 16u64) as u8,
        (hi >> 8u64) as u8,
        hi as u8,
        (lo >> 56u64) as u8,
        (lo >> 48u64) as u8,
        (lo >> 40u64) as u8,
        (lo >> 32u64) as u8,
        (lo >> 24u64) as u8,
        (lo >> 16u64) as u8,
        (lo >> 8u64) as u8,
        lo as u8,
    ];
    let ghost mid = out@;
    let mut i: usize = 0;
    while i < 16
        invariant
            i <= 16,
            out@ == mid + bytes@.subrange(0, i as int),
        decreases 16 - i,
    {
        out.push(bytes[i]);
        i = i + 1;
        assert(out@ =~= mid + bytes@.subrange(0, i as int));
    }
    assert(bytes@ =~= be_u64(hi) + be_u64(lo));
    assert(bytes@.subrange(0, 16) =~= bytes@);
    assert(final(out)@ =~= old(out)@ + enc_u128(n));
}

/// Relies on `uuid::Uuid::new_v4`: a random identifier, read back with `as_u128`.
#[verifier::external_body]
pub(crate) fn random_unique_id() -> (r: u128) {
    uuid::Uuid::new_v4().as_u128()
}

impl TransactionOutput {
    /// An output with a fresh random identifier.
    pub fn new(value: u64, pubkey: PublicKey) -> (r: TransactionOutput)
        ensures
            r.value == value,
            r.pubkey == pubkey,
    {
        TransactionOutput { value, unique_id: random_unique_id(), pubkey }
    }

    pub fn write(&self, out: &mut Vec<u8>)
        ensures
            final(out)@ == old(out)@ + enc_output(*self),
    {
        write_array_head(out, 3);
        write_u64(out, self.value);
        write_u128(out, self.unique_id);
        write_bytes(out, &self.pubkey.0);
        assert(final(out)@ =~= old(out)@ + enc_output(*self));
    }

    pub fn hash(&self) -> (r: crate::hash::Hash)
        ensures
            r == output_hash(*self),
    {
        let mut out: Vec<u8> = Vec::new();
        self.write(&mut out);
        assert(out@ =~= enc_output(*self));
        crate::hash::Hash::hash(out.as_slice())
    }
}

impl TransactionInput {
    pub fn write(&self, out: &mut Vec<u8>)
        ensures
            final(out)@ == old(out)@ + enc_input(*self),
    {
        write_array_head(out, 2);
        write_hash(out, &self.prev_transaction_output_hash);
        write_bytes(out, &self.signature.0);
        assert(final(out)@ =~= old(out)@ + enc_input(*self));
    }
}

impl Clone for Transaction {
    fn clone(&self) -> (r: Self)
        ensures
            r.inputs@ == self.inputs@,
            r.outputs@ == self.outputs@,
    {
        let inputs = self.inputs.clone();
        let outputs = self.outputs.clone();
        assert(inputs@ =~= self.inputs@);
        assert(outputs@ =~= self.outputs@);
        Transaction { inputs, outputs }
    }
}

impl Transaction {
    pub fn new(inputs: Vec<TransactionInput>, outputs: Vec<TransactionOutput>) -> (r: Transaction)
        ensures
            r.inputs@ == inputs@,
            r.outputs@ == outputs@,
    {
        Transaction { inputs, outputs }
    }

    pub fn write(&self, out: &mut Vec<u8>)
        ensures
            final(out)@ == old(out)@ + enc_transaction(*self),
    {
        write_array_head(out, 2);
        write_array_head(out, self.inputs.len());
        let ghost start = out@;
        let mut i: usize = 0;
        while i < self.inputs.len()
            invariant
                i <= self.inputs@.len(),
                out@ == start + enc_inputs(self.inputs@.take(i as int)),
            decreases self.inputs@.len() - i,
        {
            self.inputs[i].write(out);
            proof {
                let s = self.inputs@.take(i + 1);
                assert(s.drop_last() =~= self.inputs@.take(i as int));
            }
            i = i + 1;
            assert(out@ =~= start + enc_inputs(self.inputs@.take(i as int)));
        }
        assert(self.inputs@.take(i as int) =~= self.inputs@);
        write_array_head(out, self.outputs.len());
        let ghost mid = out@;
        let mut j: usize = 0;
        while j < self.outputs.len()
            invariant
                j <= self.outputs@.len(),
                out@ == mid + enc_outputs(self.outputs@.take(j as int)),
            decreases self.outputs@.len() - j,
        {
            self.outputs[j].write(out);
            proof {
                let s = self.outputs@.take(j + 1);
                assert(s.drop_last() =~= self.outputs@.take(j as int));
            }
            j = j + 1;
            assert(out@ =~= mid + enc_outputs(self.outputs@.take(j as int)));
        }
        assert(self.outputs@.take(j as int) =~= self.outputs@);
        assert(final(out)@ =~= old(out)@ + enc_transaction(*self));
    }

    /// The canonical encoding.
    pub fn encode(&self) -> (r: Vec<u8>)
        ensures
            r@ == enc_transaction(*self),
    {
        let mut out: Vec<u8> = Vec::new();
        self.write(&mut out);
        assert(out@ =~= enc_transaction(*self));
        out
    }

    pub fn hash(&self) -> (r: crate::hash::Hash)
        ensures
            r == tx_hash(*self),
    {
        let out = self.encode();
        crate::hash::Hash::hash(out.as_slice())
    }
}

} // verus!
