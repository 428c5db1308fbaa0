//! Signed transfers of outputs between wallets.

use vstd::prelude::*;
use vstd::bytes::spec_u16_to_le_bytes;
use vstd::bytes::spec_u64_to_le_bytes;
use crate::amount::Amount;
use crate::crypto::ecdsa_accepts;
use crate::crypto::ecdsa_verify_der;
use crate::crypto::sha256_digest;
use crate::encoding::encode_bytes;
use crate::encoding::length_prefix;
use crate::encoding::put_bytes;
use crate::encoding::put_raw;
use crate::encoding::put_u16;
use crate::encoding::put_u64;

verus! {

/// Length of a serialized public key.
pub const PUBLIC_KEY_LEN: usize = 88;

/// The most inputs, and the most outputs, that one transaction may carry.
pub const MAX_TXN_ITEMS: usize = 256;

/// A serialized public key: the payer of a transaction.
#[derive(Clone, Debug, PartialEq, Eq)]
pub struct PayerPublicKey(pub Vec<u8>);

/// A serialized signature.
#[derive(Clone, Debug, PartialEq, Eq)]
pub struct Signature(pub Vec<u8>);

/// A reference to one output of an earlier transaction.
#[derive(Clone, Copy, Debug, PartialEq, Eq)]
pub struct TransactionInput {
    pub transaction_hash: crate::hash::Hash,
    pub output_index: u16,
}

/// An amount and the hash of the public key that may spend it.
#[derive(Clone, Copy, Debug, PartialEq, Eq)]
pub struct TransactionOutput {
    pub amount: Amount,
    pub recipient_hash: crate::hash::Hash,
}

/// What a `TransactionInput` stands for.
pub struct InputModel {
    pub tx: Seq<u8>,
    pub index: u16,
}

/// What a `TransactionOutput` stands for.
pub struct OutputModel {
    pub amount: u64,
    pub recipient: Seq<u8>,
}

/// What a `Transaction` stands for. Its hash is not a field: it is the
/// digest of the signature.
pub struct TxModel {
    pub payer: Seq<u8>,
    pub inputs: Seq<InputModel>,
    pub outputs: Seq<OutputModel>,
    pub signature: Seq<u8>,
}

impl PayerPublicKey {
    /// Whether the key has the length of a serialized secp256k1 key.
    pub fn check_len(&self) -> (ok: bool)
        ensures
            ok == (self@.len() == PUBLIC_KEY_LEN),
    {
        self.0.len() == PUBLIC_KEY_LEN
    }
}

impl View for PayerPublicKey {
    type V = Seq<u8>;

    open spec fn view(&self) -> Seq<u8> {
        self.0@
    }
}

impl View for Signature {
    type V = Seq<u8>;

    open spec fn view(&self) -> Seq<u8> {
        self.0@
    }
}

impl View for TransactionInput {
    type V = InputModel;

    open spec fn view(&self) -> InputModel {
        InputModel { tx: self.transaction_hash@, index: self.output_index }
    }
}

impl View for TransactionOutput {
    type V = OutputModel;

    open spec fn view(&self) -> OutputModel {
        OutputModel { amount: self.amount.0, recipient: self.recipient_hash@ }
    }
}

/// The models of a run of inputs.
pub open spec fn inputs_view(s: Seq<TransactionInput>) -> Seq<InputModel> {
    Seq::new(s.len(), |k: int| s[k]@)
}

/// The models of a run of outputs.
pub open spec fn outputs_view(s: Seq<TransactionOutput>) -> Seq<OutputModel> {
    Seq::new(s.len(), |k: int| s[k]@)
}

/// One input: the 32 bytes of the hash, then the index.
pub open spec fn encode_input(i: InputModel) -> Seq<u8> {
    i.tx + spec_u16_to_le_bytes(i.index)
}

/// One output: the amount, then the 32 bytes of the recipient.
pub open spec fn encode_output(o: OutputModel) -> Seq<u8> {
    spec_u64_to_le_bytes(o.amount) + o.recipient
}

/// The inputs one after another, without the length in front.
pub open spec fn encode_input_run(s: Seq<InputModel>) -> Seq<u8>
    decreases s.len(),
{
    if s.len() == 0 {
        Seq::empty()
    } else {
        encode_input_run(s.drop_last()) + encode_input(s.last())
    }
}

/// The outputs one after another, without the length in front.
pub open spec fn encode_output_run(s: Seq<OutputModel>) -> Seq<u8>
    decreases s.len(),
{
    if s.len() == 0 {
        Seq::empty()
    } else {
        encode_output_run(s.drop_last()) + encode_output(s.last())
    }
}

impl TxModel {
    /// The hash of the transaction: the digest of its signature.
    pub open spec fn hash(self) -> Seq<u8> {
        sha256_digest(self.signature)
    }

    /// The hash of the payer's public key.
    pub open spec fn payer_hash(self) -> Seq<u8> {
        sha256_digest(self.payer)
    }

    /// The bytes that the signature covers: payer, inputs, outputs.
    pub open spec fn signing_data(self) -> Seq<u8> {
        encode_bytes(self.payer) + length_prefix(self.inputs.len()) + encode_input_run(self.inputs)
            + length_prefix(self.outputs.len()) + encode_output_run(self.outputs)
    }

    /// The bytes that carry the whole transaction: the signed part, then
    /// the signature.
    pub open spec fn wire_form(self) -> Seq<u8> {
        self.signing_data() + encode_bytes(self.signature)
    }

    /// Whether the signature is one that the payer's key accepts for the
    /// digest of the signed bytes, the key being of the expected length.
    pub open spec fn signature_valid(self) -> bool {
        self.payer.len() == PUBLIC_KEY_LEN && ecdsa_accepts(
            self.payer,
            self.signature,
            sha256_digest(self.signing_data()),
        )
    }

    /// Whether every output goes to a different recipient.
    pub open spec fn recipients_distinct(self) -> bool {
        forall|i: int, j: int|
            0 <= i < j < self.outputs.len() ==> self.outputs[i].recipient
                != self.outputs[j].recipient
    }

    /// Whether no output carries more than `MAX_MONEY`.
    pub open spec fn amounts_in_range(self) -> bool {
        forall|i: int|
            0 <= i < self.outputs.len() ==> #[trigger] self.outputs[i].amount
                <= crate::amount::MAX_MONEY_UNITS
    }

    /// The sum of the amounts of the outputs.
    pub open spec fn debited(self) -> int {
        sum_amounts(self.outputs)
    }
}

/// The wire forms of the transactions one after another, without the
/// length in front.
pub open spec fn encode_tx_run(s: Seq<TxModel>) -> Seq<u8>
    decreases s.len(),
{
    if s.len() == 0 {
        Seq::empty()
    } else {
        encode_tx_run(s.drop_last()) + s.last().wire_form()
    }
}

/// The models of a run of transactions.
pub open spec fn txs_view(s: Seq<Transaction>) -> Seq<TxModel> {
    Seq::new(s.len(), |k: int| s[k]@)
}

/// The sum of the amounts of `outputs`.
pub open spec fn sum_amounts(outputs: Seq<OutputModel>) -> int
    decreases outputs.len(),
{
    if outputs.len() == 0 {
        0
    } else {
        sum_amounts(outputs.drop_last()) + outputs.last().amount
    }
}

/// A payer, the outputs it spends, the outputs it creates, and its
/// signature over the three. The hash is kept beside them.
#[derive(Debug, PartialEq, Eq)]
pub struct Transaction {
    payer: PayerPublicKey,
    inputs: Vec<TransactionInput>,
    outputs: Vec<TransactionOutput>,
    signature: Signature,
    transaction_hash: crate::hash::Hash,
}

impl View for Transaction {
    type V = TxModel;

    closed spec fn view(&self) -> TxModel {
        TxModel {
            payer: self.payer@,
            inputs: inputs_view(self.inputs@),
            outputs: outputs_view(self.outputs@),
            signature: self.signature@,
        }
    }
}

impl Transaction {
    #[verifier::type_invariant]
    spec fn hash_is_current(self) -> bool {
        self.transaction_hash@ == sha256_digest(self.signature@)
    }

    /// Puts the four parts together and computes the hash.
    pub fn new(
        payer: PayerPublicKey,
        inputs: Vec<TransactionInput>,
        outputs: Vec<TransactionOutput>,
        signature: Signature,
    ) -> (t: Transaction)
        ensures
            t@ == (TxModel {
                payer: payer@,
                inputs: inputs_view(inputs@),
                outputs: outputs_view(outputs@),
                signature: signature@,
            }),
    {
        let transaction_hash = crate::hash::Hash::sha256(signature.0.as_slice());
        Transaction { payer, inputs, outputs, signature, transaction_hash }
    }

    /// The transaction with `signature` in place of its own, if the payer's
    /// key accepts that signature; nothing otherwise.
    pub fn signed(self, signature: Vec<u8>) -> (r: Option<Transaction>)
        ensures
            r.is_some() == (TxModel { signature: signature@, ..self@ }).signature_valid(),
            r.is_some() ==> r.unwrap()@ == (TxModel { signature: signature@, ..self@ }),
    {
        let t = Transaction::new(self.payer, self.inputs, self.outputs, Signature(signature));
        if t.verify_signature() {
            Some(t)
        } else {
            None
        }
    }

    /// Computes the hash from the signature again. Every transaction
    /// carries the hash of its signature, so nothing changes.
    pub fn recalc_hash(&mut self)
        ensures
            final(self)@ == old(self)@,
    {
        let transaction_hash = crate::hash::Hash::sha256(self.signature.0.as_slice());
        self.transaction_hash = transaction_hash;
    }

    /// A copy of the transaction.
    pub fn duplicate(&self) -> (t: Transaction)
        ensures
            t@ == self@,
    {
        proof {
            use_type_invariant(self);
        }
        let payer = PayerPublicKey(crate::encoding::copy_bytes(self.payer.0.as_slice()));
        let signature = Signature(crate::encoding::copy_bytes(self.signature.0.as_slice()));
        let mut inputs: Vec<TransactionInput> = Vec::new();
        let n = self.inputs.len();
        let mut i: usize = 0;
        while i < n
            invariant
                n == self.inputs@.len(),
                0 <= i <= n,
                inputs@ == self.inputs@.take(i as int),
            decreases n - i,
        {
            inputs.push(self.inputs[i]);
            assert(inputs@ =~= self.inputs@.take(i + 1));
            i = i + 1;
        }
        assert(inputs@ =~= self.inputs@);
        let mut outputs: Vec<TransactionOutput> = Vec::new();
        let m = self.outputs.len();
        let mut j: usize = 0;
        while j < m
            invariant
                m == self.outputs@.len(),
                0 <= j <= m,
                outputs@ == self.outputs@.take(j as int),
            decreases m - j,
        {
            outputs.push(self.outputs[j]);
            assert(outputs@ =~= self.outputs@.take(j + 1));
            j = j + 1;
        }
        assert(outputs@ =~= self.outputs@);
        Transaction { payer, inputs, outputs, signature, transaction_hash: self.transaction_hash }
    }

    /// The hash of the transaction.
    pub fn transaction_hash(&self) -> (h: &crate::hash::Hash)
        ensures
            h@ == self@.hash(),
    {
        proof {
            use_type_invariant(self);
        }
        &self.transaction_hash
    }

    /// The payer's public key.
    pub fn payer(&self) -> (p: &PayerPublicKey)
        ensures
            p@ == self@.payer,
    {
        &self.payer
    }

    /// The outputs that the transaction spends.
    pub fn inputs(&self) -> (v: &Vec<TransactionInput>)
        ensures
            inputs_view(v@) == self@.inputs,
    {
        &self.inputs
    }

    /// The outputs that the transaction creates.
    pub fn outputs(&self) -> (v: &Vec<TransactionOutput>)
        ensures
            outputs_view(v@) == self@.outputs,
    {
        &self.outputs
    }

    /// The signature.
    pub fn signature(&self) -> (s: &Signature)
        ensures
            s@ == self@.signature,
    {
        &self.signature
    }

    /// The bytes that the signature covers.
    pub fn to_signature_data(&self) -> (data: Vec<u8>)
        ensures
            data@ == self@.signing_data(),
    {
        let mut buf: Vec<u8> = Vec::new();
        put_bytes(&mut buf, self.payer.0.as_slice());
        put_u64(&mut buf, self.inputs.len() as u64);
        let ghost head = buf@;
        let n = self.inputs.len();
        let mut i: usize = 0;
        while i < n
            invariant
                n == self.inputs@.len(),
                0 <= i <= n,
                buf@ == head + encode_input_run(inputs_view(self.inputs@).take(i as int)),
            decreases n - i,
        {
            let input = &self.inputs[i];
            let ghost before = buf@;
            put_raw(&mut buf, input.transaction_hash.0.as_slice());
            put_u16(&mut buf, input.output_index);
            proof {
                let all = inputs_view(self.inputs@);
                assert(all.take(i + 1).drop_last() =~= all.take(i as int));
                assert(all.take(i + 1).last() == input@);
                assert(buf@ =~= before + encode_input(input@));
            }
            i = i + 1;
        }
        proof {
            let all = inputs_view(self.inputs@);
            assert(all.take(n as int) =~= all);
        }
        put_u64(&mut buf, self.outputs.len() as u64);
        let ghost head2 = buf@;
        let m = self.outputs.len();
        let mut j: usize = 0;
        while j < m
            invariant
                m == self.outputs@.len(),
                0 <= j <= m,
                buf@ == head2 + encode_output_run(outputs_view(self.outputs@).take(j as int)),
            decreases m - j,
        {
            let output = &self.outputs[j];
            let ghost before = buf@;
            put_u64(&mut buf, output.amount.0);
            put_raw(&mut buf, output.recipient_hash.0.as_slice());
            proof {
                let all = outputs_view(self.outputs@);
                assert(all.take(j + 1).drop_last() =~= all.take(j as int));
                assert(all.take(j + 1).last() == output@);
                assert(buf@ =~= before + encode_output(output@));
            }
            j = j + 1;
        }
        proof {
            let all = outputs_view(self.outputs@);
            assert(all.take(m as int) =~= all);
            assert(buf@ =~= self@.signing_data());
        }
        buf
    }

    /// The bytes that carry the whole transaction, from which
    /// `decode_transaction` reads it back.
    pub fn to_wire_form(&self) -> (data: Vec<u8>)
        ensures
            data@ == self@.wire_form(),
            self@.encodable(),
            crate::wire::decode_wire(data@) == Some(self@),
    {
        let sizes = (
            self.payer.0.len(),
            self.inputs.len(),
            self.outputs.len(),
            self.signature.0.len(),
        );
        proof {
            crate::wire::law_wire_round_trip(self@, Seq::empty());
            assert(self@.wire_form() + Seq::<u8>::empty() =~= self@.wire_form());
        }
        let mut buf = self.to_signature_data();
        put_bytes(&mut buf, self.signature.0.as_slice());
        buf
    }

    /// What the transaction pays out: the sum of its outputs.
    pub fn debited_amount(&self) -> (debited: u128)
        requires
            self@.outputs.len() <= 256,
        ensures
            debited == self@.debited(),
    {
        let m = self.outputs.len();
        let mut debited: u128 = 0;
        let mut j: usize = 0;
        while j < m
            invariant
                m == self.outputs@.len(),
                m <= 256,
                0 <= j <= m,
                debited == sum_amounts(self@.outputs.take(j as int)),
                debited <= j * 0xffff_ffff_ffff_ffff,
            decreases m - j,
        {
            proof {
                assert(self@.outputs.take(j + 1).drop_last() =~= self@.outputs.take(j as int));
                assert(self@.outputs.take(j + 1).last() == self.outputs@[j as int]@);
            }
            debited = debited + self.outputs[j].amount.0 as u128;
            j = j + 1;
        }
        assert(self@.outputs.take(m as int) =~= self@.outputs);
        debited
    }

    /// Whether no output carries more than `MAX_MONEY`.
    pub fn amounts_in_range(&self) -> (ok: bool)
        ensures
            ok == self@.amounts_in_range(),
    {
        let m = self.outputs.len();
        let mut j: usize = 0;
        while j < m
            invariant
                m == self.outputs@.len(),
                0 <= j <= m,
                forall|k: int| 0 <= k < j ==> #[trigger] self@.outputs[k].amount
                    <= crate::amount::MAX_MONEY_UNITS,
            decreases m - j,
        {
            if self.outputs[j].amount.0 > crate::amount::MAX_MONEY_UNITS {
                assert(self@.outputs[j as int].amount > crate::amount::MAX_MONEY_UNITS);
                return false;
            }
            assert(self@.outputs[j as int] == self.outputs@[j as int]@);
            j = j + 1;
        }
        true
    }

    /// Whether every output goes to a different recipient.
    pub fn recipients_distinct(&self) -> (ok: bool)
        ensures
            ok == self@.recipients_distinct(),
    {
        let m = self.outputs.len();
        let mut j: usize = 0;
        while j < m
            invariant
                m == self.outputs@.len(),
                0 <= j <= m,
                forall|a: int, b: int|
                    0 <= a < b < j ==> self@.outputs[a].recipient != self@.outputs[b].recipient,
            decreases m - j,
        {
            let mut i: usize = 0;
            while i < j
                invariant
                    m == self.outputs@.len(),
                    0 <= i <= j < m,
                    forall|a: int|
                        0 <= a < i ==> self@.outputs[a].recipient != self@.outputs[j as int].recipient,
                decreases j - i,
            {
                if self.outputs[i].recipient_hash.same(&self.outputs[j].recipient_hash) {
                    assert(self@.outputs[i as int].recipient == self@.outputs[j as int].recipient);
                    return false;
                }
                i = i + 1;
            }
            j = j + 1;
        }
        true
    }

    /// Whether the transaction is a reward: no input, and one output of
    /// exactly the block reward.
    pub fn is_reward(&self) -> (ok: bool)
        ensures
            ok == crate::ledger::is_reward(self@),
    {
        self.inputs.len() == 0 && self.outputs.len() == 1 && self.outputs[0].amount.0
            == crate::amount::BLOCK_REWARD_UNITS
    }

    /// Number of inputs.
    pub fn input_count(&self) -> (n: usize)
        ensures
            n == self@.inputs.len(),
    {
        self.inputs.len()
    }

    /// Number of outputs.
    pub fn output_count(&self) -> (n: usize)
        ensures
            n == self@.outputs.len(),
    {
        self.outputs.len()
    }

    /// Whether the payer's key has the expected length and accepts the
    /// signature.
    pub fn verify_signature(&self) -> (ok: bool)
        ensures
            ok == self@.signature_valid(),
    {
        if !self.payer.check_len() {
            return false;
        }
        let data = self.to_signature_data();
        let digest = openssl::sha::sha256(data.as_slice());
        ecdsa_verify_der(self.payer.0.as_slice(), self.signature.0.as_slice(), &digest)
    }
}

} // verus!
