//! Reading a transaction back from the bytes that carry it.

use vstd::prelude::*;
use vstd::bytes::lemma_auto_spec_u16_to_from_le_bytes;
use vstd::bytes::lemma_auto_spec_u64_to_from_le_bytes;
use vstd::bytes::spec_u16_from_le_bytes;
use vstd::bytes::spec_u16_to_le_bytes;
use vstd::bytes::spec_u64_from_le_bytes;
use vstd::bytes::spec_u64_to_le_bytes;
use vstd::bytes::u16_from_le_bytes;
use vstd::bytes::u64_from_le_bytes;
use vstd::slice::slice_subrange;
use crate::amount::Amount;
use crate::encoding::length_prefix;
use crate::transaction::InputModel;
use crate::transaction::OutputModel;
use crate::transaction::PayerPublicKey;
use crate::transaction::Signature;
use crate::transaction::Transaction;
use crate::transaction::TransactionInput;
use crate::transaction::TransactionOutput;
use crate::transaction::TxModel;
use crate::transaction::encode_input;
use crate::transaction::encode_input_run;
use crate::transaction::encode_output;
use crate::transaction::encode_output_run;
use crate::transaction::inputs_view;
use crate::transaction::outputs_view;

verus! {

/// Bytes of an encoded input: a hash and a 16-bit index.
pub const INPUT_LEN: usize = 34;

/// Bytes of an encoded output: a 64-bit amount and a hash.
pub const OUTPUT_LEN: usize = 40;

/// The 64-bit integer at place `at`.
pub open spec fn read_u64(bytes: Seq<u8>, at: int) -> u64 {
    spec_u64_from_le_bytes(bytes.subrange(at, at + 8))
}

/// The 16-bit integer at place `at`.
pub open spec fn read_u16(bytes: Seq<u8>, at: int) -> u16 {
    spec_u16_from_le_bytes(bytes.subrange(at, at + 2))
}

/// The input at place `at`.
pub open spec fn input_at(bytes: Seq<u8>, at: int) -> InputModel {
    InputModel { tx: bytes.subrange(at, at + 32), index: read_u16(bytes, at + 32) }
}

/// The output at place `at`.
pub open spec fn output_at(bytes: Seq<u8>, at: int) -> OutputModel {
    OutputModel { amount: read_u64(bytes, at), recipient: bytes.subrange(at + 8, at + 40) }
}

/// The transaction that the front of `bytes` carries, if there is one:
/// the payer with its length, the inputs with their number, the outputs
/// with their number, the signature with its length. Bytes that follow
/// are passed over. There is none when the bytes end before a part does.
pub open spec fn decode_wire(bytes: Seq<u8>) -> Option<TxModel> {
    if bytes.len() < 8 {
        None
    } else {
        let payer_len = read_u64(bytes, 0) as int;
        let a1 = 8 + payer_len;
        if a1 + 8 > bytes.len() {
            None
        } else {
            let inputs = read_u64(bytes, a1) as int;
            let a2 = a1 + 8;
            let a3 = a2 + INPUT_LEN * inputs;
            if a3 + 8 > bytes.len() {
                None
            } else {
                let outputs = read_u64(bytes, a3) as int;
                let a4 = a3 + 8;
                let a5 = a4 + OUTPUT_LEN * outputs;
                if a5 + 8 > bytes.len() {
                    None
                } else {
                    let signature_len = read_u64(bytes, a5) as int;
                    let a6 = a5 + 8;
                    if a6 + signature_len > bytes.len() {
                        None
                    } else {
                        Some(
                            TxModel {
                                payer: bytes.subrange(8, a1),
                                inputs: Seq::new(inputs as nat, |k: int| input_at(bytes, a2 + INPUT_LEN * k)),
                                outputs: Seq::new(
                                    outputs as nat,
                                    |k: int| output_at(bytes, a4 + OUTPUT_LEN * k),
                                ),
                                signature: bytes.subrange(a6, a6 + signature_len),
                            },
                        )
                    }
                }
            }
        }
    }
}

impl TxModel {
    /// Whether the transaction can be written: every hash in it has 32
    /// bytes, and every length fits the 64 bits that announce it.
    pub open spec fn encodable(self) -> bool {
        &&& self.payer.len() <= u64::MAX
        &&& self.signature.len() <= u64::MAX
        &&& self.inputs.len() <= u64::MAX
        &&& self.outputs.len() <= u64::MAX
        &&& forall|k: int| 0 <= k < self.inputs.len() ==> (#[trigger] self.inputs[k]).tx.len() == 32
        &&& forall|k: int|
            0 <= k < self.outputs.len() ==> (#[trigger] self.outputs[k]).recipient.len() == 32
    }
}

/// The 32 bytes at place `at` as a hash.
fn hash_from(bytes: &[u8], at: usize) -> (h: crate::hash::Hash)
    requires
        at + 32 <= bytes@.len(),
    ensures
        h@ == bytes@.subrange(at as int, at + 32),
{
    let len = bytes.len();
    let mut a = [0u8; 32];
    let mut i: usize = 0;
    while i < 32
        invariant
            0 <= i <= 32,
            len == bytes@.len(),
            at + 32 <= bytes@.len(),
            forall|j: int| 0 <= j < i ==> a@[j] == bytes@[at + j],
        decreases 32 - i,
    {
        a[i] = bytes[at + i];
        i = i + 1;
    }
    let h = crate::hash::Hash(a);
    assert(h@ =~= bytes@.subrange(at as int, at + 32));
    h
}

/// The 64-bit integer at place `at`.
fn u64_from(bytes: &[u8], at: usize) -> (x: u64)
    requires
        at + 8 <= bytes@.len(),
    ensures
        x == read_u64(bytes@, at as int),
{
    let len = bytes.len();
    u64_from_le_bytes(slice_subrange(bytes, at, at + 8))
}

/// The transaction that the front of `bytes` carries, if there is one.
#[verifier::loop_isolation(false)]
pub fn decode_transaction(bytes: &[u8]) -> (r: Option<Transaction>)
    ensures
        r.is_some() == decode_wire(bytes@).is_some(),
        r.is_some() ==> r.unwrap()@ == decode_wire(bytes@).unwrap(),
{
    let len = bytes.len();
    if len < 8 {
        return None;
    }
    let payer_len = u64_from(bytes, 0);
    if payer_len > (len - 8) as u64 {
        return None;
    }
    let a1: usize = 8 + payer_len as usize;
    if len - a1 < 8 {
        return None;
    }
    let input_count = u64_from(bytes, a1);
    let a2: usize = a1 + 8;
    if input_count > ((len - a2) / INPUT_LEN) as u64 {
        return None;
    }
    let a3: usize = a2 + INPUT_LEN * input_count as usize;
    if len - a3 < 8 {
        return None;
    }
    let output_count = u64_from(bytes, a3);
    let a4: usize = a3 + 8;
    if output_count > ((len - a4) / OUTPUT_LEN) as u64 {
        return None;
    }
    let a5: usize = a4 + OUTPUT_LEN * output_count as usize;
    if len - a5 < 8 {
        return None;
    }
    let signature_len = u64_from(bytes, a5);
    let a6: usize = a5 + 8;
    if signature_len > (len - a6) as u64 {
        return None;
    }
    let ghost goal = decode_wire(bytes@).unwrap();
    let payer = PayerPublicKey(crate::encoding::copy_bytes(slice_subrange(bytes, 8, a1)));
    let signature = Signature(
        crate::encoding::copy_bytes(slice_subrange(bytes, a6, a6 + signature_len as usize)),
    );
    let mut inputs: Vec<TransactionInput> = Vec::new();
    let n = input_count as usize;
    let mut k: usize = 0;
    while k < n
        invariant
            0 <= k <= n,
            inputs@.len() == k,
            forall|j: int| 0 <= j < k ==> (#[trigger] inputs@[j])@ == goal.inputs[j],
        decreases n - k,
    {
        let at = a2 + INPUT_LEN * k;
        let transaction_hash = hash_from(bytes, at);
        let output_index = u16_from_le_bytes(slice_subrange(bytes, at + 32, at + 34));
        inputs.push(TransactionInput { transaction_hash, output_index });
        k = k + 1;
    }
    let mut outputs: Vec<TransactionOutput> = Vec::new();
    let m = output_count as usize;
    let mut k: usize = 0;
    while k < m
        invariant
            0 <= k <= m,
            outputs@.len() == k,
            forall|j: int| 0 <= j < k ==> (#[trigger] outputs@[j])@ == goal.outputs[j],
        decreases m - k,
    {
        let at = a4 + OUTPUT_LEN * k;
        let amount = u64_from(bytes, at);
        let recipient_hash = hash_from(bytes, at + 8);
        outputs.push(TransactionOutput { amount: Amount(amount), recipient_hash });
        k = k + 1;
    }
    assert(inputs_view(inputs@) =~= goal.inputs);
    assert(outputs_view(outputs@) =~= goal.outputs);
    Some(Transaction::new(payer, inputs, outputs, signature))
}

/// A run of inputs takes 34 bytes for each, one after another.
pub proof fn lemma_input_run_layout(s: Seq<InputModel>)
    requires
        forall|k: int| 0 <= k < s.len() ==> (#[trigger] s[k]).tx.len() == 32,
    ensures
        encode_input_run(s).len() == INPUT_LEN * s.len(),
        forall|k: int|
            0 <= k < s.len() ==> encode_input_run(s).subrange(INPUT_LEN * k, INPUT_LEN * k + INPUT_LEN)
                == encode_input(#[trigger] s[k]),
    decreases s.len(),
{
    lemma_auto_spec_u16_to_from_le_bytes();
    if s.len() > 0 {
        let rest = s.drop_last();
        assert forall|k: int| 0 <= k < rest.len() implies (#[trigger] rest[k]).tx.len() == 32 by {
            assert(rest[k] == s[k]);
        }
        lemma_input_run_layout(rest);
        let run = encode_input_run(s);
        let head = encode_input_run(rest);
        assert(s[s.len() - 1].tx.len() == 32);
        assert forall|k: int| 0 <= k < s.len() implies run.subrange(
            INPUT_LEN * k,
            INPUT_LEN * k + INPUT_LEN,
        ) == encode_input(#[trigger] s[k]) by {
            if k < rest.len() {
                assert(rest[k] == s[k]);
                assert(run.subrange(INPUT_LEN * k, INPUT_LEN * k + INPUT_LEN) =~= head.subrange(
                    INPUT_LEN * k,
                    INPUT_LEN * k + INPUT_LEN,
                ));
            } else {
                assert(run.subrange(INPUT_LEN * k, INPUT_LEN * k + INPUT_LEN) =~= encode_input(
                    s.last(),
                ));
            }
        }
    }
}

/// A run of outputs takes 40 bytes for each, one after another.
pub proof fn lemma_output_run_layout(s: Seq<OutputModel>)
    requires
        forall|k: int| 0 <= k < s.len() ==> (#[trigger] s[k]).recipient.len() == 32,
    ensures
        encode_output_run(s).len() == OUTPUT_LEN * s.len(),
        forall|k: int|
            0 <= k < s.len() ==> encode_output_run(s).subrange(
                OUTPUT_LEN * k,
                OUTPUT_LEN * k + OUTPUT_LEN,
            ) == encode_output(#[trigger] s[k]),
    decreases s.len(),
{
    lemma_auto_spec_u64_to_from_le_bytes();
    if s.len() > 0 {
        let rest = s.drop_last();
        assert forall|k: int| 0 <= k < rest.len() implies (#[trigger] rest[k]).recipient.len()
            == 32 by {
            assert(rest[k] == s[k]);
        }
        lemma_output_run_layout(rest);
        let run = encode_output_run(s);
        let head = encode_output_run(rest);
        assert(s[s.len() - 1].recipient.len() == 32);
        assert forall|k: int| 0 <= k < s.len() implies run.subrange(
            OUTPUT_LEN * k,
            OUTPUT_LEN * k + OUTPUT_LEN,
        ) == encode_output(#[trigger] s[k]) by {
            if k < rest.len() {
                assert(rest[k] == s[k]);
                assert(run.subrange(OUTPUT_LEN * k, OUTPUT_LEN * k + OUTPUT_LEN) =~= head.subrange(
                    OUTPUT_LEN * k,
                    OUTPUT_LEN * k + OUTPUT_LEN,
                ));
            } else {
                assert(run.subrange(OUTPUT_LEN * k, OUTPUT_LEN * k + OUTPUT_LEN) =~= encode_output(
                    s.last(),
                ));
            }
        }
    }
}

/// Inputs that were written as a run are read back one by one.
pub proof fn lemma_inputs_read(bytes: Seq<u8>, at: int, inputs: Seq<InputModel>)
    requires
        0 <= at,
        at + INPUT_LEN * inputs.len() <= bytes.len(),
        bytes.subrange(at, at + INPUT_LEN * inputs.len()) == encode_input_run(inputs),
        forall|k: int| 0 <= k < inputs.len() ==> (#[trigger] inputs[k]).tx.len() == 32,
    ensures
        forall|k: int| 0 <= k < inputs.len() ==> input_at(bytes, at + INPUT_LEN * k) == #[trigger] inputs[k],
{
    lemma_input_run_layout(inputs);
    let run = encode_input_run(inputs);
    assert forall|k: int| 0 <= k < inputs.len() implies input_at(bytes, at + INPUT_LEN * k)
        == #[trigger] inputs[k] by {
        assert(bytes.subrange(at + INPUT_LEN * k, at + INPUT_LEN * k + INPUT_LEN) =~= run.subrange(
            INPUT_LEN * k,
            INPUT_LEN * k + INPUT_LEN,
        ));
        lemma_input_read(bytes, at + INPUT_LEN * k, inputs[k]);
    }
}

/// An input that was written is read back.
pub proof fn lemma_input_read(bytes: Seq<u8>, at: int, input: InputModel)
    requires
        0 <= at,
        at + INPUT_LEN <= bytes.len(),
        bytes.subrange(at, at + INPUT_LEN) == encode_input(input),
        input.tx.len() == 32,
    ensures
        input_at(bytes, at) == input,
{
    lemma_auto_spec_u16_to_from_le_bytes();
    let piece = encode_input(input);
    assert(bytes.subrange(at, at + 32) =~= piece.subrange(0, 32));
    assert(piece.subrange(0, 32) =~= input.tx);
    assert(bytes.subrange(at + 32, at + 32 + 2) =~= piece.subrange(32, 34));
    assert(piece.subrange(32, 34) =~= spec_u16_to_le_bytes(input.index));
}

/// Outputs that were written as a run are read back one by one.
pub proof fn lemma_outputs_read(bytes: Seq<u8>, at: int, outputs: Seq<OutputModel>)
    requires
        0 <= at,
        at + OUTPUT_LEN * outputs.len() <= bytes.len(),
        bytes.subrange(at, at + OUTPUT_LEN * outputs.len()) == encode_output_run(outputs),
        forall|k: int| 0 <= k < outputs.len() ==> (#[trigger] outputs[k]).recipient.len() == 32,
    ensures
        forall|k: int|
            0 <= k < outputs.len() ==> output_at(bytes, at + OUTPUT_LEN * k) == #[trigger] outputs[k],
{
    lemma_output_run_layout(outputs);
    let run = encode_output_run(outputs);
    assert forall|k: int| 0 <= k < outputs.len() implies output_at(bytes, at + OUTPUT_LEN * k)
        == #[trigger] outputs[k] by {
        assert(bytes.subrange(at + OUTPUT_LEN * k, at + OUTPUT_LEN * k + OUTPUT_LEN)
            =~= run.subrange(OUTPUT_LEN * k, OUTPUT_LEN * k + OUTPUT_LEN));
        lemma_output_read(bytes, at + OUTPUT_LEN * k, outputs[k]);
    }
}

/// An output that was written is read back.
pub proof fn lemma_output_read(bytes: Seq<u8>, at: int, output: OutputModel)
    requires
        0 <= at,
        at + OUTPUT_LEN <= bytes.len(),
        bytes.subrange(at, at + OUTPUT_LEN) == encode_output(output),
        output.recipient.len() == 32,
    ensures
        output_at(bytes, at) == output,
{
    lemma_auto_spec_u64_to_from_le_bytes();
    let piece = encode_output(output);
    assert(bytes.subrange(at, at + 8) =~= piece.subrange(0, 8));
    assert(piece.subrange(0, 8) =~= spec_u64_to_le_bytes(output.amount));
    assert(bytes.subrange(at + 8, at + 40) =~= piece.subrange(8, 40));
    assert(piece.subrange(8, 40) =~= output.recipient);
}

/// Where the parts of a written transaction stand.
pub struct WireLayout {
    pub inputs_count_at: int,
    pub inputs_at: int,
    pub outputs_count_at: int,
    pub outputs_at: int,
    pub signature_len_at: int,
    pub signature_at: int,
}

/// The places of the parts of `t` in its wire form.
pub open spec fn layout_of(t: TxModel) -> WireLayout {
    let a1 = 8 + t.payer.len() as int;
    let a3 = a1 + 8 + INPUT_LEN * t.inputs.len() as int;
    let a5 = a3 + 8 + OUTPUT_LEN * t.outputs.len() as int;
    WireLayout {
        inputs_count_at: a1,
        inputs_at: a1 + 8,
        outputs_count_at: a3,
        outputs_at: a3 + 8,
        signature_len_at: a5,
        signature_at: a5 + 8,
    }
}

/// Every part of a written transaction stands at its place, with its
/// length before it.
pub proof fn lemma_wire_pieces(t: TxModel, rest: Seq<u8>)
    requires
        t.encodable(),
    ensures
        ({
            let bytes = t.wire_form() + rest;
            let w = layout_of(t);
            &&& bytes.len() == w.signature_at + t.signature.len() + rest.len()
            &&& read_u64(bytes, 0) == t.payer.len()
            &&& bytes.subrange(8, w.inputs_count_at) == t.payer
            &&& read_u64(bytes, w.inputs_count_at) == t.inputs.len()
            &&& bytes.subrange(w.inputs_at, w.outputs_count_at) == encode_input_run(t.inputs)
            &&& read_u64(bytes, w.outputs_count_at) == t.outputs.len()
            &&& bytes.subrange(w.outputs_at, w.signature_len_at) == encode_output_run(t.outputs)
            &&& read_u64(bytes, w.signature_len_at) == t.signature.len()
            &&& bytes.subrange(w.signature_at, w.signature_at + t.signature.len()) == t.signature
        }),
{
    lemma_input_run_layout(t.inputs);
    lemma_output_run_layout(t.outputs);
    lemma_auto_spec_u64_to_from_le_bytes();
    let bytes = t.wire_form() + rest;
    let payer_len = length_prefix(t.payer.len());
    let inputs_len = length_prefix(t.inputs.len());
    let inputs = encode_input_run(t.inputs);
    let outputs_len = length_prefix(t.outputs.len());
    let outputs = encode_output_run(t.outputs);
    let signature_len = length_prefix(t.signature.len());
    let with_payer = payer_len + t.payer;
    let with_inputs_len = with_payer + inputs_len;
    let with_inputs = with_inputs_len + inputs;
    let with_outputs_len = with_inputs + outputs_len;
    let with_outputs = with_outputs_len + outputs;
    let with_signature_len = with_outputs + signature_len;
    let whole = with_signature_len + t.signature;
    assert(t.signing_data() == with_outputs);
    assert(t.wire_form() =~= whole);
    let end = whole.len() as int;
    assert(bytes.subrange(0, end) =~= whole);
    lemma_last_piece(bytes, end, with_signature_len, t.signature);
    let signature_at = end - t.signature.len();
    lemma_last_piece(bytes, signature_at, with_outputs, signature_len);
    let signature_len_at = signature_at - signature_len.len();
    lemma_last_piece(bytes, signature_len_at, with_outputs_len, outputs);
    let outputs_at = signature_len_at - outputs.len();
    lemma_last_piece(bytes, outputs_at, with_inputs, outputs_len);
    let outputs_len_at = outputs_at - outputs_len.len();
    lemma_last_piece(bytes, outputs_len_at, with_inputs_len, inputs);
    let inputs_at = outputs_len_at - inputs.len();
    lemma_last_piece(bytes, inputs_at, with_payer, inputs_len);
    let inputs_len_at = inputs_at - inputs_len.len();
    lemma_last_piece(bytes, inputs_len_at, payer_len, t.payer);
}

/// The last piece of the front of a text stands at the end of that front,
/// and what is before it is the rest of the front.
pub proof fn lemma_last_piece(bytes: Seq<u8>, upto: int, front: Seq<u8>, piece: Seq<u8>)
    requires
        0 <= upto <= bytes.len(),
        bytes.subrange(0, upto) == front + piece,
    ensures
        upto == front.len() + piece.len(),
        bytes.subrange(0, upto - piece.len()) == front,
        bytes.subrange(upto - piece.len(), upto) == piece,
{
    let whole = bytes.subrange(0, upto);
    assert(whole.len() == front.len() + piece.len());
    assert(bytes.subrange(0, upto - piece.len()) =~= whole.subrange(0, front.len() as int));
    assert(whole.subrange(0, front.len() as int) =~= front);
    assert(bytes.subrange(upto - piece.len(), upto) =~= whole.subrange(front.len() as int, upto));
    assert(whole.subrange(front.len() as int, upto) =~= piece);
}

/// Reading the bytes that carry a transaction gives back the transaction,
/// whatever bytes follow them; so it gives back its hash.
pub proof fn law_wire_round_trip(t: TxModel, rest: Seq<u8>)
    requires
        t.encodable(),
    ensures
        decode_wire(t.wire_form() + rest) == Some(t),
        decode_wire(t.wire_form() + rest).unwrap().hash() == t.hash(),
{
    lemma_wire_pieces(t, rest);
    let bytes = t.wire_form() + rest;
    let w = layout_of(t);
    lemma_inputs_read(bytes, w.inputs_at, t.inputs);
    lemma_outputs_read(bytes, w.outputs_at, t.outputs);
    let got = decode_wire(bytes).unwrap();
    assert(got.inputs =~= t.inputs);
    assert(got.outputs =~= t.outputs);
}

} // verus!
