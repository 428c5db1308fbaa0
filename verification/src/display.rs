//! A stored transaction as rows of text for a user interface.

use vstd::prelude::*;
use crate::amount::amount_text;
use crate::crypto::base58_text;
use crate::ledger::Ledger;
use crate::ledger::lemma_structured_hashes;
use crate::ledger::lemma_structured_tx;
use crate::storage::BlockchainStorage;
use crate::text::decimal;
use crate::text::hex_text;
use crate::text::push_decimal;
use crate::text::push_hex;
use crate::text::push_str;
use crate::text::string_of;
use crate::transaction::TxModel;

verus! {

/// A label and the value shown beside it.
pub struct UiRow {
    pub label: Seq<char>,
    pub value: Seq<char>,
}

/// What a run of pairs of strings stands for.
pub open spec fn ui_view(v: Seq<(String, String)>) -> Seq<UiRow> {
    Seq::new(v.len(), |i: int| UiRow { label: v[i].0@, value: v[i].1@ })
}

/// The two rows of the output at place `k`: its amount and its recipient.
pub open spec fn output_rows(t: TxModel, k: int) -> Seq<UiRow> {
    seq![
        UiRow {
            label: "Output "@ + decimal(k as nat) + " Amount"@,
            value: amount_text(t.outputs[k].amount),
        },
        UiRow {
            label: "Output "@ + decimal(k as nat) + " Recipient"@,
            value: base58_text(t.outputs[k].recipient),
        },
    ]
}

/// The rows of the first `upto` outputs.
pub open spec fn outputs_rows(t: TxModel, upto: int) -> Seq<UiRow>
    decreases upto,
{
    if upto <= 0 {
        Seq::empty()
    } else {
        outputs_rows(t, upto - 1) + output_rows(t, upto - 1)
    }
}

/// The row of the input at place `k`: the hash that it points at, a dot,
/// and the index.
pub open spec fn input_row(t: TxModel, k: int) -> UiRow {
    UiRow {
        label: "Input "@ + decimal(k as nat),
        value: hex_text(t.inputs[k].tx) + "."@ + decimal(t.inputs[k].index as nat),
    }
}

/// The rows of the first `upto` inputs.
pub open spec fn inputs_rows(t: TxModel, upto: int) -> Seq<UiRow>
    decreases upto,
{
    if upto <= 0 {
        Seq::empty()
    } else {
        inputs_rows(t, upto - 1).push(input_row(t, upto - 1))
    }
}

impl Ledger {
    /// The rows that show the stored transaction of hash `h`: its hash,
    /// its payer, its outputs, its inputs or a note that it is a reward,
    /// what it takes in and pays out if it spends anything, and its
    /// confirmations.
    pub open spec fn ui_rows(self, h: Seq<u8>) -> Seq<UiRow> {
        let t = self.tx(h);
        seq![
            UiRow { label: "Transaction Hash"@, value: hex_text(h) },
            UiRow { label: "Originating Wallet"@, value: base58_text(t.payer_hash()) },
        ] + outputs_rows(t, t.outputs.len() as int) + (if t.inputs.len() == 0 {
            seq![UiRow { label: "Input"@, value: "None (this is a miner reward)"@ }]
        } else {
            Seq::empty()
        }) + inputs_rows(t, t.inputs.len() as int) + (if t.inputs.len() > 0 {
            seq![
                UiRow { label: "Credit Amount"@, value: decimal(self.credited(t) as nat) },
                UiRow { label: "Debit Amount"@, value: decimal(t.debited() as nat) },
            ]
        } else {
            Seq::empty()
        }) + seq![UiRow { label: "Confirmations"@, value: decimal(self.confirmations(h)) }]
    }
}

/// A label made of a word, a number and a second word.
fn numbered(before: &str, k: usize, after: &str) -> (s: String)
    ensures
        s@ == before@ + decimal(k as nat) + after@,
{
    let mut chars: Vec<char> = Vec::new();
    push_str(&mut chars, before);
    push_decimal(&mut chars, k as u128);
    push_str(&mut chars, after);
    assert(chars@ =~= before@ + decimal(k as nat) + after@);
    string_of(&chars)
}

/// A number as text.
fn number(n: u128) -> (s: String)
    ensures
        s@ == decimal(n as nat),
{
    let mut chars: Vec<char> = Vec::new();
    push_decimal(&mut chars, n);
    assert(chars@ =~= decimal(n as nat));
    string_of(&chars)
}

/// A sum of amounts is not negative.
proof fn lemma_credit_nonnegative(l: Ledger, inputs: Seq<crate::transaction::InputModel>)
    ensures
        l.credited_of(inputs) >= 0,
    decreases inputs.len(),
{
    if inputs.len() > 0 {
        lemma_credit_nonnegative(l, inputs.drop_last());
    }
}

impl BlockchainStorage {
    /// The stored transaction of hash `h` as rows of a label and a value,
    /// if there is one.
    #[verifier::loop_isolation(false)]
    pub fn get_ui_transaction_by_hash(&self, h: &crate::hash::Hash) -> (r: Option<
        Vec<(String, String)>,
    >)
        requires
            self.wf(),
        ensures
            r.is_some() == self@.has_tx(h@),
            r.is_some() ==> ui_view(r.unwrap()@) == self@.ui_rows(h@),
    {
        proof {
            lemma_structured_hashes(self@);
        }
        let at = match self.find_tx(h) {
            Some(at) => at,
            None => {
                return None;
            },
        };
        let t = self.transaction_at(at);
        proof {
            lemma_structured_tx(self@, at as int);
        }
        let ghost tm = t@;
        let mut rv: Vec<(String, String)> = Vec::new();
        rv.push(("Transaction Hash".to_owned(), h.display_hex()));
        let payer_hash = crate::hash::Hash::sha256(t.payer().0.as_slice());
        rv.push(("Originating Wallet".to_owned(), payer_hash.display_base58()));
        let ghost head = ui_view(rv@);
        assert(head =~= seq![
            UiRow { label: "Transaction Hash"@, value: hex_text(h@) },
            UiRow { label: "Originating Wallet"@, value: base58_text(tm.payer_hash()) },
        ]);
        let outputs = t.outputs();
        let m = outputs.len();
        let mut k: usize = 0;
        assert(ui_view(rv@) =~= head + outputs_rows(tm, 0));
        while k < m
            invariant
                0 <= k <= m,
                ui_view(rv@) == head + outputs_rows(tm, k as int),
            decreases m - k,
        {
            let o = &outputs[k];
            assert(tm.outputs[k as int] == o@);
            let ghost before = ui_view(rv@);
            rv.push((numbered("Output ", k, " Amount"), o.amount.to_string()));
            rv.push((numbered("Output ", k, " Recipient"), o.recipient_hash.display_base58()));
            assert(ui_view(rv@) =~= before + output_rows(tm, k as int));
            assert(ui_view(rv@) =~= head + outputs_rows(tm, k + 1));
            k = k + 1;
        }
        let inputs = t.inputs();
        let n = inputs.len();
        if n == 0 {
            rv.push(("Input".to_owned(), "None (this is a miner reward)".to_owned()));
        }
        let ghost head2 = ui_view(rv@);
        assert(head2 =~= head + outputs_rows(tm, m as int) + (if tm.inputs.len() == 0 {
            seq![UiRow { label: "Input"@, value: "None (this is a miner reward)"@ }]
        } else {
            Seq::empty()
        }));
        let mut k: usize = 0;
        assert(ui_view(rv@) =~= head2 + inputs_rows(tm, 0));
        while k < n
            invariant
                0 <= k <= n,
                ui_view(rv@) == head2 + inputs_rows(tm, k as int),
            decreases n - k,
        {
            let i = &inputs[k];
            assert(tm.inputs[k as int] == i@);
            let ghost before = ui_view(rv@);
            let mut chars: Vec<char> = Vec::new();
            push_hex(&mut chars, i.transaction_hash.0.as_slice());
            push_str(&mut chars, ".");
            push_decimal(&mut chars, i.output_index as u128);
            assert(chars@ =~= hex_text(i@.tx) + "."@ + decimal(i@.index as nat));
            rv.push((numbered("Input ", k, ""), string_of(&chars)));
            proof {
                reveal_strlit("");
                assert("Input "@ + decimal(k as nat) + ""@ =~= "Input "@ + decimal(k as nat));
                assert(ui_view(rv@) =~= before.push(input_row(tm, k as int)));
                assert(ui_view(rv@) =~= head2 + inputs_rows(tm, k + 1));
            }
            k = k + 1;
        }
        let ghost head3 = ui_view(rv@);
        if n > 0 {
            proof {
                lemma_credit_nonnegative(self@, tm.inputs);
            }
            rv.push(("Credit Amount".to_owned(), number(self.credited_amount(t))));
            rv.push(("Debit Amount".to_owned(), number(t.debited_amount())));
        }
        let ghost head4 = ui_view(rv@);
        assert(head4 =~= head3 + (if tm.inputs.len() > 0 {
            seq![
                UiRow { label: "Credit Amount"@, value: decimal(self@.credited(tm) as nat) },
                UiRow { label: "Debit Amount"@, value: decimal(tm.debited() as nat) },
            ]
        } else {
            Seq::empty()
        }));
        let chain = self.longest_chain_indices();
        let conf = self.confirmations_along(&chain, h);
        rv.push(("Confirmations".to_owned(), number(conf as u128)));
        assert(ui_view(rv@) =~= head4 + seq![
            UiRow { label: "Confirmations"@, value: decimal(self@.confirmations(h@)) },
        ]);
        Some(rv)
    }
}

} // verus!
