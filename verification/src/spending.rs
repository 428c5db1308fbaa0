//! The unspent outputs of a wallet, its balance, and the transfer that
//! spends them.

use vstd::prelude::*;
use crate::amount::Amount;
use crate::amount::MAX_MONEY_UNITS;
use crate::block::Block;
use crate::block::BlockModel;
use crate::crypto::sha256_digest;
use crate::error::BlockchainError;
use crate::ledger::Ledger;
use crate::ledger::UtxoRow;
use crate::ledger::lemma_position;
use crate::ledger::lemma_structured_block;
use crate::ledger::lemma_structured_hashes;
use crate::ledger::lemma_structured_tx;
use crate::ledger::total_of;
use crate::storage::BlockchainStorage;
use crate::storage::same_input;
use crate::transaction::InputModel;
use crate::transaction::OutputModel;
use crate::transaction::Transaction;
use crate::transaction::TransactionInput;
use crate::transaction::TransactionOutput;
use crate::transaction::TxModel;
use crate::transaction::inputs_view;
use crate::transaction::outputs_view;
use crate::transaction::txs_view;
use crate::wallet::Wallet;
verus! {

/// What a run of outputs with their sources stands for.
pub open spec fn rows_view(v: Seq<(TransactionInput, Amount)>) -> Seq<UtxoRow> {
    Seq::new(v.len(), |i: int| UtxoRow { source: v[i].0@, amount: v[i].1.0 })
}

/// The sum of the first rows is no more than the sum of all.
pub proof fn lemma_total_grows(rows: Seq<UtxoRow>, k: int)
    requires
        0 <= k <= rows.len(),
    ensures
        0 <= total_of(rows.take(k)) <= total_of(rows),
    decreases rows.len() - k,
{
    if k < rows.len() {
        assert(rows.take(k + 1).drop_last() =~= rows.take(k));
        lemma_total_grows(rows, k + 1);
        lemma_total_nonnegative(rows.take(k));
    } else {
        assert(rows.take(k) =~= rows);
        lemma_total_nonnegative(rows);
    }
}

/// What a transfer pays has the form that the table asks for: one or two
/// outputs, no amount out of range, no recipient twice; and it spends at
/// least one output.
pub proof fn lemma_plan_presentable(rows: Seq<UtxoRow>, requested: u64, sender: Seq<u8>, recipient: Seq<u8>)
    requires
        plan_transfer(rows, requested, sender, recipient).is_ok(),
    ensures
        ({
            let plan = plan_transfer(rows, requested, sender, recipient)->Ok_0;
            &&& 1 <= plan.outputs.len() <= 2
            &&& 1 <= plan.inputs.len()
            &&& forall|k: int|
                0 <= k < plan.outputs.len() ==> (#[trigger] plan.outputs[k]).amount <= MAX_MONEY_UNITS
            &&& forall|i: int, j: int|
                0 <= i < j < plan.outputs.len() ==> plan.outputs[i].recipient
                    != plan.outputs[j].recipient
        }),
{
    lemma_cover_bounds(rows, requested, 0);
    let n = cover_from(rows, requested, 0).unwrap();
    lemma_total_nonnegative(rows.take(n));
}

/// A cover counts at least one row more than were taken before, no more
/// than there are, and reaches the amount.
pub proof fn lemma_cover_bounds(rows: Seq<UtxoRow>, requested: u64, from: int)
    requires
        cover_from(rows, requested, from).is_some(),
    ensures
        from < cover_from(rows, requested, from).unwrap() <= rows.len(),
        total_of(rows.take(cover_from(rows, requested, from).unwrap())) >= requested,
    decreases rows.len() - from,
{
    if 0 <= from < rows.len() {
        if total_of(rows.take(from + 1)) >= requested {
        } else {
            lemma_cover_bounds(rows, requested, from + 1);
        }
    }
}

/// A sum of amounts is not negative.
pub proof fn lemma_total_nonnegative(rows: Seq<UtxoRow>)
    ensures
        0 <= total_of(rows),
    decreases rows.len(),
{
    if rows.len() > 0 {
        lemma_total_nonnegative(rows.drop_last());
    }
}

/// What a transfer spends and what it pays.
pub struct Plan {
    pub inputs: Seq<InputModel>,
    pub outputs: Seq<OutputModel>,
}

/// Where the outputs of `rows` are.
pub open spec fn sources_of(rows: Seq<UtxoRow>) -> Seq<InputModel> {
    Seq::new(rows.len(), |i: int| rows[i].source)
}

/// How many rows, counted from the first, a transfer of `requested`
/// spends: rows are taken in order until their sum reaches the amount, the
/// first row in any case. The search starts with `from` rows already
/// taken. Nothing when there is no row or all rows together do not reach
/// the amount.
pub open spec fn cover_from(rows: Seq<UtxoRow>, requested: u64, from: int) -> Option<int>
    decreases rows.len() - from,
{
    if from < 0 || from >= rows.len() {
        None
    } else if total_of(rows.take(from + 1)) >= requested {
        Some(from + 1)
    } else {
        cover_from(rows, requested, from + 1)
    }
}

/// What a transfer that spends `total` pays: the requested amount to the
/// recipient and the rest, if there is any, back to the sender; or, when
/// the sender pays itself, everything in one output.
pub open spec fn plan_outputs(total: int, requested: u64, sender: Seq<u8>, recipient: Seq<u8>) -> Seq<
    OutputModel,
> {
    if recipient != sender {
        if total > requested {
            seq![
                OutputModel { amount: requested, recipient },
                OutputModel { amount: (total - requested) as u64, recipient: sender },
            ]
        } else {
            seq![OutputModel { amount: requested, recipient }]
        }
    } else {
        seq![OutputModel { amount: total as u64, recipient: sender }]
    }
}

/// The first amount that a transfer would pay and that is more than
/// `MAX_MONEY`, cut down to what 64 bits hold; nothing when there is none.
pub open spec fn plan_excess(total: int, requested: u64, sender: Seq<u8>, recipient: Seq<u8>) -> Option<
    u64,
> {
    if recipient != sender {
        if requested > MAX_MONEY_UNITS {
            Some(requested)
        } else if total - requested > MAX_MONEY_UNITS {
            Some((total - requested) as u64)
        } else {
            None
        }
    } else if total > u64::MAX {
        Some(u64::MAX)
    } else if total > MAX_MONEY_UNITS {
        Some(total as u64)
    } else {
        None
    }
}

/// The transfer of `requested` from `sender` to `recipient` out of the
/// unspent outputs `rows`, or the reason for which there is none: there is
/// no row or all rows together do not reach the amount, and then their
/// total is what is available; or an amount to be paid is more than
/// `MAX_MONEY`.
pub open spec fn plan_transfer(
    rows: Seq<UtxoRow>,
    requested: u64,
    sender: Seq<u8>,
    recipient: Seq<u8>,
) -> Result<Plan, BlockchainError> {
    match cover_from(rows, requested, 0) {
        None => Err(
            BlockchainError::InsufficientBalance {
                requested_amount: Amount(requested),
                available_amount: Amount(total_of(rows) as u64),
            },
        ),
        Some(n) => match plan_excess(total_of(rows.take(n)), requested, sender, recipient) {
            Some(amount) => Err(BlockchainError::MonetaryAmountTooLarge(amount)),
            None => Ok(
                Plan {
                    inputs: sources_of(rows.take(n)),
                    outputs: plan_outputs(total_of(rows.take(n)), requested, sender, recipient),
                },
            ),
        },
    }
}

/// Whether `t` carries out `plan` for the payer `key`: it has that payer,
/// the inputs and outputs of the plan, and a valid signature.
pub open spec fn carries_out(t: TxModel, key: Seq<u8>, plan: Plan) -> bool {
    &&& t.payer == key
    &&& t.inputs == plan.inputs
    &&& t.outputs == plan.outputs
    &&& t.signature_valid()
}

/// Whether `rejections` is the report of a transfer that was signed and
/// then refused: some transaction carries out `plan` for `key`, `ledger`
/// refuses to adopt it, and the report holds that one transaction's hash
/// with the reason of the refusal.
pub open spec fn refused_transfer(
    ledger: Ledger,
    key: Seq<u8>,
    plan: Plan,
    rejections: Seq<crate::adoption::Rejection>,
) -> bool {
    exists|t: TxModel| #[trigger]
        carries_out(t, key, plan) && ledger.adopt(t).is_err() && rejections == seq![
            crate::adoption::Rejection { hash: t.hash(), reason: ledger.adopt(t)->Err_0 },
        ]
}

/// Rows cover an amount exactly when there is a row and all rows together
/// reach the amount.
pub proof fn law_cover_reaches(rows: Seq<UtxoRow>, requested: u64)
    ensures
        cover_from(rows, requested, 0).is_some() <==> rows.len() > 0 && total_of(rows) >= requested,
{
    lemma_cover_reaches_from(rows, requested, 0);
}

/// From `from` rows on, rows cover an amount exactly when a row is left
/// and all rows together reach the amount.
pub proof fn lemma_cover_reaches_from(rows: Seq<UtxoRow>, requested: u64, from: int)
    requires
        0 <= from <= rows.len(),
    ensures
        cover_from(rows, requested, from).is_some() <==> from < rows.len() && total_of(rows)
            >= requested,
    decreases rows.len() - from,
{
    if from < rows.len() {
        lemma_total_grows(rows, from + 1);
        if total_of(rows.take(from + 1)) >= requested {
        } else {
            lemma_cover_reaches_from(rows, requested, from + 1);
            if from + 1 == rows.len() {
                assert(rows.take(from + 1) =~= rows);
            }
        }
    }
}

impl Ledger {
    /// The ledger that trusts the wallet of hash `h` as well.
    pub open spec fn trusting(self, h: Seq<u8>) -> Ledger {
        Ledger { trusted: self.trusted.insert(h), ..self }
    }

    /// The block at place `i` with its transactions in full.
    pub open spec fn block_model(self, i: int) -> BlockModel {
        BlockModel {
            nonce: self.blocks[i].nonce,
            transactions: Seq::new(self.blocks[i].txs.len(), |k: int| self.tx(self.blocks[i].txs[k])),
            parent: self.blocks[i].parent,
            hash: self.blocks[i].hash,
        }
    }
}

impl BlockchainStorage {
    /// Whether some stored input points at the output that `r` points at.
    #[verifier::loop_isolation(false)]
    pub fn is_spent(&self, r: &TransactionInput) -> (spent: bool)
        ensures
            spent == self@.spent(r@),
    {
        let n = self.transaction_count();
        let mut i: usize = 0;
        while i < n
            invariant
                0 <= i <= n,
                forall|a: int, b: int|
                    0 <= a < i && 0 <= b < self@.txs[a].inputs.len() ==> (
                    #[trigger] self@.txs[a].inputs[b]) != r@,
            decreases n - i,
        {
            let inputs = self.transaction_at(i).inputs();
            let m = inputs.len();
            let mut k: usize = 0;
            while k < m
                invariant
                    0 <= k <= m,
                    forall|b: int| 0 <= b < k ==> (#[trigger] self@.txs[i as int].inputs[b]) != r@,
                decreases m - k,
            {
                assert(self@.txs[i as int].inputs[k as int] == inputs@[k as int]@);
                if same_input(&inputs[k], r) {
                    return true;
                }
                k = k + 1;
            }
            i = i + 1;
        }
        false
    }

    /// The unspent outputs that the wallet of hash `wallet` may count when
    /// it asks for `required` confirmations, each with its amount, in the
    /// order in which they were stored.
    #[verifier::loop_isolation(false)]
    pub fn utxo_rows(&self, wallet: &crate::hash::Hash, required: u32) -> (v: Vec<
        (TransactionInput, Amount),
    >)
        requires
            self.wf(),
        ensures
            rows_view(v@) == self@.utxo_rows(wallet@, required),
    {
        let chain = self.longest_chain_indices();
        let mut v: Vec<(TransactionInput, Amount)> = Vec::new();
        let n = self.transaction_count();
        let mut i: usize = 0;
        proof {
            lemma_structured_hashes(self@);
            assert(rows_view(v@) =~= Seq::<UtxoRow>::empty());
        }
        while i < n
            invariant
                0 <= i <= n,
                rows_view(v@) == self@.rows_upto(i as int, wallet@, required),
            decreases n - i,
        {
            let t = self.transaction_at(i);
            let h = *t.transaction_hash();
            proof {
                lemma_position(self@.tx_hashes(), i as int);
                lemma_structured_tx(self@, i as int);
                assert(self@.tx_hashes()[i as int] == h@);
                assert(self@.tx(h@) == t@);
            }
            let conf = self.confirmations_along(&chain, &h);
            let backed = if conf > 0 {
                true
            } else {
                let payer_hash = crate::hash::Hash::sha256(t.payer().0.as_slice());
                self.is_trusted(&payer_hash)
            };
            let eligible = backed && conf as u64 >= required as u64;
            let outputs = t.outputs();
            let m = outputs.len();
            let ghost head = rows_view(v@);
            let mut k: usize = 0;
            assert(head + self@.rows_in(t@, 0, wallet@, required) =~= head);
            while k < m
                invariant
                    0 <= k <= m,
                    rows_view(v@) == head + self@.rows_in(t@, k as int, wallet@, required),
                decreases m - k,
            {
                let source = TransactionInput { transaction_hash: h, output_index: k as u16 };
                let o = &outputs[k];
                assert(t@.outputs[k as int] == o@);
                assert(source@ == InputModel { tx: t@.hash(), index: k as u16 });
                let ghost before = rows_view(v@);
                if eligible && o.recipient_hash.same(wallet) && !self.is_spent(&source) {
                    v.push((source, o.amount));
                    assert(rows_view(v@) =~= before.push(
                        UtxoRow { source: source@, amount: o@.amount },
                    ));
                    assert(self@.visible(source@, required));
                    assert(rows_view(v@) =~= head + self@.rows_in(t@, k + 1, wallet@, required));
                } else {
                    assert(!(o@.recipient == wallet@ && self@.visible(source@, required)));
                }
                k = k + 1;
            }
            i = i + 1;
        }
        v
    }

    /// The balance of the wallet of hash `wallet`: the sum of its unspent
    /// outputs that are in a block with at least `required`
    /// confirmations, or, where none is asked for, come from a trusted
    /// payer. There is no answer when the sum is more than 64 bits hold.
    #[verifier::loop_isolation(false)]
    pub fn find_wallet_balance(&self, wallet: &crate::hash::Hash, required: u32) -> (r: Option<u64>)
        requires
            self.wf(),
        ensures
            match r {
                Some(b) => b == self@.balance(wallet@, required),
                None => self@.balance(wallet@, required) > u64::MAX,
            },
    {
        let rows = self.utxo_rows(wallet, required);
        let ghost all = rows_view(rows@);
        let n = rows.len();
        let mut sum: u64 = 0;
        let mut i: usize = 0;
        while i < n
            invariant
                0 <= i <= n,
                sum == total_of(all.take(i as int)),
            decreases n - i,
        {
            proof {
                assert(all.take(i + 1).drop_last() =~= all.take(i as int));
                assert(all.take(i + 1).last().amount == rows@[i as int].1.0);
                lemma_total_grows(all, i + 1);
            }
            let amount = rows[i].1.0;
            if amount > u64::MAX - sum {
                return None;
            }
            sum = sum + amount;
            i = i + 1;
        }
        assert(all.take(n as int) =~= all);
        Some(sum)
    }

    /// A wallet with a fresh key, which the store trusts from then on.
    /// There is none, and nothing changes, when no key can be made.
    pub fn make_wallet(&mut self) -> (r: Option<Wallet>)
        ensures
            final(self).default_key() == old(self).default_key(),
            old(self).wf() ==> final(self).wf(),
            match r {
                Some(w) => final(self)@ == old(self)@.trusting(sha256_digest(w@)),
                None => final(self)@ == old(self)@,
            },
    {
        match Wallet::new() {
            Some(w) => {
                let h = *w.public_key_hash();
                self.make_wallet_trustworthy(&h);
                Some(w)
            },
            None => None,
        }
    }

    /// Chooses what a transfer of `requested` from the wallet of hash
    /// `sender` to the one of hash `recipient` spends and pays.
    #[verifier::loop_isolation(false)]
    pub fn plan_simple_transaction(
        &self,
        sender: &crate::hash::Hash,
        requested: Amount,
        recipient: &crate::hash::Hash,
    ) -> (r: Result<(Vec<TransactionInput>, Vec<TransactionOutput>), BlockchainError>)
        requires
            self.wf(),
        ensures
            match plan_transfer(self@.utxo_rows(sender@, 0), requested.0, sender@, recipient@) {
                Ok(plan) => r.is_ok() && inputs_view(r.unwrap().0@) == plan.inputs && outputs_view(
                    r.unwrap().1@,
                ) == plan.outputs,
                Err(e) => r == Err::<(Vec<TransactionInput>, Vec<TransactionOutput>), BlockchainError>(e),
            },
    {
        let rows = self.utxo_rows(sender, 0);
        let ghost all = rows_view(rows@);
        let n = rows.len();
        let mut inputs: Vec<TransactionInput> = Vec::new();
        let mut total: u128 = 0;
        let mut covered = false;
        let mut i: usize = 0;
        assert(inputs_view(inputs@) =~= sources_of(all.take(0)));
        while i < n && !covered
            invariant
                0 <= i <= n,
                total == total_of(all.take(i as int)),
                i == 0 ==> total == 0,
                inputs_view(inputs@) == sources_of(all.take(i as int)),
                !covered ==> cover_from(all, requested.0, 0) == cover_from(all, requested.0, i as int),
                !covered && i > 0 ==> total < requested.0,
                covered ==> i > 0 && cover_from(all, requested.0, 0) == Some(i as int),
                covered ==> requested.0 <= total <= requested.0 + 0xffff_ffff_ffff_ffff,
            decreases n - i + if covered { 0int } else { 1int },
        {
            proof {
                assert(all.take(i + 1).drop_last() =~= all.take(i as int));
                assert(all.take(i + 1).last() == all[i as int]);
            }
            let ghost before = inputs_view(inputs@);
            inputs.push(rows[i].0);
            total = total + rows[i].1.0 as u128;
            proof {
                assert(inputs_view(inputs@) =~= before.push(all[i as int].source));
                assert(inputs_view(inputs@) =~= sources_of(all.take(i + 1)));
            }
            i = i + 1;
            if total >= requested.0 as u128 {
                covered = true;
            }
        }
        if !covered {
            assert(all.take(n as int) =~= all);
            return Err(
                BlockchainError::InsufficientBalance {
                    requested_amount: requested,
                    available_amount: Amount(total as u64),
                },
            );
        }
        let mut outputs: Vec<TransactionOutput> = Vec::new();
        if !recipient.same(sender) {
            if requested.0 > MAX_MONEY_UNITS {
                return Err(BlockchainError::MonetaryAmountTooLarge(requested.0));
            }
            let change: u128 = total - requested.0 as u128;
            if change > MAX_MONEY_UNITS as u128 {
                return Err(BlockchainError::MonetaryAmountTooLarge(change as u64));
            }
            outputs.push(TransactionOutput { amount: requested, recipient_hash: *recipient });
            if change > 0 {
                outputs.push(
                    TransactionOutput { amount: Amount(change as u64), recipient_hash: *sender },
                );
            }
        } else {
            if total > u64::MAX as u128 {
                return Err(BlockchainError::MonetaryAmountTooLarge(u64::MAX));
            }
            if total > MAX_MONEY_UNITS as u128 {
                return Err(BlockchainError::MonetaryAmountTooLarge(total as u64));
            }
            outputs.push(TransactionOutput { amount: Amount(total as u64), recipient_hash: *sender });
        }
        assert(outputs_view(outputs@) =~= plan_outputs(
            total as int,
            requested.0,
            sender@,
            recipient@,
        ));
        Ok((inputs, outputs))
    }

    /// Builds, signs and adopts a transfer of `requested_amount` from
    /// `wallet`, or from the default wallet when none is named, to the
    /// wallet of hash `recipient_hash`. The sender is trusted from then
    /// on, whatever comes of the transfer. The inputs and outputs are those
    /// that `plan_simple_transaction` chooses: the unspent outputs of the
    /// sender in the order in which they were stored, until they reach the
    /// amount. Where all of them together do not reach it, the balance is
    /// insufficient and their total is what is available. The signature is
    /// the wallet's, and `receive_tentative_transaction_internal` says
    /// what becomes of the signed transaction: where it is refused, as one
    /// that spends more than 256 outputs is, the error holds its hash and
    /// the reason, and nothing but the trust in the sender has changed.
    pub fn create_simple_transaction(
        &mut self,
        wallet: Option<&Wallet>,
        requested_amount: Amount,
        recipient_hash: &crate::hash::Hash,
    ) -> (r: Result<Transaction, BlockchainError>)
        requires
            old(self).wf(),
        ensures
            final(self).wf(),
            final(self).default_key() == old(self).default_key(),
            ({
                let key = match wallet {
                    Some(w) => w@,
                    None => old(self).default_key(),
                };
                let sender = sha256_digest(key);
                let trusting = old(self)@.trusting(sender);
                match plan_transfer(
                    trusting.utxo_rows(sender, 0),
                    requested_amount.0,
                    sender,
                    recipient_hash@,
                ) {
                    Err(e) => final(self)@ == trusting && r == Err::<Transaction, BlockchainError>(e),
                    Ok(plan) => match r {
                        Ok(t) => {
                            &&& t@.payer == key
                            &&& t@.inputs == plan.inputs
                            &&& t@.outputs == plan.outputs
                            &&& t@.signature_valid()
                            &&& trusting.adopt(t@) == Ok::<Ledger, Seq<char>>(final(self)@)
                        },
                        Err(e) => {
                            &&& final(self)@ == trusting
                            &&& (e is SigningFailed || (e matches BlockchainError::InvalidTentativeTxn(
                                v,
                            ) && refused_transfer(
                                trusting,
                                key,
                                plan,
                                crate::storage::rejections_view(v@),
                            )))
                        },
                    },
                }
            }),
    {
        let sender = match wallet {
            Some(w) => *w.public_key_hash(),
            None => *self.default_wallet().public_key_hash(),
        };
        self.make_wallet_trustworthy(&sender);
        let (inputs, outputs) = match self.plan_simple_transaction(
            &sender,
            requested_amount,
            recipient_hash,
        ) {
            Ok(plan) => plan,
            Err(e) => {
                return Err(e);
            },
        };
        let ghost plan = Plan { inputs: inputs_view(inputs@), outputs: outputs_view(outputs@) };
        proof {
            lemma_plan_presentable(
                self@.utxo_rows(sender@, 0),
                requested_amount.0,
                sender@,
                recipient_hash@,
            );
        }
        let signed = match wallet {
            Some(w) => w.create_raw_transaction(inputs, outputs),
            None => self.default_wallet().create_raw_transaction(inputs, outputs),
        };
        match signed {
            None => Err(BlockchainError::SigningFailed),
            Some(txn) => {
                assert(carries_out(txn@, txn@.payer, plan));
                match self.receive_tentative_transaction_internal(&txn) {
                    Ok(()) => Ok(txn),
                    Err(e) => Err(e),
                }
            },
        }
    }

    /// The stored block of hash `h` with its transactions in full, if
    /// there is one.
    #[verifier::loop_isolation(false)]
    pub fn get_block_by_hash(&self, h: &crate::hash::Hash) -> (r: Option<Block>)
        requires
            self.wf(),
        ensures
            r.is_some() == self@.has_block(h@),
            r.is_some() ==> r.unwrap()@ == self@.block_model(self@.block_index(h@)),
    {
        proof {
            lemma_structured_hashes(self@);
        }
        match self.find_block(h) {
            None => None,
            Some(i) => {
                let row = self.block_at(i);
                proof {
                    lemma_structured_block(self@, i as int);
                }
                let ghost goal = self@.block_model(i as int);
                let mut transactions: Vec<Transaction> = Vec::new();
                let n = row.txs.len();
                let mut k: usize = 0;
                assert(txs_view(transactions@) =~= goal.transactions.take(0));
                while k < n
                    invariant
                        0 <= k <= n,
                        txs_view(transactions@) == goal.transactions.take(k as int),
                    decreases n - k,
                {
                    assert(row@.txs[k as int] == row.txs@[k as int]@);
                    assert(self@.has_tx(row@.txs[k as int]));
                    let at = self.find_tx(&row.txs[k]);
                    let ghost before = txs_view(transactions@);
                    transactions.push(self.transaction_at(at.unwrap()).duplicate());
                    assert(txs_view(transactions@) =~= before.push(self@.tx(row@.txs[k as int])));
                    assert(txs_view(transactions@) =~= goal.transactions.take(k + 1));
                    k = k + 1;
                }
                assert(goal.transactions.take(n as int) =~= goal.transactions);
                Some(
                    Block {
                        nonce: row.nonce,
                        transactions,
                        parent_hash: row.parent,
                        block_hash: row.hash,
                    },
                )
            },
        }
    }
}

} // verus!
