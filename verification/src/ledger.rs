//! The ledger as a value: its tables, the views derived from them, and the
//! rules that every stored state obeys.

use vstd::prelude::*;
use crate::amount::BLOCK_REWARD_UNITS;
use crate::transaction::InputModel;
use crate::transaction::OutputModel;
use crate::transaction::TxModel;

verus! {

/// A stored block: its own hash, its parent's, its height, its nonce and
/// the hashes of its transactions in order.
pub struct BlockEntry {
    pub hash: Seq<u8>,
    pub parent: Option<Seq<u8>>,
    pub height: nat,
    pub nonce: u64,
    pub txs: Seq<Seq<u8>>,
}

/// The tables of the ledger. Blocks and transactions stand in the order in
/// which they were discovered; orphans in the order in which they came.
pub struct Ledger {
    pub blocks: Seq<BlockEntry>,
    pub txs: Seq<TxModel>,
    pub trusted: Set<Seq<u8>>,
    pub orphans: Seq<TxModel>,
}

/// An unspent output that counts for a wallet: where it is, and how much
/// it carries.
pub struct UtxoRow {
    pub source: InputModel,
    pub amount: u64,
}

/// The sum of the amounts of `rows`.
pub open spec fn total_of(rows: Seq<UtxoRow>) -> int
    decreases rows.len(),
{
    if rows.len() == 0 {
        0
    } else {
        total_of(rows.drop_last()) + rows.last().amount
    }
}

/// Some place at which `h` stands in `s`.
pub open spec fn position(s: Seq<Seq<u8>>, h: Seq<u8>) -> int {
    choose|i: int| 0 <= i < s.len() && s[i] == h
}

/// Whether no value stands twice in `s`.
#[verifier::opaque]
pub open spec fn distinct(s: Seq<Seq<u8>>) -> bool {
    forall|i: int, j: int| 0 <= i < j < s.len() ==> s[i] != s[j]
}

/// The hashes of a run of transactions.
pub open spec fn hashes_of(txs: Seq<TxModel>) -> Seq<Seq<u8>> {
    Seq::new(txs.len(), |i: int| txs[i].hash())
}

/// Whether a transaction has the form that every stored one has: a valid
/// signature, between one and 256 outputs, at most 256 inputs, every amount
/// above zero and within range, and no recipient twice.
pub open spec fn storable(t: TxModel) -> bool {
    &&& t.signature_valid()
    &&& 1 <= t.outputs.len() <= 256
    &&& t.inputs.len() <= 256
    &&& t.amounts_in_range()
    &&& forall|k: int| 0 <= k < t.outputs.len() ==> #[trigger] t.outputs[k].amount > 0
    &&& t.recipients_distinct()
}

/// Whether a transaction may wait as a tentative one: a valid signature,
/// between one and 256 inputs and outputs, every amount within range, and
/// no recipient twice.
pub open spec fn admissible(t: TxModel) -> bool {
    &&& t.signature_valid()
    &&& 1 <= t.outputs.len() <= 256
    &&& 1 <= t.inputs.len() <= 256
    &&& t.amounts_in_range()
    &&& t.recipients_distinct()
}

/// Whether a transaction is a reward: no input, and one output of exactly
/// the block reward.
pub open spec fn is_reward(t: TxModel) -> bool {
    &&& t.inputs.len() == 0
    &&& t.outputs.len() == 1
    &&& t.outputs[0].amount == BLOCK_REWARD_UNITS
}

impl Ledger {
    /// The ledger with nothing in it.
    pub open spec fn empty() -> Ledger {
        Ledger { blocks: Seq::empty(), txs: Seq::empty(), trusted: Set::empty(), orphans: Seq::empty() }
    }

    /// The hashes of the stored transactions, in order.
    pub open spec fn tx_hashes(self) -> Seq<Seq<u8>> {
        hashes_of(self.txs)
    }

    /// The hashes of the stored blocks, in order.
    pub open spec fn block_hashes(self) -> Seq<Seq<u8>> {
        Seq::new(self.blocks.len(), |i: int| self.blocks[i].hash)
    }

    /// Whether a transaction of hash `h` is stored.
    pub open spec fn has_tx(self, h: Seq<u8>) -> bool {
        self.tx_hashes().contains(h)
    }

    /// The stored transaction of hash `h`.
    pub open spec fn tx(self, h: Seq<u8>) -> TxModel {
        self.txs[position(self.tx_hashes(), h)]
    }

    /// Whether a block of hash `h` is stored.
    pub open spec fn has_block(self, h: Seq<u8>) -> bool {
        self.block_hashes().contains(h)
    }

    /// The place of the stored block of hash `h`.
    pub open spec fn block_index(self, h: Seq<u8>) -> int {
        position(self.block_hashes(), h)
    }

    /// Whether a transaction of hash `h` waits among the orphans.
    pub open spec fn has_orphan(self, h: Seq<u8>) -> bool {
        hashes_of(self.orphans).contains(h)
    }

    /// Whether the output that `r` points at is stored.
    pub open spec fn has_output(self, r: InputModel) -> bool {
        self.has_tx(r.tx) && r.index < self.tx(r.tx).outputs.len()
    }

    /// The output that `r` points at.
    pub open spec fn output(self, r: InputModel) -> OutputModel {
        self.tx(r.tx).outputs[r.index as int]
    }

    /// Whether every input of `t` points at a stored output.
    pub open spec fn inputs_resolve(self, t: TxModel) -> bool {
        forall|k: int| 0 <= k < t.inputs.len() ==> self.has_output(#[trigger] t.inputs[k])
    }

    /// Whether `t` spends only outputs that were paid to its own payer.
    pub open spec fn authorized(self, t: TxModel) -> bool {
        forall|k: int|
            0 <= k < t.inputs.len() && self.has_output(#[trigger] t.inputs[k]) ==> self.output(
                t.inputs[k],
            ).recipient == t.payer_hash()
    }

    /// The sum of the amounts of the stored outputs that `inputs` point at.
    pub open spec fn credited_of(self, inputs: Seq<InputModel>) -> int
        decreases inputs.len(),
    {
        if inputs.len() == 0 {
            0
        } else {
            self.credited_of(inputs.drop_last()) + if self.has_output(inputs.last()) {
                self.output(inputs.last()).amount as int
            } else {
                0
            }
        }
    }

    /// What `t` takes in: the sum of the outputs that it spends.
    pub open spec fn credited(self, t: TxModel) -> int {
        self.credited_of(t.inputs)
    }

    /// Whether `t`, if it spends anything, pays out no more than it takes
    /// in.
    pub open spec fn within_credit(self, t: TxModel) -> bool {
        t.inputs.len() > 0 ==> t.debited() <= self.credited(t)
    }

    /// The place of the parent of block `i`, if it has one that is stored.
    pub open spec fn parent_index(self, i: int) -> Option<int> {
        match self.blocks[i].parent {
            Some(p) => if self.has_block(p) {
                Some(self.block_index(p))
            } else {
                None
            },
            None => None,
        }
    }

    /// The places of block `i` and of its ancestors, from `i` to the root.
    pub open spec fn chain_from(self, i: int) -> Seq<int>
        decreases i,
    {
        if i < 0 || i >= self.blocks.len() {
            Seq::empty()
        } else {
            match self.parent_index(i) {
                Some(p) => if 0 <= p < i {
                    seq![i] + self.chain_from(p)
                } else {
                    seq![i]
                },
                None => seq![i],
            }
        }
    }

    /// The hashes of the transactions of block `i` and of its ancestors,
    /// block by block from `i` to the root.
    pub open spec fn lineage_from(self, i: int) -> Seq<Seq<u8>>
        decreases i,
    {
        if i < 0 || i >= self.blocks.len() {
            Seq::empty()
        } else {
            match self.parent_index(i) {
                Some(p) => if 0 <= p < i {
                    self.blocks[i].txs + self.lineage_from(p)
                } else {
                    self.blocks[i].txs
                },
                None => self.blocks[i].txs,
            }
        }
    }

    /// The hashes of the transactions that a block with the transactions
    /// `txs` would see from on top of the block at `below`.
    pub open spec fn candidate_lineage(self, txs: Seq<Seq<u8>>, below: Option<int>) -> Seq<Seq<u8>> {
        match below {
            Some(p) => txs + self.lineage_from(p),
            None => txs,
        }
    }

    /// The inputs of the transactions of `lineage`, one run after another.
    pub open spec fn spent_by(self, lineage: Seq<Seq<u8>>) -> Seq<InputModel>
        decreases lineage.len(),
    {
        if lineage.len() == 0 {
            Seq::empty()
        } else {
            self.spent_by(lineage.drop_last()) + self.tx(lineage.last()).inputs
        }
    }

    /// Whether the input at `j` of `spent` points at an output of a
    /// transaction of `lineage`, and no other input of `spent` points at
    /// the same output.
    pub open spec fn input_sound(self, lineage: Seq<Seq<u8>>, spent: Seq<InputModel>, j: int) -> bool {
        &&& lineage.contains(spent[j].tx)
        &&& spent[j].index < self.tx(spent[j].tx).outputs.len()
        &&& forall|j2: int| 0 <= j2 < spent.len() && j2 != j ==> spent[j2] != spent[j]
    }

    /// Whether `lineage` is free of violations: no input points at an
    /// output that is absent from it, and no output is spent twice in it.
    pub open spec fn consistent_lineage(self, lineage: Seq<Seq<u8>>) -> bool {
        forall|j: int|
            0 <= j < self.spent_by(lineage).len() ==> self.input_sound(
                lineage,
                self.spent_by(lineage),
                j,
            )
    }

    /// Whether block `i` is consistent with its ancestors.
    pub open spec fn block_consistent(self, i: int) -> bool {
        self.consistent_lineage(self.lineage_from(i))
    }

    /// The place of the tip among `blocks`: the block of greatest height,
    /// and the earliest of those. Below zero when there is no block.
    pub open spec fn tip_of(blocks: Seq<BlockEntry>) -> int
        decreases blocks.len(),
    {
        if blocks.len() == 0 {
            -1
        } else {
            let t = Self::tip_of(blocks.drop_last());
            if t < 0 || blocks.last().height > blocks[t].height {
                blocks.len() - 1
            } else {
                t
            }
        }
    }

    /// The place of the tip, if there is a block.
    pub open spec fn tip(self) -> Option<int> {
        if self.blocks.len() == 0 {
            None
        } else {
            Some(Self::tip_of(self.blocks))
        }
    }

    /// The hash of the tip, if there is a block.
    pub open spec fn tip_hash(self) -> Option<Seq<u8>> {
        match self.tip() {
            Some(t) => Some(self.blocks[t].hash),
            None => None,
        }
    }

    /// The places of the blocks of the longest chain, the tip first.
    pub open spec fn longest_chain(self) -> Seq<int> {
        match self.tip() {
            Some(t) => self.chain_from(t),
            None => Seq::empty(),
        }
    }

    /// The greatest number of confirmations that `chain` gives the
    /// transaction of hash `h`: the block at place `k` of the chain gives
    /// `k + 1`. Zero when no block of the chain holds it.
    pub open spec fn confirmations_along(self, chain: Seq<int>, h: Seq<u8>) -> nat
        decreases chain.len(),
    {
        if chain.len() == 0 {
            0
        } else if self.blocks[chain.last()].txs.contains(h) {
            chain.len()
        } else {
            self.confirmations_along(chain.drop_last(), h)
        }
    }

    /// The confirmations of the transaction of hash `h` on the longest
    /// chain; zero when it is in no block of that chain.
    pub open spec fn confirmations(self, h: Seq<u8>) -> nat {
        self.confirmations_along(self.longest_chain(), h)
    }

    /// Whether `t` is tentative: it spends something and is in no block of
    /// the longest chain.
    pub open spec fn is_tentative(self, t: TxModel) -> bool {
        t.inputs.len() > 0 && self.confirmations(t.hash()) == 0
    }

    /// The tentative transactions among `txs`, in order.
    pub open spec fn tentative_among(self, txs: Seq<TxModel>) -> Seq<TxModel>
        decreases txs.len(),
    {
        if txs.len() == 0 {
            Seq::empty()
        } else if self.is_tentative(txs.last()) {
            self.tentative_among(txs.drop_last()).push(txs.last())
        } else {
            self.tentative_among(txs.drop_last())
        }
    }

    /// All tentative transactions, in the order of their discovery.
    pub open spec fn tentative(self) -> Seq<TxModel> {
        self.tentative_among(self.txs)
    }

    /// One more than the greatest height of a block; zero when there is
    /// no block.
    pub open spec fn block_count(self) -> nat {
        match self.tip() {
            Some(t) => self.blocks[t].height + 1,
            None => 0,
        }
    }

    /// Whether some stored input among the first `n` transactions points
    /// at `r`.
    pub open spec fn spent_within(self, n: int, r: InputModel) -> bool {
        exists|i: int, k: int|
            0 <= i < n && i < self.txs.len() && 0 <= k < self.txs[i].inputs.len()
                && #[trigger] self.txs[i].inputs[k] == r
    }

    /// Whether some stored input points at `r`.
    pub open spec fn spent(self, r: InputModel) -> bool {
        self.spent_within(self.txs.len() as int, r)
    }

    /// Whether the payer of the stored transaction of hash `h` is trusted.
    pub open spec fn payer_trusted(self, h: Seq<u8>) -> bool {
        self.trusted.contains(self.tx(h).payer_hash())
    }

    /// Whether the output that `r` points at counts for a balance that
    /// asks for `required` confirmations: it is stored and unspent, its
    /// transaction is confirmed or comes from a trusted payer, and it has
    /// at least `required` confirmations.
    pub open spec fn visible(self, r: InputModel, required: u32) -> bool {
        &&& self.has_output(r)
        &&& !self.spent(r)
        &&& (self.confirmations(r.tx) > 0 || self.payer_trusted(r.tx))
        &&& self.confirmations(r.tx) >= required
    }

    /// The rows that the first `upto` outputs of the stored transaction
    /// `t` give to `wallet`: one for each that is paid to it and visible.
    pub open spec fn rows_in(self, t: TxModel, upto: int, wallet: Seq<u8>, required: u32) -> Seq<
        UtxoRow,
    >
        decreases upto,
    {
        if upto <= 0 {
            Seq::empty()
        } else {
            let k = upto - 1;
            let source = InputModel { tx: t.hash(), index: k as u16 };
            if t.outputs[k].recipient == wallet && self.visible(source, required) {
                self.rows_in(t, k, wallet, required).push(
                    UtxoRow { source, amount: t.outputs[k].amount },
                )
            } else {
                self.rows_in(t, k, wallet, required)
            }
        }
    }

    /// The rows that the first `n` stored transactions give to `wallet`.
    pub open spec fn rows_upto(self, n: int, wallet: Seq<u8>, required: u32) -> Seq<UtxoRow>
        decreases n,
    {
        if n <= 0 {
            Seq::empty()
        } else {
            self.rows_upto(n - 1, wallet, required) + self.rows_in(
                self.txs[n - 1],
                self.txs[n - 1].outputs.len() as int,
                wallet,
                required,
            )
        }
    }

    /// The unspent outputs that `wallet` may count when it asks for
    /// `required` confirmations, in the order in which they were stored.
    pub open spec fn utxo_rows(self, wallet: Seq<u8>, required: u32) -> Seq<UtxoRow> {
        self.rows_upto(self.txs.len() as int, wallet, required)
    }

    /// The balance of `wallet`: the sum of the visible outputs paid to it.
    pub open spec fn balance(self, wallet: Seq<u8>, required: u32) -> int {
        total_of(self.utxo_rows(wallet, required))
    }

    /// The ledger with `t` appended to its transactions.
    pub open spec fn with_tx(self, t: TxModel) -> Ledger {
        Ledger { txs: self.txs.push(t), ..self }
    }

    /// Whether each of the first `n` inputs of `t` points at a stored
    /// output.
    pub open spec fn resolves_upto(self, t: TxModel, n: int) -> bool {
        forall|k: int| 0 <= k < n && k < t.inputs.len() ==> self.has_output(#[trigger] t.inputs[k])
    }

    /// Why the tables refuse a transaction of a new hash, as the result
    /// code of the rule that it breaks. The rows go in one after another,
    /// outputs first: an output of amount zero breaks a CHECK rule;
    /// failing that, one of the first 256 inputs that points at no stored
    /// output, the transaction's own outputs counted, breaks a foreign
    /// key; failing that, an input beyond the 256th breaks a CHECK rule.
    pub open spec fn raw_insert_refusal(self, t: TxModel) -> Option<i32> {
        if exists|k: int| 0 <= k < t.outputs.len() && #[trigger] t.outputs[k].amount == 0 {
            Some(crate::reasons::CODE_CHECK)
        } else if !self.with_tx(t).resolves_upto(t, 256) {
            Some(crate::reasons::CODE_FOREIGN_KEY)
        } else if t.inputs.len() > 256 {
            Some(crate::reasons::CODE_CHECK)
        } else {
            None
        }
    }

    /// The rules on the shape of the tables: no hash twice, every stored
    /// transaction well formed with inputs that point at stored outputs,
    /// every block with its transactions and its parent in place, every
    /// orphan admissible.
    #[verifier::opaque]
    pub open spec fn structured(self) -> bool {
        &&& distinct(self.tx_hashes())
        &&& distinct(self.block_hashes())
        &&& distinct(hashes_of(self.orphans))
        &&& forall|i: int|
            0 <= i < self.txs.len() ==> storable(#[trigger] self.txs[i]) && self.inputs_resolve(
                self.txs[i],
            )
        &&& forall|i: int| 0 <= i < self.blocks.len() ==> #[trigger] self.block_shaped(i)
        &&& forall|i: int| 0 <= i < self.orphans.len() ==> admissible(#[trigger] self.orphans[i])
    }

    /// The rules on the shape of the stored block at place `i`: a hash of
    /// 32 bytes that starts with enough zero bits, a nonce below its
    /// bound, between one and 2000 transactions that are all stored and
    /// all different, a parent that was stored before it, and the height
    /// that follows from the parent's.
    pub open spec fn block_shaped(self, i: int) -> bool {
        let b = self.blocks[i];
        &&& b.hash.len() == 32
        &&& crate::hash::leading_zero_bits(b.hash) >= crate::block::MINIMUM_DIFFICULTY_LEVEL
        &&& b.nonce < crate::block::NONCE_LIMIT
        &&& 1 <= b.txs.len() <= 2000
        &&& distinct(b.txs)
        &&& forall|k: int| 0 <= k < b.txs.len() ==> self.has_tx(#[trigger] b.txs[k])
        &&& match b.parent {
            Some(p) => {
                &&& self.has_block(p)
                &&& self.block_index(p) < i
                &&& b.height == self.blocks[self.block_index(p)].height + 1
            },
            None => b.height == 0,
        }
        &&& b.height <= i
    }

    /// The rules on what is spent: every stored transaction spends only
    /// what was paid to its payer and no more than that, and every stored
    /// block is consistent with its ancestors.
    #[verifier::opaque]
    pub open spec fn sound(self) -> bool {
        &&& forall|i: int|
            0 <= i < self.txs.len() ==> self.authorized(#[trigger] self.txs[i])
                && self.within_credit(self.txs[i])
        &&& forall|i: int| 0 <= i < self.blocks.len() ==> #[trigger] self.block_consistent(i)
    }

    /// The rules that every state of the ledger obeys.
    pub open spec fn wf(self) -> bool {
        self.structured() && self.sound()
    }

    /// Whether the first transaction of every stored block is a reward.
    pub open spec fn rewards_shaped(self) -> bool {
        forall|i: int|
            0 <= i < self.blocks.len() ==> is_reward(self.tx(#[trigger] self.blocks[i].txs[0]))
    }
}

/// In a run without repeats, the place of a value is the place at which
/// it stands.
pub proof fn lemma_position(s: Seq<Seq<u8>>, i: int)
    requires
        distinct(s),
        0 <= i < s.len(),
    ensures
        position(s, s[i]) == i,
        s.contains(s[i]),
{
    reveal(distinct);
    let p = position(s, s[i]);
    assert(0 <= p < s.len() && s[p] == s[i]);
    if p < i {
        assert(s[p] != s[i]);
    } else if i < p {
        assert(s[i] != s[p]);
    }
}

/// A value that stands in a run stands at its place.
pub proof fn lemma_position_found(s: Seq<Seq<u8>>, h: Seq<u8>)
    requires
        s.contains(h),
    ensures
        0 <= position(s, h) < s.len(),
        s[position(s, h)] == h,
{
    let w = choose|i: int| 0 <= i < s.len() && s[i] == h;
    assert(0 <= w < s.len() && s[w] == h);
}

/// The rules on the shape of the tables hold where each of them holds.
pub proof fn lemma_structured_from_parts(l: Ledger)
    requires
        distinct(l.tx_hashes()),
        distinct(l.block_hashes()),
        distinct(hashes_of(l.orphans)),
        forall|i: int|
            0 <= i < l.txs.len() ==> storable(#[trigger] l.txs[i]) && l.inputs_resolve(l.txs[i]),
        forall|i: int| 0 <= i < l.blocks.len() ==> #[trigger] l.block_shaped(i),
        forall|i: int| 0 <= i < l.orphans.len() ==> admissible(#[trigger] l.orphans[i]),
    ensures
        l.structured(),
{
    reveal(Ledger::structured);
}

/// The rules on spending hold where each of them holds.
pub proof fn lemma_sound_from_parts(l: Ledger)
    requires
        forall|i: int|
            0 <= i < l.txs.len() ==> l.authorized(#[trigger] l.txs[i]) && l.within_credit(l.txs[i]),
        forall|i: int| 0 <= i < l.blocks.len() ==> #[trigger] l.block_consistent(i),
    ensures
        l.sound(),
{
    reveal(Ledger::sound);
}

/// What the rules on the shape of the tables say of the hashes.
pub proof fn lemma_structured_hashes(l: Ledger)
    requires
        l.structured(),
    ensures
        distinct(l.tx_hashes()),
        distinct(l.block_hashes()),
        distinct(hashes_of(l.orphans)),
{
    reveal(Ledger::structured);
}

/// What the rules on the shape of the tables say of a stored
/// transaction.
pub proof fn lemma_structured_tx(l: Ledger, i: int)
    requires
        l.structured(),
        0 <= i < l.txs.len(),
    ensures
        storable(l.txs[i]),
        l.inputs_resolve(l.txs[i]),
{
    reveal(Ledger::structured);
}

/// What the rules on the shape of the tables say of a stored block.
pub proof fn lemma_structured_block(l: Ledger, i: int)
    requires
        l.structured(),
        0 <= i < l.blocks.len(),
    ensures
        l.block_shaped(i),
{
    reveal(Ledger::structured);
}

/// What the rules on the shape of the tables say of an orphan.
pub proof fn lemma_structured_orphan(l: Ledger, i: int)
    requires
        l.structured(),
        0 <= i < l.orphans.len(),
    ensures
        admissible(l.orphans[i]),
{
    reveal(Ledger::structured);
}

/// What the rules on spending say of a stored transaction.
pub proof fn lemma_sound_tx(l: Ledger, i: int)
    requires
        l.sound(),
        0 <= i < l.txs.len(),
    ensures
        l.authorized(l.txs[i]),
        l.within_credit(l.txs[i]),
{
    reveal(Ledger::sound);
}

/// What the rules on spending say of a stored block.
pub proof fn lemma_sound_block(l: Ledger, i: int)
    requires
        l.sound(),
        0 <= i < l.blocks.len(),
    ensures
        l.block_consistent(i),
{
    reveal(Ledger::sound);
}

/// The ledger with nothing in it obeys every rule.
pub proof fn lemma_empty_wf()
    ensures
        Ledger::empty().wf(),
{
    reveal(Ledger::structured);
    reveal(Ledger::sound);
    reveal(distinct);
}

} // verus!
