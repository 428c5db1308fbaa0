//! What the ledger does with a block that it receives.

use vstd::prelude::*;
use crate::block::BlockModel;
use crate::block::MINIMUM_DIFFICULTY_LEVEL;
use crate::block::NONCE_LIMIT;
use crate::ledger::BlockEntry;
use crate::ledger::Ledger;
use crate::ledger::distinct;
use crate::ledger::hashes_of;
use crate::ledger::is_reward;
use crate::reasons::BLOCK_AMOUNT_RANGE;
use crate::reasons::BLOCK_HASH;
use crate::reasons::BLOCK_INCONSISTENT;
use crate::reasons::BLOCK_INPUT_COUNT;
use crate::reasons::BLOCK_NONCE_RANGE;
use crate::reasons::BLOCK_OUTPUT_COUNT;
use crate::reasons::BLOCK_OVERSPENT;
use crate::reasons::BLOCK_RECIPIENTS;
use crate::reasons::BLOCK_REWARD_SHAPE;
use crate::reasons::BLOCK_SIGNATURES;
use crate::reasons::BLOCK_TOO_MANY_TXNS;
use crate::reasons::BLOCK_UNAUTHORIZED;
use crate::reasons::CODE_FOREIGN_KEY;
use crate::reasons::CODE_UNIQUE;
use crate::reasons::sqlite_code_text;
use crate::transaction::TxModel;

verus! {

/// Whether every transaction has between one and 256 outputs.
pub open spec fn output_counts_ok(txs: Seq<TxModel>) -> bool {
    forall|k: int| 0 <= k < txs.len() ==> 1 <= (#[trigger] txs[k]).outputs.len() <= 256
}

/// Whether every transaction but the first has between one and 256 inputs.
pub open spec fn input_counts_ok(txs: Seq<TxModel>) -> bool {
    forall|k: int| 1 <= k < txs.len() ==> 1 <= (#[trigger] txs[k]).inputs.len() <= 256
}

/// Whether no output of any transaction carries more than `MAX_MONEY`.
pub open spec fn amounts_ok(txs: Seq<TxModel>) -> bool {
    forall|k: int| 0 <= k < txs.len() ==> (#[trigger] txs[k]).amounts_in_range()
}

/// Whether the outputs of each transaction go to different recipients.
pub open spec fn recipients_ok(txs: Seq<TxModel>) -> bool {
    forall|k: int| 0 <= k < txs.len() ==> (#[trigger] txs[k]).recipients_distinct()
}

/// Whether every transaction carries a valid signature.
pub open spec fn signatures_ok(txs: Seq<TxModel>) -> bool {
    forall|k: int| 0 <= k < txs.len() ==> (#[trigger] txs[k]).signature_valid()
}

/// The first of the checks on a block by itself that `b` fails, as the
/// reason given for it; nothing when it passes them all.
#[verifier::opaque]
pub open spec fn block_form_refusal(b: BlockModel) -> Option<Seq<char>> {
    if b.transactions.len() > 2000 {
        Some(BLOCK_TOO_MANY_TXNS@)
    } else if b.nonce >= NONCE_LIMIT {
        Some(BLOCK_NONCE_RANGE@)
    } else if b.transactions.len() == 0 || !is_reward(b.transactions[0]) {
        Some(BLOCK_REWARD_SHAPE@)
    } else if !output_counts_ok(b.transactions) {
        Some(BLOCK_OUTPUT_COUNT@)
    } else if !input_counts_ok(b.transactions) {
        Some(BLOCK_INPUT_COUNT@)
    } else if !amounts_ok(b.transactions) {
        Some(BLOCK_AMOUNT_RANGE@)
    } else if !recipients_ok(b.transactions) {
        Some(BLOCK_RECIPIENTS@)
    } else if !b.hash_verified(MINIMUM_DIFFICULTY_LEVEL) {
        Some(BLOCK_HASH@)
    } else if !signatures_ok(b.transactions) {
        Some(BLOCK_SIGNATURES@)
    } else {
        None
    }
}

/// The first of the checks on a block by itself that `block` fails, as
/// the reason given for it; nothing when it passes them all.
#[verifier::loop_isolation(false)]
pub fn check_block_form(block: &crate::block::Block) -> (r: Option<&'static str>)
    ensures
        match block_form_refusal(block@) {
            Some(reason) => r.is_some() && r.unwrap()@ == reason,
            None => r.is_none(),
        },
{
    reveal(block_form_refusal);
    let txs = &block.transactions;
    let n = txs.len();
    if n > 2000 {
        return Some(BLOCK_TOO_MANY_TXNS);
    }
    if block.nonce >= NONCE_LIMIT {
        return Some(BLOCK_NONCE_RANGE);
    }
    if n == 0 || !txs[0].is_reward() {
        return Some(BLOCK_REWARD_SHAPE);
    }
    let mut i: usize = 0;
    while i < n
        invariant
            0 <= i <= n,
            forall|k: int| 0 <= k < i ==> 1 <= (#[trigger] block@.transactions[k]).outputs.len() <= 256,
        decreases n - i,
    {
        let count = txs[i].output_count();
        if count < 1 || count > 256 {
            assert(!(1 <= block@.transactions[i as int].outputs.len() <= 256));
            return Some(BLOCK_OUTPUT_COUNT);
        }
        i = i + 1;
    }
    i = 1;
    while i < n
        invariant
            1 <= i <= n,
            forall|k: int| 1 <= k < i ==> 1 <= (#[trigger] block@.transactions[k]).inputs.len() <= 256,
        decreases n - i,
    {
        let count = txs[i].input_count();
        if count < 1 || count > 256 {
            assert(!(1 <= block@.transactions[i as int].inputs.len() <= 256));
            return Some(BLOCK_INPUT_COUNT);
        }
        i = i + 1;
    }
    i = 0;
    while i < n
        invariant
            0 <= i <= n,
            forall|k: int| 0 <= k < i ==> (#[trigger] block@.transactions[k]).amounts_in_range(),
        decreases n - i,
    {
        if !txs[i].amounts_in_range() {
            assert(!block@.transactions[i as int].amounts_in_range());
            return Some(BLOCK_AMOUNT_RANGE);
        }
        i = i + 1;
    }
    i = 0;
    while i < n
        invariant
            0 <= i <= n,
            forall|k: int| 0 <= k < i ==> (#[trigger] block@.transactions[k]).recipients_distinct(),
        decreases n - i,
    {
        if !txs[i].recipients_distinct() {
            assert(!block@.transactions[i as int].recipients_distinct());
            return Some(BLOCK_RECIPIENTS);
        }
        i = i + 1;
    }
    if !block.verify_hash_challenge(MINIMUM_DIFFICULTY_LEVEL) {
        return Some(BLOCK_HASH);
    }
    i = 0;
    while i < n
        invariant
            0 <= i <= n,
            forall|k: int| 0 <= k < i ==> (#[trigger] block@.transactions[k]).signature_valid(),
        decreases n - i,
    {
        if !txs[i].verify_signature() {
            assert(!block@.transactions[i as int].signature_valid());
            return Some(BLOCK_SIGNATURES);
        }
        i = i + 1;
    }
    None
}

impl Ledger {
    /// The ledger after `t` was handed to the table of transactions: the
    /// same ledger when its hash is stored already, the ledger with `t`
    /// when the tables take it, the result code of the broken rule
    /// otherwise.
    pub open spec fn raw_insert(self, t: TxModel) -> Result<Ledger, i32> {
        if self.has_tx(t.hash()) {
            Ok(self)
        } else {
            match self.raw_insert_refusal(t) {
                Some(code) => Err(code),
                None => Ok(self.with_tx(t)),
            }
        }
    }

    /// The ledger after the transactions of `txs` were handed to the table
    /// one after another, or the result code of the first refusal.
    pub open spec fn insert_all(self, txs: Seq<TxModel>) -> Result<Ledger, i32>
        decreases txs.len(),
    {
        if txs.len() == 0 {
            Ok(self)
        } else {
            match self.insert_all(txs.drop_last()) {
                Ok(l) => l.raw_insert(txs.last()),
                Err(code) => Err(code),
            }
        }
    }

    /// The height of a block whose parent is `parent`.
    pub open spec fn height_above(self, parent: Option<Seq<u8>>) -> nat {
        match parent {
            Some(p) => self.blocks[self.block_index(p)].height + 1,
            None => 0,
        }
    }

    /// The row that the table of blocks gets for `b`.
    pub open spec fn entry_for(self, b: BlockModel) -> BlockEntry {
        BlockEntry {
            hash: b.hash,
            parent: b.parent,
            height: self.height_above(b.parent),
            nonce: b.nonce,
            txs: hashes_of(b.transactions),
        }
    }

    /// The ledger with the row of `b` appended to its blocks.
    pub open spec fn with_block(self, b: BlockModel) -> Ledger {
        Ledger { blocks: self.blocks.push(self.entry_for(b)), ..self }
    }

    /// Whether every transaction of block `i` spends only what was paid to
    /// its payer.
    pub open spec fn block_authorized(self, i: int) -> bool {
        forall|k: int|
            0 <= k < self.blocks[i].txs.len() ==> self.authorized(
                self.tx(#[trigger] self.blocks[i].txs[k]),
            )
    }

    /// Whether no transaction of block `i` that spends anything pays out
    /// more than it takes in.
    pub open spec fn block_within_credit(self, i: int) -> bool {
        forall|k: int|
            0 <= k < self.blocks[i].txs.len() ==> self.within_credit(
                self.tx(#[trigger] self.blocks[i].txs[k]),
            )
    }

    /// The reason for which the block at place `i` fails the checks on
    /// what it spends, when it fails one.
    pub open spec fn audit_refusal(self, i: int) -> Seq<char> {
        if !self.block_authorized(i) {
            BLOCK_UNAUTHORIZED@
        } else if !self.block_within_credit(i) {
            BLOCK_OVERSPENT@
        } else {
            BLOCK_INCONSISTENT@
        }
    }

    /// What becomes of the ledger when it receives `b`: the ledger with
    /// the block and its transactions, or the reason for which the block
    /// is refused. The checks are made in this order: the form of the
    /// block; that its parent is stored; the rules of the tables on each
    /// transaction in turn; that neither the block nor one of its
    /// transactions is in it twice; then, with everything in place, that
    /// nothing is spent without authority, that nothing is overspent, and
    /// that the block is consistent with its ancestors.
    pub open spec fn receive_block(self, b: BlockModel) -> Result<Ledger, Seq<char>> {
        match block_form_refusal(b) {
            Some(reason) => Err(reason),
            None => if b.parent.is_some() && !self.has_block(b.parent.unwrap()) {
                Err(sqlite_code_text(CODE_FOREIGN_KEY))
            } else {
                match self.insert_all(b.transactions) {
                    Err(code) => Err(sqlite_code_text(code)),
                    Ok(l) => if self.has_block(b.hash) || !distinct(hashes_of(b.transactions)) {
                        Err(sqlite_code_text(CODE_UNIQUE))
                    } else {
                        let after = l.with_block(b);
                        let i = after.blocks.len() - 1;
                        if !after.block_authorized(i) {
                            Err(BLOCK_UNAUTHORIZED@)
                        } else if !after.block_within_credit(i) {
                            Err(BLOCK_OVERSPENT@)
                        } else if !after.block_consistent(i) {
                            Err(BLOCK_INCONSISTENT@)
                        } else {
                            Ok(after)
                        }
                    },
                }
            },
        }
    }
}

/// What a block that passes the checks on its form is like.
pub proof fn lemma_form_accepted(b: BlockModel)
    requires
        block_form_refusal(b).is_none(),
    ensures
        1 <= b.transactions.len() <= 2000,
        b.nonce < NONCE_LIMIT,
        is_reward(b.transactions[0]),
        output_counts_ok(b.transactions),
        input_counts_ok(b.transactions),
        amounts_ok(b.transactions),
        recipients_ok(b.transactions),
        signatures_ok(b.transactions),
        b.hash_verified(MINIMUM_DIFFICULTY_LEVEL),
        forall|k: int| 0 <= k < b.transactions.len() ==> (#[trigger] b.transactions[k]).inputs.len() <= 256,
{
    reveal(block_form_refusal);
    assert forall|k: int| 0 <= k < b.transactions.len() implies (#[trigger] b.transactions[k]).inputs.len()
        <= 256 by {
        if k == 0 {
        } else {
            assert(1 <= b.transactions[k].inputs.len() <= 256);
        }
    }
}

/// Whether `t` has the form that the table asks of a transaction before
/// it looks at its amounts and inputs: a valid signature, between one and
/// 256 outputs, no amount out of range, no recipient twice.
pub open spec fn presentable(t: TxModel) -> bool {
    &&& t.signature_valid()
    &&& 1 <= t.outputs.len() <= 256
    &&& t.amounts_in_range()
    &&& t.recipients_distinct()
}

/// What holds of a ledger after the table took a transaction, or found
/// it stored already.
pub proof fn lemma_raw_insert_grows(l: Ledger, t: TxModel)
    requires
        l.structured(),
        presentable(t),
        l.raw_insert(t).is_ok(),
    ensures
        ({
            let l2 = l.raw_insert(t).unwrap();
            &&& l2.structured()
            &&& l2.extends(l)
            &&& l2.blocks == l.blocks
            &&& l2.orphans == l.orphans
            &&& l2.trusted == l.trusted
            &&& l2.has_tx(t.hash())
            &&& (l2 == l || l2 == l.with_tx(t))
        }),
{
    crate::ledger::lemma_structured_hashes(l);
    if l.has_tx(t.hash()) {
        crate::frame::lemma_extends_self(l);
    } else {
        assert(crate::ledger::storable(t)) by {
            assert forall|k: int| 0 <= k < t.outputs.len() implies #[trigger] t.outputs[k].amount
                > 0 by {}
        }
        crate::frame::lemma_with_tx(l, t);
        crate::frame::lemma_with_tx_structured(l, t);
    }
}

/// What holds of a ledger to which the transactions of a well-formed
/// block were handed without a refusal: it keeps the rows that it had, its
/// new rows all come from the block, and it holds every transaction of the
/// block.
pub proof fn lemma_insert_all_grows(l: Ledger, txs: Seq<TxModel>)
    requires
        l.structured(),
        forall|k: int| 0 <= k < txs.len() ==> presentable(#[trigger] txs[k]),
        l.insert_all(txs).is_ok(),
    ensures
        ({
            let l2 = l.insert_all(txs).unwrap();
            &&& l2.structured()
            &&& l2.extends(l)
            &&& l2.blocks == l.blocks
            &&& l2.orphans == l.orphans
            &&& l2.trusted == l.trusted
            &&& forall|k: int| 0 <= k < txs.len() ==> l2.has_tx(#[trigger] txs[k].hash())
            &&& forall|x: int|
                l.txs.len() <= x < l2.txs.len() ==> hashes_of(txs).contains(
                    (#[trigger] l2.txs[x]).hash(),
                )
        }),
    decreases txs.len(),
{
    if txs.len() == 0 {
        crate::ledger::lemma_structured_hashes(l);
        crate::frame::lemma_extends_self(l);
    } else {
        let rest = txs.drop_last();
        let t = txs.last();
        assert forall|k: int| 0 <= k < rest.len() implies presentable(#[trigger] rest[k]) by {
            assert(rest[k] == txs[k]);
        }
        lemma_insert_all_grows(l, rest);
        let l1 = l.insert_all(rest).unwrap();
        let l2 = l.insert_all(txs).unwrap();
        assert(txs[txs.len() - 1] == t);
        assert(l2 == l1.raw_insert(t).unwrap());
        lemma_raw_insert_grows(l1, t);
        crate::frame::lemma_extends_chain(l, l1, l2);
        crate::frame::lemma_extends_rows(l1, l2);
        crate::frame::lemma_extends_rows(l, l1);
        assert forall|k: int| 0 <= k < txs.len() implies l2.has_tx(#[trigger] txs[k].hash()) by {
            if k < rest.len() {
                assert(rest[k] == txs[k]);
                assert(l1.has_tx(rest[k].hash()));
                crate::frame::lemma_tx_kept(l1, l2, txs[k].hash());
            }
        }
        assert forall|x: int| l.txs.len() <= x < l2.txs.len() implies hashes_of(txs).contains(
            (#[trigger] l2.txs[x]).hash(),
        ) by {
            if x < l1.txs.len() {
                assert(l2.txs[x] == l1.txs.take(l1.txs.len() as int)[x]);
                assert(hashes_of(rest).contains(l1.txs[x].hash()));
                let w = choose|w: int|
                    0 <= w < hashes_of(rest).len() && hashes_of(rest)[w] == l1.txs[x].hash();
                assert(hashes_of(txs)[w] == l2.txs[x].hash());
            } else {
                assert(l2 == l1.with_tx(t));
                assert(hashes_of(txs)[txs.len() - 1] == t.hash());
            }
        }
    }
}

/// The transactions of a block that passes the checks on its form are
/// all presentable.
pub proof fn lemma_form_presentable(b: BlockModel)
    requires
        block_form_refusal(b).is_none(),
    ensures
        forall|k: int| 0 <= k < b.transactions.len() ==> presentable(#[trigger] b.transactions[k]),
{
    lemma_form_accepted(b);
}

/// Appending the row of a block with a new hash keeps the rows that were
/// there.
pub proof fn lemma_with_block_extends(mid: Ledger, b: BlockModel)
    requires
        distinct(mid.tx_hashes()),
        distinct(mid.block_hashes()),
        !mid.has_block(b.hash),
    ensures
        mid.with_block(b).extends(mid),
        distinct(mid.with_block(b).block_hashes()),
        mid.with_block(b).tx_hashes() == mid.tx_hashes(),
{
    let after = mid.with_block(b);
    let index = mid.blocks.len() as int;
    reveal(distinct);
    assert forall|x: int, y: int| 0 <= x < y < after.block_hashes().len() implies after.block_hashes()[x]
        != after.block_hashes()[y] by {
        assert(after.block_hashes()[x] == mid.block_hashes()[x]);
        if y < index {
            assert(after.block_hashes()[y] == mid.block_hashes()[y]);
        } else {
            if mid.block_hashes()[x] == b.hash {
                assert(mid.block_hashes().contains(b.hash));
            }
        }
    }
    reveal(Ledger::extends);
}

/// The row of a block whose transactions are all stored, and whose parent
/// is stored if it names one, has the shape that the rules ask for.
pub proof fn lemma_new_block_shaped(mid: Ledger, b: BlockModel)
    requires
        mid.structured(),
        1 <= b.transactions.len() <= 2000,
        b.nonce < NONCE_LIMIT,
        b.hash_verified(MINIMUM_DIFFICULTY_LEVEL),
        b.hash.len() == 32,
        b.parent.is_some() ==> mid.has_block(b.parent.unwrap()),
        !mid.has_block(b.hash),
        distinct(hashes_of(b.transactions)),
        forall|k: int| 0 <= k < b.transactions.len() ==> mid.has_tx(#[trigger] b.transactions[k].hash()),
    ensures
        mid.with_block(b).block_shaped(mid.blocks.len() as int),
{
    crate::ledger::lemma_structured_hashes(mid);
    lemma_with_block_extends(mid, b);
    let after = mid.with_block(b);
    let index = mid.blocks.len() as int;
    assert forall|k: int| 0 <= k < after.blocks[index].txs.len() implies after.has_tx(
        #[trigger] after.blocks[index].txs[k],
    ) by {
        assert(after.blocks[index].txs[k] == b.transactions[k].hash());
        assert(mid.has_tx(b.transactions[k].hash()));
    }
    match b.parent {
        Some(p) => {
            crate::frame::lemma_block_kept(mid, after, p);
            crate::ledger::lemma_structured_block(mid, mid.block_index(p));
        },
        None => {},
    }
}

/// A ledger that took the transactions of a block and then the row of
/// the block itself has the shape that the rules ask for.
pub proof fn lemma_block_linked(start: Ledger, mid: Ledger, b: BlockModel)
    requires
        start.structured(),
        block_form_refusal(b).is_none(),
        b.hash.len() == 32,
        b.parent.is_some() ==> start.has_block(b.parent.unwrap()),
        start.insert_all(b.transactions) == Ok::<Ledger, i32>(mid),
        !start.has_block(b.hash),
        distinct(hashes_of(b.transactions)),
    ensures
        mid.with_block(b).structured(),
        mid.with_block(b).extends(start),
        mid.with_block(b).extends(mid),
{
    lemma_form_accepted(b);
    lemma_form_presentable(b);
    lemma_insert_all_grows(start, b.transactions);
    crate::ledger::lemma_structured_hashes(mid);
    let after = mid.with_block(b);
    lemma_with_block_extends(mid, b);
    crate::frame::lemma_extends_chain(start, mid, after);
    crate::frame::lemma_extension_keeps_structure(mid, after);
    lemma_new_block_shaped(mid, b);
    assert forall|i: int| 0 <= i < after.orphans.len() implies crate::ledger::admissible(
        #[trigger] after.orphans[i],
    ) by {
        crate::ledger::lemma_structured_orphan(mid, i);
    }
    crate::ledger::lemma_structured_from_parts(after);
}

/// A ledger that took a block which passes the checks on what it spends
/// obeys every rule.
pub proof fn lemma_block_sound(start: Ledger, mid: Ledger, b: BlockModel)
    requires
        start.wf(),
        block_form_refusal(b).is_none(),
        start.insert_all(b.transactions) == Ok::<Ledger, i32>(mid),
        mid.with_block(b).structured(),
        mid.with_block(b).extends(start),
        mid.with_block(b).block_authorized(mid.blocks.len() as int),
        mid.with_block(b).block_within_credit(mid.blocks.len() as int),
        mid.with_block(b).block_consistent(mid.blocks.len() as int),
    ensures
        mid.with_block(b).wf(),
{
    lemma_form_presentable(b);
    lemma_insert_all_grows(start, b.transactions);
    let after = mid.with_block(b);
    let index = mid.blocks.len() as int;
    let incoming = b.transactions;
    crate::frame::lemma_extension_keeps_soundness(start, after);
    crate::ledger::lemma_structured_hashes(after);
    assert forall|x: int| 0 <= x < after.txs.len() implies after.authorized(#[trigger] after.txs[x])
        && after.within_credit(after.txs[x]) by {
        if x >= start.txs.len() {
            let h = after.txs[x].hash();
            assert(mid.txs[x] == after.txs[x]);
            let k = choose|k: int| 0 <= k < hashes_of(incoming).len() && hashes_of(incoming)[k] == h;
            assert(after.blocks[index].txs[k] == h);
            assert(after.tx_hashes()[x] == h);
            crate::ledger::lemma_position(after.tx_hashes(), x);
            assert(after.tx(h) == after.txs[x]);
        }
    }
    assert forall|x: int| 0 <= x < after.blocks.len() implies #[trigger] after.block_consistent(
        x,
    ) by {}
    crate::ledger::lemma_sound_from_parts(after);
}

/// Handing over a longer run of transactions fails as soon as a shorter
/// run fails, and with the same code.
pub proof fn lemma_insert_all_fails_on(l: Ledger, txs: Seq<TxModel>, i: int, code: i32)
    requires
        0 <= i <= txs.len(),
        l.insert_all(txs.take(i)) == Err::<Ledger, i32>(code),
    ensures
        l.insert_all(txs) == Err::<Ledger, i32>(code),
    decreases txs.len() - i,
{
    if i < txs.len() {
        assert(txs.take(i + 1).drop_last() =~= txs.take(i));
        lemma_insert_all_fails_on(l, txs, i + 1, code);
    } else {
        assert(txs.take(i) =~= txs);
    }
}

} // verus!
