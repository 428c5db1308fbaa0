//! Laws of the ledger: what holds of every state that obeys its rules.

use vstd::prelude::*;
use crate::acceptance::lemma_form_accepted;
use crate::acceptance::lemma_form_presentable;
use crate::acceptance::lemma_insert_all_grows;
use crate::acceptance::lemma_raw_insert_grows;
use crate::acceptance::presentable;
use crate::block::BlockModel;
use crate::frame::lemma_block_kept;
use crate::frame::lemma_extends_rows;
use crate::frame::lemma_extends_self;
use crate::frame::lemma_lineage_kept;
use crate::frame::lemma_tx_found;
use crate::frame::lemma_tx_kept;
use crate::ledger::Ledger;
use crate::ledger::is_reward;
use crate::ledger::lemma_sound_block;
use crate::ledger::lemma_sound_tx;
use crate::ledger::lemma_structured_block;
use crate::ledger::lemma_structured_hashes;
use crate::ledger::lemma_structured_tx;
use crate::queries::lemma_tip_in_range;
use crate::reasons::CODE_UNIQUE;
use crate::reasons::sqlite_code_text;
use crate::transaction::InputModel;
use crate::transaction::TxModel;

verus! {

/// The signature of every stored transaction is valid.
pub proof fn law_stored_signatures_valid(l: Ledger, i: int)
    requires
        l.wf(),
        0 <= i < l.txs.len(),
    ensures
        l.txs[i].signature_valid(),
{
    lemma_structured_tx(l, i);
}

/// The hash of every stored block starts with the zero bits that are
/// asked of a block, and its nonce is below two to the power 63.
pub proof fn law_stored_blocks_mined(l: Ledger, i: int)
    requires
        l.wf(),
        0 <= i < l.blocks.len(),
    ensures
        crate::hash::leading_zero_bits(l.blocks[i].hash) >= crate::block::MINIMUM_DIFFICULTY_LEVEL,
        l.blocks[i].nonce < crate::block::NONCE_LIMIT,
{
    lemma_structured_block(l, i);
}

/// The blocks of the longest chain are stored blocks.
pub proof fn lemma_longest_chain_stored(l: Ledger, k: int)
    requires
        l.structured(),
        0 <= k < l.longest_chain().len(),
    ensures
        0 <= l.longest_chain()[k] < l.blocks.len(),
{
    lemma_tip_in_range(l.blocks);
    lemma_structured_hashes(l);
    lemma_extends_self(l);
    lemma_lineage_kept(l, l, Ledger::tip_of(l.blocks));
}

/// Every block of the longest chain sees no violation in itself and its
/// ancestors: no input of its lineage points at an output that the lineage
/// lacks, and no output is spent twice in it.
pub proof fn law_longest_chain_consistent(l: Ledger, k: int)
    requires
        l.wf(),
        0 <= k < l.longest_chain().len(),
    ensures
        l.block_consistency(l.longest_chain()[k]) == 0,
        l.block_consistent(l.longest_chain()[k]),
{
    lemma_longest_chain_stored(l, k);
    law_every_block_consistent(l, l.longest_chain()[k]);
}

/// Every stored block sees no violation in itself and its ancestors, on
/// the longest chain or off it.
pub proof fn law_every_block_consistent(l: Ledger, i: int)
    requires
        l.wf(),
        0 <= i < l.blocks.len(),
    ensures
        l.block_consistency(i) == 0,
        l.block_consistent(i),
{
    lemma_sound_block(l, i);
    crate::consistency::law_consistent_means_no_violation(l, l.lineage_from(i));
}

/// A transaction of a stored block that spends anything pays out no more
/// than the outputs that it spends carry, and spends only outputs that
/// were paid to its payer.
pub proof fn law_block_transactions_within_credit(l: Ledger, i: int, k: int)
    requires
        l.wf(),
        0 <= i < l.blocks.len(),
        0 <= k < l.blocks[i].txs.len(),
    ensures
        l.has_tx(l.blocks[i].txs[k]),
        l.tx(l.blocks[i].txs[k]).inputs.len() > 0 ==> l.tx(l.blocks[i].txs[k]).debited()
            <= l.credited(l.tx(l.blocks[i].txs[k])),
        l.authorized(l.tx(l.blocks[i].txs[k])),
{
    lemma_structured_block(l, i);
    let h = l.blocks[i].txs[k];
    assert(l.has_tx(h));
    lemma_tx_found(l, h);
    lemma_sound_tx(l, crate::frame::position_of_tx(l, h));
}

/// A ledger in which every block opens with a reward still is one after it
/// received a block, unless a different transaction was stored under the
/// hash of the reward of that block.
pub proof fn law_received_reward_shaped(l: Ledger, b: BlockModel)
    requires
        l.wf(),
        l.rewards_shaped(),
        l.receive_block(b).is_ok(),
        b.transactions.len() > 0,
        l.has_tx(b.transactions[0].hash()) ==> l.tx(b.transactions[0].hash()) == b.transactions[0],
    ensures
        (l.receive_block(b)->Ok_0).rewards_shaped(),
        is_reward(b.transactions[0]),
{
    let after = l.receive_block(b)->Ok_0;
    lemma_form_accepted(b);
    lemma_form_presentable(b);
    let mid = l.insert_all(b.transactions).unwrap();
    lemma_insert_all_grows(l, b.transactions);
    lemma_structured_hashes(mid);
    crate::acceptance::lemma_with_block_extends(mid, b);
    crate::frame::lemma_extends_chain(l, mid, after);
    lemma_extends_rows(l, after);
    lemma_extends_rows(mid, after);
    let reward = b.transactions[0];
    lemma_reward_stored_first(l, b.transactions);
    assert(mid.tx(reward.hash()) == reward);
    assert forall|i: int| 0 <= i < after.blocks.len() implies is_reward(
        after.tx(#[trigger] after.blocks[i].txs[0]),
    ) by {
        if i < l.blocks.len() {
            assert(after.blocks[i] == l.blocks.take(l.blocks.len() as int)[i]);
            lemma_structured_block(l, i);
            assert(l.has_tx(l.blocks[i].txs[0]));
            lemma_tx_kept(l, after, l.blocks[i].txs[0]);
        } else {
            assert(after.blocks[i].txs[0] == reward.hash());
            assert(mid.has_tx(b.transactions[0].hash()));
            lemma_tx_kept(mid, after, reward.hash());
        }
    }
}

/// After the transactions of `txs` were handed to the table, the first of
/// them is the stored transaction of its hash, unless a different one was
/// stored under that hash before.
pub proof fn lemma_reward_stored_first(l: Ledger, txs: Seq<TxModel>)
    requires
        l.structured(),
        txs.len() > 0,
        forall|k: int| 0 <= k < txs.len() ==> presentable(#[trigger] txs[k]),
        l.insert_all(txs).is_ok(),
        l.has_tx(txs[0].hash()) ==> l.tx(txs[0].hash()) == txs[0],
    ensures
        l.insert_all(txs).unwrap().tx(txs[0].hash()) == txs[0],
    decreases txs.len(),
{
    let rest = txs.drop_last();
    assert forall|k: int| 0 <= k < rest.len() implies presentable(#[trigger] rest[k]) by {
        assert(rest[k] == txs[k]);
    }
    let l1 = l.insert_all(rest).unwrap();
    lemma_insert_all_grows(l, rest);
    assert(txs[txs.len() - 1] == txs.last());
    lemma_raw_insert_grows(l1, txs.last());
    let l2 = l.insert_all(txs).unwrap();
    if txs.len() == 1 {
        assert(rest.len() == 0);
        assert(l1 == l);
        if l.has_tx(txs[0].hash()) {
        } else {
            lemma_structured_hashes(l);
            crate::frame::lemma_with_tx(l, txs[0]);
        }
    } else {
        assert(rest[0] == txs[0]);
        lemma_reward_stored_first(l, rest);
        assert(l1.has_tx(rest[0].hash()));
        lemma_tx_kept(l1, l2, txs[0].hash());
    }
}

/// A ledger in which every block opens with a reward still is one after
/// transactions were added to it and no block.
pub proof fn law_rewards_outlast_transactions(old: Ledger, new: Ledger)
    requires
        old.structured(),
        old.rewards_shaped(),
        new.extends(old),
        new.blocks == old.blocks,
    ensures
        new.rewards_shaped(),
{
    assert forall|i: int| 0 <= i < new.blocks.len() implies is_reward(
        new.tx(#[trigger] new.blocks[i].txs[0]),
    ) by {
        lemma_structured_block(old, i);
        assert(old.has_tx(old.blocks[i].txs[0]));
        lemma_tx_kept(old, new, old.blocks[i].txs[0]);
    }
}

/// A ledger in which every block opens with a reward still is one after
/// it received a tentative transaction, whatever became of that.
pub proof fn law_rewards_outlast_tentative(l: Ledger, t: TxModel)
    requires
        l.wf(),
        l.rewards_shaped(),
    ensures
        l.receive_tentative(t).0.rewards_shaped(),
        l.receive_tentative(t).0.wf(),
{
    crate::adoption::lemma_receive_tentative_grows(l, t);
    law_rewards_outlast_transactions(l, l.receive_tentative(t).0);
}

/// A ledger without blocks is one in which every block opens with a
/// reward.
pub proof fn law_empty_ledger_shaped()
    ensures
        Ledger::empty().rewards_shaped(),
        Ledger::empty().wf(),
{
    crate::ledger::lemma_empty_wf();
}

/// A transaction that is in a block of the chain has confirmations.
pub proof fn lemma_confirmed(l: Ledger, chain: Seq<int>, k: int, h: Seq<u8>)
    requires
        0 <= k < chain.len(),
        l.blocks[chain[k]].txs.contains(h),
    ensures
        l.confirmations_along(chain, h) > k,
    decreases chain.len(),
{
    if !l.blocks[chain.last()].txs.contains(h) {
        assert(chain.drop_last()[k] == chain[k]);
        lemma_confirmed(l, chain.drop_last(), k, h);
    }
}

/// Every transaction that the list of tentative ones holds is tentative.
pub proof fn lemma_tentative_are_tentative(l: Ledger, txs: Seq<TxModel>, i: int)
    requires
        0 <= i < l.tentative_among(txs).len(),
    ensures
        l.is_tentative(l.tentative_among(txs)[i]),
    decreases txs.len(),
{
    if txs.len() > 0 {
        let rest = txs.drop_last();
        if i < l.tentative_among(rest).len() {
            lemma_tentative_are_tentative(l, rest, i);
        }
    }
}

/// A transaction that is in a block of the longest chain is not among the
/// tentative ones.
pub proof fn law_confirmed_not_tentative(l: Ledger, k: int, j: int, i: int)
    requires
        0 <= k < l.longest_chain().len(),
        0 <= j < l.blocks[l.longest_chain()[k]].txs.len(),
        0 <= i < l.tentative().len(),
    ensures
        l.tentative()[i].hash() != l.blocks[l.longest_chain()[k]].txs[j],
{
    let h = l.blocks[l.longest_chain()[k]].txs[j];
    lemma_confirmed(l, l.longest_chain(), k, h);
    lemma_tentative_are_tentative(l, l.txs, i);
}

/// Handing a transaction to the table a second time changes nothing and
/// is no error.
pub proof fn law_raw_insert_twice(l: Ledger, t: TxModel)
    requires
        l.structured(),
        presentable(t),
        l.raw_insert(t).is_ok(),
    ensures
        l.raw_insert(t).unwrap().raw_insert(t) == l.raw_insert(t),
{
    lemma_raw_insert_grows(l, t);
}

/// Adopting a transaction a second time changes nothing and is no error.
pub proof fn law_adopt_twice(l: Ledger, t: TxModel)
    requires
        l.wf(),
        presentable(t),
        l.adopt(t).is_ok(),
    ensures
        (l.adopt(t)->Ok_0).adopt(t) == l.adopt(t),
{
    lemma_raw_insert_grows(l, t);
}

/// A ledger that receives a tentative transaction that it stores already
/// stays as it is and refuses nothing, where no orphan of its buffer is
/// ready: the transaction is not stored a second time and does not stay
/// in the buffer.
pub proof fn law_receive_stored_again(l: Ledger, t: TxModel)
    requires
        l.wf(),
        l.has_tx(t.hash()),
        l.tx(t.hash()) == t,
        t.inputs.len() >= 1,
        l.ready_among(l.orphans).len() == 0,
    ensures
        l.receive_tentative(t) == (l, Seq::<crate::adoption::Rejection>::empty()),
{
    lemma_tx_found(l, t.hash());
    let at = crate::frame::position_of_tx(l, t.hash());
    lemma_structured_tx(l, at);
    lemma_sound_tx(l, at);
    assert(crate::adoption::tentative_form_refusal(t).is_none());
    let none = Seq::<crate::adoption::Rejection>::empty();
    if l.has_orphan(t.hash()) {
    } else {
        let buffer = l.orphans.push(t);
        let start = l.with_orphan(t);
        assert(l.ready(t)) by {
            assert forall|k: int| 0 <= k < t.inputs.len() implies l.has_tx((#[trigger] t.inputs[k]).tx) by {
                assert(l.has_output(t.inputs[k]));
            }
        }
        crate::adoption::lemma_same_txs_ready(l, start, buffer);
        crate::adoption::lemma_none_ready_all_wait(l, l.orphans);
        assert(buffer.drop_last() =~= l.orphans);
        assert(buffer.last() == t);
        assert(l.ready_among(buffer) =~= seq![t]);
        assert(l.waiting_among(buffer) == l.orphans);
        assert(start.with_orphans(l.orphans) == l);
        let batch = seq![t];
        assert(batch.drop_last() =~= Seq::<TxModel>::empty());
        assert(batch.last() == t);
        assert(l.adopt_each(batch.drop_last()).ledger == l);
        assert(l.adopt(t) == Ok::<Ledger, Seq<char>>(l));
        let s = start.sweep();
        assert(s.ledger == l);
        assert(s.rejected =~= none);
        assert(s.progress);
        assert(l.collect((start.orphans.len() - 1) as nat) == (l, none));
        assert(none + none =~= none);
    }
}

/// A ledger that has received and adopted a tentative transaction stays
/// as it is when it receives that transaction again, and refuses nothing.
pub proof fn law_receive_tentative_twice(l: Ledger, t: TxModel)
    requires
        l.wf(),
        l.receive_tentative(t).0.has_tx(t.hash()),
        l.receive_tentative(t).0.tx(t.hash()) == t,
        t.inputs.len() >= 1,
    ensures
        l.receive_tentative(t).0.receive_tentative(t) == (
            l.receive_tentative(t).0,
            Seq::<crate::adoption::Rejection>::empty(),
        ),
{
    let after = l.receive_tentative(t).0;
    crate::adoption::lemma_receive_tentative_grows(l, t);
    if crate::adoption::tentative_form_refusal(t).is_none() {
        if !l.has_orphan(t.hash()) {
            crate::adoption::lemma_with_new_orphan(l, t);
        }
        let start = l.with_orphan(t);
        crate::adoption::lemma_collect_settled(start, start.orphans.len());
        law_receive_stored_again(after, t);
    } else {
        lemma_tx_found(l, t.hash());
        let at = crate::frame::position_of_tx(l, t.hash());
        lemma_structured_tx(l, at);
    }
}

/// Handing a transaction of a stored hash to the table changes nothing
/// and is no error, whatever the transaction holds.
pub proof fn law_stored_hash_inserts_nothing(l: Ledger, t: TxModel)
    requires
        l.has_tx(t.hash()),
    ensures
        l.raw_insert(t) == Ok::<Ledger, i32>(l),
        l.insert_all(seq![t]) == Ok::<Ledger, i32>(l),
{
    let one = seq![t];
    assert(one.drop_last() =~= Seq::<TxModel>::empty());
    assert(one.last() == t);
    assert(l.insert_all(one.drop_last()) == Ok::<Ledger, i32>(l));
}

/// Handing over transactions that are all stored changes nothing.
pub proof fn lemma_insert_all_stored(l: Ledger, txs: Seq<TxModel>)
    requires
        forall|k: int| 0 <= k < txs.len() ==> l.has_tx(#[trigger] txs[k].hash()),
    ensures
        l.insert_all(txs) == Ok::<Ledger, i32>(l),
    decreases txs.len(),
{
    if txs.len() > 0 {
        let rest = txs.drop_last();
        assert forall|k: int| 0 <= k < rest.len() implies l.has_tx(#[trigger] rest[k].hash()) by {
            assert(rest[k] == txs[k]);
            assert(l.has_tx(txs[k].hash()));
        }
        lemma_insert_all_stored(l, rest);
        assert(l.has_tx(txs[txs.len() - 1].hash()));
    }
}

/// A block that the ledger received is refused when it comes again, as a
/// row that is there already, and the ledger stays as it is.
pub proof fn law_receive_block_twice(l: Ledger, b: BlockModel)
    requires
        l.wf(),
        l.receive_block(b).is_ok(),
    ensures
        (l.receive_block(b)->Ok_0).receive_block(b) == Err::<Ledger, Seq<char>>(
            sqlite_code_text(CODE_UNIQUE),
        ),
{
    let after = l.receive_block(b)->Ok_0;
    lemma_form_accepted(b);
    lemma_form_presentable(b);
    let mid = l.insert_all(b.transactions).unwrap();
    lemma_insert_all_grows(l, b.transactions);
    lemma_structured_hashes(mid);
    crate::acceptance::lemma_with_block_extends(mid, b);
    assert forall|k: int| 0 <= k < b.transactions.len() implies after.has_tx(
        #[trigger] b.transactions[k].hash(),
    ) by {
        assert(mid.has_tx(b.transactions[k].hash()));
        lemma_tx_kept(mid, after, b.transactions[k].hash());
    }
    lemma_insert_all_stored(after, b.transactions);
    assert(after.block_hashes()[mid.blocks.len() as int] == b.hash);
    match b.parent {
        Some(p) => {
            lemma_block_kept(mid, after, p);
        },
        None => {},
    }
}

/// An output of a transaction that has no confirmation and whose payer is
/// not trusted counts for no balance.
pub proof fn law_untrusted_unconfirmed_invisible(l: Ledger, r: InputModel, required: u32)
    requires
        l.confirmations(r.tx) == 0,
        !l.payer_trusted(r.tx),
    ensures
        !l.visible(r, required),
{
}

/// Every output that counts for a balance is stored and unspent, and its
/// transaction has a confirmation or a trusted payer: a balance that asks
/// for no confirmation holds no output of an unconfirmed transaction from
/// a payer that is not trusted.
pub proof fn law_balance_rows_backed(l: Ledger, wallet: Seq<u8>, required: u32, i: int)
    requires
        0 <= i < l.utxo_rows(wallet, required).len(),
    ensures
        ({
            let row = l.utxo_rows(wallet, required)[i];
            &&& l.visible(row.source, required)
            &&& l.has_output(row.source)
            &&& !l.spent(row.source)
            &&& (l.confirmations(row.source.tx) > 0 || l.payer_trusted(row.source.tx))
        }),
{
    lemma_rows_visible(l, l.txs.len() as int, wallet, required, i);
}

/// Every row that the first `n` transactions give is a visible output.
pub proof fn lemma_rows_visible(l: Ledger, n: int, wallet: Seq<u8>, required: u32, i: int)
    requires
        0 <= i < l.rows_upto(n, wallet, required).len(),
    ensures
        l.visible(l.rows_upto(n, wallet, required)[i].source, required),
    decreases n,
{
    if n > 0 {
        let before = l.rows_upto(n - 1, wallet, required);
        if i < before.len() {
            lemma_rows_visible(l, n - 1, wallet, required, i);
        } else {
            let t = l.txs[n - 1];
            lemma_rows_in_visible(l, t, t.outputs.len() as int, wallet, required, i - before.len());
        }
    }
}

/// Every row that the first outputs of a transaction give is a visible
/// output.
pub proof fn lemma_rows_in_visible(l: Ledger, t: TxModel, upto: int, wallet: Seq<u8>, required: u32, i: int)
    requires
        0 <= i < l.rows_in(t, upto, wallet, required).len(),
    ensures
        l.visible(l.rows_in(t, upto, wallet, required)[i].source, required),
    decreases upto,
{
    if upto > 0 {
        let before = l.rows_in(t, upto - 1, wallet, required);
        if i < before.len() {
            lemma_rows_in_visible(l, t, upto - 1, wallet, required, i);
        }
    }
}

} // verus!
