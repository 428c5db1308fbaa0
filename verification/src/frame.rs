//! What stays true of the rows that a ledger already holds when more rows
//! are appended to its tables.

use vstd::prelude::*;
use crate::ledger::Ledger;
use crate::ledger::distinct;
use crate::ledger::lemma_position;
use crate::ledger::lemma_position_found;
use crate::transaction::InputModel;
use crate::transaction::TxModel;

verus! {

impl Ledger {
    /// Whether this ledger holds every block and transaction of `old` at
    /// the same place, and holds no hash twice.
    #[verifier::opaque]
    pub open spec fn extends(self, old: Ledger) -> bool {
        &&& old.txs.len() <= self.txs.len()
        &&& forall|i: int| 0 <= i < old.txs.len() ==> self.txs[i] == old.txs[i]
        &&& old.blocks.len() <= self.blocks.len()
        &&& forall|i: int| 0 <= i < old.blocks.len() ==> self.blocks[i] == old.blocks[i]
        &&& distinct(self.tx_hashes())
        &&& distinct(self.block_hashes())
    }
}

/// A stored transaction is found again, unchanged, after rows were added.
pub proof fn lemma_tx_kept(old: Ledger, new: Ledger, h: Seq<u8>)
    requires
        new.extends(old),
        old.has_tx(h),
    ensures
        new.has_tx(h),
        new.tx(h) == old.tx(h),
        old.tx(h).hash() == h,
{
    reveal(Ledger::extends);
    lemma_position_found(old.tx_hashes(), h);
    let p = position_of_tx(old, h);
    assert(new.txs[p] == old.txs[p]);
    assert(new.tx_hashes()[p] == h);
    lemma_position(new.tx_hashes(), p);
}

/// The place of the stored transaction of hash `h`.
pub open spec fn position_of_tx(l: Ledger, h: Seq<u8>) -> int {
    crate::ledger::position(l.tx_hashes(), h)
}

/// The stored transaction of hash `h` stands at its place and has that
/// hash.
pub proof fn lemma_tx_found(l: Ledger, h: Seq<u8>)
    requires
        l.has_tx(h),
    ensures
        0 <= position_of_tx(l, h) < l.txs.len(),
        l.tx(h) == l.txs[position_of_tx(l, h)],
        l.tx(h).hash() == h,
{
    lemma_position_found(l.tx_hashes(), h);
}

/// A stored block is found again at its place after rows were added.
pub proof fn lemma_block_kept(old: Ledger, new: Ledger, h: Seq<u8>)
    requires
        new.extends(old),
        old.has_block(h),
    ensures
        new.has_block(h),
        new.block_index(h) == old.block_index(h),
        0 <= old.block_index(h) < old.blocks.len(),
        old.blocks[old.block_index(h)].hash == h,
{
    reveal(Ledger::extends);
    lemma_position_found(old.block_hashes(), h);
    let p = old.block_index(h);
    assert(new.blocks[p] == old.blocks[p]);
    assert(new.block_hashes()[p] == h);
    lemma_position(new.block_hashes(), p);
}

/// A stored output is found again, unchanged, after rows were added.
pub proof fn lemma_output_kept(old: Ledger, new: Ledger, r: InputModel)
    requires
        new.extends(old),
        old.has_output(r),
    ensures
        new.has_output(r),
        new.output(r) == old.output(r),
{
    lemma_tx_kept(old, new, r.tx);
}

/// The credit of inputs that all point at stored outputs is the same
/// after rows were added.
pub proof fn lemma_credit_kept(old: Ledger, new: Ledger, inputs: Seq<InputModel>)
    requires
        new.extends(old),
        forall|k: int| 0 <= k < inputs.len() ==> old.has_output(#[trigger] inputs[k]),
    ensures
        new.credited_of(inputs) == old.credited_of(inputs),
    decreases inputs.len(),
{
    if inputs.len() > 0 {
        let rest = inputs.drop_last();
        assert forall|k: int| 0 <= k < rest.len() implies old.has_output(#[trigger] rest[k]) by {
            assert(rest[k] == inputs[k]);
        }
        lemma_credit_kept(old, new, rest);
        assert(old.has_output(inputs[inputs.len() - 1]));
        lemma_output_kept(old, new, inputs.last());
    }
}

/// A transaction whose inputs all point at stored outputs is judged the
/// same after rows were added.
pub proof fn lemma_tx_rules_kept(old: Ledger, new: Ledger, t: TxModel)
    requires
        new.extends(old),
        old.inputs_resolve(t),
    ensures
        new.inputs_resolve(t),
        new.authorized(t) == old.authorized(t),
        new.within_credit(t) == old.within_credit(t),
{
    assert forall|k: int| 0 <= k < t.inputs.len() implies new.has_output(#[trigger] t.inputs[k])
        && new.output(t.inputs[k]) == old.output(t.inputs[k]) by {
        assert(old.has_output(t.inputs[k]));
        lemma_output_kept(old, new, t.inputs[k]);
    }
    lemma_credit_kept(old, new, t.inputs);
}

/// The lineage of a stored block is the same after rows were added, and
/// every hash in it is the hash of a stored transaction.
pub proof fn lemma_lineage_kept(old: Ledger, new: Ledger, i: int)
    requires
        new.extends(old),
        old.structured(),
        0 <= i < old.blocks.len(),
    ensures
        new.lineage_from(i) == old.lineage_from(i),
        new.chain_from(i) == old.chain_from(i),
        new.parent_index(i) == old.parent_index(i),
        forall|a: int| 0 <= a < old.lineage_from(i).len() ==> old.has_tx(#[trigger] old.lineage_from(i)[a]),
        forall|a: int| 0 <= a < old.chain_from(i).len() ==> 0 <= #[trigger] old.chain_from(i)[a] <= i,
    decreases i,
{
    reveal(Ledger::extends);
    crate::ledger::lemma_structured_block(old, i);
    assert(new.blocks[i] == old.blocks[i]);
    match old.blocks[i].parent {
        Some(p) => {
            lemma_block_kept(old, new, p);
            let q = old.block_index(p);
            lemma_lineage_kept(old, new, q);
            let own = old.blocks[i].txs;
            let rest = old.lineage_from(q);
            assert forall|a: int| 0 <= a < old.lineage_from(i).len() implies old.has_tx(
                #[trigger] old.lineage_from(i)[a],
            ) by {
                if a < own.len() {
                    assert(old.has_tx(own[a]));
                } else {
                    assert(old.has_tx(rest[a - own.len()]));
                }
            }
            assert forall|a: int| 0 <= a < old.chain_from(i).len() implies 0
                <= #[trigger] old.chain_from(i)[a] <= i by {
                if a > 0 {
                    assert(old.chain_from(i)[a] == old.chain_from(q)[a - 1]);
                }
            }
        },
        None => {
            let own = old.blocks[i].txs;
            assert forall|a: int| 0 <= a < old.lineage_from(i).len() implies old.has_tx(
                #[trigger] old.lineage_from(i)[a],
            ) by {
                assert(old.has_tx(own[a]));
            }
        },
    }
}

/// Every hash in the lineage of a stored block is the hash of a stored
/// transaction.
pub proof fn lemma_lineage_stored(l: Ledger, i: int)
    requires
        l.structured(),
        0 <= i < l.blocks.len(),
    ensures
        forall|a: int| 0 <= a < l.lineage_from(i).len() ==> l.has_tx(#[trigger] l.lineage_from(i)[a]),
{
    crate::ledger::lemma_structured_hashes(l);
    lemma_extends_self(l);
    lemma_lineage_kept(l, l, i);
}

/// The inputs of a lineage of stored transactions are the same after rows
/// were added.
pub proof fn lemma_spent_kept(old: Ledger, new: Ledger, lineage: Seq<Seq<u8>>)
    requires
        new.extends(old),
        forall|a: int| 0 <= a < lineage.len() ==> old.has_tx(#[trigger] lineage[a]),
    ensures
        new.spent_by(lineage) == old.spent_by(lineage),
    decreases lineage.len(),
{
    if lineage.len() > 0 {
        let rest = lineage.drop_last();
        assert forall|a: int| 0 <= a < rest.len() implies old.has_tx(#[trigger] rest[a]) by {
            assert(rest[a] == lineage[a]);
        }
        lemma_spent_kept(old, new, rest);
        assert(old.has_tx(lineage[lineage.len() - 1]));
        lemma_tx_kept(old, new, lineage.last());
    }
}

/// A lineage of stored transactions is judged the same after rows were
/// added.
pub proof fn lemma_consistency_kept(old: Ledger, new: Ledger, lineage: Seq<Seq<u8>>)
    requires
        new.extends(old),
        forall|a: int| 0 <= a < lineage.len() ==> old.has_tx(#[trigger] lineage[a]),
    ensures
        new.consistent_lineage(lineage) == old.consistent_lineage(lineage),
{
    lemma_spent_kept(old, new, lineage);
    let spent = old.spent_by(lineage);
    assert forall|j: int| 0 <= j < spent.len() implies new.input_sound(lineage, spent, j)
        == old.input_sound(lineage, spent, j) by {
        if lineage.contains(spent[j].tx) {
            let a = choose|a: int| 0 <= a < lineage.len() && lineage[a] == spent[j].tx;
            assert(old.has_tx(lineage[a]));
            lemma_tx_kept(old, new, spent[j].tx);
        }
    }
}

/// The shape of every stored row is the same after rows were added.
pub proof fn lemma_extension_keeps_structure(old: Ledger, new: Ledger)
    requires
        old.structured(),
        new.extends(old),
    ensures
        forall|i: int|
            0 <= i < old.txs.len() ==> crate::ledger::storable(#[trigger] new.txs[i])
                && new.inputs_resolve(new.txs[i]),
        forall|i: int| 0 <= i < old.blocks.len() ==> #[trigger] new.block_shaped(i),
{
    assert forall|i: int| 0 <= i < old.txs.len() implies crate::ledger::storable(
        #[trigger] new.txs[i],
    ) && new.inputs_resolve(new.txs[i]) by {
        assert(new.txs[i] == old.txs[i]) by {
            reveal(Ledger::extends);
        }
        crate::ledger::lemma_structured_tx(old, i);
        lemma_tx_rules_kept(old, new, old.txs[i]);
    }
    assert forall|i: int| 0 <= i < old.blocks.len() implies #[trigger] new.block_shaped(i) by {
        crate::ledger::lemma_structured_block(old, i);
        lemma_block_shape_kept(old, new, i);
    }
}

/// Every rule on spending that held of a stored row holds of it after
/// rows were added.
pub proof fn lemma_extension_keeps_soundness(old: Ledger, new: Ledger)
    requires
        old.wf(),
        new.extends(old),
    ensures
        forall|i: int|
            0 <= i < old.txs.len() ==> new.authorized(#[trigger] new.txs[i]) && new.within_credit(
                new.txs[i],
            ),
        forall|i: int| 0 <= i < old.blocks.len() ==> #[trigger] new.block_consistent(i),
{
    assert forall|i: int| 0 <= i < old.txs.len() implies new.authorized(#[trigger] new.txs[i])
        && new.within_credit(new.txs[i]) by {
        assert(new.txs[i] == old.txs[i]) by {
            reveal(Ledger::extends);
        }
        crate::ledger::lemma_structured_tx(old, i);
        crate::ledger::lemma_sound_tx(old, i);
        lemma_tx_rules_kept(old, new, old.txs[i]);
    }
    assert forall|i: int| 0 <= i < old.blocks.len() implies #[trigger] new.block_consistent(i) by {
        lemma_lineage_kept(old, new, i);
        lemma_consistency_kept(old, new, old.lineage_from(i));
        crate::ledger::lemma_sound_block(old, i);
    }
}

/// What a ledger holds after a transaction with a new hash was appended.
pub proof fn lemma_with_tx(l: Ledger, t: TxModel)
    requires
        distinct(l.tx_hashes()),
        distinct(l.block_hashes()),
        !l.has_tx(t.hash()),
    ensures
        l.with_tx(t).extends(l),
        l.with_tx(t).has_tx(t.hash()),
        l.with_tx(t).tx(t.hash()) == t,
        forall|h: Seq<u8>| l.with_tx(t).has_tx(h) == (l.has_tx(h) || h == t.hash()),
{
    reveal(Ledger::extends);
    reveal(distinct);
    let l2 = l.with_tx(t);
    let n = l.txs.len() as int;
    assert(l2.block_hashes() =~= l.block_hashes());
    assert forall|i: int, j: int| 0 <= i < j < l2.tx_hashes().len() implies l2.tx_hashes()[i]
        != l2.tx_hashes()[j] by {
        if j < n {
            assert(l.tx_hashes()[i] != l.tx_hashes()[j]);
        } else {
            assert(l.tx_hashes()[i] == l2.tx_hashes()[i]);
            if l2.tx_hashes()[i] == t.hash() {
                assert(l.tx_hashes().contains(t.hash()));
            }
        }
    }
    assert(l2.tx_hashes()[n] == t.hash());
    lemma_position(l2.tx_hashes(), n);
    assert forall|h: Seq<u8>| l2.has_tx(h) == (l.has_tx(h) || h == t.hash()) by {
        if l2.has_tx(h) {
            let i = choose|i: int| 0 <= i < l2.tx_hashes().len() && l2.tx_hashes()[i] == h;
            if i < n {
                assert(l.tx_hashes()[i] == h);
            }
        }
        if l.has_tx(h) {
            let i = choose|i: int| 0 <= i < l.tx_hashes().len() && l.tx_hashes()[i] == h;
            assert(l2.tx_hashes()[i] == h);
        }
    }
}

/// The shape of a stored block is the same after rows were added.
pub proof fn lemma_block_shape_kept(old: Ledger, new: Ledger, i: int)
    requires
        new.extends(old),
        0 <= i < old.blocks.len(),
        old.block_shaped(i),
    ensures
        new.block_shaped(i),
{
    reveal(Ledger::extends);
    let b = old.blocks[i];
    assert(new.blocks[i] == b);
    assert forall|k: int| 0 <= k < b.txs.len() implies new.has_tx(#[trigger] b.txs[k]) by {
        assert(old.has_tx(b.txs[k]));
        lemma_tx_kept(old, new, b.txs[k]);
    }
    match b.parent {
        Some(p) => {
            lemma_block_kept(old, new, p);
        },
        None => {},
    }
}

/// A ledger of the right shape keeps that shape when it takes a
/// transaction of a new hash that is well formed and whose inputs point at
/// outputs that are then stored.
pub proof fn lemma_with_tx_structured(l: Ledger, t: TxModel)
    requires
        l.structured(),
        !l.has_tx(t.hash()),
        crate::ledger::storable(t),
        l.with_tx(t).inputs_resolve(t),
    ensures
        l.with_tx(t).structured(),
        l.with_tx(t).extends(l),
{
    crate::ledger::lemma_structured_hashes(l);
    lemma_with_tx(l, t);
    let l2 = l.with_tx(t);
    lemma_extension_keeps_structure(l, l2);
    lemma_extends_rows(l, l2);
    assert(l2.orphans == l.orphans);
    assert forall|i: int| 0 <= i < l2.orphans.len() implies crate::ledger::admissible(
        #[trigger] l2.orphans[i],
    ) by {
        crate::ledger::lemma_structured_orphan(l, i);
    }
    assert forall|i: int| 0 <= i < l2.txs.len() implies crate::ledger::storable(
        #[trigger] l2.txs[i],
    ) && l2.inputs_resolve(l2.txs[i]) by {
        if i == l.txs.len() {
            assert(l2.txs[i] == t);
        }
    }
    reveal(Ledger::structured);
}

/// Every ledger without a repeated hash extends itself.
pub proof fn lemma_extends_self(l: Ledger)
    requires
        distinct(l.tx_hashes()),
        distinct(l.block_hashes()),
    ensures
        l.extends(l),
{
    reveal(Ledger::extends);
}

/// What extends a ledger extends what that ledger extends.
pub proof fn lemma_extends_chain(first: Ledger, second: Ledger, third: Ledger)
    requires
        second.extends(first),
        third.extends(second),
    ensures
        third.extends(first),
{
    reveal(Ledger::extends);
}

/// The rows that an extension keeps.
pub proof fn lemma_extends_rows(old: Ledger, new: Ledger)
    requires
        new.extends(old),
    ensures
        old.txs.len() <= new.txs.len(),
        old.blocks.len() <= new.blocks.len(),
        new.txs.take(old.txs.len() as int) == old.txs,
        new.blocks.take(old.blocks.len() as int) == old.blocks,
        distinct(new.tx_hashes()),
        distinct(new.block_hashes()),
{
    reveal(Ledger::extends);
    assert(new.txs.take(old.txs.len() as int) =~= old.txs);
    assert(new.blocks.take(old.blocks.len() as int) =~= old.blocks);
}

} // verus!
