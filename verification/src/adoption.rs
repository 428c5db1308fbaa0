//! What the ledger does with a transaction that is not yet in a block:
//! the buffer of orphans and their adoption.

use vstd::prelude::*;
use crate::acceptance::lemma_raw_insert_grows;
use crate::acceptance::presentable;
use crate::ledger::Ledger;
use crate::ledger::admissible;
use crate::ledger::distinct;
use crate::ledger::hashes_of;
use crate::reasons::TXN_AMOUNT_RANGE;
use crate::reasons::TXN_COUNTS;
use crate::reasons::TXN_OVERSPENT;
use crate::reasons::TXN_RECIPIENTS;
use crate::reasons::TXN_SIGNATURE;
use crate::reasons::TXN_UNAUTHORIZED;
use crate::reasons::sqlite_code_text;
use crate::transaction::TxModel;

verus! {

/// A refused transaction: its hash and the reason.
pub struct Rejection {
    pub hash: Seq<u8>,
    pub reason: Seq<char>,
}

/// What a run of adoptions leaves: the ledger, the transactions refused on
/// the way, and whether any was adopted.
pub struct Sweep {
    pub ledger: Ledger,
    pub rejected: Seq<Rejection>,
    pub progress: bool,
}

/// The first of the checks on a tentative transaction by itself that `t`
/// fails, as the reason given for it; nothing when it passes them all.
pub open spec fn tentative_form_refusal(t: TxModel) -> Option<Seq<char>> {
    if !(1 <= t.outputs.len() <= 256 && 1 <= t.inputs.len() <= 256) {
        Some(TXN_COUNTS@)
    } else if !t.amounts_in_range() {
        Some(TXN_AMOUNT_RANGE@)
    } else if !t.recipients_distinct() {
        Some(TXN_RECIPIENTS@)
    } else if !t.signature_valid() {
        Some(TXN_SIGNATURE@)
    } else {
        None
    }
}

impl Ledger {
    /// The ledger after `t` was adopted, or the reason for which it is
    /// refused: a rule of the tables, spending without authority, or
    /// overspending. A transaction whose hash is stored already changes
    /// nothing.
    pub open spec fn adopt(self, t: TxModel) -> Result<Ledger, Seq<char>> {
        match self.raw_insert(t) {
            Err(code) => Err(sqlite_code_text(code)),
            Ok(l) => if !l.authorized(l.tx(t.hash())) {
                Err(TXN_UNAUTHORIZED@)
            } else if !l.within_credit(l.tx(t.hash())) {
                Err(TXN_OVERSPENT@)
            } else {
                Ok(l)
            },
        }
    }

    /// Whether every transaction that `t` spends from is stored.
    pub open spec fn ready(self, t: TxModel) -> bool {
        forall|k: int| 0 <= k < t.inputs.len() ==> self.has_tx((#[trigger] t.inputs[k]).tx)
    }

    /// The hashes of transactions that `t` spends from and that are not
    /// stored: what `t` waits for.
    pub open spec fn missing_dependencies(self, t: TxModel) -> Set<Seq<u8>> {
        Set::new(
            |h: Seq<u8>|
                !self.has_tx(h) && exists|k: int|
                    0 <= k < t.inputs.len() && (#[trigger] t.inputs[k]).tx == h,
        )
    }

    /// Those of `orphans` that are ready, in order.
    pub open spec fn ready_among(self, orphans: Seq<TxModel>) -> Seq<TxModel>
        decreases orphans.len(),
    {
        if orphans.len() == 0 {
            Seq::empty()
        } else if self.ready(orphans.last()) {
            self.ready_among(orphans.drop_last()).push(orphans.last())
        } else {
            self.ready_among(orphans.drop_last())
        }
    }

    /// Those of `orphans` that still wait for a transaction, in order.
    pub open spec fn waiting_among(self, orphans: Seq<TxModel>) -> Seq<TxModel>
        decreases orphans.len(),
    {
        if orphans.len() == 0 {
            Seq::empty()
        } else if self.ready(orphans.last()) {
            self.waiting_among(orphans.drop_last())
        } else {
            self.waiting_among(orphans.drop_last()).push(orphans.last())
        }
    }

    /// The ledger with `orphans` as its buffer of orphans.
    pub open spec fn with_orphans(self, orphans: Seq<TxModel>) -> Ledger {
        Ledger { orphans, ..self }
    }

    /// Adopts the transactions of `batch` one after another. One that is
    /// refused is dropped and noted.
    pub open spec fn adopt_each(self, batch: Seq<TxModel>) -> Sweep
        decreases batch.len(),
    {
        if batch.len() == 0 {
            Sweep { ledger: self, rejected: Seq::empty(), progress: false }
        } else {
            let s = self.adopt_each(batch.drop_last());
            match s.ledger.adopt(batch.last()) {
                Ok(l) => Sweep { ledger: l, rejected: s.rejected, progress: true },
                Err(reason) => Sweep {
                    ledger: s.ledger,
                    rejected: s.rejected.push(Rejection { hash: batch.last().hash(), reason }),
                    progress: s.progress,
                },
            }
        }
    }

    /// One pass over the buffer: the orphans that are ready leave it and
    /// are adopted in order.
    pub open spec fn sweep(self) -> Sweep {
        self.with_orphans(self.waiting_among(self.orphans)).adopt_each(
            self.ready_among(self.orphans),
        )
    }

    /// Passes over the buffer until no orphan is ready or a pass adopts
    /// none, and at most `passes` times. Gives the ledger and the
    /// transactions refused on the way.
    pub open spec fn collect(self, passes: nat) -> (Ledger, Seq<Rejection>)
        decreases passes,
    {
        if passes == 0 || self.ready_among(self.orphans).len() == 0 {
            (self, Seq::empty())
        } else {
            let s = self.sweep();
            if !s.progress {
                (s.ledger, s.rejected)
            } else {
                let rest = s.ledger.collect((passes - 1) as nat);
                (rest.0, s.rejected + rest.1)
            }
        }
    }

    /// The ledger with `t` added to the buffer, unless an orphan of its
    /// hash waits there already.
    pub open spec fn with_orphan(self, t: TxModel) -> Ledger {
        if self.has_orphan(t.hash()) {
            self
        } else {
            self.with_orphans(self.orphans.push(t))
        }
    }

    /// What becomes of the ledger when it receives the tentative
    /// transaction `t`, and which transactions are refused in the course
    /// of it. A transaction that fails a check on its form is refused
    /// alone and changes nothing; another joins the buffer of orphans,
    /// which is then swept until nothing more can be adopted.
    pub open spec fn receive_tentative(self, t: TxModel) -> (Ledger, Seq<Rejection>) {
        match tentative_form_refusal(t) {
            Some(reason) => (self, seq![Rejection { hash: t.hash(), reason }]),
            None => self.with_orphan(t).collect(self.with_orphan(t).orphans.len()),
        }
    }
}

/// The first of the checks on a tentative transaction by itself that
/// `tx` fails, as the reason given for it; nothing when it passes them
/// all.
pub fn check_tentative_form(tx: &crate::transaction::Transaction) -> (r: Option<&'static str>)
    ensures
        match tentative_form_refusal(tx@) {
            Some(reason) => r.is_some() && r.unwrap()@ == reason,
            None => r.is_none(),
        },
{
    let outputs = tx.output_count();
    let inputs = tx.input_count();
    if !(1 <= outputs && outputs <= 256 && 1 <= inputs && inputs <= 256) {
        return Some(TXN_COUNTS);
    }
    if !tx.amounts_in_range() {
        return Some(TXN_AMOUNT_RANGE);
    }
    if !tx.recipients_distinct() {
        return Some(TXN_RECIPIENTS);
    }
    if !tx.verify_signature() {
        return Some(TXN_SIGNATURE);
    }
    None
}

/// What the split of a buffer into ready and waiting orphans keeps: every
/// orphan goes to one side, each side holds only orphans of the buffer,
/// and no hash is twice on a side when none was twice in the buffer.
pub proof fn lemma_split(l: Ledger, orphans: Seq<TxModel>)
    ensures
        l.ready_among(orphans).len() + l.waiting_among(orphans).len() == orphans.len(),
        forall|i: int|
            0 <= i < l.ready_among(orphans).len() ==> orphans.contains(
                #[trigger] l.ready_among(orphans)[i],
            ),
        forall|i: int|
            0 <= i < l.waiting_among(orphans).len() ==> orphans.contains(
                #[trigger] l.waiting_among(orphans)[i],
            ),
        distinct(hashes_of(orphans)) ==> distinct(hashes_of(l.waiting_among(orphans))),
    decreases orphans.len(),
{
    reveal(distinct);
    if orphans.len() > 0 {
        let rest = orphans.drop_last();
        let last = orphans.last();
        lemma_split(l, rest);
        assert forall|i: int| 0 <= i < l.ready_among(orphans).len() implies orphans.contains(
            #[trigger] l.ready_among(orphans)[i],
        ) by {
            if i < l.ready_among(rest).len() {
                let x = l.ready_among(rest)[i];
                assert(rest.contains(x));
                let j = choose|j: int| 0 <= j < rest.len() && rest[j] == x;
                assert(orphans[j] == x);
            } else {
                assert(orphans[orphans.len() - 1] == last);
            }
        }
        assert forall|i: int| 0 <= i < l.waiting_among(orphans).len() implies orphans.contains(
            #[trigger] l.waiting_among(orphans)[i],
        ) by {
            if i < l.waiting_among(rest).len() {
                let x = l.waiting_among(rest)[i];
                assert(rest.contains(x));
                let j = choose|j: int| 0 <= j < rest.len() && rest[j] == x;
                assert(orphans[j] == x);
            } else {
                assert(orphans[orphans.len() - 1] == last);
            }
        }
        if distinct(hashes_of(orphans)) {
            assert(distinct(hashes_of(rest))) by {
                assert forall|i: int, j: int| 0 <= i < j < hashes_of(rest).len() implies hashes_of(
                    rest,
                )[i] != hashes_of(rest)[j] by {
                    assert(hashes_of(orphans)[i] != hashes_of(orphans)[j]);
                }
            }
            let w = l.waiting_among(orphans);
            assert forall|i: int, j: int| 0 <= i < j < hashes_of(w).len() implies hashes_of(w)[i]
                != hashes_of(w)[j] by {
                if j < l.waiting_among(rest).len() {
                    assert(hashes_of(l.waiting_among(rest))[i] != hashes_of(l.waiting_among(rest))[j]);
                } else {
                    let x = l.waiting_among(rest)[i];
                    assert(rest.contains(x));
                    let k = choose|k: int| 0 <= k < rest.len() && rest[k] == x;
                    assert(hashes_of(orphans)[k] != hashes_of(orphans)[orphans.len() - 1]);
                }
            }
        }
    }
}

/// A ledger that obeys the rules obeys them with another buffer of
/// orphans, if no hash is twice in that buffer and every orphan of it is
/// admissible.
pub proof fn lemma_with_orphans_wf(l: Ledger, orphans: Seq<TxModel>)
    requires
        l.structured(),
        distinct(hashes_of(orphans)),
        forall|i: int| 0 <= i < orphans.len() ==> admissible(#[trigger] orphans[i]),
    ensures
        l.with_orphans(orphans).structured(),
        l.sound() ==> l.with_orphans(orphans).sound(),
{
    let l2 = l.with_orphans(orphans);
    crate::ledger::lemma_structured_hashes(l);
    assert(l2.tx_hashes() == l.tx_hashes());
    assert(l2.block_hashes() == l.block_hashes());
    assert forall|i: int| 0 <= i < l2.txs.len() implies crate::ledger::storable(
        #[trigger] l2.txs[i],
    ) && l2.inputs_resolve(l2.txs[i]) by {
        crate::ledger::lemma_structured_tx(l, i);
        lemma_same_tables_tx(l, l2, l.txs[i]);
    }
    assert forall|i: int| 0 <= i < l2.blocks.len() implies #[trigger] l2.block_shaped(i) by {
        crate::ledger::lemma_structured_block(l, i);
        lemma_same_tables_block(l, l2, i);
    }
    crate::ledger::lemma_structured_from_parts(l2);
    if l.sound() {
        assert forall|i: int| 0 <= i < l2.txs.len() implies l2.authorized(#[trigger] l2.txs[i])
            && l2.within_credit(l2.txs[i]) by {
            crate::ledger::lemma_sound_tx(l, i);
            lemma_same_tables_tx(l, l2, l.txs[i]);
        }
        assert forall|i: int| 0 <= i < l2.blocks.len() implies #[trigger] l2.block_consistent(i) by {
            crate::ledger::lemma_sound_block(l, i);
            lemma_same_tables_block(l, l2, i);
        }
        crate::ledger::lemma_sound_from_parts(l2);
    }
}

/// A ledger with the blocks, transactions and orphans of one that obeys
/// the rules obeys them too: whom it trusts does not matter.
pub proof fn lemma_same_tables_wf(a: Ledger, b: Ledger)
    requires
        a.wf(),
        a.txs == b.txs,
        a.blocks == b.blocks,
        a.orphans == b.orphans,
    ensures
        b.wf(),
{
    crate::ledger::lemma_structured_hashes(a);
    assert forall|i: int| 0 <= i < a.orphans.len() implies admissible(#[trigger] a.orphans[i]) by {
        crate::ledger::lemma_structured_orphan(a, i);
    }
    lemma_with_orphans_wf(a, a.orphans);
    let c = a.with_orphans(a.orphans);
    assert(c == a);
    assert(b.tx_hashes() == a.tx_hashes());
    assert(b.block_hashes() == a.block_hashes());
    assert forall|i: int| 0 <= i < b.txs.len() implies crate::ledger::storable(#[trigger] b.txs[i])
        && b.inputs_resolve(b.txs[i]) && b.authorized(b.txs[i]) && b.within_credit(b.txs[i]) by {
        crate::ledger::lemma_structured_tx(a, i);
        crate::ledger::lemma_sound_tx(a, i);
        lemma_same_tables_tx(a, b, a.txs[i]);
    }
    assert forall|i: int| 0 <= i < b.blocks.len() implies #[trigger] b.block_shaped(i) by {
        crate::ledger::lemma_structured_block(a, i);
        lemma_same_tables_block(a, b, i);
    }
    assert forall|i: int| 0 <= i < b.blocks.len() implies #[trigger] b.block_consistent(i) by {
        crate::ledger::lemma_sound_block(a, i);
        lemma_same_tables_block(a, b, i);
    }
    crate::ledger::lemma_structured_from_parts(b);
    crate::ledger::lemma_sound_from_parts(b);
}

/// Two ledgers with the same blocks and transactions judge a transaction
/// alike.
pub proof fn lemma_same_tables_tx(a: Ledger, b: Ledger, t: TxModel)
    requires
        a.txs == b.txs,
        a.blocks == b.blocks,
    ensures
        a.inputs_resolve(t) == b.inputs_resolve(t),
        a.authorized(t) == b.authorized(t),
        a.within_credit(t) == b.within_credit(t),
{
    assert(a.tx_hashes() == b.tx_hashes());
    lemma_same_tables_credit(a, b, t.inputs);
}

/// Two ledgers with the same transactions give the same credit.
pub proof fn lemma_same_tables_credit(a: Ledger, b: Ledger, inputs: Seq<crate::transaction::InputModel>)
    requires
        a.txs == b.txs,
    ensures
        a.credited_of(inputs) == b.credited_of(inputs),
    decreases inputs.len(),
{
    assert(a.tx_hashes() == b.tx_hashes());
    if inputs.len() > 0 {
        lemma_same_tables_credit(a, b, inputs.drop_last());
    }
}

/// Two ledgers with the same blocks and transactions judge a block alike.
pub proof fn lemma_same_tables_block(a: Ledger, b: Ledger, i: int)
    requires
        a.txs == b.txs,
        a.blocks == b.blocks,
    ensures
        a.block_shaped(i) == b.block_shaped(i),
        a.lineage_from(i) == b.lineage_from(i),
        a.chain_from(i) == b.chain_from(i),
        a.block_consistent(i) == b.block_consistent(i),
    decreases i,
{
    assert(a.tx_hashes() == b.tx_hashes());
    assert(a.block_hashes() == b.block_hashes());
    if 0 <= i < a.blocks.len() {
        match a.parent_index(i) {
            Some(p) => {
                if 0 <= p < i {
                    lemma_same_tables_block(a, b, p);
                }
            },
            None => {},
        }
    }
    lemma_same_tables_spent(a, b, a.lineage_from(i));
}

/// Two ledgers with the same transactions find the same inputs in a
/// lineage.
pub proof fn lemma_same_tables_spent(a: Ledger, b: Ledger, lineage: Seq<Seq<u8>>)
    requires
        a.txs == b.txs,
    ensures
        a.spent_by(lineage) == b.spent_by(lineage),
        a.consistent_lineage(lineage) == b.consistent_lineage(lineage),
    decreases lineage.len(),
{
    assert(a.tx_hashes() == b.tx_hashes());
    if lineage.len() > 0 {
        lemma_same_tables_spent(a, b, lineage.drop_last());
    }
    let spent = a.spent_by(lineage);
    assert forall|j: int| 0 <= j < spent.len() implies a.input_sound(lineage, spent, j)
        == b.input_sound(lineage, spent, j) by {
        assert(a.tx(spent[j].tx) == b.tx(spent[j].tx));
    }
}

/// What holds of a ledger after it adopted a transaction.
pub proof fn lemma_adopt_wf(l: Ledger, t: TxModel)
    requires
        l.wf(),
        presentable(t),
        l.adopt(t).is_ok(),
    ensures
        ({
            let l2 = l.adopt(t)->Ok_0;
            &&& l2.wf()
            &&& l2.extends(l)
            &&& l2.blocks == l.blocks
            &&& l2.orphans == l.orphans
            &&& l2.trusted == l.trusted
            &&& l2.has_tx(t.hash())
            &&& (l2 == l || l2 == l.with_tx(t))
        }),
{
    lemma_raw_insert_grows(l, t);
    crate::ledger::lemma_structured_hashes(l);
    let l2 = l.raw_insert(t).unwrap();
    crate::frame::lemma_extension_keeps_soundness(l, l2);
    crate::frame::lemma_extends_rows(l, l2);
    crate::ledger::lemma_structured_hashes(l2);
    assert forall|i: int| 0 <= i < l2.txs.len() implies l2.authorized(#[trigger] l2.txs[i])
        && l2.within_credit(l2.txs[i]) by {
        if i >= l.txs.len() {
            assert(l2 == l.with_tx(t));
            assert(l2.txs[i] == t);
            crate::frame::lemma_with_tx(l, t);
        }
    }
    assert forall|i: int| 0 <= i < l2.blocks.len() implies #[trigger] l2.block_consistent(i) by {}
    crate::ledger::lemma_sound_from_parts(l2);
}

/// An orphan is ready exactly when it waits for no transaction.
pub proof fn law_ready_waits_for_nothing(l: Ledger, t: TxModel)
    ensures
        l.ready(t) <==> l.missing_dependencies(t) =~= Set::empty(),
{
    if l.ready(t) {
        assert forall|h: Seq<u8>| !l.missing_dependencies(t).contains(h) by {
            if l.missing_dependencies(t).contains(h) {
                let k = choose|k: int| 0 <= k < t.inputs.len() && (#[trigger] t.inputs[k]).tx == h;
                assert(l.has_tx(t.inputs[k].tx));
            }
        }
    }
    if l.missing_dependencies(t) =~= Set::empty() {
        assert forall|k: int| 0 <= k < t.inputs.len() implies l.has_tx((#[trigger] t.inputs[k]).tx) by {
            if !l.has_tx(t.inputs[k].tx) {
                assert(l.missing_dependencies(t).contains(t.inputs[k].tx));
            }
        }
    }
}

/// The hashes of the transactions that a report of refusals names.
pub open spec fn rejected_hashes(r: Seq<Rejection>) -> Seq<Seq<u8>> {
    Seq::new(r.len(), |i: int| r[i].hash)
}

/// Where no hash is twice in a buffer, none is twice among its ready
/// orphans, and no ready orphan has the hash of a waiting one. Every hash
/// on either side is a hash of the buffer.
pub proof fn lemma_split_apart(l: Ledger, orphans: Seq<TxModel>)
    requires
        distinct(hashes_of(orphans)),
    ensures
        distinct(hashes_of(l.ready_among(orphans))),
        forall|i: int, j: int|
            0 <= i < l.ready_among(orphans).len() && 0 <= j < l.waiting_among(orphans).len()
                ==> hashes_of(l.ready_among(orphans))[i] != hashes_of(l.waiting_among(orphans))[j],
        forall|i: int|
            0 <= i < l.ready_among(orphans).len() ==> hashes_of(orphans).contains(
                #[trigger] hashes_of(l.ready_among(orphans))[i],
            ),
        forall|j: int|
            0 <= j < l.waiting_among(orphans).len() ==> hashes_of(orphans).contains(
                #[trigger] hashes_of(l.waiting_among(orphans))[j],
            ),
    decreases orphans.len(),
{
    reveal(distinct);
    if orphans.len() > 0 {
        let rest = orphans.drop_last();
        let last = orphans.last();
        let n = rest.len() as int;
        assert(distinct(hashes_of(rest))) by {
            assert forall|i: int, j: int| 0 <= i < j < hashes_of(rest).len() implies hashes_of(rest)[i]
                != hashes_of(rest)[j] by {
                assert(hashes_of(orphans)[i] != hashes_of(orphans)[j]);
            }
        }
        lemma_split_apart(l, rest);
        let ready = l.ready_among(orphans);
        let waiting = l.waiting_among(orphans);
        let ready0 = l.ready_among(rest);
        let waiting0 = l.waiting_among(rest);
        assert forall|h: Seq<u8>| hashes_of(rest).contains(h) implies h != last.hash()
            && hashes_of(orphans).contains(h) by {
            let k = choose|k: int| 0 <= k < hashes_of(rest).len() && hashes_of(rest)[k] == h;
            assert(hashes_of(orphans)[k] == h);
            assert(hashes_of(orphans)[k] != hashes_of(orphans)[n]);
        }
        assert(hashes_of(orphans)[n] == last.hash());
        assert forall|i: int| 0 <= i < ready.len() implies hashes_of(orphans).contains(
            #[trigger] hashes_of(ready)[i],
        ) by {
            if i < ready0.len() {
                assert(hashes_of(ready)[i] == hashes_of(ready0)[i]);
                assert(hashes_of(rest).contains(hashes_of(ready0)[i]));
            }
        }
        assert forall|j: int| 0 <= j < waiting.len() implies hashes_of(orphans).contains(
            #[trigger] hashes_of(waiting)[j],
        ) by {
            if j < waiting0.len() {
                assert(hashes_of(waiting)[j] == hashes_of(waiting0)[j]);
                assert(hashes_of(rest).contains(hashes_of(waiting0)[j]));
            }
        }
        assert forall|i: int, j: int| 0 <= i < j < hashes_of(ready).len() implies hashes_of(ready)[i]
            != hashes_of(ready)[j] by {
            assert(hashes_of(ready)[i] == hashes_of(ready0)[i]);
            assert(hashes_of(rest).contains(hashes_of(ready0)[i]));
            if j < ready0.len() {
                assert(hashes_of(ready)[j] == hashes_of(ready0)[j]);
            }
        }
        assert forall|i: int, j: int| 0 <= i < ready.len() && 0 <= j < waiting.len() implies hashes_of(
            ready,
        )[i] != hashes_of(waiting)[j] by {
            if i < ready0.len() {
                assert(hashes_of(ready)[i] == hashes_of(ready0)[i]);
                assert(hashes_of(rest).contains(hashes_of(ready0)[i]));
            }
            if j < waiting0.len() {
                assert(hashes_of(waiting)[j] == hashes_of(waiting0)[j]);
                assert(hashes_of(rest).contains(hashes_of(waiting0)[j]));
            }
        }
    }
}

/// A run of adoptions refuses no hash twice where none is twice in the
/// batch, and refuses only hashes of the batch.
pub proof fn lemma_adopt_each_rejections(l: Ledger, batch: Seq<TxModel>)
    requires
        distinct(hashes_of(batch)),
    ensures
        distinct(rejected_hashes(l.adopt_each(batch).rejected)),
        forall|i: int|
            0 <= i < l.adopt_each(batch).rejected.len() ==> hashes_of(batch).contains(
                #[trigger] rejected_hashes(l.adopt_each(batch).rejected)[i],
            ),
    decreases batch.len(),
{
    reveal(distinct);
    if batch.len() > 0 {
        let rest = batch.drop_last();
        let n = rest.len() as int;
        assert(distinct(hashes_of(rest))) by {
            assert forall|i: int, j: int| 0 <= i < j < hashes_of(rest).len() implies hashes_of(rest)[i]
                != hashes_of(rest)[j] by {
                assert(hashes_of(batch)[i] != hashes_of(batch)[j]);
            }
        }
        lemma_adopt_each_rejections(l, rest);
        let before = rejected_hashes(l.adopt_each(rest).rejected);
        let after = rejected_hashes(l.adopt_each(batch).rejected);
        assert(hashes_of(batch)[n] == batch.last().hash());
        assert forall|i: int| 0 <= i < before.len() implies hashes_of(batch).contains(before[i])
            && before[i] != batch.last().hash() by {
            assert(hashes_of(rest).contains(before[i]));
            let k = choose|k: int| 0 <= k < hashes_of(rest).len() && hashes_of(rest)[k] == before[i];
            assert(hashes_of(batch)[k] == before[i]);
            assert(hashes_of(batch)[k] != hashes_of(batch)[n]);
        }
        assert forall|i: int| 0 <= i < after.len() implies hashes_of(batch).contains(
            #[trigger] after[i],
        ) by {
            if i < before.len() {
                assert(after[i] == before[i]);
            }
        }
        assert forall|i: int, j: int| 0 <= i < j < after.len() implies after[i] != after[j] by {
            assert(after[i] == before[i]);
            if j < before.len() {
                assert(after[j] == before[j]);
            }
        }
    }
}

/// A sweep of the buffer refuses no hash twice, and refuses only hashes
/// of orphans of the buffer.
pub proof fn lemma_collect_rejections(l: Ledger, passes: nat)
    requires
        l.wf(),
    ensures
        distinct(rejected_hashes(l.collect(passes).1)),
        forall|i: int|
            0 <= i < l.collect(passes).1.len() ==> hashes_of(l.orphans).contains(
                #[trigger] rejected_hashes(l.collect(passes).1)[i],
            ),
    decreases passes,
{
    crate::ledger::lemma_structured_hashes(l);
    if passes == 0 || l.ready_among(l.orphans).len() == 0 {
        reveal(distinct);
    } else {
        lemma_split(l, l.orphans);
        lemma_split_apart(l, l.orphans);
        let waiting = l.waiting_among(l.orphans);
        let ready = l.ready_among(l.orphans);
        assert forall|i: int| 0 <= i < waiting.len() implies admissible(#[trigger] waiting[i]) by {
            let j = choose|j: int| 0 <= j < l.orphans.len() && l.orphans[j] == waiting[i];
            crate::ledger::lemma_structured_orphan(l, j);
        }
        assert forall|i: int| 0 <= i < ready.len() implies presentable(#[trigger] ready[i]) by {
            let j = choose|j: int| 0 <= j < l.orphans.len() && l.orphans[j] == ready[i];
            crate::ledger::lemma_structured_orphan(l, j);
        }
        lemma_with_orphans_wf(l, waiting);
        let start = l.with_orphans(waiting);
        lemma_adopt_each_grows(start, ready);
        lemma_adopt_each_rejections(start, ready);
        let s = l.sweep();
        let first = rejected_hashes(s.rejected);
        if s.progress {
            lemma_collect_rejections(s.ledger, (passes - 1) as nat);
            let later = rejected_hashes(s.ledger.collect((passes - 1) as nat).1);
            let all = rejected_hashes(l.collect(passes).1);
            assert(all =~= first + later);
            assert forall|i: int| 0 <= i < all.len() implies hashes_of(l.orphans).contains(
                #[trigger] all[i],
            ) by {
                if i < first.len() {
                    assert(hashes_of(ready).contains(first[i]));
                    let k = choose|k: int| 0 <= k < hashes_of(ready).len() && hashes_of(ready)[k] == first[i];
                } else {
                    assert(hashes_of(waiting).contains(later[i - first.len()]));
                    let k = choose|k: int|
                        0 <= k < hashes_of(waiting).len() && hashes_of(waiting)[k] == later[i
                            - first.len()];
                }
            }
            assert(distinct(all)) by {
                reveal(distinct);
                assert forall|i: int, j: int| 0 <= i < j < all.len() implies all[i] != all[j] by {
                    if j < first.len() {
                    } else if i >= first.len() {
                        assert(later[i - first.len()] != later[j - first.len()]);
                    } else {
                        assert(hashes_of(ready).contains(first[i]));
                        assert(hashes_of(waiting).contains(later[j - first.len()]));
                        let a = choose|a: int|
                            0 <= a < hashes_of(ready).len() && hashes_of(ready)[a] == first[i];
                        let b = choose|b: int|
                            0 <= b < hashes_of(waiting).len() && hashes_of(waiting)[b] == later[j
                                - first.len()];
                    }
                }
            }
        } else {
            assert forall|i: int| 0 <= i < first.len() implies hashes_of(l.orphans).contains(
                #[trigger] first[i],
            ) by {
                assert(hashes_of(ready).contains(first[i]));
                let k = choose|k: int| 0 <= k < hashes_of(ready).len() && hashes_of(ready)[k] == first[i];
            }
        }
    }
}

/// The report of what was refused when a tentative transaction was
/// received names no hash twice.
pub proof fn law_rejections_distinct(l: Ledger, t: TxModel)
    requires
        l.wf(),
    ensures
        distinct(rejected_hashes(l.receive_tentative(t).1)),
{
    if tentative_form_refusal(t).is_none() {
        if !l.has_orphan(t.hash()) {
            lemma_with_new_orphan(l, t);
        }
        let start = l.with_orphan(t);
        lemma_collect_rejections(start, start.orphans.len());
    } else {
        reveal(distinct);
    }
}

/// A run of adoptions that adopts nothing leaves the ledger as it was.
pub proof fn lemma_no_progress(l: Ledger, batch: Seq<TxModel>)
    ensures
        !l.adopt_each(batch).progress ==> l.adopt_each(batch).ledger == l,
    decreases batch.len(),
{
    if batch.len() > 0 {
        lemma_no_progress(l, batch.drop_last());
    }
}

/// Two ledgers with the same transactions find the same orphans ready.
pub proof fn lemma_same_txs_ready(a: Ledger, b: Ledger, orphans: Seq<TxModel>)
    requires
        a.txs == b.txs,
    ensures
        a.ready_among(orphans) == b.ready_among(orphans),
        a.waiting_among(orphans) == b.waiting_among(orphans),
    decreases orphans.len(),
{
    assert(a.tx_hashes() == b.tx_hashes());
    if orphans.len() > 0 {
        lemma_same_txs_ready(a, b, orphans.drop_last());
        assert(a.ready(orphans.last()) == b.ready(orphans.last()));
    }
}

/// None of the orphans that still wait is ready.
pub proof fn lemma_waiting_not_ready(l: Ledger, orphans: Seq<TxModel>)
    ensures
        l.ready_among(l.waiting_among(orphans)).len() == 0,
    decreases orphans.len(),
{
    if orphans.len() > 0 {
        lemma_waiting_not_ready(l, orphans.drop_last());
        if !l.ready(orphans.last()) {
            let w = l.waiting_among(orphans);
            assert(w.drop_last() =~= l.waiting_among(orphans.drop_last()));
            assert(w.last() == orphans.last());
        }
    }
}

/// Where no orphan is ready, all of them wait.
pub proof fn lemma_none_ready_all_wait(l: Ledger, orphans: Seq<TxModel>)
    requires
        l.ready_among(orphans).len() == 0,
    ensures
        l.waiting_among(orphans) == orphans,
    decreases orphans.len(),
{
    if orphans.len() > 0 {
        lemma_none_ready_all_wait(l, orphans.drop_last());
        assert(l.waiting_among(orphans) =~= orphans);
    } else {
        assert(l.waiting_among(orphans) =~= orphans);
    }
}

/// After the buffer was swept, no orphan that is left in it is ready.
pub proof fn lemma_collect_settled(l: Ledger, passes: nat)
    requires
        l.wf(),
        passes >= l.orphans.len(),
    ensures
        l.collect(passes).0.ready_among(l.collect(passes).0.orphans).len() == 0,
    decreases passes,
{
    if l.ready_among(l.orphans).len() == 0 {
    } else if passes == 0 {
    } else {
        lemma_split(l, l.orphans);
        crate::ledger::lemma_structured_hashes(l);
        let waiting = l.waiting_among(l.orphans);
        let ready = l.ready_among(l.orphans);
        assert forall|i: int| 0 <= i < waiting.len() implies admissible(#[trigger] waiting[i]) by {
            let j = choose|j: int| 0 <= j < l.orphans.len() && l.orphans[j] == waiting[i];
            crate::ledger::lemma_structured_orphan(l, j);
        }
        assert forall|i: int| 0 <= i < ready.len() implies presentable(#[trigger] ready[i]) by {
            let j = choose|j: int| 0 <= j < l.orphans.len() && l.orphans[j] == ready[i];
            crate::ledger::lemma_structured_orphan(l, j);
        }
        lemma_with_orphans_wf(l, waiting);
        let start = l.with_orphans(waiting);
        lemma_adopt_each_grows(start, ready);
        let s = l.sweep();
        if s.progress {
            lemma_collect_settled(s.ledger, (passes - 1) as nat);
        } else {
            lemma_no_progress(start, ready);
            lemma_waiting_not_ready(l, l.orphans);
            lemma_same_txs_ready(l, start, waiting);
        }
    }
}

/// What holds of a ledger after a run of adoptions: it obeys the rules,
/// keeps the rows that it had, and has the blocks, the orphans and the
/// trusted wallets that it had.
pub proof fn lemma_adopt_each_grows(l: Ledger, batch: Seq<TxModel>)
    requires
        l.wf(),
        forall|k: int| 0 <= k < batch.len() ==> presentable(#[trigger] batch[k]),
    ensures
        ({
            let s = l.adopt_each(batch);
            &&& s.ledger.wf()
            &&& s.ledger.extends(l)
            &&& s.ledger.blocks == l.blocks
            &&& s.ledger.orphans == l.orphans
            &&& s.ledger.trusted == l.trusted
        }),
    decreases batch.len(),
{
    crate::ledger::lemma_structured_hashes(l);
    if batch.len() == 0 {
        crate::frame::lemma_extends_self(l);
    } else {
        let rest = batch.drop_last();
        assert forall|k: int| 0 <= k < rest.len() implies presentable(#[trigger] rest[k]) by {
            assert(rest[k] == batch[k]);
        }
        lemma_adopt_each_grows(l, rest);
        let s = l.adopt_each(rest);
        assert(presentable(batch[batch.len() - 1]));
        if s.ledger.adopt(batch.last()).is_ok() {
            lemma_adopt_wf(s.ledger, batch.last());
            crate::frame::lemma_extends_chain(l, s.ledger, s.ledger.adopt(batch.last())->Ok_0);
        }
    }
}

/// What holds of a ledger after its buffer of orphans was swept: it obeys
/// the rules, keeps the rows that it had, and has the blocks and the
/// trusted wallets that it had.
pub proof fn lemma_collect_grows(l: Ledger, passes: nat)
    requires
        l.wf(),
    ensures
        ({
            let after = l.collect(passes).0;
            &&& after.wf()
            &&& after.extends(l)
            &&& after.blocks == l.blocks
            &&& after.trusted == l.trusted
        }),
    decreases passes,
{
    crate::ledger::lemma_structured_hashes(l);
    crate::frame::lemma_extends_self(l);
    if passes == 0 || l.ready_among(l.orphans).len() == 0 {
    } else {
        lemma_split(l, l.orphans);
        let waiting = l.waiting_among(l.orphans);
        let ready = l.ready_among(l.orphans);
        assert forall|i: int| 0 <= i < waiting.len() implies admissible(#[trigger] waiting[i]) by {
            let j = choose|j: int| 0 <= j < l.orphans.len() && l.orphans[j] == waiting[i];
            crate::ledger::lemma_structured_orphan(l, j);
        }
        assert forall|i: int| 0 <= i < ready.len() implies presentable(#[trigger] ready[i]) by {
            let j = choose|j: int| 0 <= j < l.orphans.len() && l.orphans[j] == ready[i];
            crate::ledger::lemma_structured_orphan(l, j);
        }
        lemma_with_orphans_wf(l, waiting);
        let start = l.with_orphans(waiting);
        assert(start.extends(l)) by {
            reveal(Ledger::extends);
            assert(start.tx_hashes() == l.tx_hashes());
            assert(start.block_hashes() == l.block_hashes());
        }
        lemma_adopt_each_grows(start, ready);
        let s = l.sweep();
        crate::frame::lemma_extends_chain(l, start, s.ledger);
        if s.progress {
            lemma_collect_grows(s.ledger, (passes - 1) as nat);
            crate::frame::lemma_extends_chain(l, s.ledger, s.ledger.collect((passes - 1) as nat).0);
        }
    }
}

/// What holds of a ledger after it received a tentative transaction: it
/// obeys the rules, keeps the rows that it had, and has the blocks and the
/// trusted wallets that it had.
pub proof fn lemma_receive_tentative_grows(l: Ledger, t: TxModel)
    requires
        l.wf(),
    ensures
        ({
            let after = l.receive_tentative(t).0;
            &&& after.wf()
            &&& after.extends(l)
            &&& after.blocks == l.blocks
            &&& after.trusted == l.trusted
        }),
{
    crate::ledger::lemma_structured_hashes(l);
    crate::frame::lemma_extends_self(l);
    if tentative_form_refusal(t).is_none() {
        let start = l.with_orphan(t);
        if !l.has_orphan(t.hash()) {
            lemma_with_new_orphan(l, t);
        }
        assert(start.extends(l)) by {
            reveal(Ledger::extends);
            assert(start.tx_hashes() == l.tx_hashes());
            assert(start.block_hashes() == l.block_hashes());
        }
        lemma_collect_grows(start, start.orphans.len());
        crate::frame::lemma_extends_chain(l, start, start.collect(start.orphans.len()).0);
    }
}

/// Adopting a transaction leaves the buffer of orphans alone.
pub proof fn lemma_adopt_wf_orphans(l: Ledger, t: TxModel)
    requires
        l.wf(),
        presentable(t),
    ensures
        l.adopt(t).is_ok() ==> (l.adopt(t)->Ok_0).orphans == l.orphans,
{
    if l.adopt(t).is_ok() {
        lemma_adopt_wf(l, t);
    }
}

/// A ledger that obeys the rules obeys them with one more orphan that
/// passed the checks on its form and whose hash was not in the buffer.
pub proof fn lemma_with_new_orphan(l: Ledger, t: TxModel)
    requires
        l.wf(),
        tentative_form_refusal(t).is_none(),
        !l.has_orphan(t.hash()),
    ensures
        l.with_orphan(t).wf(),
{
    let orphans = l.orphans.push(t);
    crate::ledger::lemma_structured_hashes(l);
    assert(distinct(hashes_of(orphans))) by {
        reveal(distinct);
        assert forall|i: int, j: int| 0 <= i < j < hashes_of(orphans).len() implies hashes_of(
            orphans,
        )[i] != hashes_of(orphans)[j] by {
            assert(hashes_of(orphans)[i] == hashes_of(l.orphans)[i]);
            if j < l.orphans.len() {
                assert(hashes_of(orphans)[j] == hashes_of(l.orphans)[j]);
            } else {
                if hashes_of(l.orphans)[i] == t.hash() {
                    assert(hashes_of(l.orphans).contains(t.hash()));
                }
            }
        }
    }
    assert forall|i: int| 0 <= i < orphans.len() implies admissible(#[trigger] orphans[i]) by {
        if i < l.orphans.len() {
            crate::ledger::lemma_structured_orphan(l, i);
        }
    }
    lemma_with_orphans_wf(l, orphans);
}

} // verus!
