//! The choice of tentative transactions for the next block.

use vstd::prelude::*;
use crate::block::Block;
use crate::block::optional_hash_view;
use crate::crypto::sha256_digest;
use crate::ledger::Ledger;
use crate::ledger::hashes_of;
use crate::ledger::is_reward;
use crate::ledger::lemma_structured_block;
use crate::ledger::lemma_structured_hashes;
use crate::storage::BlockchainStorage;
use crate::storage::hash_seq;
use crate::transaction::Transaction;
use crate::transaction::TxModel;
use crate::transaction::txs_view;
use crate::wallet::Wallet;

verus! {

/// How many tentative transactions a block takes when no limit is given.
pub const DEFAULT_MINEABLE_LIMIT: u16 = 100;

/// The limit that a request names, or the default.
pub open spec fn limit_or_default(limit: Option<u16>) -> u16 {
    match limit {
        Some(n) => n,
        None => DEFAULT_MINEABLE_LIMIT,
    }
}

/// Those of `txs` whose hash is not in `accepted`, in order.
pub open spec fn unaccepted(txs: Seq<TxModel>, accepted: Seq<Seq<u8>>) -> Seq<TxModel>
    decreases txs.len(),
{
    if txs.len() == 0 {
        Seq::empty()
    } else if accepted.contains(txs.last().hash()) {
        unaccepted(txs.drop_last(), accepted)
    } else {
        unaccepted(txs.drop_last(), accepted).push(txs.last())
    }
}

/// The first `n` of `txs`, or all of them when there are fewer.
pub open spec fn first_some(txs: Seq<TxModel>, n: int) -> Seq<TxModel> {
    if n <= 0 {
        Seq::empty()
    } else if n < txs.len() {
        txs.take(n)
    } else {
        txs
    }
}

impl Ledger {
    /// The place of the tip as an optional place below a new block.
    pub open spec fn below_tip(self) -> Option<int> {
        self.tip()
    }

    /// Whether a block on top of `below` may hold the transactions of the
    /// hashes `txs` without a violation.
    pub open spec fn fits(self, txs: Seq<Seq<u8>>, below: Option<int>) -> bool {
        self.consistent_lineage(self.candidate_lineage(txs, below))
    }

    /// Offers the transactions of `batch` one after another to a block
    /// that holds `accepted` already: each is taken if the block still
    /// fits with it.
    pub open spec fn try_each(self, accepted: Seq<Seq<u8>>, batch: Seq<TxModel>, below: Option<int>) -> Seq<
        Seq<u8>,
    >
        decreases batch.len(),
    {
        if batch.len() == 0 {
            accepted
        } else {
            let so_far = self.try_each(accepted, batch.drop_last(), below);
            if self.fits(so_far.push(batch.last().hash()), below) {
                so_far.push(batch.last().hash())
            } else {
                so_far
            }
        }
    }

    /// The tentative transactions that one pass offers to a block that
    /// holds `accepted`: the oldest that are not in it, as many as the
    /// block has room for.
    pub open spec fn offered(self, accepted: Seq<Seq<u8>>, limit: u16) -> Seq<TxModel> {
        first_some(unaccepted(self.tentative(), accepted), limit - accepted.len())
    }

    /// Fills a block on top of `below` that holds `accepted`: pass after
    /// pass offers it the oldest tentative transactions that it does not
    /// hold, until it is full, nothing is left to offer, or a pass adds
    /// nothing. At most `passes` passes are made.
    pub open spec fn fill(self, accepted: Seq<Seq<u8>>, limit: u16, below: Option<int>, passes: nat) -> Seq<
        Seq<u8>,
    >
        decreases passes,
    {
        if passes == 0 || accepted.len() >= limit || self.offered(accepted, limit).len() == 0 {
            accepted
        } else {
            let grown = self.try_each(accepted, self.offered(accepted, limit), below);
            if grown.len() == accepted.len() {
                accepted
            } else {
                self.fill(grown, limit, below, (passes - 1) as nat)
            }
        }
    }

    /// The hashes of the tentative transactions that the next block can
    /// take, at most `limit` of them.
    pub open spec fn mineable(self, limit: u16) -> Seq<Seq<u8>> {
        self.fill(Seq::empty(), limit, self.below_tip(), limit as nat)
    }

    /// The stored transactions of the hashes `hashes`.
    pub open spec fn txs_of(self, hashes: Seq<Seq<u8>>) -> Seq<TxModel> {
        Seq::new(hashes.len(), |k: int| self.tx(hashes[k]))
    }
}

/// An offer adds hashes to a block and takes none away, and every hash
/// that it adds is the hash of a transaction of the batch.
pub proof fn lemma_try_each_grows(l: Ledger, accepted: Seq<Seq<u8>>, batch: Seq<TxModel>, below: Option<int>)
    ensures
        accepted.len() <= l.try_each(accepted, batch, below).len() <= accepted.len() + batch.len(),
        l.try_each(accepted, batch, below).take(accepted.len() as int) == accepted,
        forall|k: int|
            accepted.len() <= k < l.try_each(accepted, batch, below).len() ==> hashes_of(
                batch,
            ).contains(#[trigger] l.try_each(accepted, batch, below)[k]),
    decreases batch.len(),
{
    if batch.len() == 0 {
        assert(accepted.take(accepted.len() as int) =~= accepted);
    } else {
        let rest = batch.drop_last();
        lemma_try_each_grows(l, accepted, rest, below);
        let so_far = l.try_each(accepted, rest, below);
        let out = l.try_each(accepted, batch, below);
        assert(out.take(accepted.len() as int) =~= so_far.take(accepted.len() as int));
        assert forall|k: int| accepted.len() <= k < out.len() implies hashes_of(batch).contains(
            #[trigger] out[k],
        ) by {
            if k < so_far.len() {
                assert(out[k] == so_far[k]);
                let w = choose|w: int| 0 <= w < hashes_of(rest).len() && hashes_of(rest)[w] == so_far[k];
                assert(hashes_of(batch)[w] == out[k]);
            } else {
                assert(hashes_of(batch)[batch.len() - 1] == out[k]);
            }
        }
    }
}

/// Every tentative transaction among `txs` is one of `txs`.
pub proof fn lemma_tentative_among(l: Ledger, txs: Seq<TxModel>)
    ensures
        forall|i: int|
            0 <= i < l.tentative_among(txs).len() ==> txs.contains(#[trigger] l.tentative_among(txs)[i]),
    decreases txs.len(),
{
    if txs.len() > 0 {
        let rest = txs.drop_last();
        lemma_tentative_among(l, rest);
        let out = l.tentative_among(txs);
        assert forall|i: int| 0 <= i < out.len() implies txs.contains(#[trigger] out[i]) by {
            if i < l.tentative_among(rest).len() {
                let x = l.tentative_among(rest)[i];
                assert(rest.contains(x));
                let j = choose|j: int| 0 <= j < rest.len() && rest[j] == x;
                assert(txs[j] == x);
            } else {
                assert(txs[txs.len() - 1] == out[i]);
            }
        }
    }
}

/// Every transaction that is left after the accepted ones were taken out
/// was among those that were there.
pub proof fn lemma_unaccepted_among(txs: Seq<TxModel>, accepted: Seq<Seq<u8>>)
    ensures
        unaccepted(txs, accepted).len() <= txs.len(),
        forall|i: int|
            0 <= i < unaccepted(txs, accepted).len() ==> txs.contains(
                #[trigger] unaccepted(txs, accepted)[i],
            ),
    decreases txs.len(),
{
    if txs.len() > 0 {
        let rest = txs.drop_last();
        lemma_unaccepted_among(rest, accepted);
        let out = unaccepted(txs, accepted);
        assert forall|i: int| 0 <= i < out.len() implies txs.contains(#[trigger] out[i]) by {
            if i < unaccepted(rest, accepted).len() {
                let x = unaccepted(rest, accepted)[i];
                assert(rest.contains(x));
                let j = choose|j: int| 0 <= j < rest.len() && rest[j] == x;
                assert(txs[j] == x);
            } else {
                assert(txs[txs.len() - 1] == out[i]);
            }
        }
    }
}

impl BlockchainStorage {
    /// Those of `txs` whose hash is not in `accepted`, and no more than
    /// `room` of them.
    #[verifier::loop_isolation(false)]
    fn offer(txs: &Vec<Transaction>, accepted: &Vec<crate::hash::Hash>, room: usize) -> (v: Vec<
        Transaction,
    >)
        ensures
            txs_view(v@) == first_some(unaccepted(txs_view(txs@), hash_seq(accepted@)), room as int),
    {
        let ghost all = txs_view(txs@);
        let ghost acc = hash_seq(accepted@);
        let mut left: Vec<Transaction> = Vec::new();
        let n = txs.len();
        let mut i: usize = 0;
        assert(txs_view(left@) =~= unaccepted(all.take(0), acc));
        while i < n
            invariant
                0 <= i <= n,
                txs_view(left@) == unaccepted(all.take(i as int), acc),
            decreases n - i,
        {
            let t = &txs[i];
            proof {
                assert(all.take(i + 1).drop_last() =~= all.take(i as int));
                assert(all.take(i + 1).last() == t@);
            }
            if !crate::storage::contains_hash(accepted, t.transaction_hash()) {
                let ghost before = txs_view(left@);
                left.push(t.duplicate());
                assert(txs_view(left@) =~= before.push(t@));
            }
            i = i + 1;
        }
        assert(all.take(n as int) =~= all);
        if room < left.len() {
            let ghost whole = txs_view(left@);
            left.truncate(room);
            assert(txs_view(left@) =~= whole.take(room as int));
        }
        if room == 0 {
            assert(txs_view(left@) =~= Seq::<TxModel>::empty());
        }
        left
    }

    /// Whether a block on top of `below` may hold the transactions of the
    /// hashes `txs` without a violation.
    fn fits(&self, txs: &Vec<crate::hash::Hash>, below: Option<usize>) -> (ok: bool)
        requires
            self.wf(),
            below.is_some() ==> below.unwrap() < self@.blocks.len(),
            forall|k: int| 0 <= k < txs@.len() ==> self@.has_tx(#[trigger] hash_seq(txs@)[k]),
        ensures
            ok == self@.fits(
                hash_seq(txs@),
                match below {
                    Some(b) => Some(b as int),
                    None => None,
                },
            ),
    {
        let mut head: Vec<crate::hash::Hash> = Vec::new();
        let n = txs.len();
        let mut i: usize = 0;
        while i < n
            invariant
                n == txs@.len(),
                0 <= i <= n,
                head@ == txs@.take(i as int),
            decreases n - i,
        {
            head.push(txs[i]);
            assert(head@ =~= txs@.take(i + 1));
            i = i + 1;
        }
        assert(txs@.take(n as int) =~= txs@);
        proof {
            lemma_structured_hashes(self@);
            assert forall|i: int| 0 <= i < self@.blocks.len() implies match (
            #[trigger] self@.blocks[i]).parent {
                Some(p) => self@.has_block(p) && self@.block_index(p) < i,
                None => true,
            } by {
                lemma_structured_block(self@, i);
            }
        }
        let lineage = self.lineage_with(head, below);
        proof {
            let own = hash_seq(txs@);
            let all = hash_seq(lineage@);
            match below {
                Some(b) => {
                    crate::frame::lemma_lineage_stored(self@, b as int);
                    let rest = self@.lineage_from(b as int);
                    assert forall|a: int| 0 <= a < all.len() implies self@.has_tx(#[trigger] all[a]) by {
                        if a < own.len() {
                            assert(all[a] == own[a]);
                        } else {
                            assert(all[a] == rest[a - own.len()]);
                        }
                    }
                },
                None => {},
            }
        }
        self.lineage_consistent(&lineage)
    }

    /// Offers the transactions of `batch` to the block that holds
    /// `accepted` and is filled with `chosen`.
    #[verifier::loop_isolation(false)]
    fn try_each(
        &self,
        accepted: &mut Vec<crate::hash::Hash>,
        chosen: &mut Vec<Transaction>,
        batch: &Vec<Transaction>,
        below: Option<usize>,
    )
        requires
            self.wf(),
            below.is_some() ==> below.unwrap() < self@.blocks.len(),
            forall|k: int| 0 <= k < old(accepted)@.len() ==> self@.has_tx(
                #[trigger] hash_seq(old(accepted)@)[k],
            ),
            forall|k: int| 0 <= k < batch@.len() ==> self@.has_tx(#[trigger] txs_view(batch@)[k].hash()),
            forall|k: int|
                0 <= k < batch@.len() ==> self@.tx(txs_view(batch@)[k].hash()) == #[trigger] txs_view(
                    batch@,
                )[k],
            txs_view(old(chosen)@) == self@.txs_of(hash_seq(old(accepted)@)),
        ensures
            hash_seq(final(accepted)@) == self@.try_each(
                hash_seq(old(accepted)@),
                txs_view(batch@),
                match below {
                    Some(b) => Some(b as int),
                    None => None,
                },
            ),
            forall|k: int| 0 <= k < final(accepted)@.len() ==> self@.has_tx(
                #[trigger] hash_seq(final(accepted)@)[k],
            ),
            txs_view(final(chosen)@) == self@.txs_of(hash_seq(final(accepted)@)),
    {
        let ghost start = hash_seq(accepted@);
        let ghost all = txs_view(batch@);
        let ghost under = match below {
            Some(b) => Some(b as int),
            None => None,
        };
        let n = batch.len();
        let mut i: usize = 0;
        while i < n
            invariant
                0 <= i <= n,
                hash_seq(accepted@) == self@.try_each(start, all.take(i as int), under),
                forall|k: int| 0 <= k < accepted@.len() ==> self@.has_tx(
                    #[trigger] hash_seq(accepted@)[k],
                ),
                txs_view(chosen@) == self@.txs_of(hash_seq(accepted@)),
            decreases n - i,
        {
            let t = &batch[i];
            proof {
                assert(all.take(i + 1).drop_last() =~= all.take(i as int));
                assert(all.take(i + 1).last() == t@);
                assert(all[i as int] == t@);
            }
            let ghost before = hash_seq(accepted@);
            let ghost chosen_before = txs_view(chosen@);
            accepted.push(*t.transaction_hash());
            assert(hash_seq(accepted@) =~= before.push(t@.hash()));
            if self.fits(accepted, below) {
                chosen.push(t.duplicate());
                assert(txs_view(chosen@) =~= chosen_before.push(t@));
                assert(txs_view(chosen@) =~= self@.txs_of(hash_seq(accepted@)));
            } else {
                accepted.pop();
                assert(hash_seq(accepted@) =~= before);
            }
            i = i + 1;
        }
        assert(all.take(n as int) =~= all);
    }

    /// The tentative transactions that the next block can take, at most
    /// `limit` of them or 100 when no limit is given, and the hash of the
    /// block that it stands on. The store is left as it is.
    #[verifier::loop_isolation(false)]
    pub fn get_mineable_tentative_transactions(&self, limit: Option<u16>) -> (r: (
        Vec<Transaction>,
        Option<crate::hash::Hash>,
    ))
        requires
            self.wf(),
        ensures
            txs_view(r.0@) == self@.txs_of(self@.mineable(limit_or_default(limit))),
            optional_hash_view(r.1) == self@.tip_hash(),
    {
        let limit: u16 = match limit {
            Some(n) => n,
            None => DEFAULT_MINEABLE_LIMIT,
        };
        let below = self.tip_index();
        let parent_hash = match below {
            Some(t) => Some(self.block_at(t).hash),
            None => None,
        };
        let ghost under = self@.below_tip();
        let tentative = self.get_all_tentative_transactions();
        proof {
            lemma_structured_hashes(self@);
            lemma_tentative_among(self@, self@.txs);
        }
        let mut accepted: Vec<crate::hash::Hash> = Vec::new();
        let mut chosen: Vec<Transaction> = Vec::new();
        let ghost goal = self@.mineable(limit);
        let ghost mut passes: nat = limit as nat;
        let mut done = false;
        assert(hash_seq(accepted@) =~= Seq::<Seq<u8>>::empty());
        assert(txs_view(chosen@) =~= self@.txs_of(hash_seq(accepted@)));
        while !done
            invariant
                accepted@.len() <= limit,
                passes + accepted@.len() >= limit,
                forall|k: int| 0 <= k < accepted@.len() ==> self@.has_tx(
                    #[trigger] hash_seq(accepted@)[k],
                ),
                txs_view(chosen@) == self@.txs_of(hash_seq(accepted@)),
                !done ==> goal == self@.fill(hash_seq(accepted@), limit, under, passes),
                done ==> goal == hash_seq(accepted@),
            decreases limit - accepted@.len() + if done { 0int } else { 1int },
        {
            if accepted.len() >= limit as usize {
                done = true;
            } else {
                let room = limit as usize - accepted.len();
                let batch = Self::offer(&tentative, &accepted, room);
                if batch.len() == 0 {
                    done = true;
                } else {
                    let had = accepted.len();
                    let ghost before = hash_seq(accepted@);
                    proof {
                        lemma_unaccepted_among(self@.tentative(), before);
                        assert forall|k: int| 0 <= k < batch@.len() implies self@.has_tx(
                            #[trigger] txs_view(batch@)[k].hash(),
                        ) && self@.tx(txs_view(batch@)[k].hash()) == txs_view(batch@)[k] by {
                            let x = txs_view(batch@)[k];
                            let u = unaccepted(self@.tentative(), before);
                            assert(u[k] == x);
                            assert(self@.tentative().contains(x));
                            let j = choose|j: int|
                                0 <= j < self@.tentative().len() && self@.tentative()[j] == x;
                            assert(self@.txs.contains(self@.tentative()[j]));
                            let w = choose|w: int| 0 <= w < self@.txs.len() && self@.txs[w] == x;
                            assert(self@.tx_hashes()[w] == x.hash());
                            crate::ledger::lemma_position(self@.tx_hashes(), w);
                        }
                        lemma_try_each_grows(self@, before, txs_view(batch@), under);
                    }
                    self.try_each(&mut accepted, &mut chosen, &batch, below);
                    if accepted.len() == had {
                        proof {
                            assert(hash_seq(accepted@).take(had as int) =~= hash_seq(accepted@));
                        }
                        done = true;
                    } else {
                        proof {
                            passes = (passes - 1) as nat;
                        }
                    }
                }
            }
        }
        (chosen, parent_hash)
    }

    /// The block that `reward` opens: the transactions that the next block
    /// can take follow it, the tip is its parent, and its nonce and hash
    /// are still to be found.
    pub fn mineable_block_around(&self, reward: Transaction) -> (b: Block)
        requires
            self.wf(),
        ensures
            b.nonce == 0,
            b.block_hash@ == crate::hash::zero_bytes(),
            b@.parent == self@.tip_hash(),
            b@.transactions == seq![reward@] + self@.txs_of(self@.mineable(DEFAULT_MINEABLE_LIMIT)),
    {
        let (mut chosen, parent_hash) = self.get_mineable_tentative_transactions(None);
        let mut transactions: Vec<Transaction> = Vec::new();
        transactions.push(reward);
        let ghost first = txs_view(transactions@);
        let ghost rest = txs_view(chosen@);
        transactions.append(&mut chosen);
        assert(txs_view(transactions@) =~= first + rest);
        assert(first =~= seq![reward@]);
        Block { nonce: 0, transactions, parent_hash, block_hash: crate::hash::Hash::zeroes() }
    }

    /// A block for `miner_wallet`, or for the default wallet when none is
    /// named, to mine: a reward for the wallet and then what
    /// `mineable_block_around` adds. There is none when the wallet fails
    /// to sign the reward.
    pub fn prepare_mineable_block(&self, miner_wallet: Option<&Wallet>) -> (r: Option<Block>)
        requires
            self.wf(),
        ensures
            r.is_some() ==> ({
                let b = r.unwrap();
                let key = match miner_wallet {
                    Some(w) => w@,
                    None => self.default_key(),
                };
                &&& b.nonce == 0
                &&& b@.parent == self@.tip_hash()
                &&& b@.transactions.len() > 0
                &&& b@.transactions.skip(1) == self@.txs_of(self@.mineable(DEFAULT_MINEABLE_LIMIT))
                &&& is_reward(b@.transactions[0])
                &&& b@.transactions[0].payer == key
                &&& b@.transactions[0].outputs[0].recipient == sha256_digest(key)
                &&& b@.transactions[0].signature_valid()
            }),
    {
        let reward = match miner_wallet {
            Some(w) => w.create_reward(),
            None => self.default_wallet().create_reward(),
        };
        match reward {
            None => None,
            Some(t) => {
                let b = self.mineable_block_around(t);
                assert(b@.transactions.skip(1) =~= self@.txs_of(
                    self@.mineable(DEFAULT_MINEABLE_LIMIT),
                ));
                Some(b)
            },
        }
    }
}

} // verus!
