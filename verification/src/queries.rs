//! What can be read off the store: the tip and the longest chain,
//! confirmations, the tentative transactions, and the counts.

use vstd::prelude::*;
use crate::ledger::Ledger;
use crate::ledger::lemma_structured_block;
use crate::ledger::lemma_structured_hashes;
use crate::storage::BlockchainStats;
use crate::storage::BlockchainStorage;
use crate::storage::hash_seq;
use crate::transaction::Transaction;
use crate::transaction::TxModel;
use crate::transaction::txs_view;

verus! {

/// The places that a run of indices names.
pub open spec fn indices_view(v: Seq<usize>) -> Seq<int> {
    Seq::new(v.len(), |i: int| v[i] as int)
}

/// What a run of pairs of a block hash and a height stands for.
pub open spec fn chain_view(v: Seq<(crate::hash::Hash, u64)>) -> Seq<(Seq<u8>, nat)> {
    Seq::new(v.len(), |i: int| (v[i].0@, v[i].1 as nat))
}

impl Ledger {
    /// The hash and the height of each block of the longest chain, the tip
    /// first.
    pub open spec fn longest_chain_rows(self) -> Seq<(Seq<u8>, nat)> {
        Seq::new(
            self.longest_chain().len(),
            |k: int| (self.blocks[self.longest_chain()[k]].hash, self.blocks[self.longest_chain()[k]].height),
        )
    }
}

/// The tip of a run of blocks that is not empty is one of its places.
pub proof fn lemma_tip_in_range(blocks: Seq<crate::ledger::BlockEntry>)
    requires
        blocks.len() > 0,
    ensures
        0 <= Ledger::tip_of(blocks) < blocks.len(),
    decreases blocks.len(),
{
    if blocks.len() > 1 {
        lemma_tip_in_range(blocks.drop_last());
    } else {
        assert(blocks.drop_last().len() == 0);
        assert(Ledger::tip_of(blocks.drop_last()) == -1);
    }
}

impl BlockchainStorage {
    /// The place of the tip: the block of greatest height, and the
    /// earliest of those.
    pub fn tip_index(&self) -> (r: Option<usize>)
        ensures
            match r {
                Some(t) => self@.tip() == Some(t as int) && t < self@.blocks.len(),
                None => self@.tip().is_none(),
            },
    {
        let n = self.block_rows();
        if n == 0 {
            return None;
        }
        let ghost all = self@.blocks;
        let mut best: usize = 0;
        let mut i: usize = 1;
        proof {
            assert(all.take(1).drop_last() =~= Seq::<crate::ledger::BlockEntry>::empty());
            assert(Ledger::tip_of(all.take(1).drop_last()) == -1);
        }
        while i < n
            invariant
                n == self@.blocks.len(),
                all == self@.blocks,
                1 <= i <= n,
                best < i,
                best == Ledger::tip_of(all.take(i as int)),
            decreases n - i,
        {
            proof {
                assert(all.take(i + 1).drop_last() =~= all.take(i as int));
                assert(all.take(i + 1).last() == all[i as int]);
                assert(all.take(i + 1)[best as int] == all[best as int]);
            }
            if self.block_at(i).height > self.block_at(best).height {
                best = i;
            }
            i = i + 1;
        }
        assert(all.take(n as int) =~= all);
        Some(best)
    }

    /// The places of block `start` and of its ancestors, from `start` to
    /// the root.
    #[verifier::loop_isolation(false)]
    pub fn chain_indices(&self, start: usize) -> (v: Vec<usize>)
        requires
            self@.structured(),
            start < self@.blocks.len(),
        ensures
            indices_view(v@) == self@.chain_from(start as int),
            forall|k: int| 0 <= k < v@.len() ==> (#[trigger] v@[k]) < self@.blocks.len(),
    {
        let ghost goal = self@.chain_from(start as int);
        let mut v: Vec<usize> = Vec::new();
        let mut cur: usize = start;
        let mut done = false;
        proof {
            lemma_structured_hashes(self@);
            assert(indices_view(v@) + goal =~= goal);
        }
        while !done
            invariant
                cur < self@.blocks.len(),
                forall|k: int| 0 <= k < v@.len() ==> (#[trigger] v@[k]) < self@.blocks.len(),
                done ==> indices_view(v@) == goal,
                !done ==> indices_view(v@) + self@.chain_from(cur as int) == goal,
            decreases cur + if done { 0int } else { 1int },
        {
            let ghost before = indices_view(v@);
            v.push(cur);
            proof {
                assert(indices_view(v@) =~= before.push(cur as int));
                lemma_structured_block(self@, cur as int);
            }
            match &self.block_at(cur).parent {
                Some(p) => {
                    match self.find_block(p) {
                        Some(q) => {
                            assert(before + (seq![cur as int] + self@.chain_from(q as int))
                                =~= before.push(cur as int) + self@.chain_from(q as int));
                            cur = q;
                        },
                        None => {
                            done = true;
                        },
                    }
                },
                None => {
                    assert(before + seq![cur as int] =~= before.push(cur as int));
                    done = true;
                },
            }
        }
        v
    }

    /// The places of the blocks of the longest chain, the tip first.
    pub fn longest_chain_indices(&self) -> (v: Vec<usize>)
        requires
            self@.structured(),
        ensures
            indices_view(v@) == self@.longest_chain(),
            forall|k: int| 0 <= k < v@.len() ==> (#[trigger] v@[k]) < self@.blocks.len(),
    {
        match self.tip_index() {
            Some(t) => self.chain_indices(t),
            None => {
                let v: Vec<usize> = Vec::new();
                assert(indices_view(v@) =~= Seq::<int>::empty());
                v
            },
        }
    }

    /// The hash and the height of each block of the longest chain, the
    /// tip first.
    #[verifier::loop_isolation(false)]
    pub fn get_longest_chain(&self) -> (v: Vec<(crate::hash::Hash, u64)>)
        requires
            self.wf(),
        ensures
            chain_view(v@) == self@.longest_chain_rows(),
    {
        let chain = self.longest_chain_indices();
        let mut v: Vec<(crate::hash::Hash, u64)> = Vec::new();
        let n = chain.len();
        let mut k: usize = 0;
        assert(chain_view(v@) =~= self@.longest_chain_rows().take(0));
        while k < n
            invariant
                0 <= k <= n,
                chain_view(v@) == self@.longest_chain_rows().take(k as int),
            decreases n - k,
        {
            let b = self.block_at(chain[k]);
            let ghost before = chain_view(v@);
            assert(indices_view(chain@)[k as int] == chain@[k as int]);
            v.push((b.hash, b.height));
            assert(chain_view(v@) =~= before.push((b.hash@, b.height as nat)));
            assert(chain_view(v@) =~= self@.longest_chain_rows().take(k + 1));
            k = k + 1;
        }
        assert(self@.longest_chain_rows().take(n as int) =~= self@.longest_chain_rows());
        v
    }

    /// Whether the block at place `i` holds the transaction of hash `h`.
    #[verifier::loop_isolation(false)]
    pub fn block_holds(&self, i: usize, h: &crate::hash::Hash) -> (r: bool)
        requires
            i < self@.blocks.len(),
        ensures
            r == self@.blocks[i as int].txs.contains(h@),
    {
        let txs = &self.block_at(i).txs;
        let n = txs.len();
        let mut k: usize = 0;
        while k < n
            invariant
                0 <= k <= n,
                forall|x: int| 0 <= x < k ==> hash_seq(txs@)[x] != h@,
            decreases n - k,
        {
            if txs[k].same(h) {
                assert(hash_seq(txs@)[k as int] == h@);
                return true;
            }
            k = k + 1;
        }
        false
    }

    /// The confirmations that `chain` gives the transaction of hash `h`.
    #[verifier::loop_isolation(false)]
    pub fn confirmations_along(&self, chain: &Vec<usize>, h: &crate::hash::Hash) -> (c: usize)
        requires
            forall|k: int| 0 <= k < chain@.len() ==> (#[trigger] chain@[k]) < self@.blocks.len(),
        ensures
            c == self@.confirmations_along(indices_view(chain@), h@),
            c <= chain@.len(),
    {
        let ghost all = indices_view(chain@);
        let n = chain.len();
        let mut c: usize = 0;
        let mut k: usize = 0;
        while k < n
            invariant
                0 <= k <= n,
                c <= k,
                c == self@.confirmations_along(all.take(k as int), h@),
            decreases n - k,
        {
            proof {
                assert(all.take(k + 1).drop_last() =~= all.take(k as int));
                assert(all.take(k + 1).last() == chain@[k as int]);
            }
            if self.block_holds(chain[k], h) {
                c = k + 1;
            }
            k = k + 1;
        }
        assert(all.take(n as int) =~= all);
        c
    }

    /// All tentative transactions, in the order of their discovery.
    #[verifier::loop_isolation(false)]
    pub fn get_all_tentative_transactions(&self) -> (v: Vec<Transaction>)
        requires
            self.wf(),
        ensures
            txs_view(v@) == self@.tentative(),
    {
        let chain = self.longest_chain_indices();
        let ghost all = self@.txs;
        let mut v: Vec<Transaction> = Vec::new();
        let n = self.transaction_count();
        let mut i: usize = 0;
        assert(txs_view(v@) =~= Seq::<TxModel>::empty());
        while i < n
            invariant
                0 <= i <= n,
                txs_view(v@) == self@.tentative_among(all.take(i as int)),
            decreases n - i,
        {
            let t = self.transaction_at(i);
            proof {
                assert(all.take(i + 1).drop_last() =~= all.take(i as int));
                assert(all.take(i + 1).last() == t@);
            }
            if t.input_count() > 0 && self.confirmations_along(&chain, t.transaction_hash()) == 0 {
                let ghost before = txs_view(v@);
                v.push(t.duplicate());
                assert(txs_view(v@) =~= before.push(t@));
            }
            i = i + 1;
        }
        assert(all.take(n as int) =~= all);
        v
    }

    /// The number of blocks on the longest chain, which is one more than
    /// the greatest height, and the number of tentative transactions.
    pub fn produce_stats(&self) -> (s: BlockchainStats)
        requires
            self.wf(),
        ensures
            s.block_count == self@.block_count(),
            s.pending_txn_count == self@.tentative().len(),
    {
        let block_count: u64 = match self.tip_index() {
            Some(t) => {
                proof {
                    lemma_structured_block(self@, t as int);
                }
                let rows = self.block_rows();
                self.block_at(t).height + 1
            },
            None => 0,
        };
        let pending = self.get_all_tentative_transactions();
        BlockchainStats { block_count, pending_txn_count: pending.len() as u64 }
    }
}

} // verus!
