//! Blocks and the proof-of-work challenge on their hash.

use vstd::prelude::*;
use vstd::bytes::spec_u64_to_le_bytes;
use vstd::bytes::u64_to_le_bytes;
use crate::crypto::sha256_digest;
use crate::encoding::encode_optional;
use crate::encoding::length_prefix;
use crate::encoding::put_raw;
use crate::encoding::put_u64;
use crate::hash::leading_zero_bits;
use crate::transaction::Transaction;
use crate::transaction::TxModel;
use crate::transaction::encode_tx_run;
use crate::transaction::txs_view;

verus! {

/// Number of leading zero bits that the hash of every stored block shows.
pub const MINIMUM_DIFFICULTY_LEVEL: u8 = 12;

/// Nonces are counted below this bound: 2 to the power 63.
pub const NONCE_LIMIT: u64 = 0x8000_0000_0000_0000;

/// The most transactions that one block may carry.
pub const MAX_BLOCK_TXNS: usize = 2000;

/// A list of transactions, a link to the parent block, and the nonce that
/// gives the block its hash.
#[derive(Debug, PartialEq, Eq)]
pub struct Block {
    pub nonce: u64,
    pub transactions: Vec<Transaction>,
    pub parent_hash: Option<crate::hash::Hash>,
    pub block_hash: crate::hash::Hash,
}

/// What a `Block` stands for.
pub struct BlockModel {
    pub nonce: u64,
    pub transactions: Seq<TxModel>,
    pub parent: Option<Seq<u8>>,
    pub hash: Seq<u8>,
}

/// The bytes of an optional hash.
pub open spec fn optional_hash_view(h: Option<crate::hash::Hash>) -> Option<Seq<u8>> {
    match h {
        None => None,
        Some(x) => Some(x@),
    }
}

impl View for Block {
    type V = BlockModel;

    open spec fn view(&self) -> BlockModel {
        BlockModel {
            nonce: self.nonce,
            transactions: txs_view(self.transactions@),
            parent: optional_hash_view(self.parent_hash),
            hash: self.block_hash@,
        }
    }
}

/// The nonce that the search tries after `nonce`.
pub open spec fn next_nonce(nonce: u64) -> u64 {
    ((nonce + 1) % (NONCE_LIMIT as int)) as u64
}

impl BlockModel {
    /// Everything of the challenge but the nonce in front of it.
    pub open spec fn challenge_tail(self) -> Seq<u8> {
        length_prefix(self.transactions.len()) + encode_tx_run(self.transactions)
            + encode_optional(self.parent)
    }

    /// The bytes whose digest is the block hash: the nonce in the first
    /// eight bytes, then the transactions, then the parent.
    pub open spec fn hash_challenge(self) -> Seq<u8> {
        spec_u64_to_le_bytes(self.nonce) + self.challenge_tail()
    }

    /// The block with another nonce.
    pub open spec fn with_nonce(self, nonce: u64) -> BlockModel {
        BlockModel { nonce, ..self }
    }

    /// Whether the digest of the challenge starts with `difficulty` zero
    /// bits.
    pub open spec fn solves(self, difficulty: u8) -> bool {
        leading_zero_bits(sha256_digest(self.hash_challenge())) >= difficulty
    }

    /// Whether the recorded hash is the digest of the challenge and starts
    /// with `difficulty` zero bits.
    pub open spec fn hash_verified(self, difficulty: u8) -> bool {
        leading_zero_bits(self.hash) >= difficulty && self.hash == sha256_digest(
            self.hash_challenge(),
        )
    }

    /// The first nonce that solves the challenge among the `tries` nonces
    /// that start at the block's own, if there is one.
    pub open spec fn first_solution(self, difficulty: u8, tries: nat) -> Option<u64>
        decreases tries,
    {
        if tries == 0 {
            None
        } else if self.solves(difficulty) {
            Some(self.nonce)
        } else {
            self.with_nonce(next_nonce(self.nonce)).first_solution(
                difficulty,
                (tries - 1) as nat,
            )
        }
    }

    /// The nonce reached from the block's own after `tries` steps.
    pub open spec fn nonce_after(self, tries: nat) -> u64
        decreases tries,
    {
        if tries == 0 {
            self.nonce
        } else {
            self.with_nonce(next_nonce(self.nonce)).nonce_after((tries - 1) as nat)
        }
    }
}

/// How many nonces a search tries when it is given no bound.
pub open spec fn tries_allowed(max_tries: Option<u64>) -> nat {
    match max_tries {
        Some(n) => n as nat,
        None => NONCE_LIMIT as nat,
    }
}

impl Block {
    /// A block of the given parts.
    pub fn new(
        nonce: u64,
        transactions: Vec<Transaction>,
        parent_hash: Option<crate::hash::Hash>,
        block_hash: crate::hash::Hash,
    ) -> (b: Block)
        ensures
            b.nonce == nonce,
            b.transactions == transactions,
            b.parent_hash == parent_hash,
            b.block_hash == block_hash,
    {
        Block { nonce, transactions, parent_hash, block_hash }
    }

    /// A block without a parent that holds only a reward for `w`, with
    /// its nonce and hash still to be found. There is none when the wallet
    /// fails to sign the reward.
    pub fn new_mine_block(w: &crate::wallet::Wallet) -> (r: Option<Block>)
        ensures
            r.is_some() ==> {
                &&& r.unwrap().nonce == 0
                &&& r.unwrap().parent_hash.is_none()
                &&& r.unwrap().block_hash@ == crate::hash::zero_bytes()
                &&& r.unwrap()@.transactions.len() == 1
                &&& crate::ledger::is_reward(r.unwrap()@.transactions[0])
                &&& r.unwrap()@.transactions[0].payer == w@
                &&& r.unwrap()@.transactions[0].outputs[0].recipient == sha256_digest(w@)
                &&& r.unwrap()@.transactions[0].signature_valid()
            },
    {
        match w.create_reward() {
            None => None,
            Some(t) => {
                let mut transactions: Vec<Transaction> = Vec::new();
                transactions.push(t);
                Some(
                    Block {
                        nonce: 0,
                        transactions,
                        parent_hash: None,
                        block_hash: crate::hash::Hash::zeroes(),
                    },
                )
            },
        }
    }

    /// The bytes whose digest is the block hash.
    pub fn to_hash_challenge(&self) -> (data: Vec<u8>)
        ensures
            data@ == self@.hash_challenge(),
            data@.len() >= 8,
    {
        let mut buf: Vec<u8> = Vec::new();
        put_u64(&mut buf, self.nonce);
        put_u64(&mut buf, self.transactions.len() as u64);
        let ghost head = buf@;
        let n = self.transactions.len();
        let mut i: usize = 0;
        while i < n
            invariant
                n == self.transactions@.len(),
                0 <= i <= n,
                buf@ == head + encode_tx_run(txs_view(self.transactions@).take(i as int)),
            decreases n - i,
        {
            let wire = self.transactions[i].to_wire_form();
            let ghost before = buf@;
            put_raw(&mut buf, wire.as_slice());
            proof {
                let all = txs_view(self.transactions@);
                assert(all.take(i + 1).drop_last() =~= all.take(i as int));
                assert(all.take(i + 1).last() == self.transactions@[i as int]@);
                assert(buf@ =~= head + encode_tx_run(all.take(i + 1)));
            }
            i = i + 1;
        }
        proof {
            let all = txs_view(self.transactions@);
            assert(all.take(n as int) =~= all);
        }
        match &self.parent_hash {
            None => {
                buf.push(0u8);
                assert(buf@ =~= self@.hash_challenge());
            },
            Some(h) => {
                buf.push(1u8);
                put_raw(&mut buf, h.0.as_slice());
                assert(buf@ =~= self@.hash_challenge());
            },
        }
        proof {
            vstd::bytes::lemma_auto_spec_u64_to_from_le_bytes();
        }
        buf
    }

    /// Whether the recorded hash starts with `difficulty` zero bits and is
    /// the digest of the challenge.
    pub fn verify_hash_challenge(&self, difficulty: u8) -> (ok: bool)
        ensures
            ok == self@.hash_verified(difficulty),
    {
        if !self.block_hash.has_difficulty(difficulty) {
            return false;
        }
        let challenge = self.to_hash_challenge();
        let digest = crate::hash::Hash::sha256(challenge.as_slice());
        self.block_hash.same(&digest)
    }

    /// Searches for a nonce whose challenge has a digest of `difficulty`
    /// leading zero bits, starting at the block's own nonce and trying at
    /// most `max_tries` nonces (2 to the power 63 when no bound is given).
    /// On success the nonce and the hash are recorded in the block.
    pub fn solve_hash_challenge(&mut self, difficulty: u8, max_tries: Option<u64>) -> (ok: bool)
        ensures
            final(self)@.transactions == old(self)@.transactions,
            final(self)@.parent == old(self)@.parent,
            ok == old(self)@.first_solution(difficulty, tries_allowed(max_tries)).is_some(),
            ok ==> final(self).nonce == old(self)@.first_solution(
                difficulty,
                tries_allowed(max_tries),
            ).unwrap(),
            ok ==> final(self)@.hash_verified(difficulty),
            !ok ==> final(self).nonce == old(self)@.nonce_after(tries_allowed(max_tries)),
            !ok ==> final(self).block_hash == old(self).block_hash,
    {
        let mut buf = self.to_hash_challenge();
        let limit: u64 = match max_tries {
            Some(n) => n,
            None => NONCE_LIMIT,
        };
        let mut done: u64 = 0;
        while done < limit
            invariant
                0 <= done <= limit,
                limit == tries_allowed(max_tries),
                buf@ == self@.hash_challenge(),
                buf@.len() >= 8,
                self@.transactions == old(self)@.transactions,
                self@.parent == old(self)@.parent,
                self.block_hash == old(self).block_hash,
                old(self)@.first_solution(difficulty, limit as nat) == self@.first_solution(
                    difficulty,
                    (limit - done) as nat,
                ),
                old(self)@.nonce_after(limit as nat) == self@.nonce_after((limit - done) as nat),
            decreases limit - done,
        {
            let this_hash = crate::hash::Hash::sha256(buf.as_slice());
            if this_hash.has_difficulty(difficulty) {
                self.block_hash = this_hash;
                return true;
            }
            let ghost before = self@;
            self.nonce = if self.nonce == u64::MAX {
                0
            } else {
                (self.nonce + 1) % NONCE_LIMIT
            };
            assert(self.nonce == next_nonce(before.nonce));
            assert(self@ == before.with_nonce(next_nonce(before.nonce)));
            let bytes = u64_to_le_bytes(self.nonce);
            let mut k: usize = 0;
            while k < 8
                invariant
                    0 <= k <= 8,
                    bytes@.len() == 8,
                    buf@.len() == before.hash_challenge().len(),
                    buf@.len() >= 8,
                    forall|j: int| 0 <= j < k ==> buf@[j] == bytes@[j],
                    forall|j: int| k <= j < buf@.len() ==> buf@[j] == before.hash_challenge()[j],
                decreases 8 - k,
            {
                buf.set(k, bytes[k]);
                k = k + 1;
            }
            proof {
                vstd::bytes::lemma_auto_spec_u64_to_from_le_bytes();
                assert(buf@ =~= self@.hash_challenge());
            }
            done = done + 1;
        }
        false
    }
}

} // verus!
