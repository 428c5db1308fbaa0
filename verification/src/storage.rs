//! The store: the tables of the ledger in memory, and the operations that
//! take blocks and transactions into them.

use vstd::prelude::*;
use crate::acceptance::check_block_form;
use crate::acceptance::lemma_insert_all_fails_on;
use crate::adoption::Rejection;
use crate::adoption::Sweep;
use crate::adoption::check_tentative_form;
use crate::block::Block;
use crate::block::optional_hash_view;
use crate::error::BlockchainError;
use crate::frame::lemma_tx_found;
use crate::frame::lemma_tx_kept;
use crate::frame::lemma_with_tx;
use crate::ledger::BlockEntry;
use crate::ledger::Ledger;
use crate::ledger::distinct;
use crate::ledger::hashes_of;
use crate::ledger::lemma_position;
use crate::ledger::lemma_position_found;
use crate::reasons::BLOCK_INCONSISTENT;
use crate::reasons::BLOCK_OVERSPENT;
use crate::reasons::BLOCK_UNAUTHORIZED;
use crate::reasons::CODE_CHECK;
use crate::reasons::CODE_FOREIGN_KEY;
use crate::reasons::CODE_UNIQUE;
use crate::reasons::TXN_OVERSPENT;
use crate::reasons::TXN_UNAUTHORIZED;
use crate::reasons::code_text;
use crate::reasons::sqlite_code_text;
use crate::transaction::Transaction;
use crate::transaction::TransactionInput;
use crate::transaction::TransactionOutput;
use crate::transaction::inputs_view;
use crate::transaction::txs_view;
use crate::wallet::Wallet;

verus! {

/// The bytes of a run of hashes.
pub open spec fn hash_seq(s: Seq<crate::hash::Hash>) -> Seq<Seq<u8>> {
    Seq::new(s.len(), |i: int| s[i]@)
}

/// Whether no hash stands twice in `v`.
#[verifier::loop_isolation(false)]
pub fn hashes_distinct(v: &Vec<crate::hash::Hash>) -> (ok: bool)
    ensures
        ok == distinct(hash_seq(v@)),
{
    reveal(distinct);
    let n = v.len();
    let mut j: usize = 0;
    while j < n
        invariant
            n == v@.len(),
            0 <= j <= n,
            forall|a: int, b: int| 0 <= a < b < j ==> hash_seq(v@)[a] != hash_seq(v@)[b],
        decreases n - j,
    {
        let mut i: usize = 0;
        while i < j
            invariant
                n == v@.len(),
                0 <= i <= j < n,
                forall|a: int| 0 <= a < i ==> hash_seq(v@)[a] != hash_seq(v@)[j as int],
            decreases j - i,
        {
            if v[i].same(&v[j]) {
                assert(hash_seq(v@)[i as int] == hash_seq(v@)[j as int]);
                return false;
            }
            i = i + 1;
        }
        j = j + 1;
    }
    true
}

/// Whether `h` stands in `v`.
pub fn contains_hash(v: &Vec<crate::hash::Hash>, h: &crate::hash::Hash) -> (found: bool)
    ensures
        found == hash_seq(v@).contains(h@),
{
    let n = v.len();
    let mut i: usize = 0;
    while i < n
        invariant
            n == v@.len(),
            0 <= i <= n,
            forall|j: int| 0 <= j < i ==> hash_seq(v@)[j] != h@,
        decreases n - i,
    {
        if v[i].same(h) {
            assert(hash_seq(v@)[i as int] == h@);
            return true;
        }
        i = i + 1;
    }
    false
}

/// Whether two inputs point at the same output.
pub fn same_input(a: &TransactionInput, b: &TransactionInput) -> (r: bool)
    ensures
        r == (a@ == b@),
{
    a.output_index == b.output_index && a.transaction_hash.same(&b.transaction_hash)
}

/// The hashes of the transactions of `block`, in order.
pub fn block_tx_hashes(block: &Block) -> (v: Vec<crate::hash::Hash>)
    ensures
        hash_seq(v@) == hashes_of(block@.transactions),
{
    let mut v: Vec<crate::hash::Hash> = Vec::new();
    let n = block.transactions.len();
    let mut i: usize = 0;
    while i < n
        invariant
            n == block.transactions@.len(),
            0 <= i <= n,
            hash_seq(v@) == hashes_of(block@.transactions).take(i as int),
        decreases n - i,
    {
        let ghost prev = hash_seq(v@);
        v.push(*block.transactions[i].transaction_hash());
        assert(hash_seq(v@) =~= prev.push(block@.transactions[i as int].hash()));
        assert(hash_seq(v@) =~= hashes_of(block@.transactions).take(i + 1));
        i = i + 1;
    }
    assert(hashes_of(block@.transactions).take(n as int) =~= hashes_of(block@.transactions));
    v
}

/// What a list of refused transactions stands for.
pub open spec fn rejections_view(v: Seq<(crate::hash::Hash, &'static str)>) -> Seq<Rejection> {
    Seq::new(v.len(), |i: int| Rejection { hash: v[i].0@, reason: v[i].1@ })
}

/// The error that reports one refused transaction.
fn single_rejection(hash: crate::hash::Hash, reason: &'static str) -> (e: BlockchainError)
    ensures
        e matches BlockchainError::InvalidTentativeTxn(v) && rejections_view(v@) == seq![
            Rejection { hash: hash@, reason: reason@ },
        ],
{
    let mut v: Vec<(crate::hash::Hash, &'static str)> = Vec::new();
    v.push((hash, reason));
    assert(rejections_view(v@) =~= seq![Rejection { hash: hash@, reason: reason@ }]);
    BlockchainError::InvalidTentativeTxn(v)
}

/// A row of the table of blocks.
#[derive(Debug)]
pub struct StoredBlock {
    pub hash: crate::hash::Hash,
    pub parent: Option<crate::hash::Hash>,
    pub height: u64,
    pub nonce: u64,
    pub txs: Vec<crate::hash::Hash>,
}

impl View for StoredBlock {
    type V = BlockEntry;

    open spec fn view(&self) -> BlockEntry {
        BlockEntry {
            hash: self.hash@,
            parent: optional_hash_view(self.parent),
            height: self.height as nat,
            nonce: self.nonce,
            txs: hash_seq(self.txs@),
        }
    }
}

/// The counts that `produce_stats` reports.
#[derive(Clone, Debug, PartialEq, Eq)]
pub struct BlockchainStats {
    pub block_count: u64,
    pub pending_txn_count: u64,
}

/// The ledger of a node, and the wallet that it uses when none is named.
#[derive(Debug)]
pub struct BlockchainStorage {
    blocks: Vec<StoredBlock>,
    transactions: Vec<Transaction>,
    trustworthy: Vec<crate::hash::Hash>,
    orphans: Vec<Transaction>,
    default_wallet: Wallet,
}

impl View for BlockchainStorage {
    type V = Ledger;

    closed spec fn view(&self) -> Ledger {
        Ledger {
            blocks: Seq::new(self.blocks@.len(), |i: int| self.blocks@[i]@),
            txs: txs_view(self.transactions@),
            trusted: Set::new(|h: Seq<u8>| hash_seq(self.trustworthy@).contains(h)),
            orphans: txs_view(self.orphans@),
        }
    }
}

impl BlockchainStorage {
    /// Whether the store obeys the rules of the ledger.
    pub open spec fn wf(&self) -> bool {
        self@.wf()
    }

    /// The serialized public key of the default wallet.
    pub closed spec fn default_key(&self) -> Seq<u8> {
        self.default_wallet@
    }

    /// An empty store around `default_wallet`.
    pub fn new(default_wallet: Wallet) -> (s: BlockchainStorage)
        ensures
            s@ == Ledger::empty(),
            s.wf(),
            s.default_key() == default_wallet@,
    {
        let s = BlockchainStorage {
            blocks: Vec::new(),
            transactions: Vec::new(),
            trustworthy: Vec::new(),
            orphans: Vec::new(),
            default_wallet,
        };
        proof {
            assert(s@.blocks =~= Seq::empty());
            assert(s@.txs =~= Seq::empty());
            assert(s@.orphans =~= Seq::empty());
            assert(s@.trusted =~= Set::empty());
            crate::ledger::lemma_empty_wf();
        }
        s
    }

    /// Empties every table. The default wallet stays.
    pub fn recreate_db(&mut self)
        ensures
            final(self)@ == Ledger::empty(),
            final(self).wf(),
            final(self).default_key() == old(self).default_key(),
    {
        self.blocks = Vec::new();
        self.transactions = Vec::new();
        self.trustworthy = Vec::new();
        self.orphans = Vec::new();
        proof {
            assert(self@.blocks =~= Seq::empty());
            assert(self@.txs =~= Seq::empty());
            assert(self@.orphans =~= Seq::empty());
            assert(self@.trusted =~= Set::empty());
            crate::ledger::lemma_empty_wf();
        }
    }

    /// The wallet that the store uses when none is named.
    pub fn default_wallet(&self) -> (w: &Wallet)
        ensures
            w@ == self.default_key(),
    {
        &self.default_wallet
    }

    /// Number of stored transactions.
    pub fn transaction_count(&self) -> (n: usize)
        ensures
            n == self@.txs.len(),
    {
        self.transactions.len()
    }

    /// The stored transaction at place `i`.
    pub fn transaction_at(&self, i: usize) -> (t: &Transaction)
        requires
            i < self@.txs.len(),
        ensures
            t@ == self@.txs[i as int],
    {
        &self.transactions[i]
    }

    /// Number of stored blocks.
    pub fn block_rows(&self) -> (n: usize)
        ensures
            n == self@.blocks.len(),
    {
        self.blocks.len()
    }

    /// The row of the stored block at place `i`.
    pub fn block_at(&self, i: usize) -> (b: &StoredBlock)
        requires
            i < self@.blocks.len(),
        ensures
            b@ == self@.blocks[i as int],
    {
        &self.blocks[i]
    }

    /// The place of the stored transaction of hash `h`, if there is one.
    pub(crate) fn find_tx(&self, h: &crate::hash::Hash) -> (r: Option<usize>)
        requires
            distinct(self@.tx_hashes()),
        ensures
            r.is_some() == self@.has_tx(h@),
            r.is_some() ==> r.unwrap() < self@.txs.len() && self@.txs[r.unwrap() as int] == self@.tx(
                h@,
            ) && self@.tx(h@).hash() == h@,
    {
        let n = self.transactions.len();
        let mut i: usize = 0;
        while i < n
            invariant
                n == self.transactions@.len(),
                0 <= i <= n,
                distinct(self@.tx_hashes()),
                forall|j: int| 0 <= j < i ==> self@.tx_hashes()[j] != h@,
            decreases n - i,
        {
            if self.transactions[i].transaction_hash().same(h) {
                proof {
                    let hs = self@.tx_hashes();
                    assert(hs[i as int] == h@);
                    lemma_position(hs, i as int);
                }
                return Some(i);
            }
            i = i + 1;
        }
        proof {
            let hs = self@.tx_hashes();
            if hs.contains(h@) {
                lemma_position_found(hs, h@);
            }
        }
        None
    }

    /// The place of the stored block of hash `h`, if there is one.
    pub(crate) fn find_block(&self, h: &crate::hash::Hash) -> (r: Option<usize>)
        requires
            distinct(self@.block_hashes()),
        ensures
            r.is_some() == self@.has_block(h@),
            r.is_some() ==> r.unwrap() < self@.blocks.len() && r.unwrap() == self@.block_index(h@)
                && self@.blocks[r.unwrap() as int].hash == h@,
    {
        let n = self.blocks.len();
        let mut i: usize = 0;
        while i < n
            invariant
                n == self.blocks@.len(),
                0 <= i <= n,
                distinct(self@.block_hashes()),
                forall|j: int| 0 <= j < i ==> self@.block_hashes()[j] != h@,
            decreases n - i,
        {
            if self.blocks[i].hash.same(h) {
                proof {
                    let hs = self@.block_hashes();
                    assert(hs[i as int] == h@);
                    lemma_position(hs, i as int);
                }
                return Some(i);
            }
            i = i + 1;
        }
        proof {
            let hs = self@.block_hashes();
            if hs.contains(h@) {
                lemma_position_found(hs, h@);
            }
        }
        None
    }

    /// Whether the wallet of hash `h` is trusted.
    pub(crate) fn is_trusted(&self, h: &crate::hash::Hash) -> (r: bool)
        ensures
            r == self@.trusted.contains(h@),
    {
        let n = self.trustworthy.len();
        let mut i: usize = 0;
        while i < n
            invariant
                n == self.trustworthy@.len(),
                0 <= i <= n,
                forall|j: int| 0 <= j < i ==> hash_seq(self.trustworthy@)[j] != h@,
            decreases n - i,
        {
            if self.trustworthy[i].same(h) {
                assert(hash_seq(self.trustworthy@)[i as int] == h@);
                return true;
            }
            i = i + 1;
        }
        false
    }

    /// The stored output that `r` points at, if there is one.
    pub(crate) fn output_at(&self, r: &TransactionInput) -> (o: Option<TransactionOutput>)
        requires
            distinct(self@.tx_hashes()),
        ensures
            o.is_some() == self@.has_output(r@),
            o.is_some() ==> o.unwrap()@ == self@.output(r@),
    {
        match self.find_tx(&r.transaction_hash) {
            Some(i) => {
                let outputs = self.transactions[i].outputs();
                if (r.output_index as usize) < outputs.len() {
                    Some(outputs[r.output_index as usize])
                } else {
                    None
                }
            },
            None => None,
        }
    }

    /// Stores `txn` unless a transaction of its hash is stored already,
    /// which is no error and changes nothing, whatever `txn` holds. Says
    /// whether a row was added. A transaction that breaks a rule of the
    /// tables is refused with the text that SQLite has for the rule, and
    /// nothing is stored.
    #[verifier::loop_isolation(false)]
    pub(crate) fn insert_transaction_raw(&mut self, txn: &Transaction) -> (r: Result<
        bool,
        BlockchainError,
    >)
        requires
            old(self)@.structured(),
            old(self)@.has_tx(txn@.hash()) || crate::acceptance::presentable(txn@),
        ensures
            final(self)@.structured(),
            final(self).default_key() == old(self).default_key(),
            old(self)@.has_tx(txn@.hash()) ==> (r matches Ok(false)) && final(self)@ == old(self)@,
            !old(self)@.has_tx(txn@.hash()) ==> match old(self)@.raw_insert_refusal(txn@) {
                Some(code) => final(self)@ == old(self)@ && (r matches Err(
                    BlockchainError::InvalidTxn(m),
                ) && m@ == sqlite_code_text(code)),
                None => (r matches Ok(true)) && final(self)@ == old(self)@.with_tx(txn@),
            },
    {
        proof {
            crate::ledger::lemma_structured_hashes(self@);
        }
        let hash = *txn.transaction_hash();
        if self.find_tx(&hash).is_some() {
            return Ok(false);
        }
        proof {
            lemma_with_tx(self@, txn@);
        }
        let ghost grown = self@.with_tx(txn@);
        let outputs = txn.outputs();
        let m = outputs.len();
        let mut j: usize = 0;
        while j < m
            invariant
                *self == *old(self),
                m == outputs@.len(),
                0 <= j <= m,
                forall|k: int| 0 <= k < j ==> #[trigger] txn@.outputs[k].amount > 0,
            decreases m - j,
        {
            if outputs[j].amount.0 == 0 {
                assert(txn@.outputs[j as int].amount == 0);
                return Err(BlockchainError::InvalidTxn(code_text(CODE_CHECK)));
            }
            assert(txn@.outputs[j as int] == outputs@[j as int]@);
            j = j + 1;
        }
        let inputs = txn.inputs();
        let n = inputs.len();
        let mut i: usize = 0;
        while i < n
            invariant
                n == inputs@.len(),
                0 <= i <= n,
                i <= 256,
                *self == *old(self),
                forall|k: int| 0 <= k < i ==> grown.has_output(#[trigger] txn@.inputs[k]),
            decreases n - i,
        {
            if i >= 256 {
                return Err(BlockchainError::InvalidTxn(code_text(CODE_CHECK)));
            }
            let input = &inputs[i];
            assert(txn@.inputs[i as int] == input@);
            let found = if input.transaction_hash.same(&hash) {
                (input.output_index as usize) < m
            } else {
                let o = self.output_at(input);
                proof {
                    if self@.has_tx(input@.tx) {
                        crate::frame::lemma_tx_kept(self@, grown, input@.tx);
                    }
                }
                o.is_some()
            };
            assert(found == grown.has_output(input@));
            if !found {
                return Err(BlockchainError::InvalidTxn(code_text(CODE_FOREIGN_KEY)));
            }
            i = i + 1;
        }
        self.transactions.push(txn.duplicate());
        proof {
            assert(self@.txs =~= old(self)@.txs.push(txn@));
            assert(self@.blocks =~= old(self)@.blocks);
            assert(self@.orphans =~= old(self)@.orphans);
            assert(self@.trusted =~= old(self)@.trusted);
            assert(self@ == grown);
            assert(grown.inputs_resolve(txn@));
            assert(crate::ledger::storable(txn@));
            crate::frame::lemma_with_tx_structured(old(self)@, txn@);
        }
        Ok(true)
    }

    /// Whether `t` spends only outputs that were paid to its own payer.
    #[verifier::loop_isolation(false)]
    pub(crate) fn tx_authorized(&self, t: &Transaction) -> (ok: bool)
        requires
            distinct(self@.tx_hashes()),
        ensures
            ok == self@.authorized(t@),
    {
        let payer_hash = crate::hash::Hash::sha256(t.payer().0.as_slice());
        let inputs = t.inputs();
        let n = inputs.len();
        let mut i: usize = 0;
        while i < n
            invariant
                0 <= i <= n,
                forall|k: int|
                    0 <= k < i && self@.has_output(#[trigger] t@.inputs[k]) ==> self@.output(
                        t@.inputs[k],
                    ).recipient == t@.payer_hash(),
            decreases n - i,
        {
            assert(t@.inputs[i as int] == inputs@[i as int]@);
            match self.output_at(&inputs[i]) {
                Some(o) => {
                    if !o.recipient_hash.same(&payer_hash) {
                        return false;
                    }
                },
                None => {},
            }
            i = i + 1;
        }
        true
    }

    /// What `t` takes in: the sum of the stored outputs that it spends.
    #[verifier::loop_isolation(false)]
    pub(crate) fn credited_amount(&self, t: &Transaction) -> (credited: u128)
        requires
            distinct(self@.tx_hashes()),
            t@.inputs.len() <= 256,
        ensures
            credited == self@.credited(t@),
    {
        let inputs = t.inputs();
        let n = inputs.len();
        let mut credited: u128 = 0;
        let mut i: usize = 0;
        while i < n
            invariant
                0 <= i <= n,
                credited == self@.credited_of(t@.inputs.take(i as int)),
                credited <= i * 0xffff_ffff_ffff_ffff,
            decreases n - i,
        {
            proof {
                assert(t@.inputs.take(i + 1).drop_last() =~= t@.inputs.take(i as int));
                assert(t@.inputs.take(i + 1).last() == inputs@[i as int]@);
            }
            match self.output_at(&inputs[i]) {
                Some(o) => {
                    credited = credited + o.amount.0 as u128;
                },
                None => {},
            }
            i = i + 1;
        }
        assert(t@.inputs.take(n as int) =~= t@.inputs);
        credited
    }

    /// Whether `t`, if it spends anything, pays out no more than it takes
    /// in.
    pub(crate) fn tx_within_credit(&self, t: &Transaction) -> (ok: bool)
        requires
            distinct(self@.tx_hashes()),
            t@.inputs.len() <= 256,
            t@.outputs.len() <= 256,
        ensures
            ok == self@.within_credit(t@),
    {
        if t.input_count() == 0 {
            return true;
        }
        t.debited_amount() <= self.credited_amount(t)
    }

    /// The hashes of `head` followed by the lineage of the block at
    /// `below`.
    #[verifier::loop_isolation(false)]
    pub(crate) fn lineage_with(&self, head: Vec<crate::hash::Hash>, below: Option<usize>) -> (v: Vec<
        crate::hash::Hash,
    >)
        requires
            distinct(self@.block_hashes()),
            forall|i: int| 0 <= i < self@.blocks.len() ==> match (#[trigger] self@.blocks[i]).parent {
                Some(p) => self@.has_block(p) && self@.block_index(p) < i,
                None => true,
            },
            below.is_some() ==> below.unwrap() < self@.blocks.len(),
        ensures
            hash_seq(v@) == self@.candidate_lineage(
                hash_seq(head@),
                match below {
                    Some(b) => Some(b as int),
                    None => None,
                },
            ),
    {
        let mut v = head;
        let ghost goal = self@.candidate_lineage(
            hash_seq(head@),
            match below {
                Some(b) => Some(b as int),
                None => None,
            },
        );
        let mut cur: usize = 0;
        let mut done: bool = true;
        match below {
            Some(b) => {
                cur = b;
                done = false;
            },
            None => {},
        }
        while !done
            invariant
                done ==> hash_seq(v@) == goal,
                !done ==> cur < self.blocks@.len() && hash_seq(v@) + self@.lineage_from(cur as int)
                    == goal,
            decreases cur + if done { 0int } else { 1int },
        {
            let block = &self.blocks[cur];
            let ghost before = hash_seq(v@);
            let m = block.txs.len();
            let mut k: usize = 0;
            while k < m
                invariant
                    0 <= k <= m,
                    hash_seq(v@) == before + hash_seq(block.txs@).take(k as int),
                decreases m - k,
            {
                let ghost prev = hash_seq(v@);
                v.push(block.txs[k]);
                assert(hash_seq(v@) =~= prev.push(block.txs@[k as int]@));
                assert(hash_seq(block.txs@).take(k + 1) =~= hash_seq(block.txs@).take(k as int).push(
                    block.txs@[k as int]@,
                ));
                assert(hash_seq(v@) =~= before + hash_seq(block.txs@).take(k + 1));
                k = k + 1;
            }
            assert(hash_seq(block.txs@).take(m as int) =~= hash_seq(block.txs@));
            assert(self@.blocks[cur as int] == block@);
            match &block.parent {
                Some(p) => {
                    match self.find_block(p) {
                        Some(q) => {
                            assert(before + (block@.txs + self@.lineage_from(q as int)) =~= (before
                                + block@.txs) + self@.lineage_from(q as int));
                            cur = q;
                        },
                        None => {
                            done = true;
                        },
                    }
                },
                None => {
                    done = true;
                },
            }
        }
        v
    }

    /// Whether `lineage` is free of violations.
    #[verifier::loop_isolation(false)]
    pub(crate) fn lineage_consistent(&self, lineage: &Vec<crate::hash::Hash>) -> (ok: bool)
        requires
            distinct(self@.tx_hashes()),
            forall|a: int| 0 <= a < lineage@.len() ==> self@.has_tx(#[trigger] hash_seq(lineage@)[a]),
        ensures
            ok == self@.consistent_lineage(hash_seq(lineage@)),
    {
        let ghost hs = hash_seq(lineage@);
        let mut spent: Vec<TransactionInput> = Vec::new();
        let n = lineage.len();
        let mut a: usize = 0;
        while a < n
            invariant
                0 <= a <= n,
                inputs_view(spent@) == self@.spent_by(hs.take(a as int)),
            decreases n - a,
        {
            assert(self@.has_tx(hs[a as int]));
            let at = self.find_tx(&lineage[a]);
            let inputs = self.transactions[at.unwrap()].inputs();
            let ghost before = inputs_view(spent@);
            let ghost these = self@.tx(hs[a as int]).inputs;
            let m = inputs.len();
            let mut k: usize = 0;
            while k < m
                invariant
                    0 <= k <= m,
                    inputs_view(spent@) == before + these.take(k as int),
                decreases m - k,
            {
                let ghost prev = inputs_view(spent@);
                spent.push(inputs[k]);
                assert(these[k as int] == inputs@[k as int]@);
                assert(inputs_view(spent@) =~= prev.push(these[k as int]));
                assert(these.take(k + 1) =~= these.take(k as int).push(these[k as int]));
                assert(inputs_view(spent@) =~= before + these.take(k + 1));
                k = k + 1;
            }
            proof {
                assert(these.take(m as int) =~= these);
                assert(hs.take(a + 1).drop_last() =~= hs.take(a as int));
                assert(hs.take(a + 1).last() == hs[a as int]);
            }
            a = a + 1;
        }
        assert(hs.take(n as int) =~= hs);
        let ghost all = self@.spent_by(hs);
        let total = spent.len();
        let mut j: usize = 0;
        while j < total
            invariant
                0 <= j <= total,
                forall|x: int| 0 <= x < j ==> self@.input_sound(hs, all, x),
            decreases total - j,
        {
            let r = &spent[j];
            assert(all[j as int] == r@);
            if !contains_hash(lineage, &r.transaction_hash) {
                assert(!self@.input_sound(hs, all, j as int));
                return false;
            }
            proof {
                let w = choose|w: int| 0 <= w < hs.len() && hs[w] == r@.tx;
                assert(self@.has_tx(hs[w]));
            }
            if self.output_at(r).is_none() {
                assert(!self@.input_sound(hs, all, j as int));
                return false;
            }
            let mut j2: usize = 0;
            while j2 < total
                invariant
                    0 <= j2 <= total,
                    forall|x: int| 0 <= x < j2 && x != j ==> all[x] != all[j as int],
                decreases total - j2,
            {
                assert(all[j2 as int] == spent@[j2 as int]@);
                if j2 != j && same_input(&spent[j2], r) {
                    assert(!self@.input_sound(hs, all, j as int));
                    return false;
                }
                j2 = j2 + 1;
            }
            j = j + 1;
        }
        true
    }

    /// Whether every transaction of block `i` spends only what was paid
    /// to its payer.
    #[verifier::loop_isolation(false)]
    fn block_authorized(&self, i: usize) -> (ok: bool)
        requires
            distinct(self@.tx_hashes()),
            i < self@.blocks.len(),
            forall|k: int|
                0 <= k < self@.blocks[i as int].txs.len() ==> self@.has_tx(
                    #[trigger] self@.blocks[i as int].txs[k],
                ),
        ensures
            ok == self@.block_authorized(i as int),
    {
        let txs = &self.blocks[i].txs;
        assert(self@.blocks[i as int].txs == hash_seq(txs@));
        let n = txs.len();
        let mut k: usize = 0;
        while k < n
            invariant
                0 <= k <= n,
                forall|x: int|
                    0 <= x < k ==> self@.authorized(self@.tx(#[trigger] self@.blocks[i as int].txs[x])),
            decreases n - k,
        {
            assert(self@.has_tx(self@.blocks[i as int].txs[k as int]));
            let at = self.find_tx(&txs[k]);
            if !self.tx_authorized(&self.transactions[at.unwrap()]) {
                return false;
            }
            k = k + 1;
        }
        true
    }

    /// Whether no transaction of block `i` that spends anything pays out
    /// more than it takes in.
    #[verifier::loop_isolation(false)]
    fn block_within_credit(&self, i: usize) -> (ok: bool)
        requires
            distinct(self@.tx_hashes()),
            i < self@.blocks.len(),
            forall|k: int|
                0 <= k < self@.blocks[i as int].txs.len() ==> self@.has_tx(
                    #[trigger] self@.blocks[i as int].txs[k],
                ),
            forall|x: int|
                0 <= x < self@.txs.len() ==> (#[trigger] self@.txs[x]).inputs.len() <= 256
                    && self@.txs[x].outputs.len() <= 256,
        ensures
            ok == self@.block_within_credit(i as int),
    {
        let txs = &self.blocks[i].txs;
        assert(self@.blocks[i as int].txs == hash_seq(txs@));
        let n = txs.len();
        let mut k: usize = 0;
        while k < n
            invariant
                0 <= k <= n,
                forall|x: int|
                    0 <= x < k ==> self@.within_credit(
                        self@.tx(#[trigger] self@.blocks[i as int].txs[x]),
                    ),
            decreases n - k,
        {
            assert(self@.has_tx(self@.blocks[i as int].txs[k as int]));
            let at = self.find_tx(&txs[k]);
            assert(self@.txs[at.unwrap() as int] == self.transactions@[at.unwrap() as int]@);
            if !self.tx_within_credit(&self.transactions[at.unwrap()]) {
                return false;
            }
            k = k + 1;
        }
        true
    }

    /// Hands the transactions of `block` to the table one after another.
    /// When one is refused, none of them stays.
    #[verifier::loop_isolation(false)]
    fn store_block_transactions(&mut self, block: &Block) -> (r: Result<(), BlockchainError>)
        requires
            old(self)@.structured(),
            crate::acceptance::block_form_refusal(block@).is_none(),
        ensures
            final(self).default_key() == old(self).default_key(),
            match old(self)@.insert_all(block@.transactions) {
                Ok(l) => r.is_ok() && final(self)@ == l,
                Err(code) => final(self)@ == old(self)@ && (r matches Err(
                    BlockchainError::InvalidReceivedBlock(m),
                ) && m@ == sqlite_code_text(code)),
            },
    {
        let ghost start = self@;
        let ghost incoming = block@.transactions;
        proof {
            crate::acceptance::lemma_form_presentable(block@);
        }
        let n0 = self.transactions.len();
        let n = block.transactions.len();
        let mut i: usize = 0;
        while i < n
            invariant
                0 <= i <= n,
                start.insert_all(incoming.take(i as int)) == Ok::<Ledger, i32>(self@),
                self@.structured(),
                self.default_key() == old(self).default_key(),
            decreases n - i,
        {
            let ghost before = self@;
            let txn = &block.transactions[i];
            proof {
                assert(incoming[i as int] == txn@);
                assert(crate::acceptance::presentable(incoming[i as int]));
                assert(incoming.take(i + 1).drop_last() =~= incoming.take(i as int));
                assert(incoming.take(i + 1).last() == txn@);
            }
            match self.insert_transaction_raw(txn) {
                Ok(_) => {},
                Err(e) => {
                    proof {
                        let code = before.raw_insert_refusal(txn@).unwrap();
                        lemma_insert_all_fails_on(start, incoming, i + 1, code);
                        assert forall|k: int| 0 <= k < incoming.take(i as int).len() implies crate::acceptance::presentable(
                            #[trigger] incoming.take(i as int)[k],
                        ) by {
                            assert(incoming.take(i as int)[k] == incoming[k]);
                        }
                        crate::acceptance::lemma_insert_all_grows(start, incoming.take(i as int));
                        crate::frame::lemma_extends_rows(start, before);
                    }
                    self.transactions.truncate(n0);
                    assert(self@.txs =~= start.txs);
                    assert(self@.blocks =~= start.blocks);
                    match e {
                        BlockchainError::InvalidTxn(m) => {
                            return Err(BlockchainError::InvalidReceivedBlock(m));
                        },
                        _ => {
                            return vstd::pervasive::unreached();
                        },
                    }
                },
            }
            i = i + 1;
        }
        assert(incoming.take(n as int) =~= incoming);
        Ok(())
    }

    /// The first of the three checks on what the block at `index` spends
    /// that fails, as the reason given for it.
    fn audit_block(&self, index: usize) -> (r: Option<&'static str>)
        requires
            self@.structured(),
            index < self@.blocks.len(),
        ensures
            r.is_none() == (self@.block_authorized(index as int) && self@.block_within_credit(
                index as int,
            ) && self@.block_consistent(index as int)),
            r.is_some() ==> r.unwrap()@ == self@.audit_refusal(index as int),
    {
        proof {
            crate::ledger::lemma_structured_hashes(self@);
            crate::ledger::lemma_structured_block(self@, index as int);
            assert forall|x: int| 0 <= x < self@.txs.len() implies (#[trigger] self@.txs[x]).inputs.len()
                <= 256 && self@.txs[x].outputs.len() <= 256 by {
                crate::ledger::lemma_structured_tx(self@, x);
            }
        }
        if !self.block_authorized(index) {
            return Some(BLOCK_UNAUTHORIZED);
        }
        if !self.block_within_credit(index) {
            return Some(BLOCK_OVERSPENT);
        }
        let head: Vec<crate::hash::Hash> = Vec::new();
        let ghost head_hashes = hash_seq(head@);
        proof {
            assert forall|i: int| 0 <= i < self@.blocks.len() implies match (
            #[trigger] self@.blocks[i]).parent {
                Some(p) => self@.has_block(p) && self@.block_index(p) < i,
                None => true,
            } by {
                crate::ledger::lemma_structured_block(self@, i);
            }
        }
        let lineage = self.lineage_with(head, Some(index));
        proof {
            assert(head_hashes =~= Seq::<Seq<u8>>::empty());
            assert(Seq::<Seq<u8>>::empty() + self@.lineage_from(index as int)
                =~= self@.lineage_from(index as int));
            crate::frame::lemma_lineage_stored(self@, index as int);
        }
        if !self.lineage_consistent(&lineage) {
            return Some(BLOCK_INCONSISTENT);
        }
        None
    }

    /// Takes `block` and its transactions into the ledger, or refuses the
    /// block and leaves the ledger as it was.
    pub fn receive_block(&mut self, block: &Block) -> (r: Result<(), BlockchainError>)
        requires
            old(self).wf(),
        ensures
            final(self).wf(),
            final(self).default_key() == old(self).default_key(),
            match old(self)@.receive_block(block@) {
                Ok(l) => r.is_ok() && final(self)@ == l,
                Err(reason) => final(self)@ == old(self)@ && (r matches Err(
                    BlockchainError::InvalidReceivedBlock(m),
                ) && m@ == reason),
            },
    {
        match check_block_form(block) {
            Some(reason) => {
                return Err(BlockchainError::InvalidReceivedBlock(reason));
            },
            None => {},
        }
        proof {
            crate::ledger::lemma_structured_hashes(self@);
        }
        let mut height: u64 = 0;
        let block_rows = self.blocks.len();
        match &block.parent_hash {
            Some(p) => {
                match self.find_block(p) {
                    Some(q) => {
                        proof {
                            crate::ledger::lemma_structured_block(self@, q as int);
                            assert(self@.blocks[q as int] == self.blocks@[q as int]@);
                            assert(self@.block_shaped(q as int));
                            assert(self.blocks@[q as int].height as nat <= q);
                            assert(q < block_rows);
                        }
                        height = self.blocks[q].height + 1;
                    },
                    None => {
                        return Err(
                            BlockchainError::InvalidReceivedBlock(code_text(CODE_FOREIGN_KEY)),
                        );
                    },
                }
            },
            None => {},
        }
        let ghost start = self@;
        let n0 = self.transactions.len();
        match self.store_block_transactions(block) {
            Ok(()) => {},
            Err(e) => {
                return Err(e);
            },
        }
        let ghost mid = self@;
        proof {
            crate::acceptance::lemma_form_presentable(block@);
            crate::acceptance::lemma_insert_all_grows(start, block@.transactions);
            crate::frame::lemma_extends_rows(start, mid);
        }
        let tx_hashes = block_tx_hashes(block);
        if self.find_block(&block.block_hash).is_some() || !hashes_distinct(&tx_hashes) {
            self.transactions.truncate(n0);
            assert(self@.txs =~= start.txs);
            assert(self@.blocks =~= start.blocks);
            return Err(BlockchainError::InvalidReceivedBlock(code_text(CODE_UNIQUE)));
        }
        let index = self.blocks.len();
        self.blocks.push(
            StoredBlock {
                hash: block.block_hash,
                parent: block.parent_hash,
                height,
                nonce: block.nonce,
                txs: tx_hashes,
            },
        );
        let ghost after = self@;
        proof {
            assert(after.blocks =~= mid.blocks.push(mid.entry_for(block@)));
            assert(after == mid.with_block(block@));
            crate::acceptance::lemma_block_linked(start, mid, block@);
        }
        match self.audit_block(index) {
            Some(reason) => {
                self.blocks.pop();
                self.transactions.truncate(n0);
                assert(self@.txs =~= start.txs);
                assert(self@.blocks =~= start.blocks);
                return Err(BlockchainError::InvalidReceivedBlock(reason));
            },
            None => {},
        }
        proof {
            crate::acceptance::lemma_block_sound(start, mid, block@);
        }
        Ok(())
    }

    /// Adopts `tx`: stores it unless its hash is stored already, and keeps
    /// it only if the stored transaction of that hash spends with
    /// authority and within its credit.
    pub fn receive_tentative_transaction_internal(&mut self, tx: &Transaction) -> (r: Result<
        (),
        BlockchainError,
    >)
        requires
            old(self).wf(),
            crate::acceptance::presentable(tx@),
        ensures
            final(self).wf(),
            final(self).default_key() == old(self).default_key(),
            match old(self)@.adopt(tx@) {
                Ok(l) => r.is_ok() && final(self)@ == l,
                Err(reason) => final(self)@ == old(self)@ && (r matches Err(
                    BlockchainError::InvalidTentativeTxn(v),
                ) && rejections_view(v@) == seq![Rejection { hash: tx@.hash(), reason }]),
            },
    {
        let ghost start = self@;
        let hash = *tx.transaction_hash();
        let n0 = self.transactions.len();
        match self.insert_transaction_raw(tx) {
            Ok(_) => {},
            Err(e) => {
                match e {
                    BlockchainError::InvalidTxn(m) => {
                        return Err(single_rejection(hash, m));
                    },
                    _ => {
                        return vstd::pervasive::unreached();
                    },
                }
            },
        }
        proof {
            crate::acceptance::lemma_raw_insert_grows(start, tx@);
            crate::ledger::lemma_structured_hashes(self@);
            crate::frame::lemma_extends_rows(start, self@);
        }
        let at = self.find_tx(&hash);
        let stored = &self.transactions[at.unwrap()];
        proof {
            crate::frame::lemma_tx_found(self@, hash@);
            crate::ledger::lemma_structured_tx(self@, at.unwrap() as int);
        }
        if !self.tx_authorized(stored) {
            self.transactions.truncate(n0);
            assert(self@.txs =~= start.txs);
            assert(self@.blocks =~= start.blocks);
            return Err(single_rejection(hash, TXN_UNAUTHORIZED));
        }
        if !self.tx_within_credit(stored) {
            self.transactions.truncate(n0);
            assert(self@.txs =~= start.txs);
            assert(self@.blocks =~= start.blocks);
            return Err(single_rejection(hash, TXN_OVERSPENT));
        }
        proof {
            crate::adoption::lemma_adopt_wf(start, tx@);
        }
        Ok(())
    }

    /// Whether every transaction that `t` spends from is stored.
    #[verifier::loop_isolation(false)]
    pub(crate) fn is_ready(&self, t: &Transaction) -> (ok: bool)
        requires
            distinct(self@.tx_hashes()),
        ensures
            ok == self@.ready(t@),
    {
        let inputs = t.inputs();
        let n = inputs.len();
        let mut i: usize = 0;
        while i < n
            invariant
                0 <= i <= n,
                forall|k: int| 0 <= k < i ==> self@.has_tx((#[trigger] t@.inputs[k]).tx),
            decreases n - i,
        {
            assert(t@.inputs[i as int] == inputs@[i as int]@);
            if self.find_tx(&inputs[i].transaction_hash).is_none() {
                return false;
            }
            i = i + 1;
        }
        true
    }

    /// The orphans that are ready and those that still wait, each in
    /// order.
    #[verifier::loop_isolation(false)]
    fn split_orphans(&self) -> (r: (Vec<Transaction>, Vec<Transaction>))
        requires
            distinct(self@.tx_hashes()),
        ensures
            txs_view(r.0@) == self@.ready_among(self@.orphans),
            txs_view(r.1@) == self@.waiting_among(self@.orphans),
    {
        let mut ready: Vec<Transaction> = Vec::new();
        let mut waiting: Vec<Transaction> = Vec::new();
        let ghost all = self@.orphans;
        let n = self.orphans.len();
        let mut i: usize = 0;
        while i < n
            invariant
                0 <= i <= n,
                txs_view(ready@) == self@.ready_among(all.take(i as int)),
                txs_view(waiting@) == self@.waiting_among(all.take(i as int)),
            decreases n - i,
        {
            let o = &self.orphans[i];
            proof {
                assert(all.take(i + 1).drop_last() =~= all.take(i as int));
                assert(all.take(i + 1).last() == o@);
            }
            let ghost ready_before = txs_view(ready@);
            let ghost waiting_before = txs_view(waiting@);
            if self.is_ready(o) {
                ready.push(o.duplicate());
                assert(txs_view(ready@) =~= ready_before.push(o@));
            } else {
                waiting.push(o.duplicate());
                assert(txs_view(waiting@) =~= waiting_before.push(o@));
            }
            i = i + 1;
        }
        assert(all.take(n as int) =~= all);
        (ready, waiting)
    }

    /// Adopts the transactions of `batch` one after another, adds those
    /// that are refused to `rejected`, and says whether any was adopted.
    #[verifier::loop_isolation(false)]
    fn adopt_each(
        &mut self,
        batch: &Vec<Transaction>,
        rejected: &mut Vec<(crate::hash::Hash, &'static str)>,
    ) -> (progress: bool)
        requires
            old(self).wf(),
            forall|i: int| 0 <= i < batch@.len() ==> crate::acceptance::presentable(
                #[trigger] txs_view(batch@)[i],
            ),
        ensures
            final(self).wf(),
            final(self).default_key() == old(self).default_key(),
            final(self)@.orphans == old(self)@.orphans,
            old(self)@.adopt_each(txs_view(batch@)) == (Sweep {
                ledger: final(self)@,
                rejected: rejections_view(final(rejected)@).skip(old(rejected)@.len() as int),
                progress,
            }),
            rejections_view(final(rejected)@).take(old(rejected)@.len() as int) == rejections_view(
                old(rejected)@,
            ),
            final(rejected)@.len() >= old(rejected)@.len(),
    {
        let ghost start = self@;
        let ghost all = txs_view(batch@);
        let ghost r0 = rejected@.len() as int;
        let mut progress = false;
        let n = batch.len();
        let mut i: usize = 0;
        assert(rejections_view(rejected@).skip(r0) =~= Seq::<Rejection>::empty());
        assert(rejections_view(rejected@).take(r0) =~= rejections_view(old(rejected)@));
        while i < n
            invariant
                0 <= i <= n,
                self.wf(),
                self.default_key() == old(self).default_key(),
                self@.orphans == start.orphans,
                rejected@.len() >= r0,
                rejections_view(rejected@).take(r0) == rejections_view(old(rejected)@),
                start.adopt_each(all.take(i as int)) == (Sweep {
                    ledger: self@,
                    rejected: rejections_view(rejected@).skip(r0),
                    progress,
                }),
            decreases n - i,
        {
            let t = &batch[i];
            let ghost before = self@;
            let ghost rejected_before = rejections_view(rejected@);
            proof {
                assert(all.take(i + 1).drop_last() =~= all.take(i as int));
                assert(all.take(i + 1).last() == t@);
                assert(all[i as int] == t@);
                crate::adoption::lemma_adopt_wf_orphans(before, t@);
            }
            match self.receive_tentative_transaction_internal(t) {
                Ok(()) => {
                    progress = true;
                },
                Err(e) => {
                    match e {
                        BlockchainError::InvalidTentativeTxn(mut v) => {
                            let ghost one = rejections_view(v@);
                            rejected.append(&mut v);
                            proof {
                                assert(rejections_view(rejected@) =~= rejected_before + one);
                                assert(rejections_view(rejected@).skip(r0) =~= rejected_before.skip(
                                    r0,
                                ).push(one[0]));
                                assert(rejections_view(rejected@).take(r0) =~= rejected_before.take(
                                    r0,
                                ));
                            }
                        },
                        _ => {
                            vstd::pervasive::unreached::<()>();
                        },
                    }
                },
            }
            i = i + 1;
        }
        assert(all.take(n as int) =~= all);
        progress
    }

    /// Passes over the buffer of orphans until none is ready or a pass
    /// adopts none. Reports the transactions that were refused on the way;
    /// those that were adopted stay adopted.
    #[verifier::loop_isolation(false)]
    pub(crate) fn collect_orphaned_transactions(&mut self) -> (r: Result<(), BlockchainError>)
        requires
            old(self).wf(),
        ensures
            final(self).wf(),
            final(self).default_key() == old(self).default_key(),
            final(self)@ == old(self)@.collect(old(self)@.orphans.len()).0,
            r.is_ok() == (old(self)@.collect(old(self)@.orphans.len()).1.len() == 0),
            r.is_err() ==> (r matches Err(BlockchainError::InvalidTentativeTxn(v))
                && rejections_view(v@) == old(self)@.collect(old(self)@.orphans.len()).1
                && distinct(crate::adoption::rejected_hashes(rejections_view(v@)))),
    {
        proof {
            crate::adoption::lemma_collect_rejections(self@, self@.orphans.len());
        }
        let ghost goal = self@.collect(self@.orphans.len());
        let ghost mut fuel: nat = self@.orphans.len();
        let mut rejected: Vec<(crate::hash::Hash, &'static str)> = Vec::new();
        let mut done = false;
        assert(rejections_view(rejected@) + goal.1 =~= goal.1);
        while !done
            invariant
                self.wf(),
                self.default_key() == old(self).default_key(),
                fuel >= self@.orphans.len(),
                !done ==> goal.0 == self@.collect(fuel).0 && goal.1 == rejections_view(rejected@)
                    + self@.collect(fuel).1,
                done ==> goal.0 == self@ && goal.1 == rejections_view(rejected@),
            decreases self@.orphans.len() + if done { 0int } else { 1int },
        {
            let ghost pass_start = self@;
            let ghost rejected_before = rejections_view(rejected@);
            let r0 = rejected.len();
            proof {
                crate::ledger::lemma_structured_hashes(self@);
                crate::adoption::lemma_split(self@, self@.orphans);
            }
            let (ready, waiting) = self.split_orphans();
            if ready.len() == 0 {
                done = true;
                assert(rejected_before + Seq::<Rejection>::empty() =~= rejected_before);
            } else {
                proof {
                    assert forall|i: int| 0 <= i < txs_view(waiting@).len() implies crate::ledger::admissible(
                        #[trigger] txs_view(waiting@)[i],
                    ) by {
                        let x = txs_view(waiting@)[i];
                        assert(pass_start.orphans.contains(x));
                        let j = choose|j: int|
                            0 <= j < pass_start.orphans.len() && pass_start.orphans[j] == x;
                        crate::ledger::lemma_structured_orphan(pass_start, j);
                    }
                    assert forall|i: int| 0 <= i < ready@.len() implies crate::acceptance::presentable(
                        #[trigger] txs_view(ready@)[i],
                    ) by {
                        let x = txs_view(ready@)[i];
                        assert(pass_start.orphans.contains(x));
                        let j = choose|j: int|
                            0 <= j < pass_start.orphans.len() && pass_start.orphans[j] == x;
                        crate::ledger::lemma_structured_orphan(pass_start, j);
                    }
                    crate::adoption::lemma_with_orphans_wf(pass_start, txs_view(waiting@));
                }
                self.orphans = waiting;
                assert(self@ == pass_start.with_orphans(pass_start.waiting_among(pass_start.orphans)));
                let progress = self.adopt_each(&ready, &mut rejected);
                proof {
                    let s = pass_start.sweep();
                    assert(s.ledger == self@);
                    assert(rejections_view(rejected@) =~= rejected_before + s.rejected);
                    if progress {
                        let rest = self@.collect((fuel - 1) as nat);
                        assert((rejected_before + s.rejected) + rest.1 =~= rejected_before + (
                        s.rejected + rest.1));
                        fuel = (fuel - 1) as nat;
                    }
                }
                if !progress {
                    done = true;
                }
            }
        }
        if rejected.len() == 0 {
            Ok(())
        } else {
            Err(BlockchainError::InvalidTentativeTxn(rejected))
        }
    }

    /// Whether a transaction of hash `h` waits among the orphans.
    #[verifier::loop_isolation(false)]
    pub(crate) fn has_orphan(&self, h: &crate::hash::Hash) -> (r: bool)
        ensures
            r == self@.has_orphan(h@),
    {
        let n = self.orphans.len();
        let mut i: usize = 0;
        while i < n
            invariant
                0 <= i <= n,
                forall|j: int| 0 <= j < i ==> hashes_of(self@.orphans)[j] != h@,
            decreases n - i,
        {
            if self.orphans[i].transaction_hash().same(h) {
                assert(hashes_of(self@.orphans)[i as int] == h@);
                return true;
            }
            i = i + 1;
        }
        false
    }

    /// Takes a tentative transaction. One that fails a check on its form
    /// is refused and changes nothing. Another joins the buffer of
    /// orphans, which is then swept: every orphan whose dependencies are
    /// stored is adopted or refused, until nothing more can be adopted.
    /// The transactions refused on the way are reported together, each
    /// hash once; those adopted stay adopted.
    pub fn receive_tentative_transaction(&mut self, tx: &Transaction) -> (r: Result<
        (),
        BlockchainError,
    >)
        requires
            old(self).wf(),
        ensures
            final(self).wf(),
            final(self).default_key() == old(self).default_key(),
            final(self)@ == old(self)@.receive_tentative(tx@).0,
            r.is_ok() == (old(self)@.receive_tentative(tx@).1.len() == 0),
            r.is_err() ==> (r matches Err(BlockchainError::InvalidTentativeTxn(v))
                && rejections_view(v@) == old(self)@.receive_tentative(tx@).1
                && distinct(crate::adoption::rejected_hashes(rejections_view(v@)))),
    {
        proof {
            crate::adoption::law_rejections_distinct(self@, tx@);
        }
        let hash = *tx.transaction_hash();
        match check_tentative_form(tx) {
            Some(reason) => {
                return Err(single_rejection(hash, reason));
            },
            None => {},
        }
        if !self.has_orphan(&hash) {
            proof {
                crate::adoption::lemma_with_new_orphan(self@, tx@);
            }
            let ghost before = self@.orphans;
            self.orphans.push(tx.duplicate());
            assert(self@.orphans =~= before.push(tx@));
        }
        self.collect_orphaned_transactions()
    }

    /// The hashes of the trusted wallets.
    pub fn trusted_wallets(&self) -> (v: Vec<crate::hash::Hash>)
        ensures
            forall|h: Seq<u8>| hash_seq(v@).contains(h) == self@.trusted.contains(h),
    {
        let mut v: Vec<crate::hash::Hash> = Vec::new();
        let n = self.trustworthy.len();
        let mut i: usize = 0;
        while i < n
            invariant
                n == self.trustworthy@.len(),
                0 <= i <= n,
                v@ == self.trustworthy@.take(i as int),
            decreases n - i,
        {
            v.push(self.trustworthy[i]);
            assert(v@ =~= self.trustworthy@.take(i + 1));
            i = i + 1;
        }
        assert(self.trustworthy@.take(n as int) =~= self.trustworthy@);
        v
    }

    /// Counts the wallet of hash `h` among the trusted ones. Doing so
    /// twice changes nothing.
    pub fn make_wallet_trustworthy(&mut self, h: &crate::hash::Hash)
        ensures
            final(self)@ == (Ledger { trusted: old(self)@.trusted.insert(h@), ..old(self)@ }),
            final(self).default_key() == old(self).default_key(),
            old(self).wf() ==> final(self).wf(),
    {
        if !self.is_trusted(h) {
            self.trustworthy.push(*h);
            proof {
                let before = hash_seq(old(self).trustworthy@);
                let after = hash_seq(self.trustworthy@);
                assert forall|x: Seq<u8>| after.contains(x) == (before.contains(x) || x == h@) by {
                    if after.contains(x) {
                        let i = choose|i: int| 0 <= i < after.len() && after[i] == x;
                        if i < before.len() {
                            assert(before[i] == x);
                        }
                    }
                    if before.contains(x) {
                        let i = choose|i: int| 0 <= i < before.len() && before[i] == x;
                        assert(after[i] == x);
                    }
                    if x == h@ {
                        assert(after[before.len() as int] == x);
                    }
                }
                assert(self@.trusted =~= old(self)@.trusted.insert(h@));
            }
        } else {
            assert(self@.trusted =~= old(self)@.trusted.insert(h@));
        }
        proof {
            if old(self).wf() {
                crate::adoption::lemma_same_tables_wf(old(self)@, self@);
            }
        }
    }
}

} // verus!
