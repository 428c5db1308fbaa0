use rs_simple_blockchain::block::MINIMUM_DIFFICULTY_LEVEL;
use rs_simple_blockchain::amount::Amount;
use rs_simple_blockchain::amount::BLOCK_REWARD_UNITS;
use rs_simple_blockchain::amount::MAX_MONEY_UNITS;
use rs_simple_blockchain::block::Block;
use rs_simple_blockchain::error::BlockchainError;
use rs_simple_blockchain::hash;
use rs_simple_blockchain::reasons;
use rs_simple_blockchain::storage::BlockchainStats;
use rs_simple_blockchain::storage::BlockchainStorage;
use rs_simple_blockchain::transaction::PayerPublicKey;
use rs_simple_blockchain::transaction::Signature;
use rs_simple_blockchain::transaction::Transaction;
use rs_simple_blockchain::transaction::TransactionInput;
use rs_simple_blockchain::transaction::TransactionOutput;
use rs_simple_blockchain::wallet::Wallet;

fn solved(txs: Vec<Transaction>, parent: Option<hash::Hash>) -> Block {
    let mut b = Block::new(0, txs, parent, hash::Hash::zeroes());
    assert!(b.solve_hash_challenge(MINIMUM_DIFFICULTY_LEVEL, None));
    b
}

fn refusal(r: Result<(), BlockchainError>) -> &'static str {
    match r {
        Err(BlockchainError::InvalidReceivedBlock(m)) => m,
        other => panic!("expected a refused block, got {:?}", other),
    }
}

fn rejections(r: Result<(), BlockchainError>) -> Vec<(hash::Hash, &'static str)> {
    match r {
        Err(BlockchainError::InvalidTentativeTxn(v)) => v,
        other => panic!("expected refused transactions, got {:?}", other),
    }
}

fn pay(amount: u64, to: &Wallet) -> TransactionOutput {
    TransactionOutput { amount: Amount(amount), recipient_hash: *to.public_key_hash() }
}

fn spend(t: &Transaction, index: u16) -> TransactionInput {
    TransactionInput { transaction_hash: *t.transaction_hash(), output_index: index }
}

fn with_genesis(w: &Wallet) -> (BlockchainStorage, Block) {
    let mut bs = BlockchainStorage::new(w.duplicate());
    let block = solved(vec![w.create_reward().unwrap()], None);
    bs.receive_block(&block).unwrap();
    (bs, block)
}

#[test]
fn block_with_too_many_transactions_is_refused() {
    let w = Wallet::new().unwrap();
    let mut bs = BlockchainStorage::new(w.duplicate());
    let reward = w.create_reward().unwrap();
    let mut txs = vec![];
    for _ in 0..2001 {
        txs.push(reward.duplicate());
    }
    let b = Block::new(0, txs, None, hash::Hash::zeroes());
    assert_eq!(refusal(bs.receive_block(&b)), reasons::BLOCK_TOO_MANY_TXNS);
    assert_eq!(bs.produce_stats(), BlockchainStats { block_count: 0, pending_txn_count: 0 });
}

#[test]
fn block_with_wide_nonce_is_refused() {
    let w = Wallet::new().unwrap();
    let mut bs = BlockchainStorage::new(w.duplicate());
    let b = Block::new(1u64 << 63, vec![w.create_reward().unwrap()], None, hash::Hash::zeroes());
    assert_eq!(refusal(bs.receive_block(&b)), reasons::BLOCK_NONCE_RANGE);
}

#[test]
fn block_without_reward_is_refused() {
    let w = Wallet::new().unwrap();
    let mut bs = BlockchainStorage::new(w.duplicate());
    let empty = Block::new(0, vec![], None, hash::Hash::zeroes());
    assert_eq!(refusal(bs.receive_block(&empty)), reasons::BLOCK_REWARD_SHAPE);
    let small = w.create_raw_transaction(vec![], vec![pay(BLOCK_REWARD_UNITS - 1, &w)]).unwrap();
    assert_eq!(
        refusal(bs.receive_block(&Block::new(0, vec![small], None, hash::Hash::zeroes()))),
        reasons::BLOCK_REWARD_SHAPE
    );
    let reward = w.create_reward().unwrap();
    let with_input = w.create_raw_transaction(vec![spend(&reward, 0)], vec![pay(BLOCK_REWARD_UNITS, &w)]).unwrap();
    assert_eq!(
        refusal(bs.receive_block(&Block::new(0, vec![with_input], None, hash::Hash::zeroes()))),
        reasons::BLOCK_REWARD_SHAPE
    );
    let other = Wallet::new().unwrap();
    let two = w
        .create_raw_transaction(vec![], vec![pay(BLOCK_REWARD_UNITS, &w), pay(BLOCK_REWARD_UNITS, &other)])
        .unwrap();
    assert_eq!(
        refusal(bs.receive_block(&Block::new(0, vec![two], None, hash::Hash::zeroes()))),
        reasons::BLOCK_REWARD_SHAPE
    );
}

#[test]
fn block_with_malformed_transactions_is_refused() {
    let w = Wallet::new().unwrap();
    let other = Wallet::new().unwrap();
    let mut bs = BlockchainStorage::new(w.duplicate());
    let reward = w.create_reward().unwrap();
    let no_outputs = w.create_raw_transaction(vec![spend(&reward, 0)], vec![]).unwrap();
    let b = Block::new(0, vec![reward.duplicate(), no_outputs], None, hash::Hash::zeroes());
    assert_eq!(refusal(bs.receive_block(&b)), reasons::BLOCK_OUTPUT_COUNT);
    let no_inputs = w.create_raw_transaction(vec![], vec![pay(1, &other)]).unwrap();
    let b = Block::new(0, vec![reward.duplicate(), no_inputs], None, hash::Hash::zeroes());
    assert_eq!(refusal(bs.receive_block(&b)), reasons::BLOCK_INPUT_COUNT);
    let too_much = w
        .create_raw_transaction(vec![spend(&reward, 0)], vec![pay(MAX_MONEY_UNITS + 1, &other)])
        .unwrap();
    let b = Block::new(0, vec![reward.duplicate(), too_much], None, hash::Hash::zeroes());
    assert_eq!(refusal(bs.receive_block(&b)), reasons::BLOCK_AMOUNT_RANGE);
    let twice = w
        .create_raw_transaction(vec![spend(&reward, 0)], vec![pay(1, &other), pay(2, &other)])
        .unwrap();
    let b = Block::new(0, vec![reward.duplicate(), twice], None, hash::Hash::zeroes());
    assert_eq!(refusal(bs.receive_block(&b)), reasons::BLOCK_RECIPIENTS);
    let mut inputs = vec![];
    for i in 0..257u16 {
        inputs.push(spend(&reward, i));
    }
    let crowded = w.create_raw_transaction(inputs, vec![pay(1, &other)]).unwrap();
    let b = Block::new(0, vec![reward.duplicate(), crowded], None, hash::Hash::zeroes());
    assert_eq!(refusal(bs.receive_block(&b)), reasons::BLOCK_INPUT_COUNT);
}

#[test]
fn block_with_wrong_hash_is_refused() {
    let w = Wallet::new().unwrap();
    let mut bs = BlockchainStorage::new(w.duplicate());
    let unsolved = Block::new(0, vec![w.create_reward().unwrap()], None, hash::Hash::zeroes());
    assert_eq!(refusal(bs.receive_block(&unsolved)), reasons::BLOCK_HASH);
    let mut good = solved(vec![w.create_reward().unwrap()], None);
    good.nonce += 1;
    assert_eq!(refusal(bs.receive_block(&good)), reasons::BLOCK_HASH);
    let mut easy = Block::new(0, vec![w.create_reward().unwrap()], None, hash::Hash::zeroes());
    assert!(easy.solve_hash_challenge(0, None));
    if !easy.block_hash.has_difficulty(MINIMUM_DIFFICULTY_LEVEL) {
        assert_eq!(refusal(bs.receive_block(&easy)), reasons::BLOCK_HASH);
    }
}

#[test]
fn block_with_bad_signature_is_refused() {
    let w = Wallet::new().unwrap();
    let mut bs = BlockchainStorage::new(w.duplicate());
    let reward = w.create_reward().unwrap();
    let other = Wallet::new().unwrap();
    let forged = Transaction::new(
        PayerPublicKey(other.public_serialized().0.clone()),
        vec![],
        vec![pay(BLOCK_REWARD_UNITS, &w)],
        Signature(reward.signature().0.clone()),
    );
    let b = solved(vec![forged], None);
    assert_eq!(refusal(bs.receive_block(&b)), reasons::BLOCK_SIGNATURES);
    assert_eq!(bs.produce_stats().block_count, 0);
}

#[test]
fn block_on_unknown_parent_is_refused() {
    let w = Wallet::new().unwrap();
    let mut bs = BlockchainStorage::new(w.duplicate());
    let b = solved(vec![w.create_reward().unwrap()], Some(hash::Hash::sha256(b"nowhere")));
    assert_eq!(refusal(bs.receive_block(&b)), libsqlite3_sys::code_to_str(reasons::CODE_FOREIGN_KEY));
    assert_eq!(bs.produce_stats().block_count, 0);
    assert!(bs.get_block_by_hash(&b.block_hash).is_none());
}

#[test]
fn same_block_twice_changes_nothing() {
    let w = Wallet::new().unwrap();
    let (mut bs, genesis) = with_genesis(&w);
    let stats = bs.produce_stats();
    let balance = bs.find_wallet_balance(w.public_key_hash(), 0);
    assert_eq!(refusal(bs.receive_block(&genesis)), libsqlite3_sys::code_to_str(reasons::CODE_UNIQUE));
    assert_eq!(bs.produce_stats(), stats);
    assert_eq!(bs.find_wallet_balance(w.public_key_hash(), 0), balance);
    assert_eq!(bs.transaction_count(), 1);
    assert_eq!(bs.block_rows(), 1);
}

#[test]
fn block_with_same_transaction_twice_is_refused() {
    let w = Wallet::new().unwrap();
    let other = Wallet::new().unwrap();
    let (mut bs, genesis) = with_genesis(&w);
    let t = w.create_raw_transaction(vec![spend(&genesis.transactions[0], 0)], vec![pay(5, &other)]).unwrap();
    let b = solved(vec![w.create_reward().unwrap(), t.duplicate(), t], Some(genesis.block_hash));
    assert_eq!(refusal(bs.receive_block(&b)), libsqlite3_sys::code_to_str(reasons::CODE_UNIQUE));
    assert_eq!(bs.transaction_count(), 1);
}

#[test]
fn block_with_empty_output_is_refused_by_the_table() {
    let w = Wallet::new().unwrap();
    let other = Wallet::new().unwrap();
    let (mut bs, genesis) = with_genesis(&w);
    let t = w.create_raw_transaction(vec![spend(&genesis.transactions[0], 0)], vec![pay(0, &other)]).unwrap();
    let b = solved(vec![w.create_reward().unwrap(), t], Some(genesis.block_hash));
    assert_eq!(refusal(bs.receive_block(&b)), libsqlite3_sys::code_to_str(reasons::CODE_CHECK));
    assert_eq!(bs.transaction_count(), 1);
    assert_eq!(bs.block_rows(), 1);
}

#[test]
fn block_that_spends_what_is_not_stored_is_refused_by_the_table() {
    let w = Wallet::new().unwrap();
    let other = Wallet::new().unwrap();
    let (mut bs, genesis) = with_genesis(&w);
    let t = w.create_raw_transaction(vec![spend(&genesis.transactions[0], 1)], vec![pay(5, &other)]).unwrap();
    let b = solved(vec![w.create_reward().unwrap(), t], Some(genesis.block_hash));
    assert_eq!(refusal(bs.receive_block(&b)), libsqlite3_sys::code_to_str(reasons::CODE_FOREIGN_KEY));
    assert_eq!(bs.transaction_count(), 1);
}

#[test]
fn block_that_spends_without_authority_is_refused() {
    let w = Wallet::new().unwrap();
    let thief = Wallet::new().unwrap();
    let (mut bs, genesis) = with_genesis(&w);
    let t = thief
        .create_raw_transaction(vec![spend(&genesis.transactions[0], 0)], vec![pay(5, &thief)])
        .unwrap();
    let b = solved(vec![thief.create_reward().unwrap(), t], Some(genesis.block_hash));
    assert_eq!(refusal(bs.receive_block(&b)), reasons::BLOCK_UNAUTHORIZED);
    assert_eq!(bs.transaction_count(), 1);
    assert_eq!(bs.block_rows(), 1);
}

#[test]
fn block_that_overspends_is_refused() {
    let w = Wallet::new().unwrap();
    let other = Wallet::new().unwrap();
    let (mut bs, genesis) = with_genesis(&w);
    let t = w
        .create_raw_transaction(vec![spend(&genesis.transactions[0], 0)], vec![pay(BLOCK_REWARD_UNITS + 1, &other)])
        .unwrap();
    let b = solved(vec![w.create_reward().unwrap(), t], Some(genesis.block_hash));
    assert_eq!(refusal(bs.receive_block(&b)), reasons::BLOCK_OVERSPENT);
    let exact = w
        .create_raw_transaction(vec![spend(&genesis.transactions[0], 0)], vec![pay(BLOCK_REWARD_UNITS, &other)])
        .unwrap();
    let b = solved(vec![w.create_reward().unwrap(), exact], Some(genesis.block_hash));
    bs.receive_block(&b).unwrap();
    assert_eq!(bs.find_wallet_balance(other.public_key_hash(), 0), Some(BLOCK_REWARD_UNITS));
}

#[test]
fn block_that_spends_twice_is_refused() {
    let w = Wallet::new().unwrap();
    let a = Wallet::new().unwrap();
    let b = Wallet::new().unwrap();
    let (mut bs, genesis) = with_genesis(&w);
    let t1 = w.create_raw_transaction(vec![spend(&genesis.transactions[0], 0)], vec![pay(5, &a)]).unwrap();
    let t2 = w.create_raw_transaction(vec![spend(&genesis.transactions[0], 0)], vec![pay(6, &b)]).unwrap();
    let both = solved(
        vec![w.create_reward().unwrap(), t1.duplicate(), t2.duplicate()],
        Some(genesis.block_hash),
    );
    assert_eq!(refusal(bs.receive_block(&both)), reasons::BLOCK_INCONSISTENT);
    assert_eq!(bs.transaction_count(), 1);
    let first = solved(vec![w.create_reward().unwrap(), t1], Some(genesis.block_hash));
    bs.receive_block(&first).unwrap();
    let second = solved(vec![w.create_reward().unwrap(), t2.duplicate()], Some(first.block_hash));
    assert_eq!(refusal(bs.receive_block(&second)), reasons::BLOCK_INCONSISTENT);
    let fork = solved(vec![w.create_reward().unwrap(), t2], Some(genesis.block_hash));
    bs.receive_block(&fork).unwrap();
    assert_eq!(bs.block_rows(), 3);
}

#[test]
fn block_that_spends_from_another_branch_is_refused() {
    let w = Wallet::new().unwrap();
    let a = Wallet::new().unwrap();
    let (mut bs, genesis) = with_genesis(&w);
    let left = solved(vec![w.create_reward().unwrap()], Some(genesis.block_hash));
    bs.receive_block(&left).unwrap();
    let t = w.create_raw_transaction(vec![spend(&left.transactions[0], 0)], vec![pay(5, &a)]).unwrap();
    let right = solved(vec![a.create_reward().unwrap(), t], Some(genesis.block_hash));
    assert_eq!(refusal(bs.receive_block(&right)), reasons::BLOCK_INCONSISTENT);
}

#[test]
fn longest_chain_prefers_height_then_age() {
    let w = Wallet::new().unwrap();
    let (mut bs, genesis) = with_genesis(&w);
    assert_eq!(bs.get_longest_chain(), vec![(genesis.block_hash, 0)]);
    let left = solved(vec![w.create_reward().unwrap()], Some(genesis.block_hash));
    let right = solved(vec![w.create_reward().unwrap()], Some(genesis.block_hash));
    bs.receive_block(&left).unwrap();
    bs.receive_block(&right).unwrap();
    assert_eq!(bs.get_longest_chain(), vec![(left.block_hash, 1), (genesis.block_hash, 0)]);
    assert_eq!(bs.produce_stats().block_count, 2);
    assert_eq!(bs.find_wallet_balance(w.public_key_hash(), 0), Some(2 * BLOCK_REWARD_UNITS));
    let top = solved(vec![w.create_reward().unwrap()], Some(right.block_hash));
    bs.receive_block(&top).unwrap();
    assert_eq!(
        bs.get_longest_chain(),
        vec![(top.block_hash, 2), (right.block_hash, 1), (genesis.block_hash, 0)]
    );
    assert_eq!(bs.produce_stats().block_count, 3);
    assert_eq!(bs.find_wallet_balance(w.public_key_hash(), 0), Some(3 * BLOCK_REWARD_UNITS));
    assert_eq!(bs.find_wallet_balance(w.public_key_hash(), 1), Some(3 * BLOCK_REWARD_UNITS));
    assert_eq!(bs.find_wallet_balance(w.public_key_hash(), 2), Some(2 * BLOCK_REWARD_UNITS));
    assert_eq!(bs.find_wallet_balance(w.public_key_hash(), 3), Some(BLOCK_REWARD_UNITS));
    assert_eq!(bs.find_wallet_balance(w.public_key_hash(), 4), Some(0));
    assert_eq!(bs.get_mineable_tentative_transactions(None).1, Some(top.block_hash));
}

#[test]
fn reward_off_the_longest_chain_counts_only_for_a_trusted_miner() {
    let w = Wallet::new().unwrap();
    let miner = Wallet::new().unwrap();
    let (mut bs, genesis) = with_genesis(&w);
    let left = solved(vec![w.create_reward().unwrap()], Some(genesis.block_hash));
    let right = solved(vec![miner.create_reward().unwrap()], Some(genesis.block_hash));
    bs.receive_block(&left).unwrap();
    bs.receive_block(&right).unwrap();
    assert_eq!(bs.find_wallet_balance(miner.public_key_hash(), 0), Some(0));
    bs.make_wallet_trustworthy(miner.public_key_hash());
    assert_eq!(bs.find_wallet_balance(miner.public_key_hash(), 0), Some(BLOCK_REWARD_UNITS));
    assert_eq!(bs.find_wallet_balance(miner.public_key_hash(), 1), Some(0));
    assert!(bs.get_all_tentative_transactions().is_empty());
}

#[test]
fn tentative_transaction_form_is_checked() {
    let w = Wallet::new().unwrap();
    let other = Wallet::new().unwrap();
    let (mut bs, genesis) = with_genesis(&w);
    let source = spend(&genesis.transactions[0], 0);
    let no_inputs = w.create_raw_transaction(vec![], vec![pay(1, &other)]).unwrap();
    assert_eq!(
        rejections(bs.receive_tentative_transaction(&no_inputs)),
        vec![(*no_inputs.transaction_hash(), reasons::TXN_COUNTS)]
    );
    let no_outputs = w.create_raw_transaction(vec![source], vec![]).unwrap();
    assert_eq!(
        rejections(bs.receive_tentative_transaction(&no_outputs)),
        vec![(*no_outputs.transaction_hash(), reasons::TXN_COUNTS)]
    );
    let too_much = w.create_raw_transaction(vec![source], vec![pay(MAX_MONEY_UNITS + 1, &other)]).unwrap();
    assert_eq!(
        rejections(bs.receive_tentative_transaction(&too_much)),
        vec![(*too_much.transaction_hash(), reasons::TXN_AMOUNT_RANGE)]
    );
    let twice = w.create_raw_transaction(vec![source], vec![pay(1, &other), pay(2, &other)]).unwrap();
    assert_eq!(
        rejections(bs.receive_tentative_transaction(&twice)),
        vec![(*twice.transaction_hash(), reasons::TXN_RECIPIENTS)]
    );
    let good = w.create_raw_transaction(vec![source], vec![pay(1, &other)]).unwrap();
    let forged = Transaction::new(
        PayerPublicKey(other.public_serialized().0.clone()),
        vec![source],
        vec![pay(1, &other)],
        Signature(good.signature().0.clone()),
    );
    assert_eq!(
        rejections(bs.receive_tentative_transaction(&forged)),
        vec![(*forged.transaction_hash(), reasons::TXN_SIGNATURE)]
    );
    assert_eq!(bs.transaction_count(), 1);
    assert_eq!(bs.produce_stats().pending_txn_count, 0);
}

#[test]
fn tentative_transaction_is_refused_on_adoption() {
    let w = Wallet::new().unwrap();
    let thief = Wallet::new().unwrap();
    let (mut bs, genesis) = with_genesis(&w);
    let source = spend(&genesis.transactions[0], 0);
    let stolen = thief.create_raw_transaction(vec![source], vec![pay(1, &thief)]).unwrap();
    assert_eq!(
        rejections(bs.receive_tentative_transaction(&stolen)),
        vec![(*stolen.transaction_hash(), reasons::TXN_UNAUTHORIZED)]
    );
    let greedy = w.create_raw_transaction(vec![source], vec![pay(BLOCK_REWARD_UNITS + 1, &thief)]).unwrap();
    assert_eq!(
        rejections(bs.receive_tentative_transaction(&greedy)),
        vec![(*greedy.transaction_hash(), reasons::TXN_OVERSPENT)]
    );
    let empty = w.create_raw_transaction(vec![source], vec![pay(0, &thief)]).unwrap();
    assert_eq!(
        rejections(bs.receive_tentative_transaction(&empty)),
        vec![(*empty.transaction_hash(), libsqlite3_sys::code_to_str(reasons::CODE_CHECK))]
    );
    let nowhere = w
        .create_raw_transaction(vec![spend(&genesis.transactions[0], 7)], vec![pay(1, &thief)])
        .unwrap();
    assert_eq!(
        rejections(bs.receive_tentative_transaction(&nowhere)),
        vec![(*nowhere.transaction_hash(), libsqlite3_sys::code_to_str(reasons::CODE_FOREIGN_KEY))]
    );
    assert_eq!(bs.transaction_count(), 1);
    assert!(bs.get_all_tentative_transactions().is_empty());
    bs.receive_tentative_transaction(&w.create_raw_transaction(vec![source], vec![pay(1, &thief)]).unwrap())
        .unwrap();
    assert_eq!(bs.transaction_count(), 2);
}

#[test]
fn orphan_waits_for_what_it_spends() {
    let w = Wallet::new().unwrap();
    let a = Wallet::new().unwrap();
    let b = Wallet::new().unwrap();
    let (mut bs, genesis) = with_genesis(&w);
    let t1 = w.create_raw_transaction(vec![spend(&genesis.transactions[0], 0)], vec![pay(100, &a)]).unwrap();
    let t2 = a.create_raw_transaction(vec![spend(&t1, 0)], vec![pay(60, &b), pay(40, &a)]).unwrap();
    let t3 = b.create_raw_transaction(vec![spend(&t2, 0)], vec![pay(60, &w)]).unwrap();
    bs.receive_tentative_transaction(&t3).unwrap();
    bs.receive_tentative_transaction(&t2).unwrap();
    assert_eq!(bs.transaction_count(), 1);
    assert!(bs.get_all_tentative_transactions().is_empty());
    bs.receive_tentative_transaction(&t3).unwrap();
    assert_eq!(bs.transaction_count(), 1);
    bs.receive_tentative_transaction(&t1).unwrap();
    assert_eq!(bs.transaction_count(), 4);
    let tentative = bs.get_all_tentative_transactions();
    assert_eq!(tentative.len(), 3);
    assert_eq!(tentative[0], t1);
    assert_eq!(tentative[1], t2);
    assert_eq!(tentative[2], t3);
    assert_eq!(bs.produce_stats().pending_txn_count, 3);
}

#[test]
fn refused_orphan_is_reported_and_the_rest_is_kept() {
    let w = Wallet::new().unwrap();
    let a = Wallet::new().unwrap();
    let thief = Wallet::new().unwrap();
    let (mut bs, genesis) = with_genesis(&w);
    let t1 = w.create_raw_transaction(vec![spend(&genesis.transactions[0], 0)], vec![pay(100, &a)]).unwrap();
    let stolen = thief.create_raw_transaction(vec![spend(&t1, 0)], vec![pay(100, &thief)]).unwrap();
    bs.receive_tentative_transaction(&stolen).unwrap();
    assert_eq!(
        rejections(bs.receive_tentative_transaction(&t1)),
        vec![(*stolen.transaction_hash(), reasons::TXN_UNAUTHORIZED)]
    );
    assert_eq!(bs.transaction_count(), 2);
    assert_eq!(bs.get_all_tentative_transactions(), vec![t1.duplicate()]);
    bs.receive_tentative_transaction(&t1).unwrap();
    assert_eq!(bs.transaction_count(), 2);
}

#[test]
fn same_transaction_twice_changes_nothing() {
    let w = Wallet::new().unwrap();
    let a = Wallet::new().unwrap();
    let (mut bs, genesis) = with_genesis(&w);
    let t1 = w.create_raw_transaction(vec![spend(&genesis.transactions[0], 0)], vec![pay(100, &a)]).unwrap();
    bs.receive_tentative_transaction(&t1).unwrap();
    let count = bs.transaction_count();
    let stats = bs.produce_stats();
    bs.receive_tentative_transaction(&t1).unwrap();
    bs.receive_tentative_transaction_internal(&t1).unwrap();
    assert_eq!(bs.transaction_count(), count);
    assert_eq!(bs.produce_stats(), stats);
}

#[test]
fn transfer_needs_enough_balance() {
    let w = Wallet::new().unwrap();
    let a = Wallet::new().unwrap();
    let (mut bs, _genesis) = with_genesis(&w);
    match bs.create_simple_transaction(None, Amount(BLOCK_REWARD_UNITS + 1), a.public_key_hash()) {
        Err(BlockchainError::InsufficientBalance { requested_amount, available_amount }) => {
            assert_eq!(requested_amount, Amount(BLOCK_REWARD_UNITS + 1));
            assert_eq!(available_amount, Amount(BLOCK_REWARD_UNITS));
        },
        other => panic!("expected an insufficient balance, got {:?}", other),
    }
    match bs.create_simple_transaction(Some(&a), Amount(0), w.public_key_hash()) {
        Err(BlockchainError::InsufficientBalance { requested_amount, available_amount }) => {
            assert_eq!(requested_amount, Amount(0));
            assert_eq!(available_amount, Amount(0));
        },
        other => panic!("expected an insufficient balance, got {:?}", other),
    }
    assert_eq!(bs.transaction_count(), 1);
    assert_eq!(bs.trusted_wallets().len(), 2);
}

#[test]
fn transfer_pays_the_recipient_and_returns_the_change() {
    let w = Wallet::new().unwrap();
    let a = Wallet::new().unwrap();
    let (mut bs, genesis) = with_genesis(&w);
    let t = bs.create_simple_transaction(Some(&w), Amount(300), a.public_key_hash()).unwrap();
    assert_eq!(t.inputs(), &vec![spend(&genesis.transactions[0], 0)]);
    assert_eq!(t.outputs(), &vec![pay(300, &a), pay(BLOCK_REWARD_UNITS - 300, &w)]);
    assert!(t.verify_signature());
    assert_eq!(bs.find_wallet_balance(a.public_key_hash(), 0), Some(300));
    assert_eq!(bs.find_wallet_balance(a.public_key_hash(), 1), Some(0));
    let exact = bs
        .create_simple_transaction(None, Amount(BLOCK_REWARD_UNITS - 300), a.public_key_hash())
        .unwrap();
    assert_eq!(exact.inputs(), &vec![spend(&t, 1)]);
    assert_eq!(exact.outputs(), &vec![pay(BLOCK_REWARD_UNITS - 300, &a)]);
    assert_eq!(bs.find_wallet_balance(w.public_key_hash(), 0), Some(0));
    assert_eq!(bs.find_wallet_balance(a.public_key_hash(), 0), Some(BLOCK_REWARD_UNITS));
}

#[test]
fn transfer_to_oneself_makes_one_output() {
    let w = Wallet::new().unwrap();
    let (mut bs, genesis) = with_genesis(&w);
    let t = bs.create_simple_transaction(None, Amount(300), w.public_key_hash()).unwrap();
    assert_eq!(t.inputs(), &vec![spend(&genesis.transactions[0], 0)]);
    assert_eq!(t.outputs(), &vec![pay(BLOCK_REWARD_UNITS, &w)]);
    assert_eq!(bs.find_wallet_balance(w.public_key_hash(), 0), Some(BLOCK_REWARD_UNITS));
}

#[test]
fn transfer_of_nothing_is_refused_by_the_table() {
    let w = Wallet::new().unwrap();
    let a = Wallet::new().unwrap();
    let (mut bs, _genesis) = with_genesis(&w);
    match bs.create_simple_transaction(None, Amount(0), a.public_key_hash()) {
        Err(BlockchainError::InvalidTentativeTxn(v)) => {
            assert_eq!(v.len(), 1);
            assert_eq!(v[0].1, libsqlite3_sys::code_to_str(reasons::CODE_CHECK));
        },
        other => panic!("expected a refused transaction, got {:?}", other),
    }
    assert_eq!(bs.transaction_count(), 1);
}

#[test]
fn transfer_gathers_several_outputs() {
    let w = Wallet::new().unwrap();
    let a = Wallet::new().unwrap();
    let (mut bs, genesis) = with_genesis(&w);
    let second = solved(vec![w.create_reward().unwrap()], Some(genesis.block_hash));
    bs.receive_block(&second).unwrap();
    let t = bs
        .create_simple_transaction(None, Amount(BLOCK_REWARD_UNITS + 5), a.public_key_hash())
        .unwrap();
    assert_eq!(
        t.inputs(),
        &vec![spend(&genesis.transactions[0], 0), spend(&second.transactions[0], 0)]
    );
    assert_eq!(t.outputs(), &vec![pay(BLOCK_REWARD_UNITS + 5, &a), pay(BLOCK_REWARD_UNITS - 5, &w)]);
    let rows = bs.utxo_rows(w.public_key_hash(), 0);
    assert_eq!(rows, vec![(spend(&t, 1), Amount(BLOCK_REWARD_UNITS - 5))]);
}

#[test]
fn mineable_transactions_fit_the_next_block() {
    let w = Wallet::new().unwrap();
    let a = Wallet::new().unwrap();
    let b = Wallet::new().unwrap();
    let (mut bs, genesis) = with_genesis(&w);
    let t1 = w.create_raw_transaction(vec![spend(&genesis.transactions[0], 0)], vec![pay(100, &a)]).unwrap();
    let t2 = w.create_raw_transaction(vec![spend(&genesis.transactions[0], 0)], vec![pay(100, &b)]).unwrap();
    let t3 = a.create_raw_transaction(vec![spend(&t1, 0)], vec![pay(100, &b)]).unwrap();
    bs.receive_tentative_transaction(&t1).unwrap();
    bs.receive_tentative_transaction(&t2).unwrap();
    bs.receive_tentative_transaction(&t3).unwrap();
    assert_eq!(bs.get_all_tentative_transactions().len(), 3);
    let (txs, parent) = bs.get_mineable_tentative_transactions(None);
    assert_eq!(parent, Some(genesis.block_hash));
    assert_eq!(txs, vec![t1.duplicate(), t3.duplicate()]);
    let (one, _) = bs.get_mineable_tentative_transactions(Some(1));
    assert_eq!(one, vec![t1.duplicate()]);
    let (none, _) = bs.get_mineable_tentative_transactions(Some(0));
    assert!(none.is_empty());
    assert_eq!(bs.transaction_count(), 4);
    assert_eq!(bs.block_rows(), 1);
    let mut block = bs.prepare_mineable_block(Some(&b)).unwrap();
    assert_eq!(block.transactions.len(), 3);
    assert_eq!(block.parent_hash, Some(genesis.block_hash));
    assert!(block.transactions[0].is_reward());
    assert_eq!(block.transactions[0].outputs()[0].recipient_hash, *b.public_key_hash());
    assert!(block.solve_hash_challenge(MINIMUM_DIFFICULTY_LEVEL, None));
    bs.receive_block(&block).unwrap();
    assert_eq!(bs.get_all_tentative_transactions(), vec![t2]);
    assert!(bs.get_mineable_tentative_transactions(None).0.is_empty());
    assert_eq!(bs.find_wallet_balance(b.public_key_hash(), 0), Some(BLOCK_REWARD_UNITS + 100));
    assert_eq!(bs.find_wallet_balance(a.public_key_hash(), 0), Some(0));
}

#[test]
fn unknown_block_is_not_found() {
    let w = Wallet::new().unwrap();
    let (bs, genesis) = with_genesis(&w);
    assert!(bs.get_block_by_hash(&hash::Hash::zeroes()).is_none());
    assert_eq!(bs.get_block_by_hash(&genesis.block_hash), Some(genesis));
}

#[test]
fn stored_rows_obey_the_laws() {
    let w = Wallet::new().unwrap();
    let a = Wallet::new().unwrap();
    let (mut bs, genesis) = with_genesis(&w);
    let t = bs.create_simple_transaction(None, Amount(700), a.public_key_hash()).unwrap();
    let mut block = bs.prepare_mineable_block(None).unwrap();
    assert!(block.solve_hash_challenge(MINIMUM_DIFFICULTY_LEVEL, None));
    bs.receive_block(&block).unwrap();
    for i in 0..bs.transaction_count() {
        assert!(bs.transaction_at(i).verify_signature());
    }
    for (h, _) in bs.get_longest_chain() {
        let b = bs.get_block_by_hash(&h).unwrap();
        assert!(b.transactions[0].is_reward());
        for stored in &b.transactions {
            let paid: u64 = stored.outputs().iter().map(|o| o.amount.0).sum();
            if stored.input_count() > 0 {
                assert_eq!(stored, &t);
                assert!(paid <= BLOCK_REWARD_UNITS);
            }
            assert!(!bs.get_all_tentative_transactions().contains(stored));
        }
    }
    assert_eq!(bs.get_longest_chain().len(), 2);
    assert_eq!(bs.get_longest_chain()[1], (genesis.block_hash, 0));
    assert!(bs.is_spent(&spend(&genesis.transactions[0], 0)));
    assert!(!bs.is_spent(&spend(&t, 0)));
}

#[test]
fn transfer_fails_when_the_wallet_cannot_sign() {
    let w = Wallet::new().unwrap();
    let a = Wallet::new().unwrap();
    let (mut bs, _genesis) = with_genesis(&w);
    let group = openssl::ec::EcGroup::from_curve_name(openssl::nid::Nid::SECP256K1).unwrap();
    let other_key = openssl::ec::EcKey::generate(&group).unwrap();
    let mismatched =
        Wallet::from_parts(other_key, true, Some(714), Some(w.public_serialized().0.clone())).unwrap();
    assert_eq!(mismatched.public_key_hash(), w.public_key_hash());
    match bs.create_simple_transaction(Some(&mismatched), Amount(5), a.public_key_hash()) {
        Err(BlockchainError::SigningFailed) => {},
        other => panic!("expected a failed signature, got {:?}", other),
    }
    assert_eq!(bs.transaction_count(), 1);
    assert!(bs.prepare_mineable_block(Some(&mismatched)).is_none());
    assert!(Block::new_mine_block(&mismatched).is_none());
}

#[test]
fn transfer_counts_every_output_of_the_sender() {
    let w = Wallet::new().unwrap();
    let a = Wallet::new().unwrap();
    let b = Wallet::new().unwrap();
    let (mut bs, _genesis) = with_genesis(&w);
    for _ in 0..257 {
        bs.create_simple_transaction(None, Amount(1), a.public_key_hash()).unwrap();
    }
    assert_eq!(bs.utxo_rows(a.public_key_hash(), 0).len(), 257);
    assert_eq!(bs.find_wallet_balance(a.public_key_hash(), 0), Some(257));
    match bs.create_simple_transaction(Some(&a), Amount(300), b.public_key_hash()) {
        Err(BlockchainError::InsufficientBalance { requested_amount, available_amount }) => {
            assert_eq!(requested_amount, Amount(300));
            assert_eq!(available_amount, Amount(257));
        },
        other => panic!("expected an insufficient balance, got {:?}", other),
    }
    let stored = bs.transaction_count();
    match bs.create_simple_transaction(Some(&a), Amount(257), b.public_key_hash()) {
        Err(BlockchainError::InvalidTentativeTxn(v)) => {
            assert_eq!(v.len(), 1);
            assert_eq!(v[0].1, libsqlite3_sys::code_to_str(reasons::CODE_CHECK));
        },
        other => panic!("expected a refused transaction, got {:?}", other),
    }
    assert_eq!(bs.transaction_count(), stored);
    assert_eq!(bs.find_wallet_balance(a.public_key_hash(), 0), Some(257));
    let t = bs.create_simple_transaction(Some(&a), Amount(256), b.public_key_hash()).unwrap();
    assert_eq!(t.inputs().len(), 256);
    assert_eq!(t.outputs(), &vec![pay(256, &b)]);
    assert_eq!(bs.find_wallet_balance(a.public_key_hash(), 0), Some(1));
    assert_eq!(bs.find_wallet_balance(b.public_key_hash(), 0), Some(256));
}

#[test]
fn stored_transaction_received_again_changes_nothing() {
    let w = Wallet::new().unwrap();
    let a = Wallet::new().unwrap();
    let (mut bs, genesis) = with_genesis(&w);
    let made = bs.create_simple_transaction(None, Amount(7), a.public_key_hash()).unwrap();
    let tentative = bs.get_all_tentative_transactions();
    let stats = bs.produce_stats();
    let balance = bs.find_wallet_balance(w.public_key_hash(), 0);
    bs.receive_tentative_transaction(&made).unwrap();
    assert_eq!(bs.get_all_tentative_transactions(), tentative);
    assert_eq!(bs.produce_stats(), stats);
    assert_eq!(bs.find_wallet_balance(w.public_key_hash(), 0), balance);
    assert_eq!(bs.find_wallet_balance(a.public_key_hash(), 0), Some(7));
    let mut block = bs.prepare_mineable_block(None).unwrap();
    assert!(block.solve_hash_challenge(MINIMUM_DIFFICULTY_LEVEL, None));
    bs.receive_block(&block).unwrap();
    let count = bs.transaction_count();
    bs.receive_tentative_transaction(&made).unwrap();
    assert_eq!(bs.transaction_count(), count);
    assert!(bs.get_all_tentative_transactions().is_empty());
    assert_eq!(bs.find_wallet_balance(a.public_key_hash(), 1), Some(7));
    let reward = genesis.transactions[0].duplicate();
    assert_eq!(
        rejections(bs.receive_tentative_transaction(&reward)),
        vec![(*reward.transaction_hash(), reasons::TXN_COUNTS)]
    );
    assert_eq!(bs.transaction_count(), count);
}

#[test]
fn refused_transactions_are_reported_once_each() {
    let w = Wallet::new().unwrap();
    let a = Wallet::new().unwrap();
    let thief = Wallet::new().unwrap();
    let (mut bs, genesis) = with_genesis(&w);
    let t1 = w.create_raw_transaction(vec![spend(&genesis.transactions[0], 0)], vec![pay(100, &a)]).unwrap();
    let first = thief.create_raw_transaction(vec![spend(&t1, 0)], vec![pay(100, &thief)]).unwrap();
    let second = thief.create_raw_transaction(vec![spend(&t1, 0)], vec![pay(99, &thief)]).unwrap();
    bs.receive_tentative_transaction(&first).unwrap();
    bs.receive_tentative_transaction(&second).unwrap();
    bs.receive_tentative_transaction(&first).unwrap();
    let refused = rejections(bs.receive_tentative_transaction(&t1));
    assert_eq!(
        refused,
        vec![
            (*first.transaction_hash(), reasons::TXN_UNAUTHORIZED),
            (*second.transaction_hash(), reasons::TXN_UNAUTHORIZED),
        ]
    );
    assert_eq!(bs.transaction_count(), 2);
}
