use rs_simple_blockchain::block::MINIMUM_DIFFICULTY_LEVEL;
use rs_simple_blockchain::amount::Amount;
use rs_simple_blockchain::amount::BLOCK_REWARD_UNITS;
use rs_simple_blockchain::storage::BlockchainStats;
use rs_simple_blockchain::storage::BlockchainStorage;
use rs_simple_blockchain::wallet::Wallet;

#[test]
fn can_produce_empty_stats() {
    let bs = BlockchainStorage::new(Wallet::new().unwrap());
    assert_eq!(bs.produce_stats(), BlockchainStats { pending_txn_count: 0, block_count: 0 });
}

#[test]
fn can_create_trustworthy_wallet() {
    let mut bs = BlockchainStorage::new(Wallet::new().unwrap());
    let w = bs.make_wallet().unwrap();
    assert_eq!(bs.trusted_wallets().len(), 1);
    assert_eq!(bs.trusted_wallets()[0], *w.public_key_hash());
}

#[test]
fn initial_default_wallet_zero_balance() {
    let bs = BlockchainStorage::new(Wallet::new().unwrap());
    let h = *bs.default_wallet().public_key_hash();
    assert_eq!(bs.find_wallet_balance(&h, 0).unwrap(), 0);
    assert_eq!(bs.utxo_rows(&h, 0).len(), 0);
}

#[test]
fn initial_no_tentative_txns() {
    let bs = BlockchainStorage::new(Wallet::new().unwrap());
    assert!(bs.get_all_tentative_transactions().is_empty());
    assert!(bs.get_mineable_tentative_transactions(None).0.is_empty());
}

#[test]
fn can_mine_genesis_block() {
    let w = Wallet::new().unwrap();
    let mut bs = BlockchainStorage::new(w.duplicate());
    let mut block = bs.prepare_mineable_block(None).unwrap();
    assert!(block.solve_hash_challenge(MINIMUM_DIFFICULTY_LEVEL, None));
    bs.receive_block(&block).unwrap();
    let found = bs.get_block_by_hash(&block.block_hash);
    assert_eq!(found, Some(block));
    assert_eq!(bs.find_wallet_balance(w.public_key_hash(), 0).unwrap(), BLOCK_REWARD_UNITS);
    assert_eq!(bs.produce_stats(), BlockchainStats { block_count: 1, pending_txn_count: 0 });
}

#[test]
fn can_receive_genesis_block() {
    let w1 = Wallet::new().unwrap();
    let mut bs1 = BlockchainStorage::new(w1.duplicate());
    let w2 = Wallet::new().unwrap();
    let mut bs2 = BlockchainStorage::new(w2.duplicate());
    {
        let mut block = bs1.prepare_mineable_block(None).unwrap();
        assert!(block.solve_hash_challenge(MINIMUM_DIFFICULTY_LEVEL, None));
        bs1.receive_block(&block).unwrap();
        bs2.receive_block(&block).unwrap();
    }
    assert_eq!(bs1.find_wallet_balance(w1.public_key_hash(), 0).unwrap(), BLOCK_REWARD_UNITS);
    assert_eq!(bs2.find_wallet_balance(w1.public_key_hash(), 0).unwrap(), BLOCK_REWARD_UNITS);
}

#[test]
fn can_send_money() {
    let w1 = Wallet::new().unwrap();
    let mut bs1 = BlockchainStorage::new(w1.duplicate());
    let w2 = Wallet::new().unwrap();
    let mut bs2 = BlockchainStorage::new(w2.duplicate());
    {
        let mut block = bs1.prepare_mineable_block(None).unwrap();
        assert!(block.solve_hash_challenge(MINIMUM_DIFFICULTY_LEVEL, None));
        bs1.receive_block(&block).unwrap();
        bs2.receive_block(&block).unwrap();
    }

    let tx = bs1.create_simple_transaction(None, Amount(10000), w2.public_key_hash()).unwrap();

    assert_eq!(bs1.get_all_tentative_transactions().len(), 1);

    assert_eq!(bs1.find_wallet_balance(w1.public_key_hash(), 0).unwrap(), BLOCK_REWARD_UNITS - 10000);
    assert_eq!(bs2.find_wallet_balance(w1.public_key_hash(), 0).unwrap(), BLOCK_REWARD_UNITS);

    bs2.receive_tentative_transaction(&tx).unwrap();

    assert_eq!(bs2.find_wallet_balance(w1.public_key_hash(), 0).unwrap(), 0);

    assert_eq!(bs1.get_all_tentative_transactions().len(), 1);
    assert_eq!(bs2.get_all_tentative_transactions().len(), 1);

    {
        let mut block = bs2.prepare_mineable_block(None).unwrap();
        assert!(block.solve_hash_challenge(MINIMUM_DIFFICULTY_LEVEL, None));
        bs1.receive_block(&block).unwrap();
        bs2.receive_block(&block).unwrap();
    }

    assert_eq!(bs1.find_wallet_balance(w1.public_key_hash(), 0).unwrap(), BLOCK_REWARD_UNITS - 10000);
    assert_eq!(bs2.find_wallet_balance(w1.public_key_hash(), 0).unwrap(), BLOCK_REWARD_UNITS - 10000);
    assert_eq!(bs1.find_wallet_balance(w2.public_key_hash(), 0).unwrap(), BLOCK_REWARD_UNITS + 10000);
    assert_eq!(bs2.find_wallet_balance(w2.public_key_hash(), 0).unwrap(), BLOCK_REWARD_UNITS + 10000);
}

#[test]
fn can_accept_orphaned_tentative_txns() {
    let w1 = Wallet::new().unwrap();
    let mut bs1 = BlockchainStorage::new(w1.duplicate());
    let w2 = Wallet::new().unwrap();
    let mut bs2 = BlockchainStorage::new(w2.duplicate());
    {
        let mut block = bs1.prepare_mineable_block(None).unwrap();
        assert!(block.solve_hash_challenge(MINIMUM_DIFFICULTY_LEVEL, None));
        bs1.receive_block(&block).unwrap();
        bs2.receive_block(&block).unwrap();
    }

    let tx1 = bs1.create_simple_transaction(None, Amount(12345), w2.public_key_hash()).unwrap();
    let tx2 = bs1.create_simple_transaction(None, Amount(23456), w2.public_key_hash()).unwrap();

    assert_eq!(tx2.inputs().len(), 1);
    assert_eq!(tx2.inputs()[0].transaction_hash, *tx1.transaction_hash());

    bs2.receive_tentative_transaction(&tx2).unwrap();
    bs2.receive_tentative_transaction(&tx1).unwrap();

    bs2.make_wallet_trustworthy(w1.public_key_hash());
    assert_eq!(bs1.find_wallet_balance(w1.public_key_hash(), 0).unwrap(), BLOCK_REWARD_UNITS - 12345 - 23456);
    assert_eq!(bs2.find_wallet_balance(w1.public_key_hash(), 0).unwrap(), BLOCK_REWARD_UNITS - 12345 - 23456);
    assert_eq!(bs1.find_wallet_balance(w2.public_key_hash(), 0).unwrap(), 12345 + 23456);
    assert_eq!(bs2.find_wallet_balance(w2.public_key_hash(), 0).unwrap(), 12345 + 23456);
}

#[test]
fn can_accept_conflicting_tentative_txns() {
    let w1 = Wallet::new().unwrap();
    let mut bs1a = BlockchainStorage::new(w1.duplicate());
    let mut bs1b = BlockchainStorage::new(w1.duplicate());
    let w2 = Wallet::new().unwrap();
    let mut bs2 = BlockchainStorage::new(w2.duplicate());
    let w3 = Wallet::new().unwrap();
    {
        let mut block = bs1a.prepare_mineable_block(None).unwrap();
        assert!(block.solve_hash_challenge(MINIMUM_DIFFICULTY_LEVEL, None));
        bs1a.receive_block(&block).unwrap();
        bs1b.receive_block(&block).unwrap();
        bs2.receive_block(&block).unwrap();
    }

    let tx1 = bs1a.create_simple_transaction(None, Amount(12345), w2.public_key_hash()).unwrap();
    let tx2 = bs1b.create_simple_transaction(None, Amount(23456), w3.public_key_hash()).unwrap();

    bs1b.receive_tentative_transaction(&tx1).unwrap();
    bs1a.receive_tentative_transaction(&tx2).unwrap();
    bs2.receive_tentative_transaction(&tx1).unwrap();
    bs2.receive_tentative_transaction(&tx2).unwrap();

    assert_eq!(
        bs1a.find_wallet_balance(w1.public_key_hash(), 0).unwrap(),
        BLOCK_REWARD_UNITS * 2 - 12345 - 23456
    );
    assert_eq!(
        bs1b.find_wallet_balance(w1.public_key_hash(), 0).unwrap(),
        BLOCK_REWARD_UNITS * 2 - 12345 - 23456
    );
    assert_eq!(bs2.find_wallet_balance(w1.public_key_hash(), 0).unwrap(), 0);
}

#[test]
fn recreated_store_is_empty() {
    let w = Wallet::new().unwrap();
    let mut bs = BlockchainStorage::new(w.duplicate());
    let mut block = bs.prepare_mineable_block(None).unwrap();
    assert!(block.solve_hash_challenge(MINIMUM_DIFFICULTY_LEVEL, None));
    bs.receive_block(&block).unwrap();
    bs.make_wallet_trustworthy(w.public_key_hash());
    bs.recreate_db();
    assert_eq!(bs.produce_stats(), BlockchainStats { pending_txn_count: 0, block_count: 0 });
    assert_eq!(bs.find_wallet_balance(w.public_key_hash(), 0).unwrap(), 0);
    assert!(bs.trusted_wallets().is_empty());
    assert!(bs.get_block_by_hash(&block.block_hash).is_none());
    assert_eq!(bs.default_wallet(), &w);
    bs.receive_block(&block).unwrap();
    assert_eq!(bs.produce_stats().block_count, 1);
}
