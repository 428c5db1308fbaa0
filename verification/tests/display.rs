use rs_simple_blockchain::block::MINIMUM_DIFFICULTY_LEVEL;
use rs_simple_blockchain::amount::Amount;
use rs_simple_blockchain::hash;
use rs_simple_blockchain::storage::BlockchainStorage;
use rs_simple_blockchain::wallet::Wallet;

fn row(label: &str, value: String) -> (String, String) {
    (label.to_owned(), value)
}

#[test]
fn reward_is_shown_as_rows() {
    let w = Wallet::new().unwrap();
    let mut bs = BlockchainStorage::new(w.duplicate());
    let mut block = bs.prepare_mineable_block(None).unwrap();
    assert!(block.solve_hash_challenge(MINIMUM_DIFFICULTY_LEVEL, None));
    bs.receive_block(&block).unwrap();
    let reward = &block.transactions[0];
    let rows = bs.get_ui_transaction_by_hash(reward.transaction_hash()).unwrap();
    assert_eq!(
        rows,
        vec![
            row("Transaction Hash", reward.transaction_hash().display_hex()),
            row("Originating Wallet", w.public_key_hash().display_base58()),
            row("Output 0 Amount", "10.00000000".to_owned()),
            row("Output 0 Recipient", w.public_key_hash().display_base58()),
            row("Input", "None (this is a miner reward)".to_owned()),
            row("Confirmations", "1".to_owned()),
        ]
    );
    assert!(bs.get_ui_transaction_by_hash(&hash::Hash::zeroes()).is_none());
}

#[test]
fn transfer_is_shown_as_rows() {
    let w = Wallet::new().unwrap();
    let a = Wallet::new().unwrap();
    let mut bs = BlockchainStorage::new(w.duplicate());
    let mut block = bs.prepare_mineable_block(None).unwrap();
    assert!(block.solve_hash_challenge(MINIMUM_DIFFICULTY_LEVEL, None));
    bs.receive_block(&block).unwrap();
    let reward = &block.transactions[0];
    let t = bs.create_simple_transaction(None, Amount(123_456_789), a.public_key_hash()).unwrap();
    let rows = bs.get_ui_transaction_by_hash(t.transaction_hash()).unwrap();
    assert_eq!(
        rows,
        vec![
            row("Transaction Hash", t.transaction_hash().display_hex()),
            row("Originating Wallet", w.public_key_hash().display_base58()),
            row("Output 0 Amount", "1.23456789".to_owned()),
            row("Output 0 Recipient", a.public_key_hash().display_base58()),
            row("Output 1 Amount", "8.76543211".to_owned()),
            row("Output 1 Recipient", w.public_key_hash().display_base58()),
            row("Input 0", format!("{}.0", reward.transaction_hash().display_hex())),
            row("Credit Amount", "1000000000".to_owned()),
            row("Debit Amount", "1000000000".to_owned()),
            row("Confirmations", "0".to_owned()),
        ]
    );
}
