use rs_simple_blockchain::amount::Amount;
use rs_simple_blockchain::block::Block;
use rs_simple_blockchain::hash;
use rs_simple_blockchain::transaction::TransactionInput;
use rs_simple_blockchain::transaction::TransactionOutput;
use rs_simple_blockchain::wallet::Wallet;

#[test]
fn serialized_block_has_nonce_first() {
    let b = Block::new(0x4142434445464748, vec![], None, hash::Hash::zeroes());
    assert_eq!(&b.to_hash_challenge()[0..8], bincode::serialize(&b.nonce).unwrap().as_slice());
}

#[test]
fn can_solve_hash_challenge() {
    let mut b = Block::new(0, vec![], None, hash::Hash::zeroes());
    assert!(b.solve_hash_challenge(16, None));
    println!("Block with solved hash challenge: {:?}", b);
    assert_ne!(b.block_hash, hash::Hash::zeroes());
    assert!(b.verify_hash_challenge(16));
}

#[test]
fn solved_hash_has_the_leading_zero_bits() {
    let w = Wallet::new().unwrap();
    let mut b = Block::new_mine_block(&w).unwrap();
    assert!(b.solve_hash_challenge(16, None));
    assert_eq!(b.block_hash.0[0], 0);
    assert_eq!(b.block_hash.0[1], 0);
    assert!(b.block_hash.has_difficulty(16));
    assert!(b.verify_hash_challenge(16));
    assert!(b.verify_hash_challenge(12));
    assert_eq!(b.block_hash, hash::Hash::sha256(&b.to_hash_challenge()));
}

#[test]
fn changing_the_challenge_breaks_verification() {
    let w = Wallet::new().unwrap();
    let mut b = Block::new_mine_block(&w).unwrap();
    assert!(b.solve_hash_challenge(12, None));
    assert!(b.verify_hash_challenge(12));
    let solved_nonce = b.nonce;
    b.nonce = solved_nonce + 1;
    assert!(!b.verify_hash_challenge(12));
    b.nonce = solved_nonce;
    assert!(b.verify_hash_challenge(12));
    b.parent_hash = Some(hash::Hash::zeroes());
    assert!(!b.verify_hash_challenge(12));
    b.parent_hash = None;
    let extra = w.create_reward().unwrap();
    b.transactions.push(extra);
    assert!(!b.verify_hash_challenge(12));
    b.transactions.pop();
    assert!(b.verify_hash_challenge(12));
    b.block_hash = hash::Hash::zeroes();
    assert!(!b.verify_hash_challenge(12));
}

#[test]
fn search_gives_up_after_its_tries() {
    let mut b = Block::new(7, vec![], None, hash::Hash::zeroes());
    assert!(!b.solve_hash_challenge(255, Some(5)));
    assert_eq!(b.nonce, 12);
    assert_eq!(b.block_hash, hash::Hash::zeroes());
    let mut c = Block::new(7, vec![], None, hash::Hash::zeroes());
    assert!(!c.solve_hash_challenge(0, Some(0)));
    assert_eq!(c.nonce, 7);
    assert!(c.solve_hash_challenge(0, Some(1)));
    assert_eq!(c.nonce, 7);
    assert_eq!(c.block_hash, hash::Hash::sha256(&c.to_hash_challenge()));
}

#[test]
fn nonce_wraps_below_two_to_the_63() {
    let mut b = Block::new((1u64 << 63) - 1, vec![], None, hash::Hash::zeroes());
    assert!(!b.solve_hash_challenge(255, Some(1)));
    assert_eq!(b.nonce, 0);
    let mut c = Block::new(u64::MAX, vec![], None, hash::Hash::zeroes());
    assert!(!c.solve_hash_challenge(255, Some(1)));
    assert_eq!(c.nonce, 0);
}

#[test]
fn challenge_is_the_canonical_encoding() {
    let w = Wallet::new().unwrap();
    let input = TransactionInput { transaction_hash: hash::Hash::sha256(b"x"), output_index: 0x0102 };
    let output = TransactionOutput { amount: Amount(0x0a0b0c), recipient_hash: hash::Hash::sha256(b"y") };
    let t = w.create_raw_transaction(vec![input], vec![output]).unwrap();
    let plain_tx = (
        t.payer().0.clone(),
        vec![(input.transaction_hash.0, input.output_index)],
        vec![(output.amount.0, output.recipient_hash.0)],
    );
    assert_eq!(t.to_signature_data(), bincode::serialize(&plain_tx).unwrap());
    let wire = (plain_tx.0.clone(), plain_tx.1.clone(), plain_tx.2.clone(), t.signature().0.clone());
    assert_eq!(t.to_wire_form(), bincode::serialize(&wire).unwrap());
    let parent = hash::Hash::sha256(b"parent");
    let b = Block::new(99, vec![t], Some(parent), hash::Hash::zeroes());
    let plain_block = (99u64, vec![wire.clone()], Some(parent.0));
    assert_eq!(b.to_hash_challenge(), bincode::serialize(&plain_block).unwrap());
    let orphan = Block::new(99, vec![], None, hash::Hash::zeroes());
    let no_parent: Option<[u8; 32]> = None;
    let none: Vec<(Vec<u8>, Vec<([u8; 32], u16)>, Vec<(u64, [u8; 32])>, Vec<u8>)> = vec![];
    assert_eq!(orphan.to_hash_challenge(), bincode::serialize(&(99u64, none, no_parent)).unwrap());
}
