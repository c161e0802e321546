//! Concrete checks of the library's stated laws: codec round trips, the
//! address pipeline, signing then verifying, the zero-difficulty miner and
//! the empty Merkle tree.

use blockchain::block::Block;
use blockchain::bytes::{be_le, bytes_eq, convert_u64_to_u8_array, zero_hash_vec};
use blockchain::codec::encode_tx;
use blockchain::merkel_tree::MerkelTree;
use blockchain::proof_of_work::ProofOfWork;
use blockchain::transaction::Transaction;
use blockchain::wallet::{address_to_pub_hash, hash_pub_key, Wallet, Wallets};

#[test]
fn u64_little_endian_bytes() {
    assert_eq!(convert_u64_to_u8_array(0), [0u8; 8]);
    assert_eq!(
        convert_u64_to_u8_array(0x0102030405060708),
        [8, 7, 6, 5, 4, 3, 2, 1]
    );
}

#[test]
fn big_endian_compare() {
    let a = vec![0u8, 0, 1];
    let b = vec![0u8, 1, 0];
    assert!(be_le(&a, &b));
    assert!(!be_le(&b, &a));
    assert!(be_le(&a, &a));
}

#[test]
fn transaction_round_trip() {
    let w = Wallet::new().unwrap();
    let tx = Transaction::new_coinbase_tx(&w.get_address(), "memo".to_string()).unwrap();
    let enc = encode_tx(&tx);
    let back = Transaction::from_bytes(&enc).unwrap();
    assert!(bytes_eq(&back.id, &tx.id));
    assert_eq!(back.vin.len(), tx.vin.len());
    assert_eq!(back.vout.len(), tx.vout.len());
    assert_eq!(back.vout[0].value, tx.vout[0].value);
    let enc2 = encode_tx(&back);
    assert_eq!(enc, enc2);
}

#[test]
fn block_round_trip() {
    let w = Wallet::new().unwrap();
    let coinbase = Transaction::new_coinbase_tx(&w.get_address(), "block".to_string()).unwrap();
    let block = Block::genesis_block(coinbase).unwrap();
    let enc = block.serialize();
    let back = Block::from_bytes(&enc).unwrap();
    assert_eq!(back.timestamp, block.timestamp);
    assert_eq!(back.nonce, block.nonce);
    assert!(bytes_eq(&back.hash, &block.hash));
    assert!(bytes_eq(&back.prev_block_hash, &block.prev_block_hash));
    assert_eq!(back.serialize(), enc);
}

#[test]
fn block_decode_rejects_trailing_bytes() {
    let w = Wallet::new().unwrap();
    let coinbase = Transaction::new_coinbase_tx(&w.get_address(), "trail".to_string()).unwrap();
    let block = Block::genesis_block(coinbase).unwrap();
    let mut enc = block.serialize();
    enc.push(0);
    assert!(Block::from_bytes(&enc).is_none());
}

#[test]
fn wallets_round_trip() {
    let dir = tempfile::tempdir().unwrap();
    let path = dir.path().to_str().unwrap().to_string();
    let mut wallets = Wallets::new(path).unwrap();
    wallets.create_wallet().unwrap();
    wallets.create_wallet().unwrap();
    let bytes = wallets.serialize();
    let back = Wallets::from_bytes(&bytes).unwrap();
    assert_eq!(back.len(), wallets.len());
    assert_eq!(back.serialize(), bytes);
}

#[test]
fn address_identifies_key_hash() {
    let w = Wallet::new().unwrap();
    let address = w.get_address();
    let pkh = address_to_pub_hash(&address).unwrap();
    let expected = hash_pub_key(&w.public_key());
    assert!(bytes_eq(&pkh, &expected));
}

#[test]
fn signed_spend_verifies() {
    let from = Wallet::new().unwrap();
    let to = Wallet::new().unwrap();
    let coinbase = Transaction::new_coinbase_tx(&from.get_address(), "base".to_string()).unwrap();
    let input = blockchain::transaction::TXInput {
        tx_id: coinbase.id.clone(),
        vout: 0,
        script_sig: blockchain::script_lang::ScriptSig {
            pub_key: from.public_key(),
            signature: vec![0; 64],
        },
    };
    let output = blockchain::transaction::TXOutput::new(5000, &to.get_address()).unwrap();
    let tx = Transaction::new(vec![input], vec![output]);
    let prev_txs = vec![coinbase];
    let signed = tx.sign(&from.private_key(), &prev_txs).unwrap();
    assert_eq!(signed.verify(&prev_txs).unwrap(), true);
}

#[test]
fn zero_difficulty_returns_first_nonce() {
    let block = Block {
        timestamp: 7,
        transactions: Vec::new(),
        hash: zero_hash_vec(),
        prev_block_hash: zero_hash_vec(),
        nonce: 0,
    };
    let pow = ProofOfWork::new_with_bits(&block, 0);
    let (nonce, hash) = pow.run().unwrap();
    assert_eq!(nonce, 0);
    assert_eq!(hash.len(), 32);
}

#[test]
fn empty_merkle_tree_has_zero_root() {
    let tree = MerkelTree::new(Vec::new());
    assert_eq!(*tree.root_node.hash(), vec![0u8; 32]);
    assert_eq!(tree.count, 0);
}

#[test]
fn coinbase_memo_changes_identifier() {
    let w = Wallet::new().unwrap();
    let a = Transaction::new_coinbase_tx(&w.get_address(), "one".to_string()).unwrap();
    let b = Transaction::new_coinbase_tx(&w.get_address(), "two".to_string()).unwrap();
    assert!(!bytes_eq(&a.id, &b.id));
    assert!(a.is_coinbase());
}

#[test]
fn bad_address_rejected() {
    let bad = "0OIl".to_string();
    assert!(address_to_pub_hash(&bad).is_none());
    assert!(blockchain::transaction::TXOutput::new(1, &bad).is_none());
}

#[test]
fn leaf_hash_is_sha256() {
    let leaf = blockchain::merkel_tree::MerkelNode::leaf(b"abc".to_vec(), 0);
    let expected: Vec<u8> = vec![
        0xba, 0x78, 0x16, 0xbf, 0x8f, 0x01, 0xcf, 0xea, 0x41, 0x41, 0x40, 0xde, 0x5d, 0xae,
        0x22, 0x23, 0xb0, 0x03, 0x61, 0xa3, 0x96, 0x17, 0x7a, 0x9c, 0xb4, 0x10, 0xff, 0x61,
        0xf2, 0x00, 0x15, 0xad,
    ];
    assert_eq!(*leaf.hash(), expected);
}

#[test]
fn missing_previous_transaction_is_reported() {
    let from = Wallet::new().unwrap();
    let to = Wallet::new().unwrap();
    let coinbase = Transaction::new_coinbase_tx(&from.get_address(), "src".to_string()).unwrap();
    let out = blockchain::transaction::TXOutput::new(10, &to.get_address()).unwrap();
    let input = blockchain::transaction::TXInput::new(&coinbase, 0, &from);
    let tx = Transaction::new(vec![input], vec![out]);
    let empty: Vec<Transaction> = Vec::new();
    assert!(matches!(
        tx.sign(&from.private_key(), &empty),
        Err(blockchain::transaction::TransactionError::MissingPrevTx)
    ));
    assert!(matches!(
        tx.verify(&empty),
        Err(blockchain::transaction::TransactionError::MissingPrevTx)
    ));
}

#[test]
fn popping_an_empty_stack_is_wrong_value() {
    let mut script = blockchain::script_lang::ScriptPubKey::new();
    script.add(blockchain::script_lang::ScriptToken::OpAdd);
    assert!(matches!(
        script.verify(None, None),
        Err(blockchain::script_lang::ScriptError::WrongValue)
    ));
}

#[test]
fn fresh_wallets_differ() {
    let a = Wallet::new().unwrap();
    let b = Wallet::new().unwrap();
    assert_ne!(a.get_address(), b.get_address());
}

#[test]
fn add_wraps_at_thirty_two_bits() {
    let mut script = blockchain::script_lang::ScriptPubKey::new();
    script.add(blockchain::script_lang::ScriptToken::Value(
        blockchain::script_lang::StackValues::Value(u32::MAX),
    ));
    script.add(blockchain::script_lang::ScriptToken::Value(
        blockchain::script_lang::StackValues::Value(1),
    ));
    script.add(blockchain::script_lang::ScriptToken::OpAdd);
    script.add(blockchain::script_lang::ScriptToken::Value(
        blockchain::script_lang::StackValues::Value(0),
    ));
    script.add(blockchain::script_lang::ScriptToken::OpEqual);
    assert_eq!(script.verify(None, None).unwrap(), true);
}

#[test]
fn coinbase_keeps_zero_signature_and_records_memo() {
    let w = Wallet::new().unwrap();
    let tx = Transaction::new_coinbase_tx(&w.get_address(), "note".to_string()).unwrap();
    assert_eq!(tx.vin[0].script_sig.signature, vec![0u8; 64]);
    assert_eq!(tx.vin[0].script_sig.pub_key, vec![0u8; 33]);
    assert_eq!(tx.memo, b"note".to_vec());
}

#[test]
fn wrong_key_cannot_spend_anothers_output() {
    let owner = Wallet::new().unwrap();
    let thief = Wallet::new().unwrap();
    let script = blockchain::script_lang::pay_to_address_script(&owner.get_address()).unwrap();
    let digest = vec![7u8; 32];
    let script_sig = blockchain::script_lang::ScriptSig {
        pub_key: thief.public_key(),
        signature: thief.sign(digest.clone()),
    };
    assert_eq!(script.verify(Some(&script_sig), Some(&digest)).unwrap(), false);
}

#[test]
fn masked_error_stays_an_error() {
    let mut script = blockchain::script_lang::ScriptPubKey::new();
    script.add(blockchain::script_lang::ScriptToken::OpDup);
    script.add(blockchain::script_lang::ScriptToken::Value(
        blockchain::script_lang::StackValues::Value(1),
    ));
    script.add(blockchain::script_lang::ScriptToken::Value(
        blockchain::script_lang::StackValues::Value(1),
    ));
    script.add(blockchain::script_lang::ScriptToken::OpEqual);
    assert!(matches!(
        script.verify(None, None),
        Err(blockchain::script_lang::ScriptError::WrongValue)
    ));
}
