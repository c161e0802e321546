//! The unit tests for the tree, the script machine, signing and wallets.

use blockchain::merkel_tree::{MerkelNode, MerkelTree};
use blockchain::script_lang::{ScriptPubKey, ScriptSig, ScriptToken, StackValues};
use blockchain::transaction::{TXInput, TXOutput, Transaction};
use blockchain::wallet::{Wallet, Wallets};

#[test]
fn create_merkel_tree() {
    let mut transactions = Vec::new();
    let count = 5;
    for _ in 0..count {
        let tx = vec![0, 1, 2, 3];
        transactions.push(tx)
    }
    let a = MerkelTree::new(transactions);
    assert_eq!(a.height, 3);
    assert_eq!(a.count, count);
}

#[test]
fn create_verification_proof() {
    let mut transactions = Vec::new();
    let count: u32 = 5;
    for i in 0..count {
        let tx = vec![0, 1, 2, i as u8];
        transactions.push(tx)
    }
    let a = MerkelNode::leaf(transactions[2].clone(), 0);
    let mt = MerkelTree::new(transactions);

    let (bit_mask, hashes) = mt.get_proof(a.hash(), 2);
    assert_eq!(bit_mask, vec![true, true, false, true, false, false, false]);
    let new_root_hash = mt.reconstruct_root(hashes, bit_mask).unwrap();
    assert_eq!(new_root_hash, *mt.root_node.hash());
}

#[test]
fn check_add() {
    let mut script = ScriptPubKey::new();
    script.add(ScriptToken::Value(StackValues::Value(1)));
    script.add(ScriptToken::Value(StackValues::Value(2)));
    script.add(ScriptToken::OpAdd);
    script.add(ScriptToken::Value(StackValues::Value(3)));
    script.add(ScriptToken::OpEqual);
    assert_eq!(script.verify(None, None).unwrap(), true)
}

#[test]
fn verify() {
    let wallet = Wallet::new().unwrap();
    let script = blockchain::script_lang::pay_to_address_script(&wallet.get_address()).unwrap();
    let data = [1; 32];
    let script_sig = ScriptSig {
        pub_key: wallet.public_key(),
        signature: wallet.sign(data.to_vec()),
    };
    if let Ok(result) = script.verify(Some(&script_sig), Some(&data.to_vec())) {
        assert_eq!(result, true)
    } else {
        panic!("fuck")
    }
}

#[test]
fn sign_transaction() {
    let from = Wallet::new().unwrap();
    let to = Wallet::new().unwrap();
    let coinbase = Transaction::new_coinbase_tx(&from.get_address(), "".to_string()).unwrap();

    let out = TXOutput::new(10, &to.get_address()).unwrap();
    let in_tx = TXInput::new(&coinbase, 0, &from);
    let tx = Transaction::new(vec![in_tx], vec![out]);

    let prev_txs = vec![coinbase];
    let signed_tx = tx.sign(&from.private_key(), &prev_txs).unwrap();
    assert_eq!(signed_tx.verify(&prev_txs).unwrap(), true)
}

#[test]
fn get_address() {
    let wallet = Wallet::new().unwrap();
    let address: String = wallet.get_address();
    assert_eq!(address.len(), 34)
}

#[test]
fn get_address_from_small_payload() {
    let test_payload = "test".to_string();
    let first_wallet = Wallet::from_str(test_payload).unwrap();
    let test_payload = "test".to_string();
    let second_wallet = Wallet::from_str(test_payload).unwrap();
    assert_eq!(first_wallet.get_address(), second_wallet.get_address())
}

#[test]
fn get_address_from_big_payload() {
    let test_payload = "1".to_string().repeat(32);
    let first_wallet = Wallet::from_str(test_payload).unwrap();
    let mut test_payload = "1".to_string().repeat(32);
    test_payload.push('1');
    let second_wallet = Wallet::from_str(test_payload).unwrap();
    assert_eq!(first_wallet.get_address(), second_wallet.get_address())
}

#[test]
fn wallets_create() {
    let dir = tempfile::Builder::new().prefix("wallets").tempdir().unwrap();
    let path = dir.path().to_str().unwrap().to_string();
    let mut wallets = Wallets::new(path.clone()).unwrap();
    let _wallet = wallets.create_wallet().unwrap();
    wallets.save_to_file(path.clone()).unwrap();
    let from_wallets = Wallets::new(path).unwrap();
    assert_eq!(wallets.len(), from_wallets.len());
    assert_ne!(wallets.len(), 0);
    println!("{}", wallets.len())
}
