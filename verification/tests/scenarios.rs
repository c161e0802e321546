//! End-to-end scenarios over a real store: genesis, coinbase accumulation,
//! spending with change, insufficient funds, tampered signatures, exact
//! amounts and reopening.

use blockchain::blockchain::Blockchain;
use blockchain::mining_error::MiningError;
use blockchain::transaction::{Transaction, TransactionError};
use blockchain::wallet::Wallets;

fn fresh_paths() -> (tempfile::TempDir, tempfile::TempDir, String, String) {
    let blocks = tempfile::tempdir().unwrap();
    let wallets = tempfile::tempdir().unwrap();
    let bp = blocks.path().to_str().unwrap().to_string();
    let wp = wallets.path().to_str().unwrap().to_string();
    (blocks, wallets, bp, wp)
}

fn chain_blocks(bc: &Blockchain) -> Vec<blockchain::block::Block> {
    let mut out = Vec::new();
    let mut it = bc.iter();
    while let Some(b) = it.next() {
        out.push(b);
    }
    out
}

#[test]
fn genesis_creates_wallet_and_subsidy() {
    let (_b, _w, bp, wp) = fresh_paths();
    let mut wallets = Wallets::new(wp).unwrap();
    let (bc, address) = Blockchain::new(bp, &mut wallets).unwrap();
    let addr0 = address.expect("a fresh path mines a genesis block");
    assert_eq!(bc.get_balance(&addr0).unwrap(), 5000);
    assert!(matches!(
        bc.get_balance(&"not an address".to_string()),
        Err(MiningError::InvalidTransaction(TransactionError::BadAddress))
    ));
    let blocks = chain_blocks(&bc);
    assert_eq!(blocks.len(), 1);
    assert_eq!(blocks[0].prev_block_hash, vec![0u8; 32]);
}

#[test]
fn coinbase_accumulates() {
    let (_b, _w, bp, wp) = fresh_paths();
    let mut wallets = Wallets::new(wp).unwrap();
    let (mut bc, address) = Blockchain::new(bp, &mut wallets).unwrap();
    let addr0 = address.unwrap();
    let tx = Transaction::new_coinbase_tx(&addr0, "second".to_string()).unwrap();
    bc.mine_block(vec![tx]).unwrap();
    assert_eq!(bc.get_balance(&addr0).unwrap(), 10000);
    assert_eq!(chain_blocks(&bc).len(), 2);
}

#[test]
fn spend_with_change() {
    let (_b, _w, bp, wp) = fresh_paths();
    let mut wallets = Wallets::new(wp).unwrap();
    let (mut bc, address) = Blockchain::new(bp, &mut wallets).unwrap();
    let addr0 = address.unwrap();
    let extra = Transaction::new_coinbase_tx(&addr0, "second".to_string()).unwrap();
    bc.mine_block(vec![extra]).unwrap();
    assert_eq!(bc.get_balance(&addr0).unwrap(), 10000);

    let w1 = wallets.create_wallet().unwrap();
    let addr1 = w1.get_address();
    let w0 = wallets.get(&addr0).unwrap();
    let spend = bc.new_utxo_transaction(w0, addr1.clone(), 300).unwrap();
    assert!(spend.vin.len() >= 1);
    assert_eq!(spend.vout.len(), 2);
    bc.mine_block(vec![spend]).unwrap();

    assert_eq!(bc.get_balance(&addr0).unwrap(), 9700);
    assert_eq!(bc.get_balance(&addr1).unwrap(), 300);
    let blocks = chain_blocks(&bc);
    assert_eq!(blocks[0].transactions.len(), 1);
}

#[test]
fn exact_amount_leaves_no_change() {
    let (_b, _w, bp, wp) = fresh_paths();
    let mut wallets = Wallets::new(wp).unwrap();
    let (bc, address) = Blockchain::new(bp, &mut wallets).unwrap();
    let addr0 = address.unwrap();
    let w1 = wallets.create_wallet().unwrap();
    let addr1 = w1.get_address();
    let w0 = wallets.get(&addr0).unwrap();
    let spend = bc.new_utxo_transaction(w0, addr1, 5000).unwrap();
    assert_eq!(spend.vout.len(), 1);
    assert_eq!(spend.vout[0].value, 5000);
}

#[test]
fn insufficient_funds_rejected() {
    let (_b, _w, bp, wp) = fresh_paths();
    let mut wallets = Wallets::new(wp).unwrap();
    let (mut bc, address) = Blockchain::new(bp, &mut wallets).unwrap();
    let addr0 = address.unwrap();
    let w1 = wallets.create_wallet().unwrap();
    let addr1 = w1.get_address();
    let w0 = wallets.get(&addr0).unwrap();
    let spend = bc.new_utxo_transaction(w0, addr1.clone(), 300).unwrap();
    bc.mine_block(vec![spend]).unwrap();
    assert_eq!(bc.get_balance(&addr1).unwrap(), 300);

    let w1 = wallets.get(&addr1).unwrap();
    let result = bc.new_utxo_transaction(w1, addr0, 400);
    assert!(matches!(
        result,
        Err(MiningError::InvalidTransaction(TransactionError::NotEnoughMoney))
    ));
}

#[test]
fn tampered_signature_rejected() {
    let (_b, _w, bp, wp) = fresh_paths();
    let mut wallets = Wallets::new(wp).unwrap();
    let (mut bc, address) = Blockchain::new(bp, &mut wallets).unwrap();
    let addr0 = address.unwrap();
    let w1 = wallets.create_wallet().unwrap();
    let addr1 = w1.get_address();
    let w0 = wallets.get(&addr0).unwrap();
    let mut spend = bc.new_utxo_transaction(w0, addr1, 300).unwrap();
    spend.vin[0].script_sig.signature[0] ^= 1;
    let tip_before = chain_blocks(&bc)[0].hash.clone();
    assert!(matches!(
        bc.mine_block(vec![spend]),
        Err(MiningError::InvalidTransaction(TransactionError::Script(_)))
    ));
    let tip_after = chain_blocks(&bc)[0].hash.clone();
    assert_eq!(tip_before, tip_after);
    assert_eq!(chain_blocks(&bc).len(), 1);
}

#[test]
fn reopening_preserves_chain_and_balances() {
    let (_b, _w, bp, wp) = fresh_paths();
    let mut wallets = Wallets::new(wp).unwrap();
    let (mut bc, address) = Blockchain::new(bp.clone(), &mut wallets).unwrap();
    let addr0 = address.unwrap();
    let extra = Transaction::new_coinbase_tx(&addr0, "second".to_string()).unwrap();
    bc.mine_block(vec![extra]).unwrap();
    let blocks_before: Vec<Vec<u8>> = chain_blocks(&bc).iter().map(|b| b.serialize()).collect();
    let balance_before = bc.get_balance(&addr0).unwrap();
    drop(bc);

    let (bc2, address2) = Blockchain::new(bp, &mut wallets).unwrap();
    assert!(address2.is_none());
    let blocks_after: Vec<Vec<u8>> = chain_blocks(&bc2).iter().map(|b| b.serialize()).collect();
    assert_eq!(blocks_before, blocks_after);
    assert_eq!(bc2.get_balance(&addr0).unwrap(), balance_before);
}

#[test]
fn double_spend_rejected() {
    let (_b, _w, bp, wp) = fresh_paths();
    let mut wallets = Wallets::new(wp).unwrap();
    let (mut bc, address) = Blockchain::new(bp, &mut wallets).unwrap();
    let addr0 = address.unwrap();
    let w1 = wallets.create_wallet().unwrap();
    let addr1 = w1.get_address();
    let spend = {
        let w0 = wallets.get(&addr0).unwrap();
        bc.new_utxo_transaction(w0, addr1.clone(), 300).unwrap()
    };
    bc.mine_block(vec![spend]).unwrap();
    // replay the already-consumed genesis output in a fresh transaction
    let blocks = chain_blocks(&bc);
    let genesis_tx = blocks[1].transactions[0].duplicate();
    let w0 = wallets.get(&addr0).unwrap();
    let input = blockchain::transaction::TXInput::new(&genesis_tx, 0, w0);
    let out = blockchain::transaction::TXOutput::new(5000, &addr1).unwrap();
    let replay = Transaction::new(vec![input], vec![out]);
    let signed = replay.sign(&w0.private_key(), &vec![genesis_tx]).unwrap();
    assert!(matches!(
        bc.mine_block(vec![signed]),
        Err(MiningError::InvalidTransaction(TransactionError::SpentOutput))
    ));
}
