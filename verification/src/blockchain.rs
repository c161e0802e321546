//! The chain: an append-only, hash-linked log of blocks in the key-value
//! backend, with atomic tip advancement, mining, the full-chain scan that
//! reconstructs spendable outputs, balances, and spend construction.
//!
//! The chain is modelled newest-first as a ghost list of blocks. The
//! structural invariant ties it to the store: every modelled block sits in
//! the store under its own hash and decodes back to itself, each block's
//! predecessor hash names the next block, the oldest block rests on the
//! all-zero hash, and every block's hash re-computes from its own header and
//! meets the difficulty target.

use vstd::prelude::*;

use crate::block::{block_wf, Block, BlockV};
use crate::bytes::{bytes_eq, zero_hash, zero_hash_vec};
use crate::codec::{block_bounded, dec_block_full, enc_block};
use crate::mining_error::MiningError;
use crate::proof_of_work::{pow_valid, ProofOfWork, TARGET_BITS};
use crate::store::{store_contents, store_get, store_open, store_put_pair, Store, StoreError};
use crate::transaction::{
    find_tx_index, tx_verify_spec, tx_wf, Transaction, TransactionError, TXOutput, TxV,
};
use crate::wallet::{addr_decode_spec, hash_pub_key_spec, Wallet, Wallets};
use crate::script_lang::script_locks;

verus! {

/// The one-byte key (the letter `l`) under which the tip hash is stored.
pub open spec fn tip_key_spec() -> Seq<u8> {
    seq![108u8]
}

fn tip_key() -> (r: Vec<u8>)
    ensures
        r@ == tip_key_spec(),
{
    let mut k: Vec<u8> = Vec::new();
    k.push(108);
    proof {
        assert(k@ =~= tip_key_spec());
    }
    k
}

/// Every block's predecessor hash names the next block in the list, and the
/// oldest block rests on the all-zero hash.
pub open spec fn chain_linked(chain: Seq<BlockV>) -> bool {
    &&& forall|i: int| 0 <= i < chain.len() - 1 ==> (#[trigger] chain[i]).prev_block_hash
        == chain[i + 1].hash
    &&& chain.len() > 0 ==> chain[chain.len() - 1].prev_block_hash == zero_hash()
}

/// Every block's hash re-computes from its own header and nonce and meets
/// the difficulty target.
pub open spec fn chain_pow_ok(chain: Seq<BlockV>) -> bool {
    forall|i: int| 0 <= i < chain.len() ==> pow_valid(#[trigger] chain[i], TARGET_BITS)
}

/// Every block is well formed, fits the codec's count prefixes, and has a
/// hash distinct from the all-zero marker.
pub open spec fn chain_blocks_wf(chain: Seq<BlockV>) -> bool {
    forall|i: int| 0 <= i < chain.len() ==> block_wf(#[trigger] chain[i]) && block_bounded(
        chain[i],
    ) && chain[i].hash != zero_hash()
}

/// The chain-wide structural invariant over the modelled list.
pub open spec fn chain_inv(chain: Seq<BlockV>) -> bool {
    chain_linked(chain) && chain_pow_ok(chain) && chain_blocks_wf(chain)
}

/// All transactions the chain commits, newest block first, in block order
/// within each block.
pub open spec fn all_txs(chain: Seq<BlockV>) -> Seq<TxV>
    decreases chain.len(),
{
    if chain.len() == 0 {
        Seq::empty()
    } else {
        chain.first().transactions + all_txs(chain.drop_first())
    }
}

/// Every transaction of the block verifies against the transactions the
/// given chain already commits.
pub open spec fn txs_valid_against(b: BlockV, chain: Seq<BlockV>) -> bool {
    forall|i: int| 0 <= i < b.transactions.len() ==> tx_verify_spec(
        #[trigger] b.transactions[i],
        all_txs(chain),
    ) == Ok::<bool, TransactionError>(true)
}

/// The output references a transaction's inputs consume, whoever owns them.
/// Coinbases consume nothing.
pub open spec fn all_spends_of_tx(t: TxV) -> Set<(Seq<u8>, i64)> {
    if crate::transaction::is_coinbase_v(t) {
        Set::empty()
    } else {
        Set::new(
            |p: (Seq<u8>, i64)|
                exists|j: int|
                    0 <= j < t.vin.len() && p.0 == (#[trigger] t.vin[j]).tx_id && p.1
                        == t.vin[j].vout,
        )
    }
}

/// Every output reference the listed transactions consume.
pub open spec fn consumed_pairs(txs: Seq<TxV>) -> Set<(Seq<u8>, i64)>
    decreases txs.len(),
{
    if txs.len() == 0 {
        Set::empty()
    } else {
        all_spends_of_tx(txs.first()).union(consumed_pairs(txs.drop_first()))
    }
}

/// A transaction spends only outputs that no prior transaction consumed.
pub open spec fn tx_inputs_unspent(t: TxV, prior: Seq<TxV>) -> bool {
    crate::transaction::is_coinbase_v(t) || forall|i: int|
        0 <= i < t.vin.len() ==> !consumed_pairs(prior).contains(
            ((#[trigger] t.vin[i]).tx_id, t.vin[i].vout),
        )
}

/// No transaction of the block double-spends an output already consumed by
/// the given chain.
pub open spec fn txs_unspent_against(b: BlockV, chain: Seq<BlockV>) -> bool {
    forall|i: int| 0 <= i < b.transactions.len() ==> tx_inputs_unspent(
        #[trigger] b.transactions[i],
        all_txs(chain),
    )
}

/// Every non-coinbase input in every block unlocks an output committed by an
/// older block and not consumed by an older block.
pub open spec fn chain_txs_ok(chain: Seq<BlockV>) -> bool
    decreases chain.len(),
{
    if chain.len() == 0 {
        true
    } else {
        txs_valid_against(chain.first(), chain.drop_first()) && txs_unspent_against(
            chain.first(),
            chain.drop_first(),
        ) && chain_txs_ok(chain.drop_first())
    }
}

/// Extending a structurally valid chain with a valid block keeps both the
/// structural invariant and transaction validity: the stored-block laws are
/// preserved by mining.
pub proof fn lemma_chain_extend(chain: Seq<BlockV>, b: BlockV)
    requires
        chain_inv(chain),
        chain_txs_ok(chain),
        block_wf(b),
        block_bounded(b),
        b.hash != zero_hash(),
        pow_valid(b, TARGET_BITS),
        b.prev_block_hash == if chain.len() > 0 {
            chain[0].hash
        } else {
            zero_hash()
        },
        txs_valid_against(b, chain),
        txs_unspent_against(b, chain),
    ensures
        chain_inv(seq![b] + chain),
        chain_txs_ok(seq![b] + chain),
{
    let c2 = seq![b] + chain;
    assert(c2.drop_first() =~= chain);
    assert forall|i: int| 0 <= i < c2.len() - 1 implies (#[trigger] c2[i]).prev_block_hash == c2[
        i + 1
    ].hash by {
        if i > 0 {
            assert(c2[i] == chain[i - 1]);
        }
    }
    assert forall|i: int| 0 <= i < c2.len() implies pow_valid(#[trigger] c2[i], TARGET_BITS)
        && block_wf(c2[i]) && block_bounded(c2[i]) && c2[i].hash != zero_hash() by {
        if i > 0 {
            assert(c2[i] == chain[i - 1]);
        }
    }
}

/// The chain handle: the tip hash, the backing store, and the modelled list
/// of blocks, newest first.
pub struct Blockchain {
    tip: Option<Vec<u8>>,
    store: Store,
    chain: Ghost<Seq<BlockV>>,
}

impl Blockchain {
    /// The modelled chain, newest first.
    pub closed spec fn chain_view(self) -> Seq<BlockV> {
        self.chain@
    }

    /// The backing store handle.
    pub closed spec fn store_of(self) -> Store {
        self.store
    }

    /// The tip hash, where the chain is not empty.
    pub closed spec fn tip_view(self) -> Option<Seq<u8>> {
        match self.tip {
            Some(h) => Some(h@),
            None => None,
        }
    }

    /// The structural invariant: the model satisfies the chain-wide laws and
    /// the store holds exactly the modelled blocks under their hashes, with
    /// the tip key naming the newest.
    pub closed spec fn wf(self) -> bool {
        let m = store_contents(self.store);
        let chain = self.chain@;
        &&& chain_inv(chain)
        &&& chain_txs_ok(chain)
        &&& (match self.tip {
            Some(h) => chain.len() > 0 && h@ == chain[0].hash && h@.len() == 32,
            None => chain.len() == 0,
        })
        &&& forall|i: int| 0 <= i < chain.len() ==> m.contains_key((#[trigger] chain[i]).hash)
            && dec_block_full(m[chain[i].hash]) == Some(chain[i])
    }

    /// Every stored block's transactions verify against the chain below
    /// them: established at genesis, re-checked when a stored chain is
    /// loaded, and preserved by mining.
    pub open spec fn scripts_ok(self) -> bool {
        chain_txs_ok(self.chain_view())
    }

    /// Opens the chain at `path_str`. Where no tip is stored yet, a wallet
    /// is created, a genesis coinbase paying it is mined and committed, and
    /// the new address is returned alongside the chain. One path must be
    /// opened at most once per process: a second live handle would write
    /// outside this one's model.
    pub fn new(path_str: String, wallets: &mut Wallets) -> (r: Result<
        (Blockchain, Option<String>),
        MiningError,
    >)
        requires
            old(wallets).wf(),
        ensures
            final(wallets).wf(),
            r matches Ok(p) ==> p.0.wf() && p.0.scripts_ok(),
            r matches Ok(p) ==> (p.1 matches Some(addr) ==> {
                let b = p.0.chain_view()[0];
                &&& p.0.chain_view().len() == 1
                &&& p.0.tip_view() == Some(b.hash)
                &&& b.prev_block_hash == zero_hash()
                &&& b.transactions.len() == 1
                &&& crate::transaction::is_coinbase_v(b.transactions[0])
                &&& b.transactions[0].vout.len() == 1
                &&& b.transactions[0].vout[0].value == crate::transaction::SUBSIDY
                &&& (addr_decode_spec(addr@) matches Some(pkh) && b.transactions[0].vout[0].script
                    == crate::script_lang::p2pkh_script(pkh))
                &&& store_contents(p.0.store_of()).contains_key(tip_key_spec())
                &&& store_contents(p.0.store_of())[tip_key_spec()] == b.hash
                &&& store_contents(p.0.store_of()).contains_key(b.hash)
                &&& store_contents(p.0.store_of())[b.hash] == enc_block(b)
            }),
    {
        let mut store = match store_open(path_str.as_str()) {
            Ok(s) => s,
            Err(e) => {
                return Err(MiningError::Store(e));
            },
        };
        let l_key = tip_key();
        let tip_loaded = match store_get(&store, &l_key) {
            Ok(t) => t,
            Err(e) => {
                return Err(MiningError::Store(e));
            },
        };
        match tip_loaded {
            Some(tip_bytes) => {
                match Blockchain::load(store, tip_bytes) {
                    Ok(bc) => Ok((bc, None)),
                    Err(e) => Err(e),
                }
            },
            None => {
                let wallet = match wallets.create_wallet() {
                    Ok(w) => w,
                    Err(e) => {
                        return Err(e);
                    },
                };
                let wallet_address = wallet.get_address();
                let memo = String::from_str("genesis block");
                let coinbase_transaction = match Transaction::new_coinbase_tx(
                    &wallet_address,
                    memo,
                ) {
                    Some(t) => t,
                    None => {
                        return Err(MiningError::InvalidTransaction(TransactionError::BadAddress));
                    },
                };
                let gen_block = match Block::genesis_block(coinbase_transaction) {
                    Ok(b) => b,
                    Err(e) => {
                        return Err(e);
                    },
                };
                let zero = zero_hash_vec();
                if bytes_eq(&gen_block.hash, &zero) {
                    return Err(MiningError::Store(StoreError::Corruption));
                }
                match store_get(&store, &gen_block.hash) {
                    Ok(None) => {},
                    _ => {
                        return Err(MiningError::Store(StoreError::Corruption));
                    },
                }
                let enc = gen_block.serialize();
                match store_put_pair(&mut store, &gen_block.hash, &enc, &l_key, &gen_block.hash) {
                    Ok(()) => {},
                    Err(e) => {
                        return Err(MiningError::Store(e));
                    },
                }
                let tip_hash = gen_block.hash.clone();
                let ghost chain = seq![gen_block@];
                let bc = Blockchain { tip: Some(tip_hash), store, chain: Ghost(chain) };
                proof {
                    crate::codec::lemma_block_bounded(&gen_block);
                    crate::codec::lemma_block_round_trip(gen_block@);
                    assert(tip_key_spec().len() == 1);
                    assert(gen_block@.hash.len() == 32);
                    assert(tip_key_spec() != gen_block@.hash);
                    assert(chain.drop_first() =~= Seq::<BlockV>::empty());
                    assert(all_txs(chain.drop_first()) =~= Seq::<TxV>::empty());
                    assert(chain_txs_ok(Seq::<BlockV>::empty()));
                    assert forall|i: int| 0 <= i < chain[0].transactions.len() implies
                        tx_verify_spec(
                            #[trigger] chain[0].transactions[i],
                            all_txs(chain.drop_first()),
                        ) == Ok::<bool, TransactionError>(true) by {
                        assert(chain[0].transactions.len() == 1);
                        assert(crate::transaction::is_coinbase_v(chain[0].transactions[0]));
                    }
                    assert(txs_valid_against(chain[0], chain.drop_first()));
                    assert(chain_txs_ok(chain));
                    assert(bc.wf());
                }
                Ok((bc, Some(wallet_address)))
            },
        }
    }

    /// Walks the stored chain from the tip, checking linkage, widths and
    /// proof of work; malformed or missing data is corruption.
    #[verifier::rlimit(100)]
    #[verifier::spinoff_prover]
    fn load(store: Store, tip_bytes: Vec<u8>) -> (r: Result<Blockchain, MiningError>)
        ensures
            r matches Ok(bc) ==> bc.wf(),
    {
        if tip_bytes.len() != 32 {
            return Err(MiningError::Store(StoreError::Corruption));
        }
        let zero = zero_hash_vec();
        if bytes_eq(&tip_bytes, &zero) {
            return Err(MiningError::Store(StoreError::Corruption));
        }
        let ghost m = store_contents(store);
        let mut cur = tip_bytes.clone();
        let mut blocks: Vec<Block> = Vec::new();
        let mut chain_g: Ghost<Seq<BlockV>> = Ghost(Seq::empty());
        let mut fuel: usize = usize::MAX;
        proof {
            assert(blocks.deep_view() =~= chain_g@);
        }
        while !bytes_eq(&cur, &zero)
            invariant
                m == store_contents(store),
                blocks.deep_view() == chain_g@,
                zero@ == zero_hash(),
                cur@.len() == 32,
                tip_bytes@.len() == 32,
                tip_bytes@ != zero_hash(),
                chain_g@.len() > 0 ==> chain_g@[0].hash == tip_bytes@,
                chain_g@.len() == 0 ==> cur@ == tip_bytes@,
                forall|i: int| 0 <= i < chain_g@.len() - 1 ==> (
                #[trigger] chain_g@[i]).prev_block_hash == chain_g@[i + 1].hash,
                chain_g@.len() > 0 ==> chain_g@[chain_g@.len() - 1].prev_block_hash == cur@,
                forall|i: int| 0 <= i < chain_g@.len() ==> pow_valid(
                    #[trigger] chain_g@[i],
                    TARGET_BITS,
                ) && block_wf(chain_g@[i]) && block_bounded(chain_g@[i]) && chain_g@[i].hash
                    != zero_hash(),
                forall|i: int| 0 <= i < chain_g@.len() ==> m.contains_key(
                    (#[trigger] chain_g@[i]).hash,
                ) && dec_block_full(m[chain_g@[i].hash]) == Some(chain_g@[i]),
            decreases fuel,
        {
            if fuel == 0 {
                return Err(MiningError::Store(StoreError::Corruption));
            }
            fuel = fuel - 1;
            let bytes = match store_get(&store, &cur) {
                Ok(Some(b)) => b,
                Ok(None) => {
                    return Err(MiningError::Store(StoreError::Corruption));
                },
                Err(e) => {
                    return Err(MiningError::Store(e));
                },
            };
            let block = match Block::from_bytes(&bytes) {
                Some(b) => b,
                None => {
                    return Err(MiningError::Store(StoreError::Corruption));
                },
            };
            if !bytes_eq(&block.hash, &cur) {
                return Err(MiningError::Store(StoreError::Corruption));
            }
            let pow = ProofOfWork::new(&block);
            if !pow.validate() {
                return Err(MiningError::Store(StoreError::Corruption));
            }
            let next = block.prev_block_hash.clone();
            let ghost pre = chain_g@;
            let ghost pre_blocks = blocks;
            proof {
                assert(dec_block_full(bytes@) == Some(block@));
            }
            blocks.push(block);
            chain_g = Ghost(chain_g@.push(block@));
            proof {
                crate::views::lemma_deep_view_push(pre_blocks, blocks);
                assert(blocks.deep_view() =~= chain_g@);
            }
            proof {
                assert forall|i: int| 0 <= i < chain_g@.len() - 1 implies (
                #[trigger] chain_g@[i]).prev_block_hash == chain_g@[i + 1].hash by {
                    if i < pre.len() - 1 {
                        assert(chain_g@[i] == pre[i]);
                        assert(chain_g@[i + 1] == pre[i + 1]);
                    } else {
                        assert(chain_g@[i] == pre[pre.len() - 1]);
                        assert(chain_g@[i + 1] == block@);
                    }
                }
                assert forall|i: int| 0 <= i < chain_g@.len() implies pow_valid(
                    #[trigger] chain_g@[i],
                    TARGET_BITS,
                ) && block_wf(chain_g@[i]) && block_bounded(chain_g@[i]) && chain_g@[i].hash
                    != zero_hash() by {
                    if i < pre.len() {
                        assert(chain_g@[i] == pre[i]);
                    } else {
                        assert(chain_g@[i] == block@);
                    }
                }
                assert forall|i: int| 0 <= i < chain_g@.len() implies m.contains_key(
                    (#[trigger] chain_g@[i]).hash,
                ) && dec_block_full(m[chain_g@[i].hash]) == Some(chain_g@[i]) by {
                    if i < pre.len() {
                        assert(chain_g@[i] == pre[i]);
                    } else {
                        assert(chain_g@[i] == block@);
                    }
                }
            }
            cur = next;
        }
        proof {
            assert(chain_g@.len() > 0) by {
                if chain_g@.len() == 0 {
                    assert(cur@ == tip_bytes@);
                }
            }
        }
        let ghost chain = chain_g@;
        let mut pool: Vec<Transaction> = Vec::new();
        let mut consumed: Vec<(Vec<u8>, i64)> = Vec::new();
        let mut idx: usize = blocks.len();
        proof {
            assert(chain.skip(idx as int) =~= Seq::<BlockV>::empty());
            assert(all_txs(chain.skip(idx as int)) =~= Seq::<TxV>::empty());
            assert(pool.deep_view() =~= all_txs(chain.skip(idx as int)));
            assert(consumed_pairs(Seq::<TxV>::empty()) =~= Set::<(Seq<u8>, i64)>::empty());
        }
        while idx > 0
            invariant
                0 <= idx <= blocks@.len(),
                blocks.deep_view() == chain,
                chain_blocks_wf(chain),
                pool.deep_view() == all_txs(chain.skip(idx as int)),
                forall|p: (Seq<u8>, i64)| pair_in_list(consumed@, p) <==> consumed_pairs(
                    all_txs(chain.skip(idx as int)),
                ).contains(p),
                chain_txs_ok(chain.skip(idx as int)),
            decreases idx,
        {
            let b = &blocks[idx - 1];
            let ghost rest = chain.skip(idx as int);
            let n = b.transactions.len();
            let mut t: usize = 0;
            while t < n
                invariant
                    0 <= t <= n,
                    0 < idx <= blocks@.len(),
                    n == b.transactions@.len(),
                    blocks.deep_view() == chain,
                    chain_blocks_wf(chain),
                    b == blocks@[idx - 1],
                    rest == chain.skip(idx as int),
                    pool.deep_view() == all_txs(rest),
                    forall|p: (Seq<u8>, i64)| pair_in_list(consumed@, p) <==> consumed_pairs(
                        all_txs(rest),
                    ).contains(p),
                    forall|j: int| 0 <= j < t ==> tx_verify_spec(
                        #[trigger] chain[idx - 1].transactions[j],
                        all_txs(rest),
                    ) == Ok::<bool, TransactionError>(true),
                    forall|j: int| 0 <= j < t ==> tx_inputs_unspent(
                        #[trigger] chain[idx - 1].transactions[j],
                        all_txs(rest),
                    ),
                decreases n - t,
            {
                proof {
                    assert(chain[idx - 1].transactions[t as int] == b.transactions@[t as int]@);
                    assert(crate::transaction::tx_wf(chain[idx - 1].transactions[t as int]));
                }
                match b.transactions[t].verify(&pool) {
                    Ok(true) => {},
                    _ => {
                        return Err(MiningError::Store(StoreError::Corruption));
                    },
                }
                let txn = &b.transactions[t];
                if !txn.is_coinbase() {
                    let vn = txn.vin.len();
                    let mut vj: usize = 0;
                    while vj < vn
                        invariant
                            0 <= vj <= vn,
                            vn == txn.vin@.len(),
                            0 < idx <= blocks@.len(),
                            0 <= t < n,
                            n == b.transactions@.len(),
                            blocks.deep_view() == chain,
                            b == blocks@[idx - 1],
                            txn == b.transactions@[t as int],
                            rest == chain.skip(idx as int),
                            forall|p: (Seq<u8>, i64)| pair_in_list(consumed@, p)
                                <==> consumed_pairs(all_txs(rest)).contains(p),
                            forall|j2: int| 0 <= j2 < vj ==> !consumed_pairs(
                                all_txs(rest),
                            ).contains(((#[trigger] txn@.vin[j2]).tx_id, txn@.vin[j2].vout)),
                        decreases vn - vj,
                    {
                        let vin = &txn.vin[vj];
                        if spent_contains(&consumed, &vin.tx_id, vin.vout) {
                            return Err(MiningError::Store(StoreError::Corruption));
                        }
                        vj = vj + 1;
                    }
                    proof {
                        assert(tx_inputs_unspent(
                            chain[idx - 1].transactions[t as int],
                            all_txs(rest),
                        ));
                    }
                } else {
                    proof {
                        assert(tx_inputs_unspent(
                            chain[idx - 1].transactions[t as int],
                            all_txs(rest),
                        ));
                    }
                }
                t = t + 1;
            }
            let mut c2: usize = 0;
            while c2 < n
                invariant
                    0 <= c2 <= n,
                    0 < idx <= blocks@.len(),
                    n == b.transactions@.len(),
                    blocks.deep_view() == chain,
                    b == blocks@[idx - 1],
                    rest == chain.skip(idx as int),
                    forall|p: (Seq<u8>, i64)| pair_in_list(consumed@, p) <==> consumed_pairs(
                        chain[idx - 1].transactions.take(c2 as int),
                    ).union(consumed_pairs(all_txs(rest))).contains(p),
                decreases n - c2,
            {
                add_all_spends(&mut consumed, &b.transactions[c2]);
                proof {
                    lemma_consumed_pairs_snoc(
                        chain[idx - 1].transactions.take(c2 as int),
                        chain[idx - 1].transactions[c2 as int],
                    );
                    assert(chain[idx - 1].transactions.take(c2 as int).push(
                        chain[idx - 1].transactions[c2 as int],
                    ) =~= chain[idx - 1].transactions.take(c2 + 1));
                    assert(b.transactions@[c2 as int]@ == chain[idx - 1].transactions[
                        c2 as int]);
                }
                c2 = c2 + 1;
            }
            proof {
                assert(chain[idx - 1].transactions.take(n as int)
                    =~= chain[idx - 1].transactions);
                lemma_consumed_pairs_concat(chain[idx - 1].transactions, all_txs(rest));
            }
            let mut fresh: Vec<Transaction> = Vec::new();
            let mut c: usize = 0;
            while c < n
                invariant
                    0 <= c <= n,
                    0 < idx <= blocks@.len(),
                    n == b.transactions@.len(),
                    blocks.deep_view() == chain,
                    b == blocks@[idx - 1],
                    fresh.deep_view() =~= chain[idx - 1].transactions.take(c as int),
                decreases n - c,
            {
                let ghost pre = fresh;
                fresh.push(b.transactions[c].duplicate());
                proof {
                    crate::views::lemma_deep_view_push(pre, fresh);
                    assert(fresh.deep_view() =~= chain[idx - 1].transactions.take(c + 1));
                }
                c = c + 1;
            }
            let ghost pre_fresh = fresh;
            let ghost pre_pool = pool;
            fresh.append(&mut pool);
            proof {
                crate::views::lemma_deep_view_concat(pre_fresh, pre_pool, fresh);
                assert(chain[idx - 1].transactions.take(n as int)
                    =~= chain[idx - 1].transactions);
                assert(chain.skip(idx - 1).first() == chain[idx - 1]);
                assert(chain.skip(idx - 1).drop_first() =~= chain.skip(idx as int));
                assert(all_txs(chain.skip(idx - 1)) =~= chain[idx - 1].transactions + all_txs(
                    chain.skip(idx as int),
                ));
                assert(fresh.deep_view() =~= all_txs(chain.skip(idx - 1)));
                assert(txs_valid_against(chain[idx - 1], chain.skip(idx as int)));
                assert(txs_unspent_against(chain[idx - 1], chain.skip(idx as int)));
                assert(chain_txs_ok(chain.skip(idx - 1)));
                assert forall|p: (Seq<u8>, i64)| pair_in_list(consumed@, p) <==> consumed_pairs(
                    all_txs(chain.skip(idx - 1)),
                ).contains(p) by {
                    assert(all_txs(chain.skip(idx - 1)) == chain[idx - 1].transactions
                        + all_txs(chain.skip(idx as int)));
                }
            }
            pool = fresh;
            idx = idx - 1;
        }
        proof {
            assert(chain.skip(0) =~= chain);
        }
        let bc = Blockchain { tip: Some(tip_bytes), store, chain: chain_g };
        proof {
            assert(bc.wf());
        }
        Ok(bc)
    }

    /// The stored blocks, newest first.
    pub fn blocks(&self) -> (r: Result<Vec<Block>, MiningError>)
        requires
            self.wf(),
        ensures
            r matches Ok(bs) ==> bs.deep_view() == self.chain_view(),
            r matches Err(e) ==> e matches MiningError::Store(_),
    {
        let ghost chain = self.chain_view();
        let mut out: Vec<Block> = Vec::new();
        let zero = zero_hash_vec();
        let mut cur = match &self.tip {
            Some(h) => h.clone(),
            None => zero_hash_vec(),
        };
        while !bytes_eq(&cur, &zero)
            invariant
                self.wf(),
                chain == self.chain_view(),
                zero@ == zero_hash(),
                out@.len() <= chain.len(),
                out.deep_view() =~= chain.take(out@.len() as int),
                cur@ == if out@.len() < chain.len() {
                    chain[out@.len() as int].hash
                } else {
                    zero_hash()
                },
            decreases chain.len() - out@.len(),
        {
            let ghost k = out@.len() as int;
            proof {
                assert(k < chain.len());
            }
            let bytes = match store_get(&self.store, &cur) {
                Ok(Some(b)) => b,
                Ok(None) => {
                    return Err(MiningError::Store(StoreError::Corruption));
                },
                Err(e) => {
                    return Err(MiningError::Store(e));
                },
            };
            let block = match Block::from_bytes(&bytes) {
                Some(b) => b,
                None => {
                    return Err(MiningError::Store(StoreError::Corruption));
                },
            };
            proof {
                assert(bytes@ == store_contents(self.store)[chain[k].hash]);
                assert(dec_block_full(bytes@) == Some(chain[k]));
                assert(block@ == chain[k]);
            }
            let next = block.prev_block_hash.clone();
            let ghost pre = out;
            out.push(block);
            proof {
                crate::views::lemma_deep_view_push(pre, out);
                assert(out.deep_view() =~= chain.take(out@.len() as int));
                if k + 1 < chain.len() {
                    assert(chain[k].prev_block_hash == chain[k + 1].hash);
                } else {
                    assert(chain[k].prev_block_hash == zero_hash());
                }
            }
            cur = next;
        }
        proof {
            assert(out@.len() == chain.len()) by {
                if out@.len() < chain.len() {
                    assert(cur@ == chain[out@.len() as int].hash);
                    assert(chain[out@.len() as int].hash != zero_hash());
                }
            }
            assert(out.deep_view() =~= chain);
        }
        Ok(out)
    }

    /// All committed transactions, newest block first.
    fn collect_txs(&self) -> (r: Result<Vec<Transaction>, MiningError>)
        requires
            self.wf(),
        ensures
            r matches Ok(txs) ==> txs.deep_view() == all_txs(self.chain_view()),
            r matches Err(e) ==> e matches MiningError::Store(_),
    {
        let blocks = match self.blocks() {
            Ok(bs) => bs,
            Err(e) => {
                return Err(e);
            },
        };
        let ghost chain = self.chain_view();
        let mut pool: Vec<Transaction> = Vec::new();
        let mut i: usize = 0;
        while i < blocks.len()
            invariant
                0 <= i <= blocks@.len(),
                blocks.deep_view() == chain,
                pool.deep_view() =~= all_txs(chain.take(i as int)),
            decreases blocks@.len() - i,
        {
            let b = &blocks[i];
            let mut j: usize = 0;
            while j < b.transactions.len()
                invariant
                    0 <= j <= b.transactions@.len(),
                    blocks.deep_view() == chain,
                    0 <= i < blocks@.len(),
                    b == blocks@[i as int],
                    pool.deep_view() =~= all_txs(chain.take(i as int))
                        + b.transactions.deep_view().take(j as int),
                decreases b.transactions@.len() - j,
            {
                let ghost pre = pool;
                pool.push(b.transactions[j].duplicate());
                proof {
                    crate::views::lemma_deep_view_push(pre, pool);
                    assert(pool.deep_view() =~= all_txs(chain.take(i as int))
                        + b.transactions.deep_view().take(j + 1));
                }
                j = j + 1;
            }
            proof {
                assert(b.transactions.deep_view().take(b.transactions@.len() as int)
                    =~= b.transactions.deep_view());
                lemma_all_txs_take_snoc(chain, i as int);
                assert(blocks@[i as int]@ == chain[i as int]);
                assert(pool.deep_view() =~= all_txs(chain.take(i + 1)));
            }
            i = i + 1;
        }
        proof {
            assert(chain.take(chain.len() as int) =~= chain);
        }
        Ok(pool)
    }

    /// Verifies a transaction against everything the chain commits:
    /// coinbases pass; each input must unlock the output it references.
    pub fn verify_transaction(&self, tx: &Transaction) -> (r: Result<bool, MiningError>)
        requires
            self.wf(),
            tx@.id.len() == 32,
        ensures
            r matches Ok(b) ==> tx_verify_spec(tx@, all_txs(self.chain_view())) == Ok::<
                bool,
                TransactionError,
            >(b),
            r matches Err(MiningError::InvalidTransaction(e)) ==> tx_verify_spec(
                tx@,
                all_txs(self.chain_view()),
            ) == Err::<bool, TransactionError>(e),
    {
        let pool = match self.collect_txs() {
            Ok(p) => p,
            Err(e) => {
                return Err(e);
            },
        };
        match tx.verify(&pool) {
            Ok(b) => Ok(b),
            Err(e) => Err(MiningError::InvalidTransaction(e)),
        }
    }

    /// The first committed transaction with the given identifier, scanning
    /// the chain newest-first.
    pub fn find_transaction(&self, tx_id: &Vec<u8>) -> (r: Result<Option<Transaction>, MiningError>)
        requires
            self.wf(),
        ensures
            r matches Ok(Some(t)) ==> exists|j: int|
                0 <= j < all_txs(self.chain_view()).len() && find_tx_index(
                    all_txs(self.chain_view()),
                    tx_id@,
                ) == Some(j) && all_txs(self.chain_view())[j] == t@,
            r matches Ok(None) ==> find_tx_index(all_txs(self.chain_view()), tx_id@) is None,
    {
        let pool = match self.collect_txs() {
            Ok(p) => p,
            Err(e) => {
                return Err(e);
            },
        };
        let ghost txs = pool.deep_view();
        let n = pool.len();
        let mut i: usize = 0;
        proof {
            assert(txs.skip(0) =~= txs);
        }
        while i < n
            invariant
                0 <= i <= n,
                n == pool@.len(),
                txs == pool.deep_view(),
                txs == all_txs(self.chain_view()),
                find_tx_index(txs, tx_id@) == (match find_tx_index(txs.skip(i as int), tx_id@) {
                    Some(j) => Some(i + j),
                    None => None::<int>,
                }),
            decreases n - i,
        {
            if bytes_eq(&pool[i].id, tx_id) {
                proof {
                    assert(txs.skip(i as int)[0] == txs[i as int]);
                    assert(find_tx_index(txs.skip(i as int), tx_id@) == Some(0int));
                    assert(find_tx_index(txs, tx_id@) == Some(i as int));
                }
                let t = pool[i].duplicate();
                proof {
                    assert(txs[i as int] == t@);
                    assert(exists|j2: int|
                        0 <= j2 < txs.len() && find_tx_index(txs, tx_id@) == Some(j2) && txs[j2]
                            == t@) by {
                        assert(0 <= (i as int) < txs.len() && find_tx_index(txs, tx_id@) == Some(
                            i as int,
                        ) && txs[i as int] == t@);
                    }
                }
                return Ok(Some(t));
            }
            proof {
                assert(txs.skip(i as int)[0] == txs[i as int]);
                assert(txs.skip(i as int).drop_first() =~= txs.skip(i + 1));
            }
            i = i + 1;
        }
        proof {
            assert(txs.skip(n as int) =~= Seq::<TxV>::empty());
        }
        Ok(None)
    }

    /// Verifies the given transactions, mines a block atop the tip, and
    /// commits block and tip in one write transaction. On success the chain
    /// grows by exactly that block; on failure nothing changes.
    #[verifier::rlimit(100)]
    #[verifier::spinoff_prover]
    pub fn mine_block(&mut self, transactions: Vec<Transaction>) -> (r: Result<(), MiningError>)
        requires
            old(self).wf(),
            forall|i: int| 0 <= i < transactions.deep_view().len() ==> tx_wf(
                #[trigger] transactions.deep_view()[i],
            ),
        ensures
            final(self).wf(),
            r is Ok ==> {
                &&& final(self).chain_view().len() == old(self).chain_view().len() + 1
                &&& final(self).chain_view().skip(1) == old(self).chain_view()
                &&& final(self).chain_view()[0].transactions == transactions.deep_view()
                &&& pow_valid(final(self).chain_view()[0], TARGET_BITS)
                &&& txs_valid_against(final(self).chain_view()[0], old(self).chain_view())
                &&& txs_unspent_against(final(self).chain_view()[0], old(self).chain_view())
                &&& final(self).tip_view() == Some(final(self).chain_view()[0].hash)
                &&& store_contents(final(self).store_of())[tip_key_spec()]
                    == final(self).chain_view()[0].hash
                &&& store_contents(final(self).store_of())[final(self).chain_view()[0].hash]
                    == enc_block(final(self).chain_view()[0])
                &&& final(self).scripts_ok()
            },
            r is Err ==> final(self).chain_view() == old(self).chain_view()
                && final(self).tip_view() == old(self).tip_view(),
    {
        let ghost old_chain = self.chain_view();
        let pool = match self.collect_txs() {
            Ok(p) => p,
            Err(e) => {
                return Err(e);
            },
        };
        let ghost ptxs = pool.deep_view();
        let n = transactions.len();
        let mut i: usize = 0;
        while i < n
            invariant
                self == old(self),
                self.wf(),
                0 <= i <= n,
                n == transactions@.len(),
                ptxs == pool.deep_view(),
                ptxs == all_txs(old_chain),
                forall|k: int| 0 <= k < transactions.deep_view().len() ==> tx_wf(
                    #[trigger] transactions.deep_view()[k],
                ),
                forall|k: int| 0 <= k < i ==> tx_verify_spec(
                    #[trigger] transactions.deep_view()[k],
                    ptxs,
                ) == Ok::<bool, TransactionError>(true),
            decreases n - i,
        {
            proof {
                assert(transactions@[i as int]@ == transactions.deep_view()[i as int]);
            }
            match transactions[i].verify(&pool) {
                Ok(true) => {},
                Ok(false) => {
                    return Err(
                        MiningError::InvalidTransaction(TransactionError::Script(
                            crate::script_lang::ScriptError::WrongValue,
                        )),
                    );
                },
                Err(e) => {
                    return Err(MiningError::InvalidTransaction(e));
                },
            }
            i = i + 1;
        }
        let mut consumed: Vec<(Vec<u8>, i64)> = Vec::new();
        let mut k: usize = 0;
        proof {
            assert(ptxs.take(0) =~= Seq::<TxV>::empty());
            assert(consumed_pairs(Seq::<TxV>::empty()) =~= Set::<(Seq<u8>, i64)>::empty());
        }
        while k < pool.len()
            invariant
                self == old(self),
                self.wf(),
                0 <= k <= pool@.len(),
                ptxs == pool.deep_view(),
                forall|p: (Seq<u8>, i64)| pair_in_list(consumed@, p) <==> consumed_pairs(
                    ptxs.take(k as int),
                ).contains(p),
            decreases pool@.len() - k,
        {
            add_all_spends(&mut consumed, &pool[k]);
            proof {
                lemma_consumed_pairs_snoc(ptxs.take(k as int), ptxs[k as int]);
                assert(ptxs.take(k as int).push(ptxs[k as int]) =~= ptxs.take(k + 1));
            }
            k = k + 1;
        }
        proof {
            assert(ptxs.take(ptxs.len() as int) =~= ptxs);
        }
        let mut i2: usize = 0;
        while i2 < n
            invariant
                self == old(self),
                self.wf(),
                0 <= i2 <= n,
                n == transactions@.len(),
                ptxs == pool.deep_view(),
                forall|p: (Seq<u8>, i64)| pair_in_list(consumed@, p) <==> consumed_pairs(
                    ptxs,
                ).contains(p),
                forall|k2: int| 0 <= k2 < i2 ==> tx_inputs_unspent(
                    #[trigger] transactions.deep_view()[k2],
                    ptxs,
                ),
            decreases n - i2,
        {
            let tx = &transactions[i2];
            if !tx.is_coinbase() {
                let vn = tx.vin.len();
                let mut j: usize = 0;
                while j < vn
                    invariant
                        self == old(self),
                        self.wf(),
                        0 <= j <= vn,
                        vn == tx.vin@.len(),
                        0 <= i2 < n,
                        n == transactions@.len(),
                        tx == transactions@[i2 as int],
                        ptxs == pool.deep_view(),
                        forall|p: (Seq<u8>, i64)| pair_in_list(consumed@, p) <==> consumed_pairs(
                            ptxs,
                        ).contains(p),
                        forall|j2: int| 0 <= j2 < j ==> !consumed_pairs(ptxs).contains(
                            ((#[trigger] tx@.vin[j2]).tx_id, tx@.vin[j2].vout),
                        ),
                    decreases vn - j,
                {
                    let vin = &tx.vin[j];
                    if spent_contains(&consumed, &vin.tx_id, vin.vout) {
                        return Err(MiningError::InvalidTransaction(
                            TransactionError::SpentOutput,
                        ));
                    }
                    j = j + 1;
                }
                proof {
                    assert(tx_inputs_unspent(transactions.deep_view()[i2 as int], ptxs));
                }
            } else {
                proof {
                    assert(tx_inputs_unspent(transactions.deep_view()[i2 as int], ptxs));
                }
            }
            i2 = i2 + 1;
        }
        let tip_hash = match &self.tip {
            Some(h) => h.clone(),
            None => {
                return Err(MiningError::NoParent);
            },
        };
        let ghost txs_view = transactions.deep_view();
        let block = match Block::new(transactions, tip_hash) {
            Ok(b) => b,
            Err(e) => {
                return Err(e);
            },
        };
        let zero = zero_hash_vec();
        if bytes_eq(&block.hash, &zero) {
            return Err(MiningError::Store(StoreError::Corruption));
        }
        match store_get(&self.store, &block.hash) {
            Ok(None) => {},
            _ => {
                return Err(MiningError::Store(StoreError::Corruption));
            },
        }
        let enc = block.serialize();
        let l_key = tip_key();
        let ghost m_old = store_contents(self.store);
        match store_put_pair(&mut self.store, &block.hash, &enc, &l_key, &block.hash) {
            Ok(()) => {},
            Err(e) => {
                proof {
                    let m = store_contents(self.store);
                    assert(tip_key_spec().len() == 1);
                    assert forall|i2: int| 0 <= i2 < old_chain.len() implies m.contains_key(
                        (#[trigger] old_chain[i2]).hash,
                    ) && dec_block_full(m[old_chain[i2].hash]) == Some(old_chain[i2]) by {
                        assert(old_chain[i2].hash != block@.hash) by {
                            if old_chain[i2].hash == block@.hash {
                                assert(m_old.contains_key(old_chain[i2].hash));
                            }
                        }
                        assert(old_chain[i2].hash != tip_key_spec());
                    }
                    assert(self.wf());
                }
                return Err(MiningError::Store(e));
            },
        }
        let new_tip = block.hash.clone();
        self.tip = Some(new_tip);
        proof {
            self.chain@ = seq![block@] + old_chain;
        }
        proof {
            let chain = self.chain@;
            let m = store_contents(self.store);
            crate::codec::lemma_block_bounded(&block);
            assert(block_wf(block@)) by {
                assert(forall|k: int| 0 <= k < block@.transactions.len() ==> tx_wf(
                    #[trigger] block@.transactions[k],
                ));
            }
            assert(txs_valid_against(block@, old_chain));
            assert(txs_unspent_against(block@, old_chain));
            lemma_chain_extend(old_chain, block@);
            assert(chain_inv(chain)) by {
                assert(chain.drop_first() =~= old_chain);
                assert forall|i2: int| 0 <= i2 < chain.len() - 1 implies (
                #[trigger] chain[i2]).prev_block_hash == chain[i2 + 1].hash by {
                    if i2 > 0 {
                        assert(chain[i2] == old_chain[i2 - 1]);
                    }
                }
                assert forall|i2: int| 0 <= i2 < chain.len() implies pow_valid(
                    #[trigger] chain[i2],
                    TARGET_BITS,
                ) && block_wf(chain[i2]) && block_bounded(chain[i2]) && chain[i2].hash
                    != zero_hash() by {
                    if i2 > 0 {
                        assert(chain[i2] == old_chain[i2 - 1]);
                    }
                }
            }
            assert(tip_key_spec().len() == 1);
            assert(block@.hash.len() == 32);
            assert(tip_key_spec() != block@.hash);
            crate::codec::lemma_block_round_trip(block@);
            assert forall|i2: int| 0 <= i2 < chain.len() implies m.contains_key(
                (#[trigger] chain[i2]).hash,
            ) && dec_block_full(m[chain[i2].hash]) == Some(chain[i2]) by {
                if i2 > 0 {
                    assert(chain[i2] == old_chain[i2 - 1]);
                    assert(old_chain[i2 - 1].hash != block@.hash) by {
                        if old_chain[i2 - 1].hash == block@.hash {
                            assert(m_old.contains_key(old_chain[i2 - 1].hash));
                        }
                    }
                    assert(old_chain[i2 - 1].hash != tip_key_spec());
                    assert(m[old_chain[i2 - 1].hash] == m_old[old_chain[i2 - 1].hash]);
                }
            }
            assert(self.wf());
            assert(chain.skip(1) =~= old_chain);
        }
        Ok(())
    }

    /// Signs a transaction with the key, looking each input's source up in
    /// the chain.
    fn sign_transaction(&self, tx: &Transaction, priv_key: &Vec<u8>) -> (r: Result<
        Transaction,
        MiningError,
    >)
        requires
            self.wf(),
            crate::crypt::is_valid_seckey(priv_key@),
            priv_key@.len() == 32,
            tx_wf(tx@),
        ensures
            r matches Ok(t) ==> crate::transaction::tx_sign_rel(tx@, priv_key@, t@) && tx_wf(t@),
            r matches Err(e) ==> (e matches MiningError::Store(_) || e
                == MiningError::InvalidTransaction(TransactionError::MissingPrevTx)),
    {
        let pool = match self.collect_txs() {
            Ok(p) => p,
            Err(e) => {
                return Err(e);
            },
        };
        match tx.sign(priv_key, &pool) {
            Ok(t) => Ok(t),
            Err(e) => Err(MiningError::InvalidTransaction(e)),
        }
    }

    /// Every transaction holding at least one unspent output locked to the
    /// hash, newest first.
    pub fn find_unspent_transactions(&self, pub_key_hash: &Vec<u8>) -> (r: Result<
        Vec<Transaction>,
        MiningError,
    >)
        requires
            self.wf(),
        ensures
            r matches Ok(us) ==> us.deep_view() == unspent_txs(
                all_txs(self.chain_view()),
                0,
                pub_key_hash@,
            ),
            r matches Err(e) ==> e matches MiningError::Store(_),
    {
        let pool = match self.collect_txs() {
            Ok(p) => p,
            Err(e) => {
                return Err(e);
            },
        };
        let ghost txs = pool.deep_view();
        let mut unspent: Vec<Transaction> = Vec::new();
        let mut spent: Vec<(Vec<u8>, i64)> = Vec::new();
        let n = pool.len();
        let mut k: usize = 0;
        while k < n
            invariant
                0 <= k <= n,
                n == pool@.len(),
                txs == pool.deep_view(),
                unspent_txs(txs, 0, pub_key_hash@) =~= unspent.deep_view() + unspent_txs(
                    txs,
                    k as int,
                    pub_key_hash@,
                ),
                forall|p: (Seq<u8>, i64)| pair_in_list(spent@, p) <==> spent_upto(
                    txs,
                    k as int,
                    pub_key_hash@,
                ).contains(p),
            decreases n - k,
        {
            let tx = &pool[k];
            let mut has: bool = false;
            let m = tx.vout.len();
            let mut o: usize = 0;
            while o < m
                invariant
                    0 <= o <= m,
                    0 <= k < n,
                    n == pool@.len(),
                    m == tx.vout@.len(),
                    txs == pool.deep_view(),
                    tx == pool@[k as int],
                    forall|p: (Seq<u8>, i64)| pair_in_list(spent@, p) <==> spent_upto(
                        txs,
                        k as int,
                        pub_key_hash@,
                    ).contains(p),
                    has == exists|o2: int|
                        0 <= o2 < o && #[trigger] output_unspent(
                            txs,
                            k as int,
                            o2,
                            pub_key_hash@,
                        ),
                decreases m - o,
            {
                let locked = tx.vout[o].is_locker_with_key(pub_key_hash);
                let sp = spent_contains(&spent, &tx.id, o as i64);
                if locked && !sp {
                    proof {
                        assert(output_unspent(txs, k as int, o as int, pub_key_hash@));
                    }
                    has = true;
                }
                proof {
                    if !(locked && !sp) {
                        assert(!output_unspent(txs, k as int, o as int, pub_key_hash@));
                    }
                }
                o = o + 1;
            }
            if has {
                let ghost pre = unspent;
                unspent.push(tx.duplicate());
                proof {
                    crate::views::lemma_deep_view_push(pre, unspent);
                    assert(tx_has_unspent(txs, k as int, pub_key_hash@));
                    assert(unspent_txs(txs, k as int, pub_key_hash@) =~= seq![txs[k as int]]
                        + unspent_txs(txs, k + 1, pub_key_hash@));
                    assert(unspent_txs(txs, 0, pub_key_hash@) =~= unspent.deep_view()
                        + unspent_txs(txs, k + 1, pub_key_hash@));
                }
            } else {
                proof {
                    assert(!tx_has_unspent(txs, k as int, pub_key_hash@));
                    assert(unspent_txs(txs, k as int, pub_key_hash@) =~= unspent_txs(
                        txs,
                        k + 1,
                        pub_key_hash@,
                    ));
                }
            }
            add_spends(&mut spent, tx, pub_key_hash);
            proof {
                assert forall|p: (Seq<u8>, i64)| pair_in_list(spent@, p) <==> spent_upto(
                    txs,
                    k + 1,
                    pub_key_hash@,
                ).contains(p) by {
                    assert(spent_upto(txs, k + 1, pub_key_hash@) == spent_upto(
                        txs,
                        k as int,
                        pub_key_hash@,
                    ).union(spends_of_tx(txs[k as int], pub_key_hash@)));
                }
            }
            k = k + 1;
        }
        proof {
            assert(unspent_txs(txs, n as int, pub_key_hash@) =~= Seq::<TxV>::empty());
            assert(unspent.deep_view() =~= unspent_txs(txs, 0, pub_key_hash@));
        }
        Ok(unspent)
    }

    /// Every unspent output locked to the hash, in scan order.
    pub fn find_outs(&self, pub_key_hash: &Vec<u8>) -> (r: Result<Vec<TXOutput>, MiningError>)
        requires
            self.wf(),
        ensures
            r matches Ok(os) ==> os.deep_view() == unspent_outputs(
                all_txs(self.chain_view()),
                0,
                pub_key_hash@,
            ),
            r matches Err(e) ==> e matches MiningError::Store(_),
    {
        let pool = match self.collect_txs() {
            Ok(p) => p,
            Err(e) => {
                return Err(e);
            },
        };
        let ghost txs = pool.deep_view();
        let mut outs: Vec<TXOutput> = Vec::new();
        let mut spent: Vec<(Vec<u8>, i64)> = Vec::new();
        let n = pool.len();
        let mut k: usize = 0;
        while k < n
            invariant
                0 <= k <= n,
                n == pool@.len(),
                txs == pool.deep_view(),
                unspent_outputs(txs, 0, pub_key_hash@) =~= outs.deep_view() + unspent_outputs(
                    txs,
                    k as int,
                    pub_key_hash@,
                ),
                forall|p: (Seq<u8>, i64)| pair_in_list(spent@, p) <==> spent_upto(
                    txs,
                    k as int,
                    pub_key_hash@,
                ).contains(p),
            decreases n - k,
        {
            let tx = &pool[k];
            let m = tx.vout.len();
            let mut o: usize = 0;
            proof {
                assert(unspent_outputs(txs, k as int, pub_key_hash@) =~= unspent_outs_of_tx(
                    txs,
                    k as int,
                    0,
                    pub_key_hash@,
                ) + unspent_outputs(txs, k + 1, pub_key_hash@));
            }
            while o < m
                invariant
                    0 <= o <= m,
                    0 <= k < n,
                    n == pool@.len(),
                    m == tx.vout@.len(),
                    txs == pool.deep_view(),
                    tx == pool@[k as int],
                    forall|p: (Seq<u8>, i64)| pair_in_list(spent@, p) <==> spent_upto(
                        txs,
                        k as int,
                        pub_key_hash@,
                    ).contains(p),
                    unspent_outputs(txs, 0, pub_key_hash@) =~= outs.deep_view()
                        + unspent_outs_of_tx(txs, k as int, o as int, pub_key_hash@)
                        + unspent_outputs(txs, k + 1, pub_key_hash@),
                decreases m - o,
            {
                let locked = tx.vout[o].is_locker_with_key(pub_key_hash);
                let sp = spent_contains(&spent, &tx.id, o as i64);
                if locked && !sp {
                    proof {
                        assert(output_unspent(txs, k as int, o as int, pub_key_hash@));
                    }
                    let ghost pre = outs;
                    outs.push(tx.vout[o].duplicate());
                    proof {
                        crate::views::lemma_deep_view_push(pre, outs);
                        assert(unspent_outs_of_tx(txs, k as int, o as int, pub_key_hash@)
                            =~= seq![txs[k as int].vout[o as int]] + unspent_outs_of_tx(
                            txs,
                            k as int,
                            o + 1,
                            pub_key_hash@,
                        ));
                        assert(unspent_outputs(txs, 0, pub_key_hash@) =~= outs.deep_view()
                            + unspent_outs_of_tx(txs, k as int, o + 1, pub_key_hash@)
                            + unspent_outputs(txs, k + 1, pub_key_hash@));
                    }
                } else {
                    proof {
                        assert(!output_unspent(txs, k as int, o as int, pub_key_hash@));
                        assert(unspent_outs_of_tx(txs, k as int, o as int, pub_key_hash@)
                            =~= unspent_outs_of_tx(txs, k as int, o + 1, pub_key_hash@));
                    }
                }
                o = o + 1;
            }
            proof {
                assert(unspent_outs_of_tx(txs, k as int, m as int, pub_key_hash@)
                    =~= Seq::<crate::transaction::OutV>::empty());
            }
            add_spends(&mut spent, tx, pub_key_hash);
            proof {
                assert forall|p: (Seq<u8>, i64)| pair_in_list(spent@, p) <==> spent_upto(
                    txs,
                    k + 1,
                    pub_key_hash@,
                ).contains(p) by {
                    assert(spent_upto(txs, k + 1, pub_key_hash@) == spent_upto(
                        txs,
                        k as int,
                        pub_key_hash@,
                    ).union(spends_of_tx(txs[k as int], pub_key_hash@)));
                }
            }
            k = k + 1;
        }
        proof {
            assert(unspent_outputs(txs, n as int, pub_key_hash@)
                =~= Seq::<crate::transaction::OutV>::empty());
            assert(outs.deep_view() =~= unspent_outputs(txs, 0, pub_key_hash@));
        }
        Ok(outs)
    }

    /// The balance of an address: the values of its unspent outputs added
    /// up, capped at the largest representable amount.
    pub fn get_balance(&self, address: &String) -> (r: Result<u64, MiningError>)
        requires
            self.wf(),
        ensures
            r matches Ok(v) ==> (addr_decode_spec(address@) matches Some(pkh) && v as nat == (
            if balance_spec(all_txs(self.chain_view()), pkh) <= u64::MAX as nat {
                balance_spec(all_txs(self.chain_view()), pkh)
            } else {
                u64::MAX as nat
            })),
            r matches Err(MiningError::InvalidTransaction(e)) ==> e
                == TransactionError::BadAddress && addr_decode_spec(address@) is None,
    {
        let pub_key_hash = match crate::wallet::address_to_pub_hash(address) {
            Some(h) => h,
            None => {
                return Err(MiningError::InvalidTransaction(TransactionError::BadAddress));
            },
        };
        let outs = match self.find_outs(&pub_key_hash) {
            Ok(os) => os,
            Err(e) => {
                return Err(e);
            },
        };
        let ghost model = outs.deep_view();
        let mut balance: u64 = 0;
        let mut i: usize = 0;
        proof {
            assert(model.take(0) =~= Seq::<crate::transaction::OutV>::empty());
        }
        while i < outs.len()
            invariant
                0 <= i <= outs@.len(),
                model == outs.deep_view(),
                (sum_values(model.take(i as int)) <= u64::MAX as nat && balance as nat
                    == sum_values(model.take(i as int))) || (sum_values(model.take(i as int))
                    > u64::MAX as nat && balance == u64::MAX),
            decreases outs@.len() - i,
        {
            let v = outs[i].value;
            proof {
                lemma_sum_values_snoc(model, i as int);
            }
            balance = balance.saturating_add(v);
            i = i + 1;
        }
        proof {
            assert(model.take(outs@.len() as int) =~= model);
        }
        Ok(balance)
    }

    /// Walks the unspent outputs in scan order, picking each one locked to
    /// the wallet's key until the amount is covered. Returns the exact sum
    /// picked and the references, or reports that the sum cannot be carried
    /// by a 64-bit value.
    fn find_spendable_outs(&self, from: &Wallet, amount: u64) -> (r: Result<
        (u64, Vec<(Vec<u8>, i64)>),
        MiningError,
    >)
        requires
            self.wf(),
        ensures
            r matches Ok(p) ==> {
                let sel = select_outputs(
                    all_txs(self.chain_view()),
                    0,
                    hash_pub_key_spec(from.spec_public_key()),
                    amount,
                    0,
                    Seq::empty(),
                );
                &&& p.0 as nat == sel.0
                &&& picked_model(p.1@) == sel.1
                &&& forall|i: int| 0 <= i < p.1@.len() ==> find_tx_index(
                    all_txs(self.chain_view()),
                    (#[trigger] p.1@[i]).0@,
                ) is Some
                &&& forall|i: int| 0 <= i < p.1@.len() ==> (#[trigger] p.1@[i]).0@.len() == 32
            },
            r matches Err(e) ==> (e matches MiningError::Store(_) || e
                == MiningError::InvalidTransaction(TransactionError::ValueOverflow)),
            r == Err::<(u64, Vec<(Vec<u8>, i64)>), MiningError>(
                MiningError::InvalidTransaction(TransactionError::ValueOverflow),
            ) ==> select_outputs(
                all_txs(self.chain_view()),
                0,
                hash_pub_key_spec(from.spec_public_key()),
                amount,
                0,
                Seq::empty(),
            ).0 > u64::MAX,
    {
        let pub_key_hash = {
            let pk = from.public_key();
            crate::wallet::hash_pub_key(&pk)
        };
        let pool = match self.collect_txs() {
            Ok(p) => p,
            Err(e) => {
                return Err(e);
            },
        };
        let ghost txs = pool.deep_view();
        proof {
            lemma_all_txs_wf(self.chain_view());
        }
        let mut picked: Vec<(Vec<u8>, i64)> = Vec::new();
        let mut spent: Vec<(Vec<u8>, i64)> = Vec::new();
        let mut acc: u128 = 0;
        let n = pool.len();
        let mut k: usize = 0;
        proof {
            assert(picked_model(picked@) =~= Seq::<(Seq<u8>, i64)>::empty());
        }
        while k < n && acc < amount as u128
            invariant
                0 <= k <= n,
                n == pool@.len(),
                txs == pool.deep_view(),
                acc <= u64::MAX as u128 + u64::MAX as u128,
                select_outputs(txs, 0, pub_key_hash@, amount, 0, Seq::empty())
                    == select_outputs(
                    txs,
                    k as int,
                    pub_key_hash@,
                    amount,
                    acc as nat,
                    picked_model(picked@),
                ),
                pub_key_hash@ == hash_pub_key_spec(from.spec_public_key()),
                forall|j: int| 0 <= j < txs.len() ==> tx_wf(#[trigger] txs[j]),
                forall|p: (Seq<u8>, i64)| pair_in_list(spent@, p) <==> spent_upto(
                    txs,
                    k as int,
                    pub_key_hash@,
                ).contains(p),
                forall|i: int| 0 <= i < picked@.len() ==> find_tx_index(
                    txs,
                    (#[trigger] picked@[i]).0@,
                ) is Some && picked@[i].0@.len() == 32,
            decreases n - k,
        {
            let tx = &pool[k];
            let m = tx.vout.len();
            let mut o: usize = 0;
            proof {
                assert(select_outputs(txs, k as int, pub_key_hash@, amount, acc as nat,
                    picked_model(picked@)) == {
                    let st = select_in_tx(txs, k as int, 0, pub_key_hash@, amount, acc as nat,
                        picked_model(picked@));
                    select_outputs(txs, k + 1, pub_key_hash@, amount, st.0, st.1)
                });
            }
            while o < m && acc < amount as u128
                invariant
                    0 <= o <= m,
                    0 <= k < n,
                    n == pool@.len(),
                    m == tx.vout@.len(),
                    txs == pool.deep_view(),
                    tx == pool@[k as int],
                    acc <= u64::MAX as u128 + u64::MAX as u128,
                    pub_key_hash@ == hash_pub_key_spec(from.spec_public_key()),
                    forall|j: int| 0 <= j < txs.len() ==> tx_wf(#[trigger] txs[j]),
                    forall|p: (Seq<u8>, i64)| pair_in_list(spent@, p) <==> spent_upto(
                        txs,
                        k as int,
                        pub_key_hash@,
                    ).contains(p),
                    select_outputs(txs, 0, pub_key_hash@, amount, 0, Seq::empty()) == {
                        let st = select_in_tx(txs, k as int, o as int, pub_key_hash@, amount,
                            acc as nat, picked_model(picked@));
                        select_outputs(txs, k + 1, pub_key_hash@, amount, st.0, st.1)
                    },
                    forall|i: int| 0 <= i < picked@.len() ==> find_tx_index(
                        txs,
                        (#[trigger] picked@[i]).0@,
                    ) is Some && picked@[i].0@.len() == 32,
                decreases m - o,
            {
                let locked = tx.vout[o].is_locker_with_key(&pub_key_hash);
                let sp = spent_contains(&spent, &tx.id, o as i64);
                if locked && !sp {
                    proof {
                        assert(output_unspent(txs, k as int, o as int, pub_key_hash@));
                    }
                    let v = tx.vout[o].value;
                    let ghost pre = picked@;
                    acc = acc + (v as u128);
                    picked.push((tx.id.clone(), o as i64));
                    proof {
                        assert(picked_model(picked@) =~= picked_model(pre).push(
                            (txs[k as int].id, o as i64),
                        ));
                        assert forall|i: int| 0 <= i < picked@.len() implies find_tx_index(
                            txs,
                            (#[trigger] picked@[i]).0@,
                        ) is Some && picked@[i].0@.len() == 32 by {
                            if i < pre.len() {
                                assert(picked@[i] == pre[i]);
                            } else {
                                assert(picked@[i].0@ == txs[k as int].id);
                                assert(tx_wf(txs[k as int]));
                                crate::transaction::lemma_find_tx_found(txs, k as int);
                            }
                        }
                    }
                } else {
                    proof {
                        assert(!output_unspent(txs, k as int, o as int, pub_key_hash@));
                    }
                }
                o = o + 1;
            }
            proof {
                if acc < amount as u128 {
                    assert(select_in_tx(txs, k as int, m as int, pub_key_hash@, amount,
                        acc as nat, picked_model(picked@)) == (
                        acc as nat,
                        picked_model(picked@),
                    ));
                } else {
                    assert(select_in_tx(txs, k as int, o as int, pub_key_hash@, amount,
                        acc as nat, picked_model(picked@)) == (
                        acc as nat,
                        picked_model(picked@),
                    ));
                    assert(select_outputs(txs, k + 1, pub_key_hash@, amount, acc as nat,
                        picked_model(picked@)) == (acc as nat, picked_model(picked@)));
                }
            }
            add_spends(&mut spent, tx, &pub_key_hash);
            proof {
                assert forall|p: (Seq<u8>, i64)| pair_in_list(spent@, p) <==> spent_upto(
                    txs,
                    k + 1,
                    pub_key_hash@,
                ).contains(p) by {
                    assert(spent_upto(txs, k + 1, pub_key_hash@) == spent_upto(
                        txs,
                        k as int,
                        pub_key_hash@,
                    ).union(spends_of_tx(txs[k as int], pub_key_hash@)));
                }
            }
            k = k + 1;
        }
        proof {
            if acc < amount as u128 {
                assert(k == n);
                assert(select_outputs(txs, n as int, pub_key_hash@, amount, acc as nat,
                    picked_model(picked@)) == (acc as nat, picked_model(picked@)));
            } else {
                assert(select_outputs(txs, k as int, pub_key_hash@, amount, acc as nat,
                    picked_model(picked@)) == (acc as nat, picked_model(picked@)));
            }
        }
        if acc > u64::MAX as u128 {
            return Err(MiningError::InvalidTransaction(TransactionError::ValueOverflow));
        }
        Ok((acc as u64, picked))
    }

    /// Builds and signs a spend of `amount` from the wallet to the address:
    /// unspent outputs are picked in scan order until the amount is covered,
    /// one output pays the address, and any difference returns to the wallet
    /// as change. Fails with `NotEnoughMoney` exactly where the wallet's
    /// unspent outputs cannot cover the amount.
    #[verifier::rlimit(100)]
    #[verifier::spinoff_prover]
    pub fn new_utxo_transaction(&self, from: &Wallet, to: String, amount: u64) -> (r: Result<
        Transaction,
        MiningError,
    >)
        requires
            self.wf(),
        ensures
            r matches Ok(t) ==> {
                let sel = select_outputs(
                    all_txs(self.chain_view()),
                    0,
                    hash_pub_key_spec(from.spec_public_key()),
                    amount,
                    0,
                    Seq::empty(),
                );
                &&& sel.0 >= amount
                &&& addr_decode_spec(to@) is Some
                &&& t@.vin.len() == sel.1.len()
                &&& t@.vout.len() == (if sel.0 == amount {
                    1int
                } else {
                    2int
                })
                &&& t@.vout[0].value == amount
                &&& (addr_decode_spec(to@) matches Some(pkh) && t@.vout[0].script
                    == crate::script_lang::p2pkh_script(pkh))
                &&& (sel.0 > amount ==> t@.vout[1].value == sel.0 - amount && t@.vout[1].script
                    == crate::script_lang::p2pkh_script(
                    hash_pub_key_spec(from.spec_public_key()),
                ))
                &&& forall|i: int| 0 <= i < t@.vin.len() ==> (#[trigger] t@.vin[i]).script_sig.pub_key
                    == from.spec_public_key()
                &&& tx_wf(t@)
            },
            r matches Err(MiningError::InvalidTransaction(e)) && e
                == TransactionError::NotEnoughMoney ==> select_outputs(
                all_txs(self.chain_view()),
                0,
                hash_pub_key_spec(from.spec_public_key()),
                amount,
                0,
                Seq::empty(),
            ).0 < amount,
            select_outputs(
                all_txs(self.chain_view()),
                0,
                hash_pub_key_spec(from.spec_public_key()),
                amount,
                0,
                Seq::empty(),
            ).0 < amount ==> !(r is Ok) && (r matches Err(MiningError::InvalidTransaction(e))
                ==> e == TransactionError::NotEnoughMoney),
    {
        let (acc, valid_outs) = match self.find_spendable_outs(from, amount) {
            Ok(p) => p,
            Err(e) => {
                return Err(e);
            },
        };
        if acc < amount {
            return Err(MiningError::InvalidTransaction(TransactionError::NotEnoughMoney));
        }
        let mut inputs: Vec<crate::transaction::TXInput> = Vec::new();
        let mut i: usize = 0;
        while i < valid_outs.len()
            invariant
                0 <= i <= valid_outs@.len(),
                inputs@.len() == i,
                forall|j: int| 0 <= j < valid_outs@.len() ==> (#[trigger] valid_outs@[j]).0@.len()
                    == 32,
                forall|j: int| 0 <= j < i ==> {
                    &&& (#[trigger] inputs@[j])@.tx_id == valid_outs@[j].0@
                    &&& inputs@[j]@.script_sig.pub_key == from.spec_public_key()
                    &&& crate::transaction::in_wf(inputs@[j]@)
                },
            decreases valid_outs@.len() - i,
        {
            let (tx_id, out_idx) = {
                let p = &valid_outs[i];
                (p.0.clone(), p.1)
            };
            let input = crate::transaction::TXInput {
                tx_id,
                vout: out_idx,
                script_sig: crate::script_lang::ScriptSig {
                    pub_key: from.public_key(),
                    signature: crate::bytes::zero_bytes(64),
                },
            };
            inputs.push(input);
            i = i + 1;
        }
        let mut outputs: Vec<crate::transaction::TXOutput> = Vec::new();
        let out_to = match crate::transaction::TXOutput::new(amount, &to) {
            Some(o) => o,
            None => {
                return Err(MiningError::InvalidTransaction(TransactionError::BadAddress));
            },
        };
        outputs.push(out_to);
        if acc > amount {
            let from_address = from.get_address();
            let change = match crate::transaction::TXOutput::new(acc - amount, &from_address) {
                Some(o) => o,
                None => {
                    return Err(MiningError::InvalidTransaction(TransactionError::BadAddress));
                },
            };
            outputs.push(change);
        }
        let ghost in_views = inputs.deep_view();
        let ghost out_views = outputs.deep_view();
        let tx = crate::transaction::Transaction::new(inputs, outputs);
        proof {
            assert forall|j: int| 0 <= j < tx@.vin.len() implies crate::transaction::in_wf(
                #[trigger] tx@.vin[j],
            ) by {
                assert(tx@.vin[j] == in_views[j]);
            }
            assert forall|j: int| 0 <= j < tx@.vout.len() implies crate::transaction::out_wf(
                #[trigger] tx@.vout[j],
            ) by {
                assert(tx@.vout[j] == out_views[j]);
            }
            assert(tx_wf(tx@));
        }
        // pins that the wallet's stored public key is the one its secret key derives
        let _pk = from.public_key();
        let sk = from.private_key();
        let signed = match self.sign_transaction(&tx, &sk) {
            Ok(t) => t,
            Err(e) => {
                return Err(e);
            },
        };
        proof {
            assert(!crate::transaction::is_coinbase_v(tx@) ==> signed@.vout == tx@.vout
                && signed@.vin.len() == tx@.vin.len());
            if crate::transaction::is_coinbase_v(tx@) {
                assert(signed@ == tx@);
            }
            assert(signed@.vout == out_views);
            assert(signed@.vout[0].value == amount);
            assert forall|i2: int| 0 <= i2 < signed@.vin.len() implies (
            #[trigger] signed@.vin[i2]).script_sig.pub_key == from.spec_public_key() by {
                if crate::transaction::is_coinbase_v(tx@) {
                    assert(signed@.vin[i2] == tx@.vin[i2]);
                } else {
                    assert(signed@.vin[i2].script_sig.pub_key == crate::crypt::pubkey_of(sk@));
                }
            }
        }
        Ok(signed)
    }

    /// An iterator over the stored blocks, newest first.
    pub fn iter<'a>(&'a self) -> (r: BlockchainIterator<'a>)
        requires
            self.wf(),
        ensures
            r.wf(),
            r.spec_chain() == self.chain_view(),
            r.spec_pos() == 0,
    {
        let current_hash = match &self.tip {
            Some(h) => Some(h.clone()),
            None => None,
        };
        BlockchainIterator { chain: self, current_hash, pos: Ghost(0) }
    }
}

/// Every stored block except the oldest has its predecessor stored: looking
/// the predecessor hash up in the backend yields exactly the next block of
/// the chain.
pub proof fn lemma_predecessor_stored(bc: Blockchain, i: int)
    requires
        bc.wf(),
        0 <= i < bc.chain_view().len() - 1,
    ensures
        store_contents(bc.store_of()).contains_key(bc.chain_view()[i].prev_block_hash),
        dec_block_full(
            store_contents(bc.store_of())[bc.chain_view()[i].prev_block_hash],
        ) == Some(bc.chain_view()[i + 1]),
{
    assert(bc.chain_view()[i].prev_block_hash == bc.chain_view()[i + 1].hash);
}

/// Every stored block's hash re-computes from its own header and nonce and
/// meets the difficulty target.
pub proof fn lemma_stored_blocks_meet_target(bc: Blockchain, i: int)
    requires
        bc.wf(),
        0 <= i < bc.chain_view().len(),
    ensures
        pow_valid(bc.chain_view()[i], TARGET_BITS),
{
}

/// Every non-coinbase transaction of every stored block unlocks outputs
/// committed by older blocks and not already consumed by older blocks:
/// transaction validity is part of the chain's well-formedness.
pub proof fn lemma_stored_transactions_verify(bc: Blockchain)
    requires
        bc.wf(),
    ensures
        bc.scripts_ok(),
{
}

/// A spent reference: the pair of a transaction identifier and an output
/// index, as recorded while scanning.
pub open spec fn pair_in_list(l: Seq<(Vec<u8>, i64)>, p: (Seq<u8>, i64)) -> bool {
    exists|j: int| 0 <= j < l.len() && (#[trigger] l[j]).0@ == p.0 && l[j].1 == p.1
}

/// The output references a transaction's inputs spend, where the input's
/// embedded key hashes to the asked-for hash. Coinbases spend nothing.
pub open spec fn spends_of_tx(t: TxV, pkh: Seq<u8>) -> Set<(Seq<u8>, i64)> {
    if crate::transaction::is_coinbase_v(t) {
        Set::empty()
    } else {
        Set::new(
            |p: (Seq<u8>, i64)|
                exists|j: int|
                    0 <= j < t.vin.len() && hash_pub_key_spec(
                        (#[trigger] t.vin[j]).script_sig.pub_key,
                    ) == pkh && p.0 == t.vin[j].tx_id && p.1 == t.vin[j].vout,
        )
    }
}

/// Everything the first `k` transactions of the scan spend.
pub open spec fn spent_upto(txs: Seq<TxV>, k: int, pkh: Seq<u8>) -> Set<(Seq<u8>, i64)>
    decreases k,
{
    if k <= 0 {
        Set::empty()
    } else {
        spent_upto(txs, k - 1, pkh).union(spends_of_tx(txs[k - 1], pkh))
    }
}

/// Whether output `o` of transaction `k` is locked to the hash and unspent
/// by every newer transaction.
pub open spec fn output_unspent(txs: Seq<TxV>, k: int, o: int, pkh: Seq<u8>) -> bool {
    &&& script_locks(txs[k].vout[o].script, pkh)
    &&& !spent_upto(txs, k, pkh).contains((txs[k].id, o as i64))
}

/// The unspent outputs of transaction `k` from index `o` on, in index order.
pub open spec fn unspent_outs_of_tx(txs: Seq<TxV>, k: int, o: int, pkh: Seq<u8>) -> Seq<
    crate::transaction::OutV,
>
    decreases txs[k].vout.len() - o,
{
    if k < 0 || k >= txs.len() || o < 0 || o >= txs[k].vout.len() {
        Seq::empty()
    } else {
        (if output_unspent(txs, k, o, pkh) {
            seq![txs[k].vout[o]]
        } else {
            Seq::empty()
        }) + unspent_outs_of_tx(txs, k, o + 1, pkh)
    }
}

/// All unspent outputs locked to the hash, in scan order: transactions
/// newest-first, outputs in index order.
pub open spec fn unspent_outputs(txs: Seq<TxV>, k: int, pkh: Seq<u8>) -> Seq<
    crate::transaction::OutV,
>
    decreases txs.len() - k,
{
    if k < 0 || k >= txs.len() {
        Seq::empty()
    } else {
        unspent_outs_of_tx(txs, k, 0, pkh) + unspent_outputs(txs, k + 1, pkh)
    }
}

/// The values of a list of outputs, added up.
pub open spec fn sum_values(os: Seq<crate::transaction::OutV>) -> nat
    decreases os.len(),
{
    if os.len() == 0 {
        0
    } else {
        (os.first().value + sum_values(os.drop_first())) as nat
    }
}

/// The full-scan balance: the sum over all unspent outputs locked to the
/// hash.
pub open spec fn balance_spec(txs: Seq<TxV>, pkh: Seq<u8>) -> nat {
    sum_values(unspent_outputs(txs, 0, pkh))
}

/// Whether transaction `k` holds at least one unspent output for the hash.
pub open spec fn tx_has_unspent(txs: Seq<TxV>, k: int, pkh: Seq<u8>) -> bool {
    exists|o: int|
        0 <= o < txs[k].vout.len() && #[trigger] output_unspent(txs, k, o, pkh)
}

/// The transactions holding unspent value for the hash, in scan order.
pub open spec fn unspent_txs(txs: Seq<TxV>, k: int, pkh: Seq<u8>) -> Seq<TxV>
    decreases txs.len() - k,
{
    if k < 0 || k >= txs.len() {
        Seq::empty()
    } else {
        (if tx_has_unspent(txs, k, pkh) {
            seq![txs[k]]
        } else {
            Seq::empty()
        }) + unspent_txs(txs, k + 1, pkh)
    }
}

/// Appends a transaction's spends to the recorded list.
fn add_spends(spent: &mut Vec<(Vec<u8>, i64)>, tx: &Transaction, pkh: &Vec<u8>)
    ensures
        forall|p: (Seq<u8>, i64)| pair_in_list(final(spent)@, p) <==> (pair_in_list(
            old(spent)@,
            p,
        ) || spends_of_tx(tx@, pkh@).contains(p)),
{
    if tx.is_coinbase() {
        proof {
            assert(spends_of_tx(tx@, pkh@) =~= Set::empty());
        }
        return ;
    }
    let n = tx.vin.len();
    let mut j: usize = 0;
    while j < n
        invariant
            0 <= j <= n,
            n == tx.vin@.len(),
            !crate::transaction::is_coinbase_v(tx@),
            forall|p: (Seq<u8>, i64)| pair_in_list(spent@, p) <==> (pair_in_list(old(spent)@, p)
                || exists|j2: int|
                0 <= j2 < j && hash_pub_key_spec(
                    (#[trigger] tx@.vin[j2]).script_sig.pub_key,
                ) == pkh@ && p.0 == tx@.vin[j2].tx_id && p.1 == tx@.vin[j2].vout),
        decreases n - j,
    {
        let vin = &tx.vin[j];
        let ghost pre = spent@;
        if vin.uses_key(pkh) {
            spent.push((vin.tx_id.clone(), vin.vout));
            proof {
                assert forall|p: (Seq<u8>, i64)| pair_in_list(spent@, p) <==> (pair_in_list(
                    old(spent)@,
                    p,
                ) || exists|j2: int|
                    0 <= j2 < j + 1 && hash_pub_key_spec(
                        (#[trigger] tx@.vin[j2]).script_sig.pub_key,
                    ) == pkh@ && p.0 == tx@.vin[j2].tx_id && p.1 == tx@.vin[j2].vout) by {
                    if pair_in_list(spent@, p) {
                        let w = choose|w: int|
                            0 <= w < spent@.len() && (#[trigger] spent@[w]).0@ == p.0
                                && spent@[w].1 == p.1;
                        if w < pre.len() {
                            assert(pre[w] == spent@[w]);
                            assert(pair_in_list(pre, p));
                        } else {
                            assert(p.0 == tx@.vin[j as int].tx_id && p.1 == tx@.vin[
                                j as int].vout);
                        }
                    }
                    if pair_in_list(pre, p) {
                        let w = choose|w: int|
                            0 <= w < pre.len() && (#[trigger] pre[w]).0@ == p.0 && pre[w].1
                                == p.1;
                        assert(spent@[w] == pre[w]);
                        assert(pair_in_list(spent@, p));
                    }
                    if exists|j2: int|
                        0 <= j2 < j + 1 && hash_pub_key_spec(
                            (#[trigger] tx@.vin[j2]).script_sig.pub_key,
                        ) == pkh@ && p.0 == tx@.vin[j2].tx_id && p.1 == tx@.vin[j2].vout {
                        let j2 = choose|j2: int|
                            0 <= j2 < j + 1 && hash_pub_key_spec(
                                (#[trigger] tx@.vin[j2]).script_sig.pub_key,
                            ) == pkh@ && p.0 == tx@.vin[j2].tx_id && p.1 == tx@.vin[j2].vout;
                        if j2 == j as int {
                            assert(spent@[spent@.len() - 1].0@ == p.0);
                            assert(pair_in_list(spent@, p));
                        }
                    }
                }
            }
        } else {
            proof {
                assert forall|p: (Seq<u8>, i64)| pair_in_list(spent@, p) <==> (pair_in_list(
                    old(spent)@,
                    p,
                ) || exists|j2: int|
                    0 <= j2 < j + 1 && hash_pub_key_spec(
                        (#[trigger] tx@.vin[j2]).script_sig.pub_key,
                    ) == pkh@ && p.0 == tx@.vin[j2].tx_id && p.1 == tx@.vin[j2].vout) by {
                    if exists|j2: int|
                        0 <= j2 < j + 1 && hash_pub_key_spec(
                            (#[trigger] tx@.vin[j2]).script_sig.pub_key,
                        ) == pkh@ && p.0 == tx@.vin[j2].tx_id && p.1 == tx@.vin[j2].vout {
                        let j2 = choose|j2: int|
                            0 <= j2 < j + 1 && hash_pub_key_spec(
                                (#[trigger] tx@.vin[j2]).script_sig.pub_key,
                            ) == pkh@ && p.0 == tx@.vin[j2].tx_id && p.1 == tx@.vin[j2].vout;
                        assert(j2 < j);
                    }
                }
            }
        }
        j = j + 1;
    }
    proof {
        assert forall|p: (Seq<u8>, i64)|
            spends_of_tx(tx@, pkh@).contains(p) <==> (exists|j2: int|
                0 <= j2 < n && hash_pub_key_spec((#[trigger] tx@.vin[j2]).script_sig.pub_key)
                    == pkh@ && p.0 == tx@.vin[j2].tx_id && p.1 == tx@.vin[j2].vout) by {}
    }
}

/// Appends every output reference a transaction's inputs consume.
fn add_all_spends(consumed: &mut Vec<(Vec<u8>, i64)>, tx: &Transaction)
    ensures
        forall|p: (Seq<u8>, i64)| pair_in_list(final(consumed)@, p) <==> (pair_in_list(
            old(consumed)@,
            p,
        ) || all_spends_of_tx(tx@).contains(p)),
{
    if tx.is_coinbase() {
        proof {
            assert(all_spends_of_tx(tx@) =~= Set::empty());
        }
        return ;
    }
    let n = tx.vin.len();
    let mut j: usize = 0;
    while j < n
        invariant
            0 <= j <= n,
            n == tx.vin@.len(),
            !crate::transaction::is_coinbase_v(tx@),
            forall|p: (Seq<u8>, i64)| pair_in_list(consumed@, p) <==> (pair_in_list(
                old(consumed)@,
                p,
            ) || exists|j2: int|
                0 <= j2 < j && p.0 == (#[trigger] tx@.vin[j2]).tx_id && p.1 == tx@.vin[j2].vout),
        decreases n - j,
    {
        let vin = &tx.vin[j];
        let ghost pre = consumed@;
        consumed.push((vin.tx_id.clone(), vin.vout));
        proof {
            assert forall|p: (Seq<u8>, i64)| pair_in_list(consumed@, p) <==> (pair_in_list(
                old(consumed)@,
                p,
            ) || exists|j2: int|
                0 <= j2 < j + 1 && p.0 == (#[trigger] tx@.vin[j2]).tx_id && p.1 == tx@.vin[
                j2].vout) by {
                if pair_in_list(consumed@, p) {
                    let w = choose|w: int|
                        0 <= w < consumed@.len() && (#[trigger] consumed@[w]).0@ == p.0
                            && consumed@[w].1 == p.1;
                    if w < pre.len() {
                        assert(pre[w] == consumed@[w]);
                        assert(pair_in_list(pre, p));
                    } else {
                        assert(p.0 == tx@.vin[j as int].tx_id && p.1 == tx@.vin[j as int].vout);
                    }
                }
                if pair_in_list(pre, p) {
                    let w = choose|w: int|
                        0 <= w < pre.len() && (#[trigger] pre[w]).0@ == p.0 && pre[w].1 == p.1;
                    assert(consumed@[w] == pre[w]);
                    assert(pair_in_list(consumed@, p));
                }
                if exists|j2: int|
                    0 <= j2 < j + 1 && p.0 == (#[trigger] tx@.vin[j2]).tx_id && p.1 == tx@.vin[
                    j2].vout {
                    let j2 = choose|j2: int|
                        0 <= j2 < j + 1 && p.0 == (#[trigger] tx@.vin[j2]).tx_id && p.1
                            == tx@.vin[j2].vout;
                    if j2 == j as int {
                        assert(consumed@[consumed@.len() - 1].0@ == p.0);
                        assert(pair_in_list(consumed@, p));
                    }
                }
            }
        }
        j = j + 1;
    }
    proof {
        assert forall|p: (Seq<u8>, i64)|
            all_spends_of_tx(tx@).contains(p) <==> (exists|j2: int|
                0 <= j2 < n && p.0 == (#[trigger] tx@.vin[j2]).tx_id && p.1
                    == tx@.vin[j2].vout) by {}
    }
}

/// Consumed references distribute over concatenation.
pub proof fn lemma_consumed_pairs_concat(a: Seq<TxV>, b: Seq<TxV>)
    ensures
        consumed_pairs(a + b) == consumed_pairs(a).union(consumed_pairs(b)),
    decreases a.len(),
{
    if a.len() == 0 {
        assert(a + b =~= b);
        assert(consumed_pairs(a) =~= Set::empty());
        assert(consumed_pairs(a).union(consumed_pairs(b)) =~= consumed_pairs(b));
    } else {
        assert((a + b).drop_first() =~= a.drop_first() + b);
        assert((a + b).first() == a.first());
        lemma_consumed_pairs_concat(a.drop_first(), b);
        assert(consumed_pairs(a + b) =~= consumed_pairs(a).union(consumed_pairs(b)));
    }
}

/// Consuming one more transaction's references.
pub proof fn lemma_consumed_pairs_snoc(ts: Seq<TxV>, t: TxV)
    ensures
        consumed_pairs(ts.push(t)) == consumed_pairs(ts).union(all_spends_of_tx(t)),
{
    assert(ts.push(t) =~= ts + seq![t]);
    lemma_consumed_pairs_concat(ts, seq![t]);
    assert(seq![t].drop_first() =~= Seq::<TxV>::empty());
    assert(consumed_pairs(Seq::<TxV>::empty()) =~= Set::<(Seq<u8>, i64)>::empty());
    assert(consumed_pairs(seq![t]) =~= all_spends_of_tx(t));
    assert(consumed_pairs(ts).union(consumed_pairs(seq![t])) =~= consumed_pairs(ts).union(
        all_spends_of_tx(t),
    ));
}

/// Whether the recorded list holds the pair.
fn spent_contains(spent: &Vec<(Vec<u8>, i64)>, id: &Vec<u8>, idx: i64) -> (r: bool)
    ensures
        r == pair_in_list(spent@, (id@, idx)),
{
    let n = spent.len();
    let mut j: usize = 0;
    while j < n
        invariant
            0 <= j <= n,
            n == spent@.len(),
            forall|w: int| 0 <= w < j ==> !((#[trigger] spent@[w]).0@ == id@ && spent@[w].1
                == idx),
        decreases n - j,
    {
        let (sid, sidx) = &spent[j];
        if *sidx == idx && bytes_eq(sid, id) {
            proof {
                assert(spent@[j as int].0@ == id@ && spent@[j as int].1 == idx);
            }
            return true;
        }
        j = j + 1;
    }
    false
}

/// The models of picked output references.
pub open spec fn picked_model(l: Seq<(Vec<u8>, i64)>) -> Seq<(Seq<u8>, i64)> {
    l.map_values(|p: (Vec<u8>, i64)| (p.0@, p.1))
}

/// Selection within one transaction: unspent outputs are taken in index
/// order until the accumulated value covers the amount.
pub open spec fn select_in_tx(
    txs: Seq<TxV>,
    k: int,
    o: int,
    pkh: Seq<u8>,
    amount: u64,
    acc: nat,
    picked: Seq<(Seq<u8>, i64)>,
) -> (nat, Seq<(Seq<u8>, i64)>)
    decreases txs[k].vout.len() - o,
{
    if k < 0 || k >= txs.len() || o < 0 || o >= txs[k].vout.len() || acc >= amount {
        (acc, picked)
    } else if output_unspent(txs, k, o, pkh) {
        select_in_tx(
            txs,
            k,
            o + 1,
            pkh,
            amount,
            (acc + txs[k].vout[o].value) as nat,
            picked.push((txs[k].id, o as i64)),
        )
    } else {
        select_in_tx(txs, k, o + 1, pkh, amount, acc, picked)
    }
}

/// Selection over the scan: transactions newest-first until the amount is
/// covered.
pub open spec fn select_outputs(
    txs: Seq<TxV>,
    k: int,
    pkh: Seq<u8>,
    amount: u64,
    acc: nat,
    picked: Seq<(Seq<u8>, i64)>,
) -> (nat, Seq<(Seq<u8>, i64)>)
    decreases txs.len() - k,
{
    if k < 0 || k >= txs.len() || acc >= amount {
        (acc, picked)
    } else {
        let st = select_in_tx(txs, k, 0, pkh, amount, acc, picked);
        select_outputs(txs, k + 1, pkh, amount, st.0, st.1)
    }
}

/// Taking one more output adds its value to the sum.
pub proof fn lemma_sum_values_snoc(os: Seq<crate::transaction::OutV>, i: int)
    requires
        0 <= i < os.len(),
    ensures
        sum_values(os.take(i + 1)) == sum_values(os.take(i)) + os[i].value,
    decreases i,
{
    if i == 0 {
        assert(os.take(1).drop_first() =~= Seq::<crate::transaction::OutV>::empty());
        assert(os.take(0) =~= Seq::<crate::transaction::OutV>::empty());
        assert(sum_values(os.take(1)) == os.take(1).first().value + sum_values(os.take(0)));
        assert(os.take(1).first() == os[0]);
    } else {
        assert(os.take(i + 1).drop_first() =~= os.drop_first().take(i));
        assert(os.take(i).drop_first() =~= os.drop_first().take(i - 1));
        assert(os.drop_first()[i - 1] == os[i]);
        lemma_sum_values_snoc(os.drop_first(), i - 1);
        assert(sum_values(os.take(i + 1)) == os.take(i + 1).first().value + sum_values(
            os.drop_first().take(i),
        ));
        assert(sum_values(os.take(i)) == os.take(i).first().value + sum_values(
            os.drop_first().take(i - 1),
        ));
    }
}

/// An iterator over a chain: the cursor names the next block to yield.
pub struct BlockchainIterator<'a> {
    chain: &'a Blockchain,
    current_hash: Option<Vec<u8>>,
    pos: Ghost<int>,
}

impl<'a> BlockchainIterator<'a> {
    pub closed spec fn spec_chain(self) -> Seq<BlockV> {
        self.chain.chain_view()
    }

    pub closed spec fn spec_pos(self) -> int {
        self.pos@
    }

    /// The cursor points into the chain: at the block to yield next, or at
    /// the all-zero hash once past the oldest block.
    pub closed spec fn wf(self) -> bool {
        let chain = self.chain.chain_view();
        &&& self.chain.wf()
        &&& 0 <= self.pos@ <= chain.len()
        &&& (match self.current_hash {
            Some(h) => h@.len() == 32 && (if self.pos@ < chain.len() {
                h@ == chain[self.pos@].hash
            } else {
                h@ == zero_hash()
            }),
            None => chain.len() == 0 && self.pos@ == 0,
        })
    }

    /// The next block, walking from the tip towards the genesis block.
    /// Yields nothing past the oldest block, or where the backend fails.
    pub fn next(&mut self) -> (r: Option<Block>)
        requires
            old(self).wf(),
        ensures
            final(self).wf(),
            final(self).spec_chain() == old(self).spec_chain(),
            r matches Some(b) ==> {
                &&& old(self).spec_pos() < old(self).spec_chain().len()
                &&& b@ == old(self).spec_chain()[old(self).spec_pos()]
                &&& final(self).spec_pos() == old(self).spec_pos() + 1
            },
            r is None ==> final(self).spec_pos() == old(self).spec_pos(),
    {
        let ghost chain = self.chain.chain_view();
        let hash = match &self.current_hash {
            Some(h) => h.clone(),
            None => {
                return None;
            },
        };
        let zero = zero_hash_vec();
        if bytes_eq(&hash, &zero) {
            proof {
                assert(self.pos@ >= chain.len()) by {
                    if self.pos@ < chain.len() {
                        assert(chain[self.pos@].hash != zero_hash());
                    }
                }
            }
            return None;
        }
        proof {
            assert(self.pos@ < chain.len());
        }
        let bytes = match store_get(&self.chain.store, &hash) {
            Ok(Some(b)) => b,
            _ => {
                return None;
            },
        };
        let block = match Block::from_bytes(&bytes) {
            Some(b) => b,
            None => {
                return None;
            },
        };
        proof {
            assert(dec_block_full(bytes@) == Some(chain[self.pos@]));
            assert(block@ == chain[self.pos@]);
        }
        self.current_hash = Some(block.prev_block_hash.clone());
        proof {
            let p = self.pos@;
            if p + 1 < chain.len() {
                assert(chain[p].prev_block_hash == chain[p + 1].hash);
            } else {
                assert(chain[p].prev_block_hash == zero_hash());
            }
            self.pos@ = p + 1;
        }
        Some(block)
    }
}

/// Every transaction a well-formed chain commits is well formed.
pub proof fn lemma_all_txs_wf(chain: Seq<BlockV>)
    requires
        chain_blocks_wf(chain),
    ensures
        forall|j: int| 0 <= j < all_txs(chain).len() ==> tx_wf(#[trigger] all_txs(chain)[j]),
    decreases chain.len(),
{
    if chain.len() > 0 {
        assert(block_wf(chain[0]));
        assert(chain_blocks_wf(chain.drop_first())) by {
            assert(forall|i: int| 0 <= i < chain.drop_first().len() ==> chain.drop_first()[i]
                == chain[i + 1]);
        }
        lemma_all_txs_wf(chain.drop_first());
        assert forall|j: int| 0 <= j < all_txs(chain).len() implies tx_wf(
            #[trigger] all_txs(chain)[j],
        ) by {
            if j < chain[0].transactions.len() {
                assert(all_txs(chain)[j] == chain[0].transactions[j]);
            } else {
                assert(all_txs(chain)[j] == all_txs(chain.drop_first())[
                    j - chain[0].transactions.len()]);
            }
        }
    }
}

/// Flattening one more block appends its transactions.
pub proof fn lemma_all_txs_take_snoc(chain: Seq<BlockV>, i: int)
    requires
        0 <= i < chain.len(),
    ensures
        all_txs(chain.take(i + 1)) == all_txs(chain.take(i)) + chain[i].transactions,
    decreases i,
{
    if i == 0 {
        assert(chain.take(1).drop_first() =~= Seq::<BlockV>::empty());
        assert(chain.take(0) =~= Seq::<BlockV>::empty());
        assert(all_txs(chain.take(1)) =~= all_txs(chain.take(0)) + chain[0].transactions);
    } else {
        assert(chain.take(i + 1).drop_first() =~= chain.drop_first().take(i));
        assert(chain.take(i).drop_first() =~= chain.drop_first().take(i - 1));
        assert(chain.drop_first()[i - 1] == chain[i]);
        lemma_all_txs_take_snoc(chain.drop_first(), i - 1);
        assert(all_txs(chain.take(i + 1)) =~= chain.first().transactions + all_txs(
            chain.drop_first().take(i),
        ));
        assert(all_txs(chain.take(i)) =~= chain.first().transactions + all_txs(
            chain.drop_first().take(i - 1),
        ));
        assert(all_txs(chain.take(i + 1)) =~= all_txs(chain.take(i)) + chain[i].transactions);
    }
}

} // verus!
