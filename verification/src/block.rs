//! Blocks: a timestamped list of transactions chained to a predecessor by
//! hash, carrying the proof-of-work nonce and the header hash the miner
//! found.

use vstd::prelude::*;

use crate::bytes::u64_le_bytes;
use crate::crypt::{sha256, sha256_of};
use crate::mining_error::MiningError;
use crate::proof_of_work::{pow_hash, pow_valid, ProofOfWork, MAX_NONCE, TARGET_BITS};
use crate::transaction::{tx_wf, Transaction, TxV};

verus! {

/// The model of a block.
#[verifier::ext_equal]
pub ghost struct BlockV {
    pub timestamp: u64,
    pub transactions: Seq<TxV>,
    pub prev_block_hash: Seq<u8>,
    pub hash: Seq<u8>,
    pub nonce: u64,
}

/// A block: header fields and the transactions it commits.
pub struct Block {
    pub timestamp: u64,
    pub transactions: Vec<Transaction>,
    pub hash: Vec<u8>,
    pub prev_block_hash: Vec<u8>,
    pub nonce: u64,
}

impl View for Block {
    type V = BlockV;

    open spec fn view(&self) -> BlockV {
        BlockV {
            timestamp: self.timestamp,
            transactions: self.transactions.deep_view(),
            prev_block_hash: self.prev_block_hash@,
            hash: self.hash@,
            nonce: self.nonce,
        }
    }
}

impl DeepView for Block {
    type V = BlockV;

    open spec fn deep_view(&self) -> BlockV {
        self@
    }
}

/// A block whose hashes have their widths and whose transactions are well
/// formed.
pub open spec fn block_wf(b: BlockV) -> bool {
    &&& b.prev_block_hash.len() == 32
    &&& b.hash.len() == 32
    &&& forall|i: int| 0 <= i < b.transactions.len() ==> tx_wf(#[trigger] b.transactions[i])
}

/// The transaction identifiers, one after another.
pub open spec fn tx_ids_concat(txs: Seq<TxV>) -> Seq<u8>
    decreases txs.len(),
{
    if txs.len() == 0 {
        Seq::empty()
    } else {
        txs.first().id + tx_ids_concat(txs.drop_first())
    }
}

pub proof fn lemma_tx_ids_concat_snoc(txs: Seq<TxV>, t: TxV)
    ensures
        tx_ids_concat(txs.push(t)) == tx_ids_concat(txs) + t.id,
    decreases txs.len(),
{
    if txs.len() == 0 {
        assert(txs.push(t).drop_first() =~= Seq::<TxV>::empty());
        assert(tx_ids_concat(Seq::<TxV>::empty()) == Seq::<u8>::empty());
        assert(txs =~= Seq::<TxV>::empty());
        assert(tx_ids_concat(txs.push(t)) =~= tx_ids_concat(txs) + t.id);
    } else {
        assert(txs.push(t).drop_first() =~= txs.drop_first().push(t));
        lemma_tx_ids_concat_snoc(txs.drop_first(), t);
        assert(tx_ids_concat(txs.push(t)) =~= tx_ids_concat(txs) + t.id);
    }
}

/// The single digest over all transaction identifiers that goes into the
/// header.
pub open spec fn hash_transactions_spec(txs: Seq<TxV>) -> Seq<u8> {
    sha256_of(tx_ids_concat(txs))
}

/// The canonical pre-nonce header: timestamp, difficulty, predecessor hash
/// and the digest of the transaction identifiers, each in its fixed width.
pub open spec fn headers_spec(b: BlockV) -> Seq<u8> {
    u64_le_bytes(b.timestamp) + u64_le_bytes(crate::proof_of_work::TARGET_BITS)
        + b.prev_block_hash + hash_transactions_spec(b.transactions)
}

impl Block {
    /// The digest over the concatenated transaction identifiers.
    fn hash_transactions(&self) -> (r: Vec<u8>)
        ensures
            r@ == hash_transactions_spec(self@.transactions),
            r@.len() == 32,
    {
        let mut tx_hashes: Vec<u8> = Vec::new();
        let mut i: usize = 0;
        while i < self.transactions.len()
            invariant
                0 <= i <= self.transactions@.len(),
                tx_hashes@ =~= tx_ids_concat(self.transactions.deep_view().take(i as int)),
            decreases self.transactions@.len() - i,
        {
            crate::codec::push_bytes(&mut tx_hashes, &self.transactions[i].id);
            proof {
                assert(self.transactions.deep_view().take(i as int).push(
                    self.transactions@[i as int]@,
                ) =~= self.transactions.deep_view().take(i + 1));
                lemma_tx_ids_concat_snoc(
                    self.transactions.deep_view().take(i as int),
                    self.transactions@[i as int]@,
                );
            }
            i = i + 1;
        }
        proof {
            assert(self.transactions.deep_view().take(self.transactions@.len() as int)
                =~= self.transactions.deep_view());
        }
        sha256(&tx_hashes)
    }

    /// The canonical pre-nonce header bytes.
    pub fn headers(&self) -> (r: Vec<u8>)
        ensures
            r@ == headers_spec(self@),
    {
        let mut vec: Vec<u8> = Vec::new();
        crate::codec::push_u64(&mut vec, self.timestamp);
        crate::codec::push_u64(&mut vec, crate::proof_of_work::TARGET_BITS);
        crate::codec::push_bytes(&mut vec, &self.prev_block_hash);
        let th = self.hash_transactions();
        crate::codec::push_bytes(&mut vec, &th);
        proof {
            assert(vec@ =~= headers_spec(self@));
        }
        vec
    }

    /// Mines a block atop `prev_block_hash`: stamps the clock, searches for
    /// a nonce, and fills hash and nonce. Fails with `Iteration` when the
    /// search bound is exhausted.
    pub fn new(transactions: Vec<Transaction>, prev_block_hash: Vec<u8>) -> (r: Result<
        Block,
        MiningError,
    >)
        requires
            prev_block_hash@.len() == 32,
        ensures
            r matches Ok(b) ==> {
                &&& b@.transactions == transactions.deep_view()
                &&& b@.prev_block_hash == prev_block_hash@
                &&& pow_valid(b@, TARGET_BITS)
                &&& b@.hash.len() == 32
                &&& b@.nonce <= MAX_NONCE
            },
            r matches Err(e) ==> e == MiningError::Iteration,
    {
        let timestamp = crate::crypt::unix_time_now();
        let mut block = Block {
            timestamp,
            transactions,
            prev_block_hash,
            hash: crate::bytes::zero_hash_vec(),
            nonce: 0,
        };
        let pow = ProofOfWork::new(&block);
        let (nonce, hash) = match pow.run() {
            Ok(x) => x,
            Err(e) => {
                return Err(MiningError::Iteration);
            },
        };
        let ghost pre = block@;
        block.hash = hash;
        block.nonce = nonce;
        proof {
            assert(headers_spec(block@) == headers_spec(pre));
            assert(pow_hash(block@, nonce) == pow_hash(pre, nonce));
        }
        Ok(block)
    }

    /// The first block: a single coinbase atop the all-zero hash.
    pub fn genesis_block(coinbase: Transaction) -> (r: Result<Block, MiningError>)
        ensures
            r matches Ok(b) ==> {
                &&& b@.transactions.len() == 1
                &&& b@.transactions[0] == coinbase@
                &&& b@.prev_block_hash == crate::bytes::zero_hash()
                &&& pow_valid(b@, TARGET_BITS)
                &&& b@.hash.len() == 32
            },
            r matches Err(e) ==> e == MiningError::Iteration,
    {
        let txs = vec![coinbase];
        let ghost txs_view = txs.deep_view();
        let r = Block::new(txs, crate::bytes::zero_hash_vec());
        proof {
            assert(txs_view.len() == 1);
        }
        r
    }

    /// The canonical bytes of this block.
    pub fn serialize(&self) -> (r: Vec<u8>)
        ensures
            r@ == crate::codec::enc_block(self@),
    {
        crate::codec::encode_block(self)
    }

    /// Decodes a block from its canonical bytes; trailing bytes are a
    /// failure.
    pub fn from_bytes(bytes: &Vec<u8>) -> (r: Option<Block>)
        ensures
            r matches Some(b) ==> crate::codec::dec_block_full(bytes@) == Some(b@) && block_wf(
                b@,
            ) && crate::codec::block_bounded(b@),
            r is Some <==> crate::codec::dec_block_full(bytes@) is Some,
    {
        crate::codec::decode_block_bytes(bytes)
    }
}

} // verus!
