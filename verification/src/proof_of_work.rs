//! Proof of work: the nonce search over the canonical block header, and
//! validation of a found hash against the difficulty target
//! `2^(256 - TARGET_BITS)`, comparing the hash as a big-endian unsigned
//! integer.

use vstd::prelude::*;
use vstd::arithmetic::power2::{pow2, lemma_pow2_adds};

use crate::block::{headers_spec, Block, BlockV};
use crate::bytes::{
    be_le, be_uint, lemma_be_uint_bound, lemma_be_uint_first, lemma_be_uint_split,
    lemma_be_uint_zeros, u64_le_bytes, zero_hash_vec,
};
use crate::crypt::{sha256, sha256_of};
use crate::mining_error::MiningError;

pub use crate::bytes::convert_u64_to_u8_array;

verus! {

/// The fixed difficulty: the target is `2^(256 - TARGET_BITS)`.
pub const TARGET_BITS: u64 = 15;

/// The nonce search gives up past this bound.
pub const MAX_NONCE: u64 = 1_000_000;

/// The difficulty target for a number of leading target bits.
pub open spec fn pow_target(bits: u64) -> nat
    recommends
        bits <= 256,
{
    pow2((256 - bits) as nat)
}

/// The hash the miner computes for a block and a candidate nonce: SHA-256
/// over the canonical header followed by the nonce's eight bytes.
pub open spec fn pow_hash(b: BlockV, nonce: u64) -> Seq<u8> {
    sha256_of(headers_spec(b) + u64_le_bytes(nonce))
}

/// A block's stored hash is the hash of its own header and nonce, and meets
/// the target.
pub open spec fn pow_valid(b: BlockV, bits: u64) -> bool {
    &&& b.hash == pow_hash(b, b.nonce)
    &&& be_uint(b.hash) <= pow_target(bits)
}

/// Whether a 32-byte hash, read as a big-endian unsigned integer, is at most
/// `2^(256 - target_bits)`.
pub fn hash_meets_target(hash: &Vec<u8>, target_bits: u64) -> (r: bool)
    requires
        hash@.len() == 32,
        target_bits <= 256,
    ensures
        r == (be_uint(hash@) <= pow_target(target_bits)),
{
    if target_bits == 0 {
        proof {
            lemma_be_uint_bound(hash@);
        }
        return true;
    }
    let e = 256 - target_bits;
    let q = (e / 8) as usize;
    let rbit = (e % 8) as u8;
    let byte: u8 = 1u8 << rbit;
    proof {
        assert(1u8 << rbit > 0) by (bit_vector)
            requires rbit < 8;
    }
    let mut target = zero_hash_vec();
    let idx = 31 - q;
    target[idx] = byte;
    proof {
        let t = target@;
        let e_ = e as int;
        let q_ = q as int;
        assert(t.len() == 32);
        assert(t[31 - q_] == byte);
        assert(forall|k: int| 0 <= k < 32 && k != 31 - q_ ==> t[k] == 0u8);
        assert(t.take(31 - q_) =~= Seq::new((31 - q_) as nat, |i: int| 0u8));
        lemma_be_uint_zeros((31 - q_) as nat);
        lemma_be_uint_split(t, 31 - q_);
        let tail = t.skip(31 - q_);
        assert(tail.len() == q_ + 1);
        lemma_be_uint_first(tail);
        assert(tail.first() == byte);
        assert(tail.drop_first() =~= Seq::new(q_ as nat, |i: int| 0u8));
        lemma_be_uint_zeros(q_ as nat);
        assert(be_uint(tail) == byte * pow2((8 * q_) as nat));
        assert(byte == pow2((e_ % 8) as nat)) by {
            let r8 = (e_ % 8) as u8;
            assert(rbit == r8);
            if rbit == 0 {
                assert(1u8 << 0 == 1) by (bit_vector);
                vstd::arithmetic::power2::lemma2_to64();
            } else if rbit == 1 {
                assert(1u8 << 1 == 2) by (bit_vector);
                vstd::arithmetic::power2::lemma2_to64();
            } else if rbit == 2 {
                assert(1u8 << 2 == 4) by (bit_vector);
                vstd::arithmetic::power2::lemma2_to64();
            } else if rbit == 3 {
                assert(1u8 << 3 == 8) by (bit_vector);
                vstd::arithmetic::power2::lemma2_to64();
            } else if rbit == 4 {
                assert(1u8 << 4 == 16) by (bit_vector);
                vstd::arithmetic::power2::lemma2_to64();
            } else if rbit == 5 {
                assert(1u8 << 5 == 32) by (bit_vector);
                vstd::arithmetic::power2::lemma2_to64();
            } else if rbit == 6 {
                assert(1u8 << 6 == 64) by (bit_vector);
                vstd::arithmetic::power2::lemma2_to64();
            } else {
                assert(rbit == 7);
                assert(1u8 << 7 == 128) by (bit_vector);
                vstd::arithmetic::power2::lemma2_to64();
            }
        }
        lemma_pow2_adds((e_ % 8) as nat, (8 * q_) as nat);
        assert((e_ % 8) + 8 * q_ == e_);
        assert(be_uint(t) == 0 * pow2((8 * (32 - (31 - q_))) as nat) + be_uint(tail));
        assert(be_uint(t) == pow2(e_ as nat)) by {
            assert(byte * pow2((8 * q_) as nat) == pow2((e_ % 8) as nat) * pow2(
                (8 * q_) as nat,
            ));
        }
        assert(pow_target(target_bits) == pow2(e_ as nat));
    }
    be_le(hash, &target)
}

/// The miner for one block: a nonce search against a difficulty target.
pub struct ProofOfWork<'a> {
    block: &'a Block,
    target_bits: u64,
}

impl<'a> ProofOfWork<'a> {
    pub closed spec fn spec_block(self) -> BlockV {
        self.block@
    }

    pub closed spec fn spec_target_bits(self) -> u64 {
        self.target_bits
    }

    /// The miner for a block at the fixed difficulty.
    pub fn new(block: &'a Block) -> (r: ProofOfWork<'a>)
        ensures
            r.spec_block() == block@,
            r.spec_target_bits() == TARGET_BITS,
    {
        ProofOfWork { block, target_bits: TARGET_BITS }
    }

    /// A miner with a chosen difficulty; zero target bits let every hash
    /// pass.
    pub fn new_with_bits(block: &'a Block, target_bits: u64) -> (r: ProofOfWork<'a>)
        requires
            target_bits <= 256,
        ensures
            r.spec_block() == block@,
            r.spec_target_bits() == target_bits,
    {
        ProofOfWork { block, target_bits }
    }

    /// The hash of the block's header with the given nonce appended.
    fn calculate_hash(&self, nonce: u64) -> (r: Vec<u8>)
        ensures
            r@ == pow_hash(self.spec_block(), nonce),
            r@.len() == 32,
    {
        let mut headers = self.block.headers();
        crate::codec::push_u64(&mut headers, nonce);
        sha256(&headers)
    }

    /// Recomputes the hash from the block's own nonce and checks it against
    /// the stored hash and the target.
    pub fn validate(&self) -> (r: bool)
        requires
            self.spec_target_bits() <= 256,
        ensures
            r == pow_valid(self.spec_block(), self.spec_target_bits()),
    {
        let hash = self.calculate_hash(self.block.nonce);
        let meets = hash_meets_target(&hash, self.target_bits);
        let same = crate::bytes::bytes_eq(&hash, &self.block.hash);
        meets && same
    }

    /// Searches nonces from zero up to the bound; the first hash at or below
    /// the target wins. With zero target bits the very first nonce wins.
    pub fn run(&self) -> (r: Result<(u64, Vec<u8>), MiningError>)
        requires
            self.spec_target_bits() <= 256,
        ensures
            r matches Ok((n, h)) ==> {
                &&& h@ == pow_hash(self.spec_block(), n)
                &&& h@.len() == 32
                &&& be_uint(h@) <= pow_target(self.spec_target_bits())
                &&& n <= MAX_NONCE
                &&& forall|m: u64| m < n ==> be_uint(pow_hash(self.spec_block(), m))
                    > pow_target(self.spec_target_bits())
            },
            r matches Err(e) ==> e == MiningError::Iteration && forall|m: u64|
                m <= MAX_NONCE ==> be_uint(#[trigger] pow_hash(self.spec_block(), m))
                    > pow_target(self.spec_target_bits()),
            self.spec_target_bits() == 0 ==> (r matches Ok((n, h)) && n == 0),
    {
        if self.target_bits == 0 {
            let hash = self.calculate_hash(0);
            proof {
                lemma_be_uint_bound(hash@);
            }
            return Ok((0, hash));
        }
        let mut nonce: u64 = 0;
        while nonce <= MAX_NONCE
            invariant
                self.spec_target_bits() <= 256,
                self.spec_target_bits() != 0,
                nonce <= MAX_NONCE + 1,
                forall|m: u64| m < nonce ==> be_uint(
                    #[trigger] pow_hash(self.spec_block(), m),
                ) > pow_target(self.spec_target_bits()),
            decreases MAX_NONCE + 1 - nonce,
        {
            let hash = self.calculate_hash(nonce);
            if hash_meets_target(&hash, self.target_bits) {
                return Ok((nonce, hash));
            }
            nonce = nonce + 1;
        }
        Err(MiningError::Iteration)
    }
}

} // verus!
