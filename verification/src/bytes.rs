//! Byte-level helpers shared by the codec, the miner and the scripts:
//! little-endian encoding of machine integers and the value of a byte
//! string read as a big-endian unsigned integer.

use vstd::prelude::*;
use vstd::arithmetic::power2::{pow2, lemma_pow2_adds, lemma_pow2_pos, lemma2_to64};

verus! {

/// The value of a byte string read as an unsigned big-endian integer.
pub open spec fn be_uint(s: Seq<u8>) -> nat
    decreases s.len(),
{
    if s.len() == 0 {
        0
    } else {
        (be_uint(s.drop_last()) * 256 + s.last()) as nat
    }
}

/// Peeling the most significant byte off the front.
#[verifier::rlimit(60)]
#[verifier::spinoff_prover]
pub proof fn lemma_be_uint_first(s: Seq<u8>)
    requires
        s.len() > 0,
    ensures
        be_uint(s) == s.first() * pow2(8 * (s.len() - 1) as nat) + be_uint(s.drop_first()),
    decreases s.len(),
{
    if s.len() == 1 {
        assert(s.drop_last() =~= Seq::<u8>::empty());
        assert(s.drop_first() =~= Seq::<u8>::empty());
        lemma2_to64();
        assert(pow2(0) == 1);
    } else {
        lemma_be_uint_first(s.drop_last());
        assert(s.drop_last().first() == s.first());
        assert(s.drop_last().drop_first() =~= s.drop_first().drop_last());
        lemma_pow2_adds(8 * (s.len() - 2) as nat, 8);
        lemma2_to64();
        assert(pow2(8) == 256);
        let n = (s.len() - 2) as nat;
        let a = s.first() as int;
        let b = be_uint(s.drop_first().drop_last()) as int;
        let c = s.last() as int;
        assert(be_uint(s) == (a * pow2(8 * n) + b) * 256 + c);
        assert((a * pow2(8 * n) + b) * 256 == a * pow2(8 * n) * 256 + b * 256)
            by (nonlinear_arith);
        assert(a * pow2(8 * n) * 256 == a * (pow2(8 * n) * 256)) by (nonlinear_arith);
        assert(pow2(8 * n) * pow2(8) == pow2(8 * n + 8));
        assert(pow2(8 * n) * 256 == pow2((8 * n + 8) as nat));
        assert((8 * n + 8) as nat == 8 * (s.len() - 1) as nat);
        assert(a * (pow2(8 * n) * 256) == a * pow2(8 * (s.len() - 1) as nat));
        assert(be_uint(s.drop_first()) == b * 256 + c);
        assert(be_uint(s) == a * pow2(8 * (s.len() - 1) as nat) + (b * 256 + c));
    }
}

/// A byte string of length `n` is below `2^(8n)`.
pub proof fn lemma_be_uint_bound(s: Seq<u8>)
    ensures
        be_uint(s) < pow2(8 * s.len()),
    decreases s.len(),
{
    lemma2_to64();
    if s.len() == 0 {
        assert(pow2(0) == 1);
    } else {
        lemma_be_uint_bound(s.drop_last());
        lemma_pow2_adds(8 * (s.len() - 1) as nat, 8);
        assert(pow2(8) == 256);
        let p = pow2(8 * (s.len() - 1) as nat) as int;
        let b = be_uint(s.drop_last()) as int;
        assert(b <= p - 1);
        assert(b * 256 <= (p - 1) * 256) by (nonlinear_arith)
            requires b <= p - 1;
        assert(be_uint(s) <= (p - 1) * 256 + 255);
        assert((p - 1) * 256 + 255 < p * 256) by (nonlinear_arith)
            requires p >= 1;
    }
}

/// Splitting a byte string: the front bytes carry a factor of `2^(8k)`
/// where `k` counts the remaining bytes.
pub proof fn lemma_be_uint_split(s: Seq<u8>, i: int)
    requires
        0 <= i <= s.len(),
    ensures
        be_uint(s) == be_uint(s.take(i)) * pow2(8 * (s.len() - i) as nat) + be_uint(s.skip(i)),
    decreases s.len() - i,
{
    lemma2_to64();
    if i == s.len() {
        assert(s.take(i) =~= s);
        assert(s.skip(i) =~= Seq::<u8>::empty());
        assert(pow2(0) == 1);
        assert(be_uint(s.skip(i)) == 0);
        assert(8 * (s.len() - i) as nat == 0);
        assert(be_uint(s.take(i)) * pow2(0) == be_uint(s.take(i)))
            by (nonlinear_arith)
            requires pow2(0) == 1;
        assert(be_uint(s) == be_uint(s.take(i)) * pow2(8 * (s.len() - i) as nat)
            + be_uint(s.skip(i)));
    } else {
        lemma_be_uint_split(s, i + 1);
        assert(s.take(i + 1).drop_last() =~= s.take(i));
        assert(s.take(i + 1).last() == s[i]);
        lemma_be_uint_first(s.skip(i));
        assert(s.skip(i).first() == s[i]);
        assert(s.skip(i).drop_first() =~= s.skip(i + 1));
        let n = (s.len() - i - 1) as nat;
        lemma_pow2_adds(8, 8 * n);
        assert(pow2(8) == 256);
        let t = be_uint(s.take(i)) as int;
        let c = s[i] as int;
        let p = pow2(8 * n) as int;
        assert(be_uint(s) == (t * 256 + c) * p + be_uint(s.skip(i + 1)));
        assert((t * 256 + c) * p == t * (256 * p) + c * p) by (nonlinear_arith);
        assert(be_uint(s.skip(i)) == c * p + be_uint(s.skip(i + 1)));
        assert(pow2(8) * pow2(8 * n) == pow2((8 + 8 * n) as nat));
        assert(256 * p == pow2((8 + 8 * n) as nat));
        assert((8 + 8 * n) as nat == 8 * (s.len() - i) as nat);
        assert(t * (256 * p) == t * pow2(8 * (s.len() - i) as nat));
        assert(be_uint(s) == t * pow2(8 * (s.len() - i) as nat) + be_uint(s.skip(i)));
    }
}

/// Among equally long byte strings the big-endian order is the
/// lexicographic one: the first differing byte decides.
pub proof fn lemma_be_uint_lex(a: Seq<u8>, b: Seq<u8>, i: int)
    requires
        a.len() == b.len(),
        0 <= i < a.len(),
        a.take(i) =~= b.take(i),
        a[i] < b[i],
    ensures
        be_uint(a) < be_uint(b),
{
    lemma_be_uint_split(a, i);
    lemma_be_uint_split(b, i);
    lemma_be_uint_first(a.skip(i));
    lemma_be_uint_first(b.skip(i));
    lemma_be_uint_bound(a.skip(i).drop_first());
    let n = (a.len() - i - 1) as nat;
    let p = pow2(8 * n) as int;
    lemma_pow2_pos(8 * n);
    let ca = a[i] as int;
    let cb = b[i] as int;
    assert(a.skip(i).first() == a[i]);
    assert(b.skip(i).first() == b[i]);
    assert(be_uint(a.skip(i)) == ca * p + be_uint(a.skip(i).drop_first()));
    assert(be_uint(a.skip(i)) < ca * p + p);
    assert(ca * p + p == (ca + 1) * p) by (nonlinear_arith);
    assert((ca + 1) * p <= cb * p) by (nonlinear_arith)
        requires ca + 1 <= cb, p >= 0;
    assert(cb * p <= be_uint(b.skip(i)));
    assert(be_uint(a.skip(i)) < be_uint(b.skip(i)));
}

/// Compares two equally long byte strings as big-endian unsigned integers.
pub fn be_le(a: &Vec<u8>, b: &Vec<u8>) -> (r: bool)
    requires
        a@.len() == b@.len(),
    ensures
        r == (be_uint(a@) <= be_uint(b@)),
{
    let n = a.len();
    let mut i: usize = 0;
    while i < n
        invariant
            0 <= i <= n,
            n == a@.len() == b@.len(),
            a@.take(i as int) =~= b@.take(i as int),
        decreases n - i,
    {
        let x = a[i];
        let y = b[i];
        if x < y {
            proof { lemma_be_uint_lex(a@, b@, i as int); }
            return true;
        }
        if x > y {
            proof { lemma_be_uint_lex(b@, a@, i as int); }
            return false;
        }
        proof {
            assert(a@.take(i + 1) =~= b@.take(i + 1));
        }
        i = i + 1;
    }
    proof {
        assert(a@.take(n as int) =~= a@);
        assert(b@.take(n as int) =~= b@);
        assert(a@ =~= b@);
    }
    true
}

/// A string of zero bytes has value zero.
pub proof fn lemma_be_uint_zeros(n: nat)
    ensures
        be_uint(Seq::new(n, |i: int| 0u8)) == 0,
    decreases n,
{
    if n > 0 {
        let s = Seq::new(n, |i: int| 0u8);
        assert(s.drop_last() =~= Seq::new((n - 1) as nat, |i: int| 0u8));
        lemma_be_uint_zeros((n - 1) as nat);
    }
}

/// The all-zero 32-byte hash: the predecessor of the genesis block and the
/// reference of a coinbase input.
pub open spec fn zero_hash() -> Seq<u8> {
    Seq::new(32, |i: int| 0u8)
}

/// The all-zero hash as a vector.
pub fn zero_hash_vec() -> (r: Vec<u8>)
    ensures
        r@ == zero_hash(),
{
    let mut v: Vec<u8> = Vec::new();
    let mut i: usize = 0;
    while i < 32
        invariant
            0 <= i <= 32,
            v@ =~= Seq::new(i as nat, |k: int| 0u8),
        decreases 32 - i,
    {
        v.push(0);
        proof {
            assert(v@ =~= Seq::new((i + 1) as nat, |k: int| 0u8));
        }
        i = i + 1;
    }
    proof {
        assert(v@ =~= zero_hash());
    }
    v
}

/// A vector of `n` zero bytes.
pub fn zero_bytes(n: usize) -> (r: Vec<u8>)
    ensures
        r@ == Seq::new(n as nat, |k: int| 0u8),
{
    let mut v: Vec<u8> = Vec::new();
    let mut i: usize = 0;
    while i < n
        invariant
            0 <= i <= n,
            v@ =~= Seq::new(i as nat, |k: int| 0u8),
        decreases n - i,
    {
        v.push(0);
        proof {
            assert(v@ =~= Seq::new((i + 1) as nat, |k: int| 0u8));
        }
        i = i + 1;
    }
    v
}

/// Tests two byte slices for equality.
pub fn slice_eq(a: &[u8], b: &[u8]) -> (r: bool)
    ensures
        r == (a@ =~= b@),
{
    if a.len() != b.len() {
        return false;
    }
    let n = a.len();
    let mut i: usize = 0;
    while i < n
        invariant
            0 <= i <= n,
            n == a@.len() == b@.len(),
            forall|j: int| 0 <= j < i ==> a@[j] == b@[j],
        decreases n - i,
    {
        if a[i] != b[i] {
            return false;
        }
        i = i + 1;
    }
    true
}

/// Tests two byte strings for equality.
pub fn bytes_eq(a: &Vec<u8>, b: &Vec<u8>) -> (r: bool)
    ensures
        r == (a@ =~= b@),
{
    if a.len() != b.len() {
        return false;
    }
    let n = a.len();
    let mut i: usize = 0;
    while i < n
        invariant
            0 <= i <= n,
            n == a@.len() == b@.len(),
            forall|j: int| 0 <= j < i ==> a@[j] == b@[j],
        decreases n - i,
    {
        if a[i] != b[i] {
            return false;
        }
        i = i + 1;
    }
    true
}

/// The bytes of `v` in little-endian order, least significant first.
pub open spec fn u64_le_bytes(v: u64) -> Seq<u8> {
    seq![
        (v & 0xff) as u8,
        ((v >> 8) & 0xff) as u8,
        ((v >> 16) & 0xff) as u8,
        ((v >> 24) & 0xff) as u8,
        ((v >> 32) & 0xff) as u8,
        ((v >> 40) & 0xff) as u8,
        ((v >> 48) & 0xff) as u8,
        ((v >> 56) & 0xff) as u8,
    ]
}

/// A `u64` as its eight little-endian bytes.
pub fn convert_u64_to_u8_array(val: u64) -> (r: [u8; 8])
    ensures
        r@ == u64_le_bytes(val),
{
    let r: [u8; 8] = [
        val as u8,
        (val >> 8) as u8,
        (val >> 16) as u8,
        (val >> 24) as u8,
        (val >> 32) as u8,
        (val >> 40) as u8,
        (val >> 48) as u8,
        (val >> 56) as u8,
    ];
    proof {
        assert(val as u8 == (val & 0xff) as u8) by (bit_vector);
        assert((val >> 8) as u8 == ((val >> 8) & 0xff) as u8) by (bit_vector);
        assert((val >> 16) as u8 == ((val >> 16) & 0xff) as u8) by (bit_vector);
        assert((val >> 24) as u8 == ((val >> 24) & 0xff) as u8) by (bit_vector);
        assert((val >> 32) as u8 == ((val >> 32) & 0xff) as u8) by (bit_vector);
        assert((val >> 40) as u8 == ((val >> 40) & 0xff) as u8) by (bit_vector);
        assert((val >> 48) as u8 == ((val >> 48) & 0xff) as u8) by (bit_vector);
        assert((val >> 56) as u8 == ((val >> 56) & 0xff) as u8) by (bit_vector);
        assert(r@ =~= u64_le_bytes(val));
    }
    r
}

} // verus!
