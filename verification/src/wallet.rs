//! Wallets: an ECDSA keypair over secp256k1, the base58 address derived
//! from the public key, and signing. A wallet's invariant ties the stored
//! public key to the secret key, so every signature a wallet makes checks
//! under the key its address names.

use vstd::prelude::*;
use vstd::string::StringExecFns;
use vstd::utf8::encode_utf8;

use crate::store::StoreError;

use crate::crypt::{
    base58_decode, base58_decode_of, base58_of, derive_pubkey, ecdsa_sign, is_valid_seckey,
    pubkey_of, random_bytes32, ripemd160_digest, ripemd160_of, seckey_is_valid, sha256,
    sha256_of, sig_checks, sig_of,
};

verus! {

/// The version byte that leads every address payload.
pub const VERSION: u8 = 0;

/// RIPEMD-160 of SHA-256: the public key hash an output is locked to.
pub open spec fn hash_pub_key_spec(pk: Seq<u8>) -> Seq<u8> {
    ripemd160_of(sha256_of(pk))
}

/// First four bytes of the double SHA-256 of the payload.
pub open spec fn checksum_spec(payload: Seq<u8>) -> Seq<u8> {
    sha256_of(sha256_of(payload)).take(4)
}

/// `VERSION || pkh || checksum`: the 25 bytes an address encodes.
pub open spec fn address_payload_spec(pkh: Seq<u8>) -> Seq<u8> {
    seq![VERSION] + pkh + checksum_spec(seq![VERSION] + pkh)
}

/// The address that names a public key hash.
pub open spec fn address_of_pkh(pkh: Seq<u8>) -> Seq<char> {
    base58_of(address_payload_spec(pkh))
}

/// The address of a compressed public key.
pub open spec fn address_of_pubkey(pk: Seq<u8>) -> Seq<char> {
    address_of_pkh(hash_pub_key_spec(pk))
}

/// The public key hash a well-formed address decodes to: byte 0 is the
/// version, bytes 1..21 the hash, bytes 21..25 the checksum.
pub open spec fn addr_decode_spec(s: Seq<char>) -> Option<Seq<u8>> {
    match base58_decode_of(s) {
        Some(p) => if p.len() == 25 {
            Some(p.subrange(1, 21))
        } else {
            None
        },
        None => None,
    }
}

/// A seed padded with zeros to 32 bytes, or cut to its first 32.
pub open spec fn pad32(b: Seq<u8>) -> Seq<u8> {
    if b.len() >= 32 {
        b.take(32)
    } else {
        b + Seq::new((32 - b.len()) as nat, |i: int| 0u8)
    }
}

/// The public key hash of a compressed public key.
pub fn hash_pub_key(key: &Vec<u8>) -> (r: Vec<u8>)
    ensures
        r@ == hash_pub_key_spec(key@),
        r@.len() == 20,
{
    let first = sha256(key);
    ripemd160_digest(&first)
}

/// First four bytes of the double SHA-256 of the payload.
fn checksum(payload: &Vec<u8>) -> (r: Vec<u8>)
    ensures
        r@ == checksum_spec(payload@),
        r@.len() == 4,
{
    let first = sha256(payload);
    let second = sha256(&first);
    let mut out: Vec<u8> = Vec::new();
    out.push(second[0]);
    out.push(second[1]);
    out.push(second[2]);
    out.push(second[3]);
    proof {
        assert(out@ =~= second@.take(4));
    }
    out
}

/// The public key hash inside an address, or nothing where the string is no
/// base58 encoding of a 25-byte payload.
pub fn address_to_pub_hash(address: &String) -> (r: Option<Vec<u8>>)
    ensures
        r matches Some(h) ==> addr_decode_spec(address@) == Some(h@) && h@.len() == 20,
        r is Some <==> addr_decode_spec(address@) is Some,
{
    let decoded = base58_decode(address.as_str());
    match decoded {
        Some(payload) => {
            if payload.len() != 25 {
                return None;
            }
            let mut out: Vec<u8> = Vec::new();
            let mut i: usize = 1;
            while i < 21
                invariant
                    1 <= i <= 21,
                    payload@.len() == 25,
                    out@ =~= payload@.subrange(1, i as int),
                decreases 21 - i,
            {
                out.push(payload[i]);
                i = i + 1;
            }
            proof {
                assert(out@ =~= payload@.subrange(1, 21));
            }
            Some(out)
        },
        None => None,
    }
}

/// An ECDSA keypair. The invariant ties the compressed public key to the
/// secret key, so an address always names the key that signs.
pub struct Wallet {
    private_key: Vec<u8>,
    public_key: Vec<u8>,
}

impl Wallet {
    /// The keypair is well formed: a valid 32-byte secret key and the
    /// 33-byte compressed public key derived from it.
    #[verifier::type_invariant]
    pub closed spec fn wf(self) -> bool {
        &&& self.private_key@.len() == 32
        &&& is_valid_seckey(self.private_key@)
        &&& self.public_key@ == pubkey_of(self.private_key@)
        &&& self.public_key@.len() == 33
    }

    pub closed spec fn spec_private_key(self) -> Seq<u8> {
        self.private_key@
    }

    pub closed spec fn spec_public_key(self) -> Seq<u8> {
        self.public_key@
    }

    /// Draws random keys until one is valid. Gives up — with negligible
    /// probability — after a fixed number of draws.
    pub fn new() -> (r: Option<Wallet>) {
        let mut attempts: u64 = 0;
        while attempts < 1024
            invariant
                true,
            decreases 1024 - attempts,
        {
            let sk = random_bytes32();
            if seckey_is_valid(&sk) {
                match derive_pubkey(&sk) {
                    Some(pk) => {
                        return Some(Wallet { private_key: sk, public_key: pk });
                    },
                    None => {
                        return None;
                    },
                }
            }
            attempts = attempts + 1;
        }
        None
    }

    /// A wallet from already-checked key material.
    fn assemble(private_key: Vec<u8>, public_key: Vec<u8>) -> (r: Wallet)
        requires
            private_key@.len() == 32,
            is_valid_seckey(private_key@),
            public_key@ == pubkey_of(private_key@),
            public_key@.len() == 33,
        ensures
            r.spec_private_key() == private_key@,
            r.spec_public_key() == public_key@,
    {
        Wallet { private_key, public_key }
    }

    /// Derives a wallet from a seed string, padded with zeros to 32 bytes or
    /// cut to its first 32. Returns nothing where those bytes are no valid
    /// secret key.
    pub fn from_str(payload: String) -> (r: Option<Wallet>)
        ensures
            r matches Some(w) ==> w.spec_private_key() == pad32(encode_utf8(payload@)),
            r is Some <==> is_valid_seckey(pad32(encode_utf8(payload@))),
    {
        let raw = payload.as_str().as_bytes();
        let mut sk: Vec<u8> = Vec::new();
        let mut i: usize = 0;
        while i < raw.len() && i < 32
            invariant
                0 <= i <= raw@.len(),
                i <= 32,
                sk@ =~= raw@.take(i as int),
            decreases raw@.len() - i,
        {
            let b = raw[i];
            sk.push(b);
            i = i + 1;
        }
        proof {
            assert(sk@ =~= pad32(raw@).take(sk@.len() as int));
        }
        while sk.len() < 32
            invariant
                sk@.len() <= 32,
                sk@.len() >= raw@.len() || sk@.len() >= 32,
                sk@ =~= pad32(raw@).take(sk@.len() as int),
            decreases 32 - sk@.len(),
        {
            sk.push(0);
            proof {
                assert(sk@ =~= pad32(raw@).take(sk@.len() as int));
            }
        }
        proof {
            assert(pad32(raw@).len() == 32);
            assert(sk@ =~= pad32(raw@));
        }
        if !seckey_is_valid(&sk) {
            return None;
        }
        match derive_pubkey(&sk) {
            Some(pk) => Some(Wallet { private_key: sk, public_key: pk }),
            None => None,
        }
    }

    /// The base58 address of this wallet's public key. Decoding the address
    /// gives back exactly the public key hash.
    pub fn get_address(&self) -> (r: String)
        ensures
            r@ == address_of_pubkey(self.spec_public_key()),
            addr_decode_spec(r@) == Some(hash_pub_key_spec(self.spec_public_key())),
    {
        proof {
            use_type_invariant(self);
        }
        let pkh = hash_pub_key(&self.public_key);
        let mut payload: Vec<u8> = Vec::new();
        payload.push(VERSION);
        let mut i: usize = 0;
        while i < pkh.len()
            invariant
                0 <= i <= pkh@.len(),
                payload@ =~= seq![VERSION] + pkh@.take(i as int),
            decreases pkh@.len() - i,
        {
            payload.push(pkh[i]);
            i = i + 1;
        }
        proof {
            assert(payload@ =~= seq![VERSION] + pkh@);
        }
        let check = checksum(&payload);
        let ghost base = payload@;
        let mut j: usize = 0;
        while j < check.len()
            invariant
                0 <= j <= check@.len(),
                payload@ =~= base + check@.take(j as int),
            decreases check@.len() - j,
        {
            payload.push(check[j]);
            j = j + 1;
        }
        proof {
            assert(payload@ =~= address_payload_spec(hash_pub_key_spec(self.public_key@)));
        }
        let addr = crate::crypt::base58_encode(&payload);
        proof {
            assert(addr_decode_spec(addr@) == Some(hash_pub_key_spec(self.spec_public_key())));
        }
        addr
    }

    /// Signs a 32-byte digest; the signature checks under this wallet's
    /// public key.
    pub fn sign(&self, message: Vec<u8>) -> (r: Vec<u8>)
        requires
            message@.len() == 32,
        ensures
            r@ == sig_of(message@, self.spec_private_key()),
            r@.len() == 64,
            sig_checks(message@, r@, self.spec_public_key()),
    {
        proof {
            use_type_invariant(self);
        }
        ecdsa_sign(&message, &self.private_key)
    }

    /// A copy of the secret key, valid by the wallet's invariant.
    pub fn private_key(&self) -> (r: Vec<u8>)
        ensures
            r@ == self.spec_private_key(),
            is_valid_seckey(r@),
            r@.len() == 32,
    {
        proof {
            use_type_invariant(self);
        }
        self.private_key.clone()
    }

    /// A copy of the compressed public key.
    pub fn public_key(&self) -> (r: Vec<u8>)
        ensures
            r@ == self.spec_public_key(),
            r@ == pubkey_of(self.spec_private_key()),
            r@.len() == 33,
    {
        proof {
            use_type_invariant(self);
        }
        self.public_key.clone()
    }

    /// A value equal to this wallet, field for field.
    pub fn duplicate(&self) -> (r: Wallet)
        ensures
            r.spec_private_key() == self.spec_private_key(),
            r.spec_public_key() == self.spec_public_key(),
    {
        proof {
            use_type_invariant(self);
        }
        Wallet { private_key: self.private_key.clone(), public_key: self.public_key.clone() }
    }
}

} // verus!

verus! {

/// The model of one entry in the wallet map.
#[verifier::ext_equal]
pub ghost struct WalletEntryV {
    pub address: Seq<char>,
    pub sk: Seq<u8>,
    pub pk: Seq<u8>,
}

/// One entry: a wallet filed under its own address.
struct WalletEntry {
    address: String,
    wallet: Wallet,
}

/// A well-formed entry: a valid keypair filed under the address its public
/// key derives.
pub open spec fn entry_wf(e: WalletEntryV) -> bool {
    &&& e.sk.len() == 32
    &&& is_valid_seckey(e.sk)
    &&& e.pk == pubkey_of(e.sk)
    &&& e.pk.len() == 33
    &&& e.address == address_of_pubkey(e.pk)
}

/// The canonical bytes of a wallet list: a count, then each secret and
/// public key in fixed widths. Addresses are not stored; they are derived
/// again on decoding.
pub open spec fn cat_wallets(m: Seq<WalletEntryV>) -> Seq<u8>
    decreases m.len(),
{
    if m.len() == 0 {
        Seq::empty()
    } else {
        m.first().sk + m.first().pk + cat_wallets(m.drop_first())
    }
}

pub open spec fn enc_wallets(m: Seq<WalletEntryV>) -> Seq<u8> {
    crate::bytes::u64_le_bytes(m.len() as u64) + cat_wallets(m)
}

pub open spec fn dec_wallets_n(s: Seq<u8>, n: int) -> Option<(Seq<WalletEntryV>, int)>
    decreases n,
{
    if n <= 0 {
        Some((Seq::empty(), 0int))
    } else if s.len() < 65 {
        None
    } else {
        let sk = s.take(32);
        let pk = s.skip(32).take(33);
        if is_valid_seckey(sk) && pk == pubkey_of(sk) {
            match dec_wallets_n(s.skip(65), n - 1) {
                Some((m, c)) => Some(
                    (
                        seq![WalletEntryV { address: address_of_pubkey(pk), sk, pk }] + m,
                        65 + c,
                    ),
                ),
                None => None,
            }
        } else {
            None
        }
    }
}

/// The wallet list a byte string decodes to: the whole string must be one
/// count-prefixed list of valid keypairs.
pub open spec fn dec_wallets(s: Seq<u8>) -> Option<Seq<WalletEntryV>> {
    match crate::codec::dec_u64(s) {
        Some((cnt, _)) => match dec_wallets_n(s.skip(8), cnt as int) {
            Some((m, c)) => if 8 + c == s.len() {
                Some(m)
            } else {
                None
            },
            None => None,
        },
        None => None,
    }
}

pub proof fn lemma_dec_cat_wallets(m: Seq<WalletEntryV>, rest: Seq<u8>)
    requires
        forall|i: int| 0 <= i < m.len() ==> entry_wf(#[trigger] m[i]),
    ensures
        dec_wallets_n(cat_wallets(m) + rest, m.len() as int) == Some(
            (m, cat_wallets(m).len() as int),
        ),
        cat_wallets(m).len() == 65 * m.len(),
    decreases m.len(),
{
    if m.len() == 0 {
        assert(cat_wallets(m) + rest =~= rest);
        assert(Seq::<WalletEntryV>::empty() =~= m);
    } else {
        let e = m.first();
        let tl = m.drop_first();
        assert(entry_wf(e)) by {
            assert(m[0] == e);
        }
        let s = cat_wallets(m) + rest;
        assert(s =~= e.sk + e.pk + (cat_wallets(tl) + rest));
        assert(s.take(32) =~= e.sk);
        assert(s.skip(32).take(33) =~= e.pk);
        assert(s.skip(65) =~= cat_wallets(tl) + rest);
        assert(forall|i: int| 0 <= i < tl.len() ==> tl[i] == m[i + 1]);
        lemma_dec_cat_wallets(tl, rest);
        assert(seq![WalletEntryV { address: address_of_pubkey(e.pk), sk: e.sk, pk: e.pk }] + tl
            =~= m);
    }
}

/// The wallet list round trip: decoding an encoding gives the list back.
pub proof fn lemma_wallets_round_trip(m: Seq<WalletEntryV>)
    requires
        forall|i: int| 0 <= i < m.len() ==> entry_wf(#[trigger] m[i]),
        m.len() <= u64::MAX,
    ensures
        dec_wallets(enc_wallets(m)) == Some(m),
{
    let s = enc_wallets(m);
    assert(s =~= crate::bytes::u64_le_bytes(m.len() as u64) + (cat_wallets(m)
        + Seq::<u8>::empty()));
    crate::codec::lemma_dec_u64(m.len() as u64, cat_wallets(m) + Seq::<u8>::empty());
    assert(s.skip(8) =~= cat_wallets(m) + Seq::<u8>::empty());
    lemma_dec_cat_wallets(m, Seq::empty());
}

/// The wallet manager: wallets filed under their addresses, persisted as one
/// blob in the wallet directory.
pub struct Wallets {
    entries: Vec<WalletEntry>,
    path: String,
}

impl Wallets {
    /// Every wallet is filed under the address its public key derives.
    pub closed spec fn wf(self) -> bool {
        forall|i: int| 0 <= i < self.entries@.len() ==> {
            &&& (#[trigger] self.entries@[i]).address@ == address_of_pubkey(
                self.entries@[i].wallet.spec_public_key(),
            )
            &&& self.entries@[i].wallet.wf()
        }
    }

    /// The entries, as address and key material.
    pub closed spec fn model(self) -> Seq<WalletEntryV> {
        self.entries@.map_values(
            |e: WalletEntry| WalletEntryV {
                address: e.address@,
                sk: e.wallet.spec_private_key(),
                pk: e.wallet.spec_public_key(),
            },
        )
    }

    /// Every modelled entry is well formed.
    proof fn lemma_model_wf(self)
        requires
            self.wf(),
        ensures
            forall|i: int| 0 <= i < self.model().len() ==> entry_wf(#[trigger] self.model()[i]),
    {
        assert forall|i: int| 0 <= i < self.model().len() implies entry_wf(
            #[trigger] self.model()[i],
        ) by {
            assert(self.entries@[i].wallet.wf());
        }
    }

    /// How many wallets are filed.
    pub fn len(&self) -> (r: usize)
        ensures
            r == self.model().len(),
    {
        self.entries.len()
    }

    /// The wallet filed under the address, if any.
    pub fn get(&self, key: &str) -> (r: Option<&Wallet>)
        ensures
            r matches Some(w) ==> exists|i: int|
                0 <= i < self.model().len() && (#[trigger] self.model()[i]).address == key@
                    && self.model()[i].sk == w.spec_private_key() && self.model()[i].pk
                    == w.spec_public_key(),
            r is None ==> forall|i: int| 0 <= i < self.model().len() ==> (
            #[trigger] self.model()[i]).address != key@,
    {
        let kb = key.as_bytes();
        let mut i: usize = 0;
        while i < self.entries.len()
            invariant
                0 <= i <= self.entries@.len(),
                kb@ == vstd::utf8::encode_utf8(key@),
                forall|j: int| 0 <= j < i ==> (#[trigger] self.entries@[j]).address@ != key@,
            decreases self.entries@.len() - i,
        {
            let ab = self.entries[i].address.as_str().as_bytes();
            if crate::bytes::slice_eq(ab, kb) {
                proof {
                    assert(vstd::utf8::encode_utf8(self.entries@[i as int].address@)
                        == vstd::utf8::encode_utf8(key@));
                    vstd::utf8::encode_utf8_decode_utf8(self.entries@[i as int].address@);
                    vstd::utf8::encode_utf8_decode_utf8(key@);
                    assert(self.entries@[i as int].address@ == key@);
                    assert(self.model()[i as int].address == key@);
                }
                return Some(&self.entries[i].wallet);
            }
            i = i + 1;
        }
        proof {
            assert(forall|j: int| 0 <= j < self.model().len() ==> (
            #[trigger] self.model()[j]).address == self.entries@[j].address@);
        }
        None
    }

    /// The canonical bytes of the wallet list; decoding them gives the list
    /// back.
    pub fn serialize(&self) -> (r: Vec<u8>)
        requires
            self.wf(),
        ensures
            r@ == enc_wallets(self.model()),
            dec_wallets(r@) == Some(self.model()),
    {
        let mut out: Vec<u8> = Vec::new();
        crate::codec::push_u64(&mut out, self.entries.len() as u64);
        let ghost base = out@;
        let mut i: usize = 0;
        while i < self.entries.len()
            invariant
                0 <= i <= self.entries@.len(),
                out@ =~= base + cat_wallets(self.model().take(i as int)),
                base == crate::bytes::u64_le_bytes(self.entries@.len() as u64),
            decreases self.entries@.len() - i,
        {
            let w = &self.entries[i].wallet;
            let sk = w.private_key();
            let pk = w.public_key();
            crate::codec::push_bytes(&mut out, &sk);
            crate::codec::push_bytes(&mut out, &pk);
            proof {
                lemma_cat_wallets_snoc(self.model().take(i as int), self.model()[i as int]);
                assert(self.model().take(i as int).push(self.model()[i as int])
                    =~= self.model().take(i + 1));
                assert(out@ =~= base + cat_wallets(self.model().take(i + 1)));
            }
            i = i + 1;
        }
        proof {
            assert(self.model().take(self.model().len() as int) =~= self.model());
            assert(out@ =~= enc_wallets(self.model()));
            self.lemma_model_wf();
            lemma_wallets_round_trip(self.model());
        }
        out
    }

    /// Decodes a wallet list; the path for later saves is the default wallet
    /// directory. Fails on malformed bytes or key material.
    pub fn from_bytes(bytes: &Vec<u8>) -> (r: Option<Wallets>)
        ensures
            r matches Some(ws) ==> dec_wallets(bytes@) == Some(ws.model()) && ws.wf(),
            r is Some <==> dec_wallets(bytes@) is Some,
    {
        Wallets::from_bytes_with_path(bytes, new_strlit_wallets())
    }

    /// Decodes a wallet list, filing later saves under `path`.
    fn from_bytes_with_path(bytes: &Vec<u8>, path: String) -> (r: Option<Wallets>)
        ensures
            r matches Some(ws) ==> dec_wallets(bytes@) == Some(ws.model()) && ws.spec_path()
                == path@ && ws.wf(),
            r is Some <==> dec_wallets(bytes@) is Some,
    {
        proof {
            assert(bytes@.skip(0) =~= bytes@);
        }
        let (cnt, p1) = match crate::codec::read_u64(bytes, 0) {
            Some(x) => x,
            None => {
                return None;
            },
        };
        proof {
            assert(bytes@.skip(0).skip(8) =~= bytes@.skip(p1 as int));
        }
        let mut entries: Vec<WalletEntry> = Vec::new();
        let mut cur: usize = p1;
        let mut k: u64 = 0;
        while k < cnt
            invariant
                0 <= k <= cnt,
                p1 == 8,
                p1 <= cur <= bytes@.len(),
                crate::codec::dec_u64(bytes@) == Some((cnt, 8int)),
                forall|i: int| 0 <= i < entries@.len() ==> {
                    &&& (#[trigger] entries@[i]).address@ == address_of_pubkey(
                        entries@[i].wallet.spec_public_key(),
                    )
                    &&& entries@[i].wallet.wf()
                },
                dec_wallets_n(bytes@.skip(p1 as int), cnt as int) == (match dec_wallets_n(
                    bytes@.skip(cur as int),
                    cnt - k,
                ) {
                    Some((m, c)) => Some::<(Seq<WalletEntryV>, int)>(
                        (entries_model(entries@) + m, (cur - p1) + c),
                    ),
                    None => None::<(Seq<WalletEntryV>, int)>,
                }),
            decreases cnt - k,
        {
            let ghost pre = entries@;
            let (sk, p2) = match crate::codec::read_bytes(bytes, cur, 32) {
                Some(x) => x,
                None => {
                    proof {
                        assert(bytes@.skip(cur as int).len() < 65);
                        assert(dec_wallets_n(bytes@.skip(cur as int), cnt - k) is None);
                    }
                    return None;
                },
            };
            let (pk, p3) = match crate::codec::read_bytes(bytes, p2, 33) {
                Some(x) => x,
                None => {
                    proof {
                        assert(bytes@.skip(cur as int).len() < 65);
                        assert(dec_wallets_n(bytes@.skip(cur as int), cnt - k) is None);
                    }
                    return None;
                },
            };
            proof {
                assert(sk@ =~= bytes@.skip(cur as int).take(32));
                assert(pk@ =~= bytes@.skip(cur as int).skip(32).take(33));
            }
            if !seckey_is_valid(&sk) {
                return None;
            }
            let derived = match derive_pubkey(&sk) {
                Some(d) => d,
                None => {
                    return None;
                },
            };
            if !crate::bytes::bytes_eq(&derived, &pk) {
                return None;
            }
            let wallet = Wallet::assemble(sk, pk);
            proof {
                use_type_invariant(&wallet);
            }
            let address = wallet.get_address();
            entries.push(WalletEntry { address, wallet });
            proof {
                assert(bytes@.skip(cur as int).skip(65) =~= bytes@.skip(cur + 65));
                assert(entries_model(entries@) =~= entries_model(pre).push(
                    entries_model(entries@).last(),
                ));
                assert forall|m2: Seq<WalletEntryV>|
                    entries_model(pre) + (seq![entries_model(entries@).last()] + m2)
                        =~= entries_model(entries@) + m2 by {}
            }
            cur = p3;
            k = k + 1;
        }
        if cur != bytes.len() {
            proof {
                assert(dec_wallets_n(bytes@.skip(cur as int), 0int) == Some(
                    (Seq::<WalletEntryV>::empty(), 0int),
                ));
                assert(entries_model(entries@) + Seq::<WalletEntryV>::empty() =~= entries_model(
                    entries@,
                ));
            }
            return None;
        }
        proof {
            assert(dec_wallets_n(bytes@.skip(cur as int), 0int) == Some(
                (Seq::<WalletEntryV>::empty(), 0int),
            ));
            assert(entries_model(entries@) + Seq::<WalletEntryV>::empty() =~= entries_model(
                entries@,
            ));
        }
        let ws = Wallets { entries, path };
        proof {
            assert(ws.model() =~= entries_model(ws.entries@));
        }
        Some(ws)
    }

    /// Opens the wallet directory and loads the filed wallets, or starts
    /// empty where none are filed yet.
    pub fn new(path_str: String) -> (r: Result<Wallets, StoreError>)
        ensures
            r matches Ok(ws) ==> ws.spec_path() == path_str@ && ws.wf(),
    {
        let store = match crate::store::store_open(path_str.as_str()) {
            Ok(s) => s,
            Err(e) => {
                return Err(e);
            },
        };
        let key = wallets_key();
        match crate::store::store_get(&store, &key) {
            Ok(Some(bytes)) => match Wallets::from_bytes_with_path(&bytes, path_str) {
                Some(ws) => Ok(ws),
                None => Err(StoreError::Corruption),
            },
            Ok(None) => Ok(Wallets { entries: Vec::new(), path: path_str }),
            Err(e) => Err(e),
        }
    }

    pub closed spec fn spec_path(self) -> Seq<char> {
        self.path@
    }

    /// Writes the wallet list into the given store under the wallet key.
    fn save_to_store(&self, store: &mut crate::store::Store) -> (r: Result<(), StoreError>)
        requires
            self.wf(),
        ensures
            r is Ok ==> crate::store::store_contents(*final(store)) == crate::store::store_contents(
                *old(store),
            ).insert(wallets_key_spec(), enc_wallets(self.model())),
    {
        let key = wallets_key();
        let bytes = self.serialize();
        crate::store::store_put(store, &key, &bytes)
    }

    /// Opens the environment at `path` and writes the wallet list under the
    /// wallet key; the returned handle holds exactly the serialized list
    /// there.
    pub fn save_to_file(&self, path_str: String) -> (r: Result<crate::store::Store, StoreError>)
        requires
            self.wf(),
        ensures
            r matches Ok(s) ==> crate::store::store_contents(s).contains_key(wallets_key_spec())
                && crate::store::store_contents(s)[wallets_key_spec()] == enc_wallets(
                self.model(),
            ),
    {
        let mut store = match crate::store::store_open(path_str.as_str()) {
            Ok(s) => s,
            Err(e) => {
                return Err(e);
            },
        };
        match self.save_to_store(&mut store) {
            Ok(()) => Ok(store),
            Err(e) => Err(e),
        }
    }

    /// Creates a wallet, files it under its address, and persists the list
    /// through a handle at this manager's path; a failed save removes the
    /// entry again and is reported. Like the nonce search, the bounded
    /// random key draw reports exhaustion as `Iteration`.
    pub fn create_wallet(&mut self) -> (r: Result<Wallet, crate::mining_error::MiningError>)
        requires
            old(self).wf(),
        ensures
            final(self).wf(),
            final(self).spec_path() == old(self).spec_path(),
            r matches Ok(w) ==> final(self).model() == old(self).model().push(
                WalletEntryV {
                    address: address_of_pubkey(w.spec_public_key()),
                    sk: w.spec_private_key(),
                    pk: w.spec_public_key(),
                },
            ),
            r is Err ==> final(self).model() == old(self).model(),
    {
        let wallet = match Wallet::new() {
            Some(w) => w,
            None => {
                return Err(crate::mining_error::MiningError::Iteration);
            },
        };
        proof {
            use_type_invariant(&wallet);
        }
        let address = wallet.get_address();
        let copy = wallet.duplicate();
        let ghost pre = self.entries@;
        self.entries.push(WalletEntry { address, wallet });
        proof {
            assert(self.model() =~= old(self).model().push(self.model().last()));
            assert forall|i: int| 0 <= i < self.entries@.len() implies {
                &&& (#[trigger] self.entries@[i]).address@ == address_of_pubkey(
                    self.entries@[i].wallet.spec_public_key(),
                )
                &&& self.entries@[i].wallet.wf()
            } by {
                if i < pre.len() {
                    assert(self.entries@[i] == pre[i]);
                }
            }
        }
        let path = self.path.clone();
        match self.save_to_file(path) {
            Ok(_) => Ok(copy),
            Err(e) => {
                self.entries.pop();
                proof {
                    assert(self.entries@ =~= pre);
                    assert(self.model() =~= old(self).model());
                }
                Err(crate::mining_error::MiningError::Store(e))
            },
        }
    }
}

/// The models of raw entries.
spec fn entries_model_one(e: WalletEntry) -> WalletEntryV {
    WalletEntryV {
        address: e.address@,
        sk: e.wallet.spec_private_key(),
        pk: e.wallet.spec_public_key(),
    }
}

spec fn entries_model(es: Seq<WalletEntry>) -> Seq<WalletEntryV> {
    es.map_values(|e: WalletEntry| entries_model_one(e))
}

pub proof fn lemma_cat_wallets_snoc(m: Seq<WalletEntryV>, e: WalletEntryV)
    ensures
        cat_wallets(m.push(e)) == cat_wallets(m) + (e.sk + e.pk),
    decreases m.len(),
{
    if m.len() == 0 {
        assert(m.push(e).drop_first() =~= Seq::<WalletEntryV>::empty());
        assert(cat_wallets(Seq::<WalletEntryV>::empty()) == Seq::<u8>::empty());
        assert(m =~= Seq::<WalletEntryV>::empty());
        assert(cat_wallets(m.push(e)) =~= cat_wallets(m) + (e.sk + e.pk));
    } else {
        assert(m.push(e).drop_first() =~= m.drop_first().push(e));
        lemma_cat_wallets_snoc(m.drop_first(), e);
        assert(cat_wallets(m.push(e)) =~= cat_wallets(m) + (e.sk + e.pk));
    }
}

/// The single key the wallet blob is filed under: the ASCII bytes of the
/// word "wallets".
pub open spec fn wallets_key_spec() -> Seq<u8> {
    seq![119u8, 97u8, 108u8, 108u8, 101u8, 116u8, 115u8]
}

fn wallets_key() -> (r: Vec<u8>)
    ensures
        r@ == wallets_key_spec(),
{
    let mut k: Vec<u8> = Vec::new();
    k.push(119);
    k.push(97);
    k.push(108);
    k.push(108);
    k.push(101);
    k.push(116);
    k.push(115);
    proof {
        assert(k@ =~= wallets_key_spec());
    }
    k
}

/// The default wallet directory.
fn new_strlit_wallets() -> (r: String) {
    String::from_str("wallets")
}

} // verus!
