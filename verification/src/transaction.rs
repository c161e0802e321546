//! Transactions: inputs that unlock previously committed outputs, outputs
//! locked to a public key hash, coinbases that mint the subsidy, signing
//! over the trimmed copy's identifier and verification by running each
//! referenced locking script.

use vstd::prelude::*;

use crate::bytes::{bytes_eq, zero_hash};
use crate::crypt::{ecdsa_sign, is_valid_seckey, pubkey_of, sig_checks, sig_of};
use crate::script_lang::{
    p2pkh_script, pay_to_address_script, script_eval, script_locks, ScriptError, ScriptPubKey,
    ScriptSig, ScriptToken, SigV, StackValues, SvV, TokV,
};
use crate::wallet::{addr_decode_spec, hash_pub_key_spec};

verus! {

/// Each coinbase mints this many units.
pub const SUBSIDY: u64 = 5000;

/// Why building or checking a transaction failed.
#[derive(Clone, Copy, Debug, PartialEq, Eq, Structural)]
pub enum TransactionError {
    /// The spendable outputs do not cover the amount.
    NotEnoughMoney,
    /// An input references a transaction that is not stored.
    MissingPrevTx,
    /// A locking script failed.
    Script(ScriptError),
    /// An address did not decode to a public key hash.
    BadAddress,
    /// An input references an output an earlier transaction already spent.
    SpentOutput,
    /// Selected output values do not fit in a 64-bit sum.
    ValueOverflow,
}

/// The model of an input.
#[verifier::ext_equal]
pub ghost struct InV {
    pub tx_id: Seq<u8>,
    pub vout: i64,
    pub script_sig: SigV,
}

/// An input: the output it spends, by transaction id and index, and the
/// unlocking signature data.
pub struct TXInput {
    pub tx_id: Vec<u8>,
    pub vout: i64,
    pub script_sig: ScriptSig,
}

impl View for TXInput {
    type V = InV;

    open spec fn view(&self) -> InV {
        InV { tx_id: self.tx_id@, vout: self.vout, script_sig: self.script_sig@ }
    }
}

impl DeepView for TXInput {
    type V = InV;

    open spec fn deep_view(&self) -> InV {
        self@
    }
}

/// The model of an output.
#[verifier::ext_equal]
pub ghost struct OutV {
    pub value: u64,
    pub script: Seq<TokV>,
}

/// An output: a value locked behind a script.
pub struct TXOutput {
    pub value: u64,
    pub script_pub_key: ScriptPubKey,
}

impl View for TXOutput {
    type V = OutV;

    open spec fn view(&self) -> OutV {
        OutV { value: self.value, script: self.script_pub_key@.script }
    }
}

impl DeepView for TXOutput {
    type V = OutV;

    open spec fn deep_view(&self) -> OutV {
        self@
    }
}

/// The model of a transaction.
#[verifier::ext_equal]
pub ghost struct TxV {
    pub id: Seq<u8>,
    pub memo: Seq<u8>,
    pub vin: Seq<InV>,
    pub vout: Seq<OutV>,
}

/// A transaction: an identifier over its own canonical bytes, a recorded
/// memo (empty outside coinbases), inputs and outputs.
pub struct Transaction {
    pub id: Vec<u8>,
    pub memo: Vec<u8>,
    pub vin: Vec<TXInput>,
    pub vout: Vec<TXOutput>,
}

impl View for Transaction {
    type V = TxV;

    open spec fn view(&self) -> TxV {
        TxV {
            id: self.id@,
            memo: self.memo@,
            vin: self.vin.deep_view(),
            vout: self.vout.deep_view(),
        }
    }
}

impl DeepView for Transaction {
    type V = TxV;

    open spec fn deep_view(&self) -> TxV {
        self@
    }
}

/// A stack value carries its declared width.
pub open spec fn sv_wf(v: SvV) -> bool {
    match v {
        SvV::Value(_) => true,
        SvV::Signature(s) => s.len() == 64,
        SvV::PubKeyHash(h) => h.len() == 20,
        SvV::PubKey(k) => k.len() == 33,
    }
}

/// Every literal pushed by a token is well formed.
pub open spec fn tok_wf(t: TokV) -> bool {
    match t {
        TokV::Value(v) => sv_wf(v),
        _ => true,
    }
}

pub open spec fn script_wf(s: Seq<TokV>) -> bool {
    forall|i: int| 0 <= i < s.len() ==> tok_wf(#[trigger] s[i])
}

pub open spec fn sig_v_wf(s: SigV) -> bool {
    s.signature.len() == 64 && s.pub_key.len() == 33
}

pub open spec fn in_wf(v: InV) -> bool {
    v.tx_id.len() == 32 && sig_v_wf(v.script_sig)
}

pub open spec fn out_wf(o: OutV) -> bool {
    script_wf(o.script)
}

/// A transaction whose fixed-width fields have their widths.
pub open spec fn tx_wf(t: TxV) -> bool {
    &&& t.id.len() == 32
    &&& forall|i: int| 0 <= i < t.vin.len() ==> in_wf(#[trigger] t.vin[i])
    &&& forall|i: int| 0 <= i < t.vout.len() ==> out_wf(#[trigger] t.vout[i])
}

/// The coinbase shape: one synthetic input referencing no output.
pub open spec fn is_coinbase_v(t: TxV) -> bool {
    t.vin.len() == 1 && t.vin[0].tx_id == zero_hash() && t.vin[0].vout == -1
}

/// The trimmed copy: the same transaction with every input's signature and
/// public key zeroed. Its identifier is the signing digest.
pub open spec fn trimmed_v(t: TxV) -> TxV {
    TxV {
        id: t.id,
        memo: t.memo,
        vin: t.vin.map_values(
            |v: InV| InV {
                tx_id: v.tx_id,
                vout: v.vout,
                script_sig: SigV {
                    signature: Seq::new(64, |i: int| 0u8),
                    pub_key: Seq::new(33, |i: int| 0u8),
                },
            },
        ),
        vout: t.vout,
    }
}

/// Where an input's referenced transaction sits in a list: the first
/// position whose id matches.
pub open spec fn find_tx_index(txs: Seq<TxV>, id: Seq<u8>) -> Option<int>
    decreases txs.len(),
{
    if txs.len() == 0 {
        None
    } else if txs[0].id == id {
        Some(0)
    } else {
        match find_tx_index(txs.drop_first(), id) {
            Some(i) => Some(i + 1),
            None => None,
        }
    }
}

/// What verifying one input against its previous transactions yields:
/// the referenced output must exist and its script must accept the input's
/// signature data against the signing digest.
pub open spec fn input_check(vin: InV, prev_txs: Seq<TxV>, ctx: Seq<u8>) -> Result<
    bool,
    TransactionError,
> {
    match find_tx_index(prev_txs, vin.tx_id) {
        Some(i) => {
            let prev = prev_txs[i];
            if 0 <= vin.vout < prev.vout.len() {
                match script_eval(
                    prev.vout[vin.vout as int].script,
                    Some(vin.script_sig),
                    Some(ctx),
                ) {
                    Ok(b) => Ok(b),
                    Err(_) => Ok(false),
                }
            } else {
                Err(TransactionError::MissingPrevTx)
            }
        },
        None => Err(TransactionError::MissingPrevTx),
    }
}

/// Verification of the inputs from position `i` on: the first missing
/// reference is an error, the first failing script answers false.
pub open spec fn inputs_check_from(t: TxV, prev_txs: Seq<TxV>, i: int) -> Result<
    bool,
    TransactionError,
>
    decreases t.vin.len() - i,
{
    if i < 0 || i >= t.vin.len() {
        Ok(true)
    } else {
        match input_check(t.vin[i], prev_txs, t.id) {
            Ok(true) => inputs_check_from(t, prev_txs, i + 1),
            Ok(false) => Ok(false),
            Err(e) => Err(e),
        }
    }
}

/// What verifying a whole transaction yields: coinbases pass; otherwise
/// every input must unlock its referenced output.
pub open spec fn tx_verify_spec(t: TxV, prev_txs: Seq<TxV>) -> Result<bool, TransactionError> {
    if is_coinbase_v(t) {
        Ok(true)
    } else {
        inputs_check_from(t, prev_txs, 0)
    }
}

/// What signing does: a coinbase is returned unchanged; otherwise the
/// signed transaction keeps identifier, outputs and references, and every
/// input carries the signer's public key and the signature over the
/// identifier.
pub open spec fn tx_sign_rel(orig: TxV, sk: Seq<u8>, signed: TxV) -> bool {
    if is_coinbase_v(orig) {
        signed == orig
    } else {
        &&& signed.id == orig.id
        &&& signed.memo == orig.memo
        &&& signed.vout == orig.vout
        &&& signed.vin.len() == orig.vin.len()
        &&& forall|i: int| 0 <= i < signed.vin.len() ==> {
            &&& (#[trigger] signed.vin[i]).tx_id == orig.vin[i].tx_id
            &&& signed.vin[i].vout == orig.vin[i].vout
            &&& signed.vin[i].script_sig.pub_key == pubkey_of(sk)
            &&& signed.vin[i].script_sig.signature == sig_of(orig.id, sk)
        }
    }
}

/// The identifier a transaction with this memo, these inputs and these
/// outputs gets: the SHA-256 of its canonical bytes with the identifier
/// field zeroed.
pub open spec fn tx_id_spec(memo: Seq<u8>, vin: Seq<InV>, vout: Seq<OutV>) -> Seq<u8> {
    crate::crypt::sha256_of(crate::codec::enc_tx(TxV { id: zero_hash(), memo, vin, vout }))
}

/// A transaction in the list is found by its own identifier.
pub proof fn lemma_find_tx_found(txs: Seq<TxV>, k: int)
    requires
        0 <= k < txs.len(),
    ensures
        find_tx_index(txs, txs[k].id) is Some,
    decreases txs.len(),
{
    if txs[0].id == txs[k].id {
    } else {
        assert(k > 0);
        assert(txs.drop_first()[k - 1] == txs[k]);
        lemma_find_tx_found(txs.drop_first(), k - 1);
    }
}

/// All inputs from position `i` on check out.
pub proof fn lemma_inputs_all_ok(t: TxV, prev_txs: Seq<TxV>, i: int)
    requires
        forall|j: int| i <= j < t.vin.len() ==> input_check(#[trigger] t.vin[j], prev_txs, t.id)
            == Ok::<bool, TransactionError>(true),
    ensures
        inputs_check_from(t, prev_txs, i) == Ok::<bool, TransactionError>(true),
    decreases t.vin.len() - i,
{
    if 0 <= i < t.vin.len() {
        lemma_inputs_all_ok(t, prev_txs, i + 1);
    }
}

/// Where the first transaction with the given id sits in the list.
fn find_prev(prev_txs: &Vec<Transaction>, id: &Vec<u8>) -> (r: Option<usize>)
    ensures
        r matches Some(j) ==> find_tx_index(prev_txs.deep_view(), id@) == Some(j as int) && j
            < prev_txs@.len(),
        r is None ==> find_tx_index(prev_txs.deep_view(), id@) is None,
{
    let ghost prevs = prev_txs.deep_view();
    let n = prev_txs.len();
    let mut i: usize = 0;
    proof {
        assert(prevs.skip(0) =~= prevs);
    }
    while i < n
        invariant
            0 <= i <= n,
            n == prev_txs@.len(),
            prevs == prev_txs.deep_view(),
            find_tx_index(prevs, id@) == (match find_tx_index(prevs.skip(i as int), id@) {
                Some(j) => Some(i + j),
                None => None::<int>,
            }),
        decreases n - i,
    {
        if bytes_eq(&prev_txs[i].id, id) {
            proof {
                assert(prevs.skip(i as int)[0] == prevs[i as int]);
                assert(find_tx_index(prevs.skip(i as int), id@) == Some(0int));
            }
            return Some(i);
        }
        proof {
            assert(prevs.skip(i as int)[0] == prevs[i as int]);
            assert(prevs.skip(i as int).drop_first() =~= prevs.skip(i + 1));
        }
        i = i + 1;
    }
    proof {
        assert(prevs.skip(n as int) =~= Seq::<TxV>::empty());
    }
    None
}

impl TXInput {
    /// Whether this input was made by the owner of the given public key
    /// hash: the embedded public key hashes to it.
    pub fn uses_key(&self, pub_key_hash: &Vec<u8>) -> (r: bool)
        ensures
            r == (hash_pub_key_spec(self.script_sig.pub_key@) == pub_key_hash@),
    {
        let h = crate::wallet::hash_pub_key(&self.script_sig.pub_key);
        bytes_eq(&h, pub_key_hash)
    }

    /// A copy of this input.
    pub fn duplicate(&self) -> (r: TXInput)
        ensures
            r@ == self@,
    {
        TXInput {
            tx_id: self.tx_id.clone(),
            vout: self.vout,
            script_sig: self.script_sig.duplicate(),
        }
    }
}

impl TXOutput {
    /// Whether this output is locked to the given public key hash: its
    /// script pushes that hash.
    pub fn is_locker_with_key(&self, pub_key_hash: &Vec<u8>) -> (r: bool)
        ensures
            r == script_locks(self@.script, pub_key_hash@),
    {
        let n = self.script_pub_key.script.len();
        let mut i: usize = 0;
        while i < n
            invariant
                0 <= i <= n,
                n == self.script_pub_key.script@.len(),
                forall|j: int| 0 <= j < i ==> self@.script[j] != TokV::Value(
                    SvV::PubKeyHash(pub_key_hash@),
                ),
            decreases n - i,
        {
            match &self.script_pub_key.script[i] {
                ScriptToken::Value(StackValues::PubKeyHash(find_hash)) => {
                    if bytes_eq(find_hash, pub_key_hash) {
                        proof {
                            assert(self@.script[i as int] == TokV::Value(
                                SvV::PubKeyHash(pub_key_hash@),
                            ));
                        }
                        return true;
                    }
                },
                _ => {},
            }
            i = i + 1;
        }
        false
    }

    /// A copy of this output.
    pub fn duplicate(&self) -> (r: TXOutput)
        ensures
            r@ == self@,
    {
        let mut script: Vec<ScriptToken> = Vec::new();
        let n = self.script_pub_key.script.len();
        let mut i: usize = 0;
        while i < n
            invariant
                0 <= i <= n,
                n == self.script_pub_key.script@.len(),
                script.deep_view() =~~= self.script_pub_key.script.deep_view().take(i as int),
            decreases n - i,
        {
            let tok = match &self.script_pub_key.script[i] {
                ScriptToken::OpAdd => ScriptToken::OpAdd,
                ScriptToken::OpEqual => ScriptToken::OpEqual,
                ScriptToken::OpEqualVerify => ScriptToken::OpEqualVerify,
                ScriptToken::OpCheckSig => ScriptToken::OpCheckSig,
                ScriptToken::OpHash160 => ScriptToken::OpHash160,
                ScriptToken::OpDup => ScriptToken::OpDup,
                ScriptToken::Value(v) => ScriptToken::Value(v.copy_value()),
            };
            let ghost pre = script;
            script.push(tok);
            proof {
                crate::views::lemma_deep_view_push(pre, script);
                assert(script.deep_view() =~= self.script_pub_key.script.deep_view().take(
                    i + 1,
                ));
            }
            i = i + 1;
        }
        proof {
            assert(script.deep_view() =~~= self.script_pub_key.script.deep_view());
        }
        let r = TXOutput { value: self.value, script_pub_key: ScriptPubKey { script } };
        proof {
            assert(r@ =~~= self@);
        }
        r
    }
}

impl Transaction {
    /// The coinbase shape: a single input that references nothing.
    pub fn is_coinbase(&self) -> (r: bool)
        ensures
            r == is_coinbase_v(self@),
    {
        if self.vin.len() != 1 {
            return false;
        }
        let z = crate::bytes::zero_hash_vec();
        let id_zero = bytes_eq(&self.vin[0].tx_id, &z);
        id_zero && self.vin[0].vout == -1
    }

    /// A copy of this transaction.
    pub fn duplicate(&self) -> (r: Transaction)
        ensures
            r@ == self@,
    {
        let mut vin: Vec<TXInput> = Vec::new();
        let mut i: usize = 0;
        while i < self.vin.len()
            invariant
                0 <= i <= self.vin@.len(),
                vin.deep_view() =~~= self.vin.deep_view().take(i as int),
            decreases self.vin@.len() - i,
        {
            let ghost pre = vin;
            vin.push(self.vin[i].duplicate());
            proof {
                crate::views::lemma_deep_view_push(pre, vin);
                assert(vin.deep_view() =~= self.vin.deep_view().take(i + 1));
            }
            i = i + 1;
        }
        let mut vout: Vec<TXOutput> = Vec::new();
        let mut j: usize = 0;
        while j < self.vout.len()
            invariant
                0 <= j <= self.vout@.len(),
                vout.deep_view() =~~= self.vout.deep_view().take(j as int),
            decreases self.vout@.len() - j,
        {
            let ghost pre = vout;
            vout.push(self.vout[j].duplicate());
            proof {
                crate::views::lemma_deep_view_push(pre, vout);
                assert(vout.deep_view() =~= self.vout.deep_view().take(j + 1));
            }
            j = j + 1;
        }
        let r = Transaction { id: self.id.clone(), memo: self.memo.clone(), vin, vout };
        proof {
            assert(r.vin.deep_view() =~~= self.vin.deep_view());
            assert(r.vout.deep_view() =~~= self.vout.deep_view());
            assert(r@ =~~= self@);
        }
        r
    }

    /// The trimmed copy: every input's signature data zeroed, outputs kept.
    fn trimmed_copy(&self) -> (r: Transaction)
        ensures
            r@ == trimmed_v(self@),
    {
        let mut inputs: Vec<TXInput> = Vec::new();
        let mut i: usize = 0;
        while i < self.vin.len()
            invariant
                0 <= i <= self.vin@.len(),
                inputs.deep_view() =~~= trimmed_v(self@).vin.take(i as int),
            decreases self.vin@.len() - i,
        {
            let vin = &self.vin[i];
            let zero_pk = crate::bytes::zero_bytes(33);
            let zero_sig = crate::bytes::zero_bytes(64);
            let ghost pre = inputs;
            inputs.push(
                TXInput {
                    tx_id: vin.tx_id.clone(),
                    vout: vin.vout,
                    script_sig: ScriptSig { pub_key: zero_pk, signature: zero_sig },
                },
            );
            proof {
                crate::views::lemma_deep_view_push(pre, inputs);
                assert(inputs@.last()@ =~= trimmed_v(self@).vin[i as int]);
                assert(inputs.deep_view() =~= trimmed_v(self@).vin.take(i + 1));
            }
            i = i + 1;
        }
        let mut outputs: Vec<TXOutput> = Vec::new();
        let mut j: usize = 0;
        while j < self.vout.len()
            invariant
                0 <= j <= self.vout@.len(),
                outputs.deep_view() =~~= self.vout.deep_view().take(j as int),
            decreases self.vout@.len() - j,
        {
            let ghost pre = outputs;
            outputs.push(self.vout[j].duplicate());
            proof {
                crate::views::lemma_deep_view_push(pre, outputs);
                assert(outputs.deep_view() =~= self.vout.deep_view().take(j + 1));
            }
            j = j + 1;
        }
        let r = Transaction {
            id: self.id.clone(),
            memo: self.memo.clone(),
            vin: inputs,
            vout: outputs,
        };
        proof {
            assert(r.vin.deep_view() =~~= trimmed_v(self@).vin);
            assert(r.vout.deep_view() =~~= self.vout.deep_view());
            assert(r@ =~~= trimmed_v(self@));
        }
        r
    }
}

} // verus!

verus! {

impl TXOutput {
    /// An output of `value` locked to the hash inside `address`, or nothing
    /// where the address does not decode.
    pub fn new(value: u64, address: &String) -> (r: Option<TXOutput>)
        ensures
            r matches Some(o) ==> o@.value == value && (addr_decode_spec(address@) matches Some(
                pkh,
            ) && o@.script == p2pkh_script(pkh)) && out_wf(o@),
            r is Some <==> addr_decode_spec(address@) is Some,
    {
        match pay_to_address_script(address) {
            Some(script_pub_key) => Some(TXOutput { value, script_pub_key }),
            None => None,
        }
    }
}

impl TXInput {
    /// An input spending `vout` of `income_transaction`, unlocked by `from`:
    /// the wallet's public key and its signature over the transaction's
    /// identifier.
    pub fn new(income_transaction: &Transaction, vout: i64, from: &crate::wallet::Wallet) -> (r:
        TXInput)
        requires
            income_transaction@.id.len() == 32,
        ensures
            r@.tx_id == income_transaction@.id,
            r@.vout == vout,
            r@.script_sig.pub_key == from.spec_public_key(),
            r@.script_sig.signature == sig_of(income_transaction@.id, from.spec_private_key()),
            sig_checks(income_transaction@.id, r@.script_sig.signature, from.spec_public_key()),
    {
        let signature = from.sign(income_transaction.id.clone());
        TXInput {
            tx_id: income_transaction.id.clone(),
            vout,
            script_sig: ScriptSig { pub_key: from.public_key(), signature },
        }
    }
}

impl Transaction {
    /// The identifier: SHA-256 over this transaction's canonical bytes.
    fn hash(&self) -> (r: Vec<u8>)
        ensures
            r@ == crate::crypt::sha256_of(crate::codec::enc_tx(self@)),
            r@.len() == 32,
    {
        let enc = crate::codec::encode_tx(self);
        crate::crypt::sha256(&enc)
    }

    /// Assembles a transaction with an empty memo and fills its identifier.
    pub fn new(vin: Vec<TXInput>, vout: Vec<TXOutput>) -> (r: Transaction)
        ensures
            r@.vin == vin.deep_view(),
            r@.vout == vout.deep_view(),
            r@.memo == Seq::<u8>::empty(),
            r@.id == tx_id_spec(Seq::empty(), vin.deep_view(), vout.deep_view()),
            r@.id.len() == 32,
    {
        let mut tx = Transaction {
            id: crate::bytes::zero_hash_vec(),
            memo: Vec::new(),
            vin,
            vout,
        };
        let id = tx.hash();
        tx.id = id;
        proof {
            assert(tx@.memo =~= Seq::<u8>::empty());
        }
        tx
    }

    /// The coinbase paying the subsidy to `address`. The memo is recorded in
    /// the synthetic input's signature field, padded or cut to 64 bytes, so
    /// that distinct memos give distinct identifiers. Nothing is returned
    /// where the address does not decode.
    pub fn new_coinbase_tx(to: &String, data: String) -> (r: Option<Transaction>)
        ensures
            r matches Some(tx) ==> {
                &&& is_coinbase_v(tx@)
                &&& tx@.vin[0].script_sig.signature == Seq::new(64, |i: int| 0u8)
                &&& tx@.vin[0].script_sig.pub_key == Seq::new(33, |i: int| 0u8)
                &&& tx@.memo == vstd::utf8::encode_utf8(data@)
                &&& tx@.vout.len() == 1
                &&& tx@.vout[0].value == SUBSIDY
                &&& (addr_decode_spec(to@) matches Some(pkh) && tx@.vout[0].script
                    == p2pkh_script(pkh))
                &&& tx@.id == tx_id_spec(tx@.memo, tx@.vin, tx@.vout)
                &&& tx_wf(tx@)
            },
            r is Some <==> addr_decode_spec(to@) is Some,
    {
        let tx_out = match TXOutput::new(SUBSIDY, to) {
            Some(o) => o,
            None => {
                return None;
            },
        };
        let raw = data.as_str().as_bytes();
        let mut memo: Vec<u8> = Vec::new();
        let mut i: usize = 0;
        while i < raw.len()
            invariant
                0 <= i <= raw@.len(),
                memo@ =~= raw@.take(i as int),
            decreases raw@.len() - i,
        {
            let b = raw[i];
            memo.push(b);
            i = i + 1;
        }
        proof {
            assert(memo@ =~= raw@);
        }
        let tx_in = TXInput {
            tx_id: crate::bytes::zero_hash_vec(),
            vout: -1,
            script_sig: ScriptSig {
                pub_key: crate::bytes::zero_bytes(33),
                signature: crate::bytes::zero_bytes(64),
            },
        };
        let mut tx = Transaction {
            id: crate::bytes::zero_hash_vec(),
            memo,
            vin: vec![tx_in],
            vout: vec![tx_out],
        };
        let id = tx.hash();
        tx.id = id;
        proof {
            assert(tx@.vin[0].tx_id == zero_hash());
            assert(tx@.vout[0].value == SUBSIDY);
            assert(script_wf(tx@.vout[0].script));
        }
        Some(tx)
    }

    /// Signs every input over this transaction's identifier: the trimmed
    /// copy's inputs get the signer's public key and a signature over the
    /// copy's identifier. Coinbases are returned unchanged. Where every
    /// referenced output is the pay-to-public-key-hash template for the
    /// signing key, the signed transaction verifies.
    pub fn sign(&self, private_key: &Vec<u8>, prev_txs: &Vec<Transaction>) -> (r: Result<
        Transaction,
        TransactionError,
    >)
        requires
            is_valid_seckey(private_key@),
            private_key@.len() == 32,
            tx_wf(self@),
        ensures
            r matches Ok(t) ==> tx_sign_rel(self@, private_key@, t@) && tx_wf(t@),
            r is Ok <==> (is_coinbase_v(self@) || forall|i: int|
                0 <= i < self@.vin.len() ==> find_tx_index(
                    prev_txs.deep_view(),
                    #[trigger] self@.vin[i].tx_id,
                ) is Some),
            r matches Err(e) ==> e == TransactionError::MissingPrevTx,
            r matches Ok(t) ==> ((!is_coinbase_v(t@) && (forall|i: int|
                0 <= i < t@.vin.len() ==> {
                    &&& find_tx_index(
                        prev_txs.deep_view(),
                        (#[trigger] t@.vin[i]).tx_id,
                    ) matches Some(j)
                    &&& 0 <= t@.vin[i].vout < prev_txs.deep_view()[j].vout.len()
                    &&& prev_txs.deep_view()[j].vout[t@.vin[i].vout as int].script
                        == p2pkh_script(hash_pub_key_spec(pubkey_of(private_key@)))
                })) ==> tx_verify_spec(t@, prev_txs.deep_view())
                == Ok::<bool, TransactionError>(true)),
    {
        if self.is_coinbase() {
            let copy = self.duplicate();
            return Ok(copy);
        }
        let tx_copy = self.trimmed_copy();
        let pub_key = match crate::crypt::derive_pubkey(private_key) {
            Some(pk) => pk,
            None => {
                proof {
                    assert(false);
                }
                return Err(TransactionError::MissingPrevTx);
            },
        };
        let signature = crate::crypt::ecdsa_sign(&tx_copy.id, private_key);
        let mut inputs: Vec<TXInput> = Vec::new();
        let mut i: usize = 0;
        while i < self.vin.len()
            invariant
                0 <= i <= self.vin@.len(),
                !is_coinbase_v(self@),
                inputs@.len() == i,
                pub_key@ == pubkey_of(private_key@),
                signature@ == sig_of(self@.id, private_key@),
                forall|k: int| 0 <= k < i ==> {
                    &&& (#[trigger] inputs@[k])@.tx_id == self@.vin[k].tx_id
                    &&& inputs@[k]@.vout == self@.vin[k].vout
                    &&& inputs@[k]@.script_sig.pub_key == pubkey_of(private_key@)
                    &&& inputs@[k]@.script_sig.signature == sig_of(self@.id, private_key@)
                },
                forall|k: int| 0 <= k < i ==> find_tx_index(
                    prev_txs.deep_view(),
                    #[trigger] self@.vin[k].tx_id,
                ) is Some,
            decreases self.vin@.len() - i,
        {
            let vin = &self.vin[i];
            match find_prev(prev_txs, &vin.tx_id) {
                Some(_) => {},
                None => {
                    proof {
                        assert(find_tx_index(
                            prev_txs.deep_view(),
                            self@.vin[i as int].tx_id,
                        ) is None);
                    }
                    return Err(TransactionError::MissingPrevTx);
                },
            }
            inputs.push(
                TXInput {
                    tx_id: vin.tx_id.clone(),
                    vout: vin.vout,
                    script_sig: ScriptSig {
                        pub_key: pub_key.clone(),
                        signature: signature.clone(),
                    },
                },
            );
            i = i + 1;
        }
        let signed = Transaction {
            id: self.id.clone(),
            memo: self.memo.clone(),
            vin: inputs,
            vout: tx_copy.vout,
        };
        proof {
            assert(signed@.vout =~= self@.vout);
            assert(!is_coinbase_v(signed@)) by {
                if signed@.vin.len() == 1 {
                    assert(signed@.vin[0].tx_id == self@.vin[0].tx_id);
                    assert(signed@.vin[0].vout == self@.vin[0].vout);
                }
            }
            let prevs = prev_txs.deep_view();
            let sv = signed@;
            assert((forall|i2: int|
                0 <= i2 < sv.vin.len() ==> {
                    &&& find_tx_index(prevs, (#[trigger] sv.vin[i2]).tx_id) matches Some(j)
                    &&& 0 <= sv.vin[i2].vout < prevs[j].vout.len()
                    &&& prevs[j].vout[sv.vin[i2].vout as int].script == p2pkh_script(
                        hash_pub_key_spec(pubkey_of(private_key@)),
                    )
                }) ==> tx_verify_spec(sv, prevs) == Ok::<bool, TransactionError>(true)) by {
                if (forall|i2: int|
                    0 <= i2 < sv.vin.len() ==> {
                        &&& find_tx_index(prevs, (#[trigger] sv.vin[i2]).tx_id) matches Some(j)
                        &&& 0 <= sv.vin[i2].vout < prevs[j].vout.len()
                        &&& prevs[j].vout[sv.vin[i2].vout as int].script == p2pkh_script(
                            hash_pub_key_spec(pubkey_of(private_key@)),
                        )
                    }) {
                    assert forall|i2: int| 0 <= i2 < sv.vin.len() implies input_check(
                        #[trigger] sv.vin[i2],
                        prevs,
                        sv.id,
                    ) == Ok::<bool, TransactionError>(true) by {
                        let j = find_tx_index(prevs, sv.vin[i2].tx_id).unwrap();
                        crate::script_lang::lemma_p2pkh_verifies(
                            hash_pub_key_spec(pubkey_of(private_key@)),
                            sv.vin[i2].script_sig.signature,
                            sv.vin[i2].script_sig.pub_key,
                            sv.id,
                        );
                    }
                    lemma_inputs_all_ok(sv, prevs, 0);
                }
            }
        }
        Ok(signed)
    }

    /// Runs every input's referenced locking script with the input's
    /// signature data against the trimmed copy's identifier. Coinbases pass.
    pub fn verify(&self, prev_txs: &Vec<Transaction>) -> (r: Result<bool, TransactionError>)
        requires
            self@.id.len() == 32,
        ensures
            r == tx_verify_spec(self@, prev_txs.deep_view()),
    {
        if self.is_coinbase() {
            return Ok(true);
        }
        let tx_copy = self.trimmed_copy();
        let ghost prevs = prev_txs.deep_view();
        let n = self.vin.len();
        let mut i: usize = 0;
        while i < n
            invariant
                0 <= i <= n,
                n == self.vin@.len(),
                !is_coinbase_v(self@),
                prevs == prev_txs.deep_view(),
                self@.id.len() == 32,
                tx_copy@.id == self@.id,
                inputs_check_from(self@, prevs, 0) == inputs_check_from(self@, prevs, i as int),
            decreases n - i,
        {
            let vin = &self.vin[i];
            let j = match find_prev(prev_txs, &vin.tx_id) {
                Some(j) => j,
                None => {
                    proof {
                        assert(input_check(self@.vin[i as int], prevs, self@.id) == Err::<
                            bool,
                            TransactionError,
                        >(TransactionError::MissingPrevTx));
                        assert(inputs_check_from(self@, prevs, i as int) == Err::<
                            bool,
                            TransactionError,
                        >(TransactionError::MissingPrevTx));
                    }
                    return Err(TransactionError::MissingPrevTx);
                },
            };
            let prev = &prev_txs[j];
            if vin.vout < 0 || (vin.vout as u64) >= (prev.vout.len() as u64) {
                proof {
                    assert(input_check(self@.vin[i as int], prevs, self@.id) == Err::<
                        bool,
                        TransactionError,
                    >(TransactionError::MissingPrevTx));
                    assert(inputs_check_from(self@, prevs, i as int) == Err::<
                        bool,
                        TransactionError,
                    >(TransactionError::MissingPrevTx));
                }
                return Err(TransactionError::MissingPrevTx);
            }
            let idx = vin.vout as usize;
            let res = prev.vout[idx].script_pub_key.verify(
                Some(&vin.script_sig),
                Some(&tx_copy.id),
            );
            match res {
                Ok(true) => {},
                Ok(false) => {
                    proof {
                        assert(input_check(self@.vin[i as int], prevs, self@.id) == Ok::<
                            bool,
                            TransactionError,
                        >(false));
                        assert(inputs_check_from(self@, prevs, i as int) == Ok::<
                            bool,
                            TransactionError,
                        >(false));
                    }
                    return Ok(false);
                },
                Err(_) => {
                    proof {
                        assert(input_check(self@.vin[i as int], prevs, self@.id) == Ok::<
                            bool,
                            TransactionError,
                        >(false));
                        assert(inputs_check_from(self@, prevs, i as int) == Ok::<
                            bool,
                            TransactionError,
                        >(false));
                    }
                    return Ok(false);
                },
            }
            proof {
                assert(input_check(self@.vin[i as int], prevs, self@.id) == Ok::<
                    bool,
                    TransactionError,
                >(true));
            }
            i = i + 1;
        }
        Ok(true)
    }

    /// Decodes a transaction from its canonical bytes; trailing bytes are a
    /// failure.
    pub fn from_bytes(bytes: &Vec<u8>) -> (r: Option<Transaction>)
        ensures
            r matches Some(t) ==> crate::codec::dec_tx_full(bytes@) == Some(t@) && tx_wf(t@)
                && crate::codec::tx_bounded(t@),
            r is Some <==> crate::codec::dec_tx_full(bytes@) is Some,
    {
        crate::codec::decode_tx_bytes(bytes)
    }
}

} // verus!
