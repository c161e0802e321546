//! The locking script: a small stack machine over typed values, enough to
//! express pay-to-public-key-hash programs. The interpreter walks the token
//! list once, carrying a stack and a running outcome; it answers `Ok(true)`
//! only when the final comparison or signature check passed and the stack is
//! used up.

use vstd::prelude::*;

use crate::crypt::{ecdsa_verify, sig_checks};
use crate::wallet::{address_to_pub_hash, addr_decode_spec, hash_pub_key, hash_pub_key_spec};
use crate::bytes::bytes_eq;

verus! {

/// A script failure: a type mismatch, a pop from an empty stack, a missing
/// signing context, or values left over when the program ends.
#[derive(Clone, Copy, Debug, PartialEq, Eq, Structural)]
pub enum ScriptError {
    WrongValue,
}

/// The model of a stack value: byte strings in place of the fixed arrays.
#[verifier::ext_equal]
pub ghost enum SvV {
    Value(u32),
    Signature(Seq<u8>),
    PubKeyHash(Seq<u8>),
    PubKey(Seq<u8>),
}

/// A typed value on the evaluation stack.
pub enum StackValues {
    Value(u32),
    Signature(Vec<u8>),
    PubKeyHash(Vec<u8>),
    PubKey(Vec<u8>),
}

impl View for StackValues {
    type V = SvV;

    open spec fn view(&self) -> SvV {
        match self {
            StackValues::Value(v) => SvV::Value(*v),
            StackValues::Signature(s) => SvV::Signature(s@),
            StackValues::PubKeyHash(h) => SvV::PubKeyHash(h@),
            StackValues::PubKey(k) => SvV::PubKey(k@),
        }
    }
}

impl DeepView for StackValues {
    type V = SvV;

    open spec fn deep_view(&self) -> SvV {
        self@
    }
}

/// The model of a script token.
#[verifier::ext_equal]
pub ghost enum TokV {
    OpAdd,
    OpEqual,
    OpEqualVerify,
    OpCheckSig,
    OpHash160,
    OpDup,
    Value(SvV),
}

/// One script token: an opcode or a literal push.
pub enum ScriptToken {
    OpAdd,
    OpEqual,
    OpEqualVerify,
    OpCheckSig,
    OpHash160,
    OpDup,
    Value(StackValues),
}

impl View for ScriptToken {
    type V = TokV;

    open spec fn view(&self) -> TokV {
        match self {
            ScriptToken::OpAdd => TokV::OpAdd,
            ScriptToken::OpEqual => TokV::OpEqual,
            ScriptToken::OpEqualVerify => TokV::OpEqualVerify,
            ScriptToken::OpCheckSig => TokV::OpCheckSig,
            ScriptToken::OpHash160 => TokV::OpHash160,
            ScriptToken::OpDup => TokV::OpDup,
            ScriptToken::Value(v) => TokV::Value(v@),
        }
    }
}

impl DeepView for ScriptToken {
    type V = TokV;

    open spec fn deep_view(&self) -> TokV {
        self@
    }
}

/// The model of a script-sig: the unlocking pair an input carries.
#[verifier::ext_equal]
pub ghost struct SigV {
    pub signature: Seq<u8>,
    pub pub_key: Seq<u8>,
}

/// The unlocking data of an input: a compact signature and the compressed
/// public key it verifies under.
pub struct ScriptSig {
    pub signature: Vec<u8>,
    pub pub_key: Vec<u8>,
}

impl View for ScriptSig {
    type V = SigV;

    open spec fn view(&self) -> SigV {
        SigV { signature: self.signature@, pub_key: self.pub_key@ }
    }
}

impl ScriptSig {
    /// A 64-byte signature and a 33-byte compressed key.
    pub open spec fn wf(self) -> bool {
        self.signature@.len() == 64 && self.pub_key@.len() == 33
    }

    /// A copy of this script-sig.
    pub fn duplicate(&self) -> (r: ScriptSig)
        ensures
            r@ == self@,
    {
        ScriptSig { signature: self.signature.clone(), pub_key: self.pub_key.clone() }
    }
}

/// The model of a locking script.
#[verifier::ext_equal]
pub ghost struct ScriptV {
    pub script: Seq<TokV>,
}

/// A locking script: the token program an output is guarded by.
pub struct ScriptPubKey {
    pub script: Vec<ScriptToken>,
}

impl View for ScriptPubKey {
    type V = ScriptV;

    open spec fn view(&self) -> ScriptV {
        ScriptV { script: self.script.deep_view() }
    }
}

/// Addition wraps at 32 bits.
pub open spec fn add_wrap(a: u32, b: u32) -> u32 {
    ((a + b) % 0x1_0000_0000) as u32
}

/// One interpreter step: how a token changes the stack, the running
/// outcome, and whether evaluation halts. A failed pop, a type mismatch, a
/// missing signing context, or an unequal `OpEqualVerify` is terminal:
/// nothing later can overwrite a recorded failure.
pub open spec fn script_step(
    st: Seq<SvV>,
    res: Result<bool, ScriptError>,
    tok: TokV,
    ctx: Option<Seq<u8>>,
) -> (Seq<SvV>, Result<bool, ScriptError>, bool) {
    match tok {
        TokV::Value(d) => (st.push(d), res, false),
        TokV::OpDup => if st.len() > 0 {
            (st.push(st.last()), res, false)
        } else {
            (st, Err(ScriptError::WrongValue), true)
        },
        TokV::OpHash160 => if st.len() == 0 {
            (st, Err(ScriptError::WrongValue), true)
        } else {
            match st.last() {
                SvV::PubKey(d) => (
                    st.drop_last().push(SvV::PubKeyHash(hash_pub_key_spec(d))),
                    res,
                    false,
                ),
                _ => (st.drop_last(), Err(ScriptError::WrongValue), true),
            }
        },
        TokV::OpAdd => if st.len() < 2 {
            (st.take(0), Err(ScriptError::WrongValue), true)
        } else {
            match (st.last(), st.drop_last().last()) {
                (SvV::Value(v1), SvV::Value(v2)) => (
                    st.drop_last().drop_last().push(SvV::Value(add_wrap(v1, v2))),
                    res,
                    false,
                ),
                _ => (st.drop_last().drop_last(), Err(ScriptError::WrongValue), true),
            }
        },
        TokV::OpEqual => if st.len() < 2 {
            (st.take(0), Err(ScriptError::WrongValue), true)
        } else {
            match (st.last(), st.drop_last().last()) {
                (SvV::Value(v1), SvV::Value(v2)) => (
                    st.drop_last().drop_last(),
                    Ok(v1 == v2),
                    false,
                ),
                _ => (st.drop_last().drop_last(), Err(ScriptError::WrongValue), true),
            }
        },
        TokV::OpEqualVerify => if st.len() < 2 {
            (st.take(0), Err(ScriptError::WrongValue), true)
        } else {
            match (st.last(), st.drop_last().last()) {
                (SvV::PubKeyHash(v1), SvV::PubKeyHash(v2)) => if v1 == v2 {
                    (st.drop_last().drop_last(), Ok(true), false)
                } else {
                    (st.drop_last().drop_last(), Ok(false), true)
                },
                _ => (st.drop_last().drop_last(), Err(ScriptError::WrongValue), true),
            }
        },
        TokV::OpCheckSig => if st.len() < 2 {
            (st.take(0), Err(ScriptError::WrongValue), true)
        } else {
            match (st.last(), st.drop_last().last()) {
                (SvV::PubKey(pk), SvV::Signature(sig)) => match ctx {
                    Some(h) => (
                        st.drop_last().drop_last(),
                        Ok(sig_checks(h, sig, pk)),
                        false,
                    ),
                    None => (st.drop_last().drop_last(), Err(ScriptError::WrongValue), true),
                },
                _ => (st.drop_last().drop_last(), Err(ScriptError::WrongValue), true),
            }
        },
    }
}

/// Runs the remaining tokens from a given state; a halting step ends the
/// walk with its outcome.
pub open spec fn run_tokens(
    tokens: Seq<TokV>,
    st: Seq<SvV>,
    res: Result<bool, ScriptError>,
    ctx: Option<Seq<u8>>,
) -> (Seq<SvV>, Result<bool, ScriptError>, bool)
    decreases tokens.len(),
{
    if tokens.len() == 0 {
        (st, res, false)
    } else {
        let stepped = script_step(st, res, tokens.first(), ctx);
        if stepped.2 {
            (stepped.0, stepped.1, true)
        } else {
            run_tokens(tokens.drop_first(), stepped.0, stepped.1, ctx)
        }
    }
}

/// The initial stack: empty, or the signature below the public key.
pub open spec fn init_stack(sig: Option<SigV>) -> Seq<SvV> {
    match sig {
        Some(s) => seq![SvV::Signature(s.signature), SvV::PubKey(s.pub_key)],
        None => Seq::empty(),
    }
}

/// What a whole script evaluates to: a halted walk's outcome stands as it
/// is; otherwise values left on the stack are a failure, else the running
/// outcome answers.
pub open spec fn script_eval(
    tokens: Seq<TokV>,
    sig: Option<SigV>,
    ctx: Option<Seq<u8>>,
) -> Result<bool, ScriptError> {
    let fin = run_tokens(tokens, init_stack(sig), Err(ScriptError::WrongValue), ctx);
    if fin.2 {
        fin.1
    } else if fin.0.len() == 0 {
        fin.1
    } else {
        Err(ScriptError::WrongValue)
    }
}

/// The pay-to-public-key-hash template for a hash.
pub open spec fn p2pkh_script(pkh: Seq<u8>) -> Seq<TokV> {
    seq![
        TokV::OpDup,
        TokV::OpHash160,
        TokV::Value(SvV::PubKeyHash(pkh)),
        TokV::OpEqualVerify,
        TokV::OpCheckSig,
    ]
}

/// Whether a token stream holds a literal push of the given public key hash:
/// how an output is recognised as locked to that hash.
pub open spec fn script_locks(tokens: Seq<TokV>, pkh: Seq<u8>) -> bool {
    exists|i: int| 0 <= i < tokens.len() && tokens[i] == TokV::Value(SvV::PubKeyHash(pkh))
}

impl ScriptPubKey {
    /// The empty script.
    pub fn new() -> (r: ScriptPubKey)
        ensures
            r@.script.len() == 0,
    {
        ScriptPubKey { script: Vec::new() }
    }

    /// Appends one token.
    pub fn add(&mut self, value: ScriptToken)
        ensures
            final(self)@.script == old(self)@.script.push(value@),
    {
        self.script.push(value);
    }

    /// Evaluates this script: the stack starts empty or with the script-sig
    /// pair, and `tx_in_hash` is the digest a signature must check against.
    pub fn verify(&self, script_sig: Option<&ScriptSig>, tx_in_hash: Option<&Vec<u8>>) -> (r:
        Result<bool, ScriptError>)
        requires
            (tx_in_hash matches Some(h) ==> h@.len() == 32),
        ensures
            r == script_eval(
                self@.script,
                match script_sig {
                    Some(s) => Some(s@),
                    None => None,
                },
                match tx_in_hash {
                    Some(h) => Some(h@),
                    None => None,
                },
            ),
    {
        let ghost toks = self@.script;
        let ghost ctx = match tx_in_hash {
            Some(h) => Some(h@),
            None => None,
        };
        let mut stack: Vec<StackValues> = Vec::new();
        if let Some(sig) = script_sig {
            stack.push(StackValues::Signature(sig.signature.clone()));
            stack.push(StackValues::PubKey(sig.pub_key.clone()));
        }
        let ghost init = stack.deep_view();
        proof {
            assert(init =~= init_stack(
                match script_sig {
                    Some(s) => Some(s@),
                    None => None,
                },
            ));
        }
        let mut result: Result<bool, ScriptError> = Err(ScriptError::WrongValue);
        let n = self.script.len();
        let mut i: usize = 0;
        proof {
            assert(toks.skip(0) =~= toks);
        }
        while i < n
            invariant
                0 <= i <= n,
                n == self.script.len(),
                toks == self@.script,
                (tx_in_hash matches Some(h) ==> h@.len() == 32),
                ctx == (match tx_in_hash {
                    Some(h) => Some(h@),
                    None => None,
                }),
                init == init_stack(
                    match script_sig {
                        Some(s) => Some(s@),
                        None => None,
                    },
                ),
                run_tokens(toks, init, Err(ScriptError::WrongValue), ctx) == run_tokens(
                    toks.skip(i as int),
                    stack.deep_view(),
                    result,
                    ctx,
                ),
            decreases n - i,
        {
            let ghost pre_stack = stack.deep_view();
            let ghost pre_res = result;
            let ghost sig_view = (match script_sig {
                Some(s) => Some(s@),
                None => None::<SigV>,
            });
            proof {
                assert(toks.skip(i as int).first() == toks[i as int]);
                assert(toks.skip(i as int).drop_first() =~= toks.skip(i + 1));
            }
            let token = &self.script[i];
            match token {
                ScriptToken::Value(data) => {
                    stack.push(data.copy_value());
                },
                ScriptToken::OpDup => {
                    let l = stack.len();
                    if l > 0 {
                        let top = stack[l - 1].copy_value();
                        stack.push(top);
                    } else {
                        proof {
                            assert(script_eval(toks, sig_view, ctx) == Err::<bool, ScriptError>(
                                ScriptError::WrongValue,
                            ));
                        }
                        return Err(ScriptError::WrongValue);
                    }
                },
                ScriptToken::OpHash160 => {
                    let value = stack.pop();
                    match value {
                        Some(StackValues::PubKey(data)) => {
                            stack.push(StackValues::PubKeyHash(hash_pub_key(&data)));
                        },
                        _ => {
                            proof {
                                assert(script_eval(toks, sig_view, ctx) == Err::<
                                    bool,
                                    ScriptError,
                                >(ScriptError::WrongValue));
                            }
                            return Err(ScriptError::WrongValue);
                        },
                    }
                },
                ScriptToken::OpAdd => {
                    let first_value = stack.pop();
                    let second_value = stack.pop();
                    match (first_value, second_value) {
                        (Some(StackValues::Value(value1)), Some(StackValues::Value(value2))) => {
                            stack.push(StackValues::Value(value1.wrapping_add(value2)));
                            proof {
                                assert(value1.wrapping_add(value2) == add_wrap(value1, value2));
                            }
                        },
                        _ => {
                            proof {
                                assert(script_eval(toks, sig_view, ctx) == Err::<
                                    bool,
                                    ScriptError,
                                >(ScriptError::WrongValue));
                            }
                            return Err(ScriptError::WrongValue);
                        },
                    }
                },
                ScriptToken::OpEqual => {
                    let first_value = stack.pop();
                    let second_value = stack.pop();
                    match (first_value, second_value) {
                        (Some(StackValues::Value(value1)), Some(StackValues::Value(value2))) => {
                            result = Ok(value1 == value2);
                        },
                        _ => {
                            proof {
                                assert(script_eval(toks, sig_view, ctx) == Err::<
                                    bool,
                                    ScriptError,
                                >(ScriptError::WrongValue));
                            }
                            return Err(ScriptError::WrongValue);
                        },
                    }
                },
                ScriptToken::OpEqualVerify => {
                    let first_value = stack.pop();
                    let second_value = stack.pop();
                    match (first_value, second_value) {
                        (
                            Some(StackValues::PubKeyHash(value1)),
                            Some(StackValues::PubKeyHash(value2)),
                        ) => {
                            if bytes_eq(&value1, &value2) {
                                result = Ok(true);
                            } else {
                                proof {
                                    assert(script_eval(toks, sig_view, ctx) == Ok::<
                                        bool,
                                        ScriptError,
                                    >(false));
                                }
                                return Ok(false);
                            }
                        },
                        _ => {
                            proof {
                                assert(script_eval(toks, sig_view, ctx) == Err::<
                                    bool,
                                    ScriptError,
                                >(ScriptError::WrongValue));
                            }
                            return Err(ScriptError::WrongValue);
                        },
                    }
                },
                ScriptToken::OpCheckSig => {
                    let first_value = stack.pop();
                    let second_value = stack.pop();
                    match (first_value, second_value) {
                        (Some(StackValues::PubKey(pub_key)), Some(StackValues::Signature(sign))) => {
                            match tx_in_hash {
                                Some(tx_hash) => {
                                    result = Ok(ecdsa_verify(tx_hash, &sign, &pub_key));
                                },
                                None => {
                                    proof {
                                        assert(script_eval(toks, sig_view, ctx) == Err::<
                                            bool,
                                            ScriptError,
                                        >(ScriptError::WrongValue));
                                    }
                                    return Err(ScriptError::WrongValue);
                                },
                            }
                        },
                        _ => {
                            proof {
                                assert(script_eval(toks, sig_view, ctx) == Err::<
                                    bool,
                                    ScriptError,
                                >(ScriptError::WrongValue));
                            }
                            return Err(ScriptError::WrongValue);
                        },
                    }
                },
            }
            proof {
                assert((stack.deep_view(), result, false) == script_step(
                    pre_stack,
                    pre_res,
                    toks[i as int],
                    ctx,
                ));
            }
            i = i + 1;
        }
        proof {
            assert(toks.skip(n as int) =~= Seq::<TokV>::empty());
        }
        if stack.len() == 0 {
            result
        } else {
            Err(ScriptError::WrongValue)
        }
    }
}

/// The law behind pay-to-public-key-hash: the template accepts exactly a
/// signature that checks for the context under a key hashing to the
/// template's hash.
pub proof fn lemma_p2pkh_verifies(pkh: Seq<u8>, sig: Seq<u8>, pk: Seq<u8>, ctx: Seq<u8>)
    requires
        pkh == hash_pub_key_spec(pk),
        sig_checks(ctx, sig, pk),
    ensures
        script_eval(
            p2pkh_script(pkh),
            Some(SigV { signature: sig, pub_key: pk }),
            Some(ctx),
        ) == Ok::<bool, ScriptError>(true),
{
    lemma_p2pkh_exact(pkh, sig, pk, ctx);
}

/// The exact pay-to-public-key-hash law: the template answers true when and
/// only when the revealed key hashes to the locked hash and the signature
/// checks for the context under that key. A key with the wrong hash answers
/// false no matter what the signature would check as.
pub proof fn lemma_p2pkh_exact(pkh: Seq<u8>, sig: Seq<u8>, pk: Seq<u8>, ctx: Seq<u8>)
    ensures
        script_eval(
            p2pkh_script(pkh),
            Some(SigV { signature: sig, pub_key: pk }),
            Some(ctx),
        ) == (if hash_pub_key_spec(pk) == pkh {
            Ok::<bool, ScriptError>(sig_checks(ctx, sig, pk))
        } else {
            Ok::<bool, ScriptError>(false)
        }),
{
    reveal_with_fuel(run_tokens, 7);
    let toks = p2pkh_script(pkh);
    let st0 = init_stack(Some(SigV { signature: sig, pub_key: pk }));
    let e0: Result<bool, ScriptError> = Err(ScriptError::WrongValue);
    let s1 = script_step(st0, e0, toks[0], Some(ctx));
    assert(s1.0 =~= st0.push(SvV::PubKey(pk)));
    let s2 = script_step(s1.0, s1.1, toks[1], Some(ctx));
    assert(s2.0 =~= st0.push(SvV::PubKeyHash(hash_pub_key_spec(pk))));
    let s3 = script_step(s2.0, s2.1, toks[2], Some(ctx));
    assert(s3.0 =~= s2.0.push(SvV::PubKeyHash(pkh)));
    let s4 = script_step(s3.0, s3.1, toks[3], Some(ctx));
    assert(s4.0 =~= st0);
    if hash_pub_key_spec(pk) == pkh {
        assert(s4 == (st0, Ok::<bool, ScriptError>(true), false));
        let s5 = script_step(s4.0, s4.1, toks[4], Some(ctx));
        assert(s5.0 =~= Seq::<SvV>::empty());
        assert(s5.1 == Ok::<bool, ScriptError>(sig_checks(ctx, sig, pk)));
        assert(toks.drop_first() =~= toks.subrange(1, 5));
        assert(run_tokens(toks, st0, e0, Some(ctx)) == s5);
    } else {
        assert(s4.1 == Ok::<bool, ScriptError>(false));
        assert(s4.2);
        assert(toks.drop_first() =~= toks.subrange(1, 5));
        assert(run_tokens(toks, st0, e0, Some(ctx)) == (s4.0, s4.1, true));
    }
}

impl StackValues {
    /// A copy of this stack value.
    pub fn copy_value(&self) -> (r: StackValues)
        ensures
            r@ == self@,
    {
        match self {
            StackValues::Value(v) => StackValues::Value(*v),
            StackValues::Signature(s) => StackValues::Signature(s.clone()),
            StackValues::PubKeyHash(h) => StackValues::PubKeyHash(h.clone()),
            StackValues::PubKey(k) => StackValues::PubKey(k.clone()),
        }
    }
}

/// The pay-to-public-key-hash program locking an output to the hash inside
/// the address, or nothing where the address does not decode.
pub fn pay_to_address_script(address: &String) -> (r: Option<ScriptPubKey>)
    ensures
        r matches Some(s) ==> (addr_decode_spec(address@) matches Some(pkh) && s@.script
            == p2pkh_script(pkh)),
        r is Some <==> addr_decode_spec(address@) is Some,
{
    let pub_key_hash = match address_to_pub_hash(address) {
        Some(h) => h,
        None => {
            return None;
        },
    };
    let mut script: Vec<ScriptToken> = Vec::new();
    script.push(ScriptToken::OpDup);
    script.push(ScriptToken::OpHash160);
    script.push(ScriptToken::Value(StackValues::PubKeyHash(pub_key_hash)));
    script.push(ScriptToken::OpEqualVerify);
    script.push(ScriptToken::OpCheckSig);
    let r = ScriptPubKey { script };
    proof {
        assert(r@.script =~= p2pkh_script(addr_decode_spec(address@).unwrap()));
    }
    Some(r)
}

} // verus!
