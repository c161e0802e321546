//! The canonical binary form of the ledger's values: little-endian
//! fixed-width integers, raw fixed-width byte fields, and count-prefixed
//! lists. The same logical value always encodes to the same bytes, and
//! decoding inverts encoding; both directions are stated as specification
//! functions and the inversion is proved.

use vstd::prelude::*;

use crate::block::{block_wf, Block, BlockV};
use crate::bytes::u64_le_bytes;
use crate::script_lang::{ScriptPubKey, ScriptSig, ScriptToken, SigV, StackValues, SvV, TokV};
use crate::transaction::{
    in_wf, out_wf, script_wf, sig_v_wf, sv_wf, tok_wf, tx_wf, InV, OutV, Transaction, TXInput,
    TXOutput, TxV,
};

verus! {

// ----- integers -----

/// A `u32` as four little-endian bytes.
pub open spec fn u32_le_bytes(v: u32) -> Seq<u8> {
    seq![
        (v & 0xff) as u8,
        ((v >> 8) & 0xff) as u8,
        ((v >> 16) & 0xff) as u8,
        ((v >> 24) & 0xff) as u8,
    ]
}

/// The `u64` eight little-endian bytes spell.
#[verifier::opaque]
pub open spec fn u64_of_le(b: Seq<u8>) -> u64
    recommends
        b.len() == 8,
{
    ((b[0] as u64) | ((b[1] as u64) << 8) | ((b[2] as u64) << 16) | ((b[3] as u64) << 24) | (
    (b[4] as u64) << 32) | ((b[5] as u64) << 40) | ((b[6] as u64) << 48) | ((b[7] as u64) << 56))
}

/// The `u32` four little-endian bytes spell.
#[verifier::opaque]
pub open spec fn u32_of_le(b: Seq<u8>) -> u32
    recommends
        b.len() == 4,
{
    ((b[0] as u32) | ((b[1] as u32) << 8) | ((b[2] as u32) << 16) | ((b[3] as u32) << 24))
}

pub open spec fn dec_u64(s: Seq<u8>) -> Option<(u64, int)> {
    if s.len() >= 8 {
        Some((u64_of_le(s.take(8)), 8int))
    } else {
        None
    }
}

pub open spec fn dec_u32(s: Seq<u8>) -> Option<(u32, int)> {
    if s.len() >= 4 {
        Some((u32_of_le(s.take(4)), 4int))
    } else {
        None
    }
}

pub open spec fn dec_bytes(s: Seq<u8>, n: int) -> Option<(Seq<u8>, int)>
    recommends
        n >= 0,
{
    if 0 <= n <= s.len() {
        Some((s.take(n), n))
    } else {
        None
    }
}

/// Reading eight little-endian bytes gives back the integer.
pub proof fn lemma_u64_le_round(v: u64)
    ensures
        u64_of_le(u64_le_bytes(v)) == v,
{
    let b0 = (v & 0xff) as u8;
    let b1 = ((v >> 8) & 0xff) as u8;
    let b2 = ((v >> 16) & 0xff) as u8;
    let b3 = ((v >> 24) & 0xff) as u8;
    let b4 = ((v >> 32) & 0xff) as u8;
    let b5 = ((v >> 40) & 0xff) as u8;
    let b6 = ((v >> 48) & 0xff) as u8;
    let b7 = ((v >> 56) & 0xff) as u8;
    reveal(u64_of_le);
    assert(((b0 as u64) | ((b1 as u64) << 8) | ((b2 as u64) << 16) | ((b3 as u64) << 24) | (
    (b4 as u64) << 32) | ((b5 as u64) << 40) | ((b6 as u64) << 48) | ((b7 as u64) << 56)) == v)
        by (bit_vector)
        requires
            b0 == (v & 0xff) as u8,
            b1 == ((v >> 8) & 0xff) as u8,
            b2 == ((v >> 16) & 0xff) as u8,
            b3 == ((v >> 24) & 0xff) as u8,
            b4 == ((v >> 32) & 0xff) as u8,
            b5 == ((v >> 40) & 0xff) as u8,
            b6 == ((v >> 48) & 0xff) as u8,
            b7 == ((v >> 56) & 0xff) as u8,
    ;
}

/// Reading four little-endian bytes gives back the integer.
pub proof fn lemma_u32_le_round(v: u32)
    ensures
        u32_of_le(u32_le_bytes(v)) == v,
{
    let b0 = (v & 0xff) as u8;
    let b1 = ((v >> 8) & 0xff) as u8;
    let b2 = ((v >> 16) & 0xff) as u8;
    let b3 = ((v >> 24) & 0xff) as u8;
    reveal(u32_of_le);
    assert(((b0 as u32) | ((b1 as u32) << 8) | ((b2 as u32) << 16) | ((b3 as u32) << 24)) == v)
        by (bit_vector)
        requires
            b0 == (v & 0xff) as u8,
            b1 == ((v >> 8) & 0xff) as u8,
            b2 == ((v >> 16) & 0xff) as u8,
            b3 == ((v >> 24) & 0xff) as u8,
    ;
}

/// A signed index survives the trip through its unsigned bytes.
pub proof fn lemma_i64_cast_round(v: i64)
    ensures
        (v as u64) as i64 == v,
{
    assert((v as u64) as i64 == v) by (bit_vector);
}

pub proof fn lemma_dec_u64(v: u64, rest: Seq<u8>)
    ensures
        dec_u64(u64_le_bytes(v) + rest) == Some((v, 8int)),
{
    let s = u64_le_bytes(v) + rest;
    assert(s.take(8) =~= u64_le_bytes(v));
    lemma_u64_le_round(v);
}

pub proof fn lemma_dec_u32(v: u32, rest: Seq<u8>)
    ensures
        dec_u32(u32_le_bytes(v) + rest) == Some((v, 4int)),
{
    let s = u32_le_bytes(v) + rest;
    assert(s.take(4) =~= u32_le_bytes(v));
    lemma_u32_le_round(v);
}

pub proof fn lemma_dec_bytes(b: Seq<u8>, rest: Seq<u8>)
    ensures
        dec_bytes(b + rest, b.len() as int) == Some((b, b.len() as int)),
{
    assert((b + rest).take(b.len() as int) =~= b);
}

// ----- stack values and tokens -----

pub open spec fn enc_sv(v: SvV) -> Seq<u8> {
    match v {
        SvV::Value(x) => seq![0u8] + u32_le_bytes(x),
        SvV::Signature(b) => seq![1u8] + b,
        SvV::PubKeyHash(b) => seq![2u8] + b,
        SvV::PubKey(b) => seq![3u8] + b,
    }
}

pub open spec fn dec_sv(s: Seq<u8>) -> Option<(SvV, int)> {
    if s.len() < 1 {
        None
    } else {
        let rest = s.skip(1);
        if s[0] == 0 {
            match dec_u32(rest) {
                Some((x, n)) => Some((SvV::Value(x), 1 + n)),
                None => None,
            }
        } else if s[0] == 1 {
            match dec_bytes(rest, 64) {
                Some((b, n)) => Some((SvV::Signature(b), 1 + n)),
                None => None,
            }
        } else if s[0] == 2 {
            match dec_bytes(rest, 20) {
                Some((b, n)) => Some((SvV::PubKeyHash(b), 1 + n)),
                None => None,
            }
        } else if s[0] == 3 {
            match dec_bytes(rest, 33) {
                Some((b, n)) => Some((SvV::PubKey(b), 1 + n)),
                None => None,
            }
        } else {
            None
        }
    }
}

pub proof fn lemma_dec_sv(v: SvV, rest: Seq<u8>)
    requires
        sv_wf(v),
    ensures
        dec_sv(enc_sv(v) + rest) == Some((v, enc_sv(v).len() as int)),
{
    let s = enc_sv(v) + rest;
    match v {
        SvV::Value(x) => {
            assert(s.skip(1) =~= u32_le_bytes(x) + rest);
            lemma_dec_u32(x, rest);
        },
        SvV::Signature(b) => {
            assert(s.skip(1) =~= b + rest);
            lemma_dec_bytes(b, rest);
        },
        SvV::PubKeyHash(b) => {
            assert(s.skip(1) =~= b + rest);
            lemma_dec_bytes(b, rest);
        },
        SvV::PubKey(b) => {
            assert(s.skip(1) =~= b + rest);
            lemma_dec_bytes(b, rest);
        },
    }
}

/// Decoded stack values are well formed.
pub proof fn lemma_dec_sv_wf(s: Seq<u8>)
    ensures
        dec_sv(s) matches Some((v, n)) ==> sv_wf(v) && 0 < n <= s.len(),
{
}

pub open spec fn enc_tok(t: TokV) -> Seq<u8> {
    match t {
        TokV::OpAdd => seq![0u8],
        TokV::OpEqual => seq![1u8],
        TokV::OpEqualVerify => seq![2u8],
        TokV::OpCheckSig => seq![3u8],
        TokV::OpHash160 => seq![4u8],
        TokV::OpDup => seq![5u8],
        TokV::Value(v) => seq![6u8] + enc_sv(v),
    }
}

pub open spec fn dec_tok(s: Seq<u8>) -> Option<(TokV, int)> {
    if s.len() < 1 {
        None
    } else if s[0] == 0 {
        Some((TokV::OpAdd, 1int))
    } else if s[0] == 1 {
        Some((TokV::OpEqual, 1int))
    } else if s[0] == 2 {
        Some((TokV::OpEqualVerify, 1int))
    } else if s[0] == 3 {
        Some((TokV::OpCheckSig, 1int))
    } else if s[0] == 4 {
        Some((TokV::OpHash160, 1int))
    } else if s[0] == 5 {
        Some((TokV::OpDup, 1int))
    } else if s[0] == 6 {
        match dec_sv(s.skip(1)) {
            Some((v, n)) => Some((TokV::Value(v), 1 + n)),
            None => None,
        }
    } else {
        None
    }
}

pub proof fn lemma_dec_tok(t: TokV, rest: Seq<u8>)
    requires
        tok_wf(t),
    ensures
        dec_tok(enc_tok(t) + rest) == Some((t, enc_tok(t).len() as int)),
{
    let s = enc_tok(t) + rest;
    match t {
        TokV::Value(v) => {
            assert(s.skip(1) =~= enc_sv(v) + rest);
            lemma_dec_sv(v, rest);
        },
        _ => {},
    }
}

pub proof fn lemma_dec_tok_wf(s: Seq<u8>)
    ensures
        dec_tok(s) matches Some((t, n)) ==> tok_wf(t) && 0 < n <= s.len(),
{
    if s.len() >= 1 && s[0] == 6 {
        lemma_dec_sv_wf(s.skip(1));
    }
}

// ----- token lists -----

pub open spec fn cat_toks(ts: Seq<TokV>) -> Seq<u8>
    decreases ts.len(),
{
    if ts.len() == 0 {
        Seq::empty()
    } else {
        enc_tok(ts.first()) + cat_toks(ts.drop_first())
    }
}

/// A count-prefixed token list.
pub open spec fn enc_toks(ts: Seq<TokV>) -> Seq<u8> {
    u64_le_bytes(ts.len() as u64) + cat_toks(ts)
}

pub open spec fn dec_toks_n(s: Seq<u8>, n: int) -> Option<(Seq<TokV>, int)>
    decreases n,
{
    if n <= 0 {
        Some((Seq::empty(), 0int))
    } else {
        match dec_tok(s) {
            Some((t, c)) => match dec_toks_n(s.skip(c), n - 1) {
                Some((ts, m)) => Some((seq![t] + ts, c + m)),
                None => None,
            },
            None => None,
        }
    }
}

pub open spec fn dec_toks(s: Seq<u8>) -> Option<(Seq<TokV>, int)> {
    match dec_u64(s) {
        Some((cnt, _)) => match dec_toks_n(s.skip(8), cnt as int) {
            Some((ts, m)) => Some((ts, 8 + m)),
            None => None,
        },
        None => None,
    }
}

pub proof fn lemma_dec_cat_toks(ts: Seq<TokV>, rest: Seq<u8>)
    requires
        script_wf(ts),
    ensures
        dec_toks_n(cat_toks(ts) + rest, ts.len() as int) == Some((ts, cat_toks(ts).len() as int)),
    decreases ts.len(),
{
    if ts.len() == 0 {
        assert(cat_toks(ts) + rest =~= rest);
        assert(Seq::<TokV>::empty() =~= ts);
    } else {
        let t = ts.first();
        let tl = ts.drop_first();
        assert(tok_wf(t)) by {
            assert(ts[0] == t);
        }
        let s = cat_toks(ts) + rest;
        assert(s =~= enc_tok(t) + (cat_toks(tl) + rest));
        lemma_dec_tok(t, cat_toks(tl) + rest);
        let c = enc_tok(t).len() as int;
        assert(s.skip(c) =~= cat_toks(tl) + rest);
        assert(script_wf(tl)) by {
            assert(forall|i: int| 0 <= i < tl.len() ==> tl[i] == ts[i + 1]);
        }
        lemma_dec_cat_toks(tl, rest);
        assert(seq![t] + tl =~= ts);
    }
}

pub proof fn lemma_dec_toks(ts: Seq<TokV>, rest: Seq<u8>)
    requires
        script_wf(ts),
        ts.len() <= u64::MAX,
    ensures
        dec_toks(enc_toks(ts) + rest) == Some((ts, enc_toks(ts).len() as int)),
{
    let s = enc_toks(ts) + rest;
    assert(s =~= u64_le_bytes(ts.len() as u64) + (cat_toks(ts) + rest));
    lemma_dec_u64(ts.len() as u64, cat_toks(ts) + rest);
    assert(s.skip(8) =~= cat_toks(ts) + rest);
    lemma_dec_cat_toks(ts, rest);
}

pub proof fn lemma_dec_toks_n_wf(s: Seq<u8>, n: int)
    ensures
        dec_toks_n(s, n) matches Some((ts, m)) ==> script_wf(ts) && 0 <= m <= s.len() && ts.len()
            == if n >= 0 { n } else { 0 },
    decreases n,
{
    if n > 0 {
        lemma_dec_tok_wf(s);
        match dec_tok(s) {
            Some((t, c)) => {
                lemma_dec_toks_n_wf(s.skip(c), n - 1);
            },
            None => {},
        }
    }
}

// ----- script-sig, inputs, outputs -----

pub open spec fn enc_sig(g: SigV) -> Seq<u8> {
    g.signature + g.pub_key
}

pub open spec fn dec_sig(s: Seq<u8>) -> Option<(SigV, int)> {
    if s.len() >= 97 {
        Some((SigV { signature: s.take(64), pub_key: s.skip(64).take(33) }, 97int))
    } else {
        None
    }
}

pub proof fn lemma_dec_sig(g: SigV, rest: Seq<u8>)
    requires
        sig_v_wf(g),
    ensures
        dec_sig(enc_sig(g) + rest) == Some((g, 97int)),
{
    let s = enc_sig(g) + rest;
    assert(s.take(64) =~= g.signature);
    assert(s.skip(64).take(33) =~= g.pub_key);
    assert(SigV { signature: s.take(64), pub_key: s.skip(64).take(33) } == g);
}

pub open spec fn enc_in(v: InV) -> Seq<u8> {
    v.tx_id + u64_le_bytes(v.vout as u64) + enc_sig(v.script_sig)
}

pub open spec fn dec_in(s: Seq<u8>) -> Option<(InV, int)> {
    if s.len() < 32 {
        None
    } else {
        match dec_u64(s.skip(32)) {
            Some((x, _)) => match dec_sig(s.skip(40)) {
                Some((g, _)) => Some(
                    (InV { tx_id: s.take(32), vout: x as i64, script_sig: g }, 137int),
                ),
                None => None,
            },
            None => None,
        }
    }
}

pub proof fn lemma_dec_in(v: InV, rest: Seq<u8>)
    requires
        in_wf(v),
    ensures
        dec_in(enc_in(v) + rest) == Some((v, 137int)),
{
    let s = enc_in(v) + rest;
    assert(s.take(32) =~= v.tx_id);
    assert(s.skip(32) =~= u64_le_bytes(v.vout as u64) + (enc_sig(v.script_sig) + rest));
    lemma_dec_u64(v.vout as u64, enc_sig(v.script_sig) + rest);
    lemma_i64_cast_round(v.vout);
    assert(s.skip(40) =~= enc_sig(v.script_sig) + rest);
    lemma_dec_sig(v.script_sig, rest);
    assert(InV { tx_id: s.take(32), vout: (v.vout as u64) as i64, script_sig: v.script_sig }
        == v);
}

pub proof fn lemma_dec_in_wf(s: Seq<u8>)
    ensures
        dec_in(s) matches Some((v, n)) ==> in_wf(v) && 0 < n <= s.len(),
{
}

pub open spec fn enc_out(o: OutV) -> Seq<u8> {
    u64_le_bytes(o.value) + enc_toks(o.script)
}

pub open spec fn dec_out(s: Seq<u8>) -> Option<(OutV, int)> {
    match dec_u64(s) {
        Some((v, _)) => match dec_toks(s.skip(8)) {
            Some((ts, m)) => Some((OutV { value: v, script: ts }, 8 + m)),
            None => None,
        },
        None => None,
    }
}

pub proof fn lemma_dec_out(o: OutV, rest: Seq<u8>)
    requires
        out_wf(o),
        o.script.len() <= u64::MAX,
    ensures
        dec_out(enc_out(o) + rest) == Some((o, enc_out(o).len() as int)),
{
    let s = enc_out(o) + rest;
    assert(s =~= u64_le_bytes(o.value) + (enc_toks(o.script) + rest));
    lemma_dec_u64(o.value, enc_toks(o.script) + rest);
    assert(s.skip(8) =~= enc_toks(o.script) + rest);
    lemma_dec_toks(o.script, rest);
    assert(OutV { value: o.value, script: o.script } == o);
}

pub proof fn lemma_dec_out_wf(s: Seq<u8>)
    ensures
        dec_out(s) matches Some((o, n)) ==> out_wf(o) && 0 < n <= s.len() && o.script.len()
            <= u64::MAX,
{
    match dec_u64(s) {
        Some((v, _)) => {
            match dec_u64(s.skip(8)) {
                Some((cnt, _)) => {
                    lemma_dec_toks_n_wf(s.skip(8).skip(8), cnt as int);
                    assert(s.skip(8).skip(8) =~= s.skip(16));
                },
                None => {},
            }
        },
        None => {},
    }
}

// ----- input and output lists -----

pub open spec fn cat_ins(vs: Seq<InV>) -> Seq<u8>
    decreases vs.len(),
{
    if vs.len() == 0 {
        Seq::empty()
    } else {
        enc_in(vs.first()) + cat_ins(vs.drop_first())
    }
}

pub open spec fn enc_ins(vs: Seq<InV>) -> Seq<u8> {
    u64_le_bytes(vs.len() as u64) + cat_ins(vs)
}

pub open spec fn dec_ins_n(s: Seq<u8>, n: int) -> Option<(Seq<InV>, int)>
    decreases n,
{
    if n <= 0 {
        Some((Seq::empty(), 0int))
    } else {
        match dec_in(s) {
            Some((v, c)) => match dec_ins_n(s.skip(c), n - 1) {
                Some((vs, m)) => Some((seq![v] + vs, c + m)),
                None => None,
            },
            None => None,
        }
    }
}

pub open spec fn dec_ins(s: Seq<u8>) -> Option<(Seq<InV>, int)> {
    match dec_u64(s) {
        Some((cnt, _)) => match dec_ins_n(s.skip(8), cnt as int) {
            Some((vs, m)) => Some((vs, 8 + m)),
            None => None,
        },
        None => None,
    }
}

pub open spec fn ins_wf(vs: Seq<InV>) -> bool {
    forall|i: int| 0 <= i < vs.len() ==> in_wf(#[trigger] vs[i])
}

pub proof fn lemma_dec_cat_ins(vs: Seq<InV>, rest: Seq<u8>)
    requires
        ins_wf(vs),
    ensures
        dec_ins_n(cat_ins(vs) + rest, vs.len() as int) == Some((vs, cat_ins(vs).len() as int)),
    decreases vs.len(),
{
    if vs.len() == 0 {
        assert(cat_ins(vs) + rest =~= rest);
        assert(Seq::<InV>::empty() =~= vs);
    } else {
        let v = vs.first();
        let tl = vs.drop_first();
        assert(in_wf(v)) by {
            assert(vs[0] == v);
        }
        let s = cat_ins(vs) + rest;
        assert(s =~= enc_in(v) + (cat_ins(tl) + rest));
        lemma_dec_in(v, cat_ins(tl) + rest);
        assert(enc_in(v).len() == 137) by {
            assert(enc_sig(v.script_sig).len() == 97);
        }
        assert(s.skip(137) =~= cat_ins(tl) + rest);
        assert(ins_wf(tl)) by {
            assert(forall|i: int| 0 <= i < tl.len() ==> tl[i] == vs[i + 1]);
        }
        lemma_dec_cat_ins(tl, rest);
        assert(seq![v] + tl =~= vs);
    }
}

pub proof fn lemma_dec_ins(vs: Seq<InV>, rest: Seq<u8>)
    requires
        ins_wf(vs),
        vs.len() <= u64::MAX,
    ensures
        dec_ins(enc_ins(vs) + rest) == Some((vs, enc_ins(vs).len() as int)),
{
    let s = enc_ins(vs) + rest;
    assert(s =~= u64_le_bytes(vs.len() as u64) + (cat_ins(vs) + rest));
    lemma_dec_u64(vs.len() as u64, cat_ins(vs) + rest);
    assert(s.skip(8) =~= cat_ins(vs) + rest);
    lemma_dec_cat_ins(vs, rest);
}

pub proof fn lemma_dec_ins_n_wf(s: Seq<u8>, n: int)
    ensures
        dec_ins_n(s, n) matches Some((vs, m)) ==> ins_wf(vs) && 0 <= m <= s.len() && vs.len()
            == if n >= 0 {
            n
        } else {
            0
        },
    decreases n,
{
    if n > 0 {
        lemma_dec_in_wf(s);
        match dec_in(s) {
            Some((v, c)) => {
                lemma_dec_ins_n_wf(s.skip(c), n - 1);
            },
            None => {},
        }
    }
}

pub open spec fn cat_outs(os: Seq<OutV>) -> Seq<u8>
    decreases os.len(),
{
    if os.len() == 0 {
        Seq::empty()
    } else {
        enc_out(os.first()) + cat_outs(os.drop_first())
    }
}

pub open spec fn enc_outs(os: Seq<OutV>) -> Seq<u8> {
    u64_le_bytes(os.len() as u64) + cat_outs(os)
}

pub open spec fn dec_outs_n(s: Seq<u8>, n: int) -> Option<(Seq<OutV>, int)>
    decreases n,
{
    if n <= 0 {
        Some((Seq::empty(), 0int))
    } else {
        match dec_out(s) {
            Some((o, c)) => match dec_outs_n(s.skip(c), n - 1) {
                Some((os, m)) => Some((seq![o] + os, c + m)),
                None => None,
            },
            None => None,
        }
    }
}

pub open spec fn dec_outs(s: Seq<u8>) -> Option<(Seq<OutV>, int)> {
    match dec_u64(s) {
        Some((cnt, _)) => match dec_outs_n(s.skip(8), cnt as int) {
            Some((os, m)) => Some((os, 8 + m)),
            None => None,
        },
        None => None,
    }
}

pub open spec fn outs_wf(os: Seq<OutV>) -> bool {
    forall|i: int| 0 <= i < os.len() ==> out_wf(#[trigger] os[i])
}

/// Every script in the list fits a count prefix.
pub open spec fn outs_bounded(os: Seq<OutV>) -> bool {
    forall|i: int| 0 <= i < os.len() ==> (#[trigger] os[i]).script.len() <= u64::MAX
}

pub proof fn lemma_dec_cat_outs(os: Seq<OutV>, rest: Seq<u8>)
    requires
        outs_wf(os),
        outs_bounded(os),
    ensures
        dec_outs_n(cat_outs(os) + rest, os.len() as int) == Some((os, cat_outs(os).len() as int)),
    decreases os.len(),
{
    if os.len() == 0 {
        assert(cat_outs(os) + rest =~= rest);
        assert(Seq::<OutV>::empty() =~= os);
    } else {
        let o = os.first();
        let tl = os.drop_first();
        assert(out_wf(o) && o.script.len() <= u64::MAX) by {
            assert(os[0] == o);
        }
        let s = cat_outs(os) + rest;
        assert(s =~= enc_out(o) + (cat_outs(tl) + rest));
        lemma_dec_out(o, cat_outs(tl) + rest);
        let c = enc_out(o).len() as int;
        assert(s.skip(c) =~= cat_outs(tl) + rest);
        assert(outs_wf(tl) && outs_bounded(tl)) by {
            assert(forall|i: int| 0 <= i < tl.len() ==> tl[i] == os[i + 1]);
        }
        lemma_dec_cat_outs(tl, rest);
        assert(seq![o] + tl =~= os);
    }
}

pub proof fn lemma_dec_outs(os: Seq<OutV>, rest: Seq<u8>)
    requires
        outs_wf(os),
        outs_bounded(os),
        os.len() <= u64::MAX,
    ensures
        dec_outs(enc_outs(os) + rest) == Some((os, enc_outs(os).len() as int)),
{
    let s = enc_outs(os) + rest;
    assert(s =~= u64_le_bytes(os.len() as u64) + (cat_outs(os) + rest));
    lemma_dec_u64(os.len() as u64, cat_outs(os) + rest);
    assert(s.skip(8) =~= cat_outs(os) + rest);
    lemma_dec_cat_outs(os, rest);
}

pub proof fn lemma_dec_outs_n_wf(s: Seq<u8>, n: int)
    ensures
        dec_outs_n(s, n) matches Some((os, m)) ==> outs_wf(os) && outs_bounded(os) && 0 <= m
            <= s.len() && os.len() == if n >= 0 {
            n
        } else {
            0
        },
    decreases n,
{
    if n > 0 {
        lemma_dec_out_wf(s);
        match dec_out(s) {
            Some((o, c)) => {
                lemma_dec_outs_n_wf(s.skip(c), n - 1);
            },
            None => {},
        }
    }
}

// ----- transactions -----

pub open spec fn enc_tx(t: TxV) -> Seq<u8> {
    t.id + u64_le_bytes(t.memo.len() as u64) + t.memo + enc_ins(t.vin) + enc_outs(t.vout)
}

pub open spec fn dec_tx(s: Seq<u8>) -> Option<(TxV, int)> {
    if s.len() < 32 {
        None
    } else {
        match dec_u64(s.skip(32)) {
            Some((mlen, _)) => match dec_bytes(s.skip(40), mlen as int) {
                Some((memo, _)) => match dec_ins(s.skip(40 + mlen as int)) {
                    Some((vin, m1)) => match dec_outs(s.skip(40 + mlen as int + m1)) {
                        Some((vout, m2)) => Some(
                            (
                                TxV { id: s.take(32), memo, vin, vout },
                                40 + mlen as int + m1 + m2,
                            ),
                        ),
                        None => None,
                    },
                    None => None,
                },
                None => None,
            },
            None => None,
        }
    }
}

/// A transaction whose memo and list lengths fit their count prefixes.
pub open spec fn tx_bounded(t: TxV) -> bool {
    &&& t.memo.len() <= u64::MAX
    &&& t.vin.len() <= u64::MAX
    &&& t.vout.len() <= u64::MAX
    &&& outs_bounded(t.vout)
}

#[verifier::rlimit(100)]
#[verifier::spinoff_prover]
pub proof fn lemma_dec_tx(t: TxV, rest: Seq<u8>)
    requires
        tx_wf(t),
        tx_bounded(t),
    ensures
        dec_tx(enc_tx(t) + rest) == Some((t, enc_tx(t).len() as int)),
{
    let s = enc_tx(t) + rest;
    let ml = t.memo.len() as int;
    let rest1 = enc_outs(t.vout) + rest;
    let m1 = enc_ins(t.vin).len() as int;
    let m2 = enc_outs(t.vout).len() as int;
    assert(s.take(32) =~= t.id);
    assert(s.skip(32) =~= u64_le_bytes(t.memo.len() as u64) + (t.memo + (enc_ins(t.vin)
        + rest1)));
    assert(dec_u64(s.skip(32)) == Some((t.memo.len() as u64, 8int))) by {
        lemma_dec_u64(t.memo.len() as u64, t.memo + (enc_ins(t.vin) + rest1));
    }
    assert(s.skip(40) =~= t.memo + (enc_ins(t.vin) + rest1));
    assert(dec_bytes(s.skip(40), ml) == Some((t.memo, ml))) by {
        lemma_dec_bytes(t.memo, enc_ins(t.vin) + rest1);
    }
    assert(s.skip(40 + ml) =~= enc_ins(t.vin) + rest1);
    assert(dec_ins(s.skip(40 + ml)) == Some((t.vin, m1))) by {
        lemma_dec_ins(t.vin, rest1);
    }
    assert(s.skip(40 + ml + m1) =~= enc_outs(t.vout) + rest);
    assert(dec_outs(s.skip(40 + ml + m1)) == Some((t.vout, m2))) by {
        lemma_dec_outs(t.vout, rest);
    }
    assert(s.len() >= 32);
    assert(dec_tx(s) == Some(
        (TxV { id: s.take(32), memo: t.memo, vin: t.vin, vout: t.vout }, 40 + ml + m1 + m2),
    ));
    assert(TxV { id: s.take(32), memo: t.memo, vin: t.vin, vout: t.vout } == t);
    assert(enc_tx(t).len() == 40 + ml + m1 + m2);
}

pub proof fn lemma_dec_tx_wf(s: Seq<u8>)
    ensures
        dec_tx(s) matches Some((t, n)) ==> tx_wf(t) && tx_bounded(t) && 0 < n <= s.len(),
{
    if s.len() >= 32 {
        match dec_u64(s.skip(32)) {
            Some((mlen, _)) => {
                let ml = mlen as int;
                match dec_bytes(s.skip(40), ml) {
                    Some((memo, _)) => {
                        match dec_u64(s.skip(40 + ml)) {
                            Some((cnt, _)) => {
                                lemma_dec_ins_n_wf(s.skip(40 + ml).skip(8), cnt as int);
                                assert(s.skip(40 + ml).skip(8) =~= s.skip(48 + ml));
                                match dec_ins(s.skip(40 + ml)) {
                                    Some((vin, m1)) => {
                                        match dec_u64(s.skip(40 + ml + m1)) {
                                            Some((cnt2, _)) => {
                                                lemma_dec_outs_n_wf(
                                                    s.skip(40 + ml + m1).skip(8),
                                                    cnt2 as int,
                                                );
                                            },
                                            None => {},
                                        }
                                    },
                                    None => {},
                                }
                            },
                            None => {},
                        }
                    },
                    None => {},
                }
            },
            None => {},
        }
    }
}

pub open spec fn cat_txs(ts: Seq<TxV>) -> Seq<u8>
    decreases ts.len(),
{
    if ts.len() == 0 {
        Seq::empty()
    } else {
        enc_tx(ts.first()) + cat_txs(ts.drop_first())
    }
}

pub open spec fn enc_txs(ts: Seq<TxV>) -> Seq<u8> {
    u64_le_bytes(ts.len() as u64) + cat_txs(ts)
}

pub open spec fn dec_txs_n(s: Seq<u8>, n: int) -> Option<(Seq<TxV>, int)>
    decreases n,
{
    if n <= 0 {
        Some((Seq::empty(), 0int))
    } else {
        match dec_tx(s) {
            Some((t, c)) => match dec_txs_n(s.skip(c), n - 1) {
                Some((ts, m)) => Some((seq![t] + ts, c + m)),
                None => None,
            },
            None => None,
        }
    }
}

pub open spec fn dec_txs(s: Seq<u8>) -> Option<(Seq<TxV>, int)> {
    match dec_u64(s) {
        Some((cnt, _)) => match dec_txs_n(s.skip(8), cnt as int) {
            Some((ts, m)) => Some((ts, 8 + m)),
            None => None,
        },
        None => None,
    }
}

pub open spec fn txs_wf(ts: Seq<TxV>) -> bool {
    forall|i: int| 0 <= i < ts.len() ==> tx_wf(#[trigger] ts[i])
}

pub open spec fn txs_bounded(ts: Seq<TxV>) -> bool {
    forall|i: int| 0 <= i < ts.len() ==> tx_bounded(#[trigger] ts[i])
}

#[verifier::rlimit(100)]
#[verifier::spinoff_prover]
pub proof fn lemma_dec_cat_txs(ts: Seq<TxV>, rest: Seq<u8>)
    requires
        txs_wf(ts),
        txs_bounded(ts),
    ensures
        dec_txs_n(cat_txs(ts) + rest, ts.len() as int) == Some((ts, cat_txs(ts).len() as int)),
    decreases ts.len(),
{
    if ts.len() == 0 {
        assert(cat_txs(ts) + rest =~= rest);
        assert(Seq::<TxV>::empty() =~= ts);
    } else {
        let t = ts.first();
        let tl = ts.drop_first();
        assert(tx_wf(t) && tx_bounded(t)) by {
            assert(ts[0] == t);
        }
        let s = cat_txs(ts) + rest;
        let c = enc_tx(t).len() as int;
        assert(s =~= enc_tx(t) + (cat_txs(tl) + rest));
        assert(dec_tx(s) == Some((t, c))) by {
            lemma_dec_tx(t, cat_txs(tl) + rest);
        }
        assert(s.skip(c) =~= cat_txs(tl) + rest);
        assert(txs_wf(tl) && txs_bounded(tl)) by {
            assert(forall|i: int| 0 <= i < tl.len() ==> tl[i] == ts[i + 1]);
        }
        lemma_dec_cat_txs(tl, rest);
        assert(seq![t] + tl =~= ts);
    }
}

pub proof fn lemma_dec_txs(ts: Seq<TxV>, rest: Seq<u8>)
    requires
        txs_wf(ts),
        txs_bounded(ts),
        ts.len() <= u64::MAX,
    ensures
        dec_txs(enc_txs(ts) + rest) == Some((ts, enc_txs(ts).len() as int)),
{
    let s = enc_txs(ts) + rest;
    assert(s =~= u64_le_bytes(ts.len() as u64) + (cat_txs(ts) + rest));
    lemma_dec_u64(ts.len() as u64, cat_txs(ts) + rest);
    assert(s.skip(8) =~= cat_txs(ts) + rest);
    lemma_dec_cat_txs(ts, rest);
}

pub proof fn lemma_dec_txs_n_wf(s: Seq<u8>, n: int)
    ensures
        dec_txs_n(s, n) matches Some((ts, m)) ==> txs_wf(ts) && txs_bounded(ts) && 0 <= m
            <= s.len() && ts.len() == if n >= 0 {
            n
        } else {
            0
        },
    decreases n,
{
    if n > 0 {
        lemma_dec_tx_wf(s);
        match dec_tx(s) {
            Some((t, c)) => {
                lemma_dec_txs_n_wf(s.skip(c), n - 1);
            },
            None => {},
        }
    }
}

// ----- blocks -----

pub open spec fn enc_block(b: BlockV) -> Seq<u8> {
    u64_le_bytes(b.timestamp) + enc_txs(b.transactions) + b.prev_block_hash + b.hash
        + u64_le_bytes(b.nonce)
}

pub open spec fn dec_block(s: Seq<u8>) -> Option<(BlockV, int)> {
    match dec_u64(s) {
        Some((ts, _)) => match dec_txs(s.skip(8)) {
            Some((txs, m)) => {
                let tail = s.skip(8 + m);
                if tail.len() >= 72 {
                    Some(
                        (
                            BlockV {
                                timestamp: ts,
                                transactions: txs,
                                prev_block_hash: tail.take(32),
                                hash: tail.skip(32).take(32),
                                nonce: u64_of_le(tail.skip(64).take(8)),
                            },
                            8 + m + 72,
                        ),
                    )
                } else {
                    None
                }
            },
            None => None,
        },
        None => None,
    }
}

/// Decoding stops at the block's end: the whole string must be one block.
#[verifier::opaque]
pub open spec fn dec_block_full(s: Seq<u8>) -> Option<BlockV> {
    match dec_block(s) {
        Some((b, n)) => if n == s.len() {
            Some(b)
        } else {
            None
        },
        None => None,
    }
}

pub open spec fn block_bounded(b: BlockV) -> bool {
    b.transactions.len() <= u64::MAX && txs_bounded(b.transactions)
}

#[verifier::rlimit(100)]
#[verifier::spinoff_prover]
pub proof fn lemma_dec_block(b: BlockV, rest: Seq<u8>)
    requires
        block_wf(b),
        block_bounded(b),
    ensures
        dec_block(enc_block(b) + rest) == Some((b, enc_block(b).len() as int)),
{
    let s = enc_block(b) + rest;
    let tail72 = b.prev_block_hash + b.hash + u64_le_bytes(b.nonce);
    let m = enc_txs(b.transactions).len() as int;
    assert(s =~= u64_le_bytes(b.timestamp) + (enc_txs(b.transactions) + (tail72 + rest)));
    assert(dec_u64(s) == Some((b.timestamp, 8int))) by {
        lemma_dec_u64(b.timestamp, enc_txs(b.transactions) + (tail72 + rest));
        assert(u64_le_bytes(b.timestamp) + (enc_txs(b.transactions) + (tail72 + rest)) =~= s);
    }
    assert(s.skip(8) =~= enc_txs(b.transactions) + (tail72 + rest));
    assert(dec_txs(s.skip(8)) == Some((b.transactions, m))) by {
        lemma_dec_txs(b.transactions, tail72 + rest);
    }
    assert(s.skip(8 + m) =~= tail72 + rest);
    let tail = s.skip(8 + m);
    assert(tail.take(32) =~= b.prev_block_hash);
    assert(tail.skip(32).take(32) =~= b.hash);
    assert(tail.skip(64).take(8) =~= u64_le_bytes(b.nonce));
    assert(u64_of_le(tail.skip(64).take(8)) == b.nonce) by {
        lemma_u64_le_round(b.nonce);
    }
    assert(tail.len() >= 72);
    assert(BlockV {
        timestamp: b.timestamp,
        transactions: b.transactions,
        prev_block_hash: tail.take(32),
        hash: tail.skip(32).take(32),
        nonce: u64_of_le(tail.skip(64).take(8)),
    } == b);
    assert(enc_block(b).len() == 8 + m + 72);
}

/// A transaction held in vectors always fits the codec's count prefixes.
pub proof fn lemma_tx_bounded(t: &Transaction)
    ensures
        tx_bounded(t@),
{
    vstd::std_specs::vec::axiom_spec_len(&t.memo);
    vstd::std_specs::vec::axiom_spec_len(&t.vin);
    vstd::std_specs::vec::axiom_spec_len(&t.vout);
    assert forall|i: int| 0 <= i < t@.vout.len() implies (#[trigger] t@.vout[i]).script.len()
        <= u64::MAX by {
        vstd::std_specs::vec::axiom_spec_len(&t.vout@[i].script_pub_key.script);
        assert(t@.vout[i].script == t.vout@[i].script_pub_key.script.deep_view());
    }
}

/// A block held in vectors always fits the codec's count prefixes.
pub proof fn lemma_block_bounded(b: &Block)
    ensures
        block_bounded(b@),
{
    vstd::std_specs::vec::axiom_spec_len(&b.transactions);
    assert forall|i: int| 0 <= i < b@.transactions.len() implies tx_bounded(
        #[trigger] b@.transactions[i],
    ) by {
        lemma_tx_bounded(&b.transactions@[i]);
    }
}

/// Round trip for whole blocks: decoding an encoding gives the block back.
pub proof fn lemma_block_round_trip(b: BlockV)
    requires
        block_wf(b),
        block_bounded(b),
    ensures
        dec_block_full(enc_block(b)) == Some(b),
{
    reveal(dec_block_full);
    lemma_dec_block(b, Seq::empty());
    assert(enc_block(b) + Seq::<u8>::empty() =~= enc_block(b));
}

/// Round trip for transactions.
pub proof fn lemma_tx_round_trip(t: TxV)
    requires
        tx_wf(t),
        tx_bounded(t),
    ensures
        dec_tx(enc_tx(t)) == Some((t, enc_tx(t).len() as int)),
{
    lemma_dec_tx(t, Seq::empty());
    assert(enc_tx(t) + Seq::<u8>::empty() =~= enc_tx(t));
}

pub proof fn lemma_dec_block_wf(s: Seq<u8>)
    ensures
        dec_block(s) matches Some((b, n)) ==> block_wf(b) && block_bounded(b) && 0 < n <= s.len(),
{
    match dec_u64(s) {
        Some((ts, _)) => {
            match dec_u64(s.skip(8)) {
                Some((cnt, _)) => {
                    lemma_dec_txs_n_wf(s.skip(8).skip(8), cnt as int);
                    assert(s.skip(8).skip(8) =~= s.skip(16));
                },
                None => {},
            }
        },
        None => {},
    }
}

// ----- appending one element to an encoded list -----

pub proof fn lemma_cat_toks_snoc(ts: Seq<TokV>, t: TokV)
    ensures
        cat_toks(ts.push(t)) == cat_toks(ts) + enc_tok(t),
    decreases ts.len(),
{
    if ts.len() == 0 {
        assert(ts.push(t).drop_first() =~= Seq::<TokV>::empty());
        assert(cat_toks(Seq::<TokV>::empty()) == Seq::<u8>::empty());
        assert(ts =~= Seq::<TokV>::empty());
        assert(cat_toks(ts.push(t)) =~= cat_toks(ts) + enc_tok(t));
    } else {
        assert(ts.push(t).drop_first() =~= ts.drop_first().push(t));
        lemma_cat_toks_snoc(ts.drop_first(), t);
        assert(cat_toks(ts.push(t)) =~= cat_toks(ts) + enc_tok(t));
    }
}

pub proof fn lemma_cat_ins_snoc(vs: Seq<InV>, v: InV)
    ensures
        cat_ins(vs.push(v)) == cat_ins(vs) + enc_in(v),
    decreases vs.len(),
{
    if vs.len() == 0 {
        assert(vs.push(v).drop_first() =~= Seq::<InV>::empty());
        assert(cat_ins(Seq::<InV>::empty()) == Seq::<u8>::empty());
        assert(vs =~= Seq::<InV>::empty());
        assert(cat_ins(vs.push(v)) =~= cat_ins(vs) + enc_in(v));
    } else {
        assert(vs.push(v).drop_first() =~= vs.drop_first().push(v));
        lemma_cat_ins_snoc(vs.drop_first(), v);
        assert(cat_ins(vs.push(v)) =~= cat_ins(vs) + enc_in(v));
    }
}

pub proof fn lemma_cat_outs_snoc(os: Seq<OutV>, o: OutV)
    ensures
        cat_outs(os.push(o)) == cat_outs(os) + enc_out(o),
    decreases os.len(),
{
    if os.len() == 0 {
        assert(os.push(o).drop_first() =~= Seq::<OutV>::empty());
        assert(cat_outs(Seq::<OutV>::empty()) == Seq::<u8>::empty());
        assert(os =~= Seq::<OutV>::empty());
        assert(cat_outs(os.push(o)) =~= cat_outs(os) + enc_out(o));
    } else {
        assert(os.push(o).drop_first() =~= os.drop_first().push(o));
        lemma_cat_outs_snoc(os.drop_first(), o);
        assert(cat_outs(os.push(o)) =~= cat_outs(os) + enc_out(o));
    }
}

pub proof fn lemma_cat_txs_snoc(ts: Seq<TxV>, t: TxV)
    ensures
        cat_txs(ts.push(t)) == cat_txs(ts) + enc_tx(t),
    decreases ts.len(),
{
    if ts.len() == 0 {
        assert(ts.push(t).drop_first() =~= Seq::<TxV>::empty());
        assert(cat_txs(Seq::<TxV>::empty()) == Seq::<u8>::empty());
        assert(ts =~= Seq::<TxV>::empty());
        assert(cat_txs(ts.push(t)) =~= cat_txs(ts) + enc_tx(t));
    } else {
        assert(ts.push(t).drop_first() =~= ts.drop_first().push(t));
        lemma_cat_txs_snoc(ts.drop_first(), t);
        assert(cat_txs(ts.push(t)) =~= cat_txs(ts) + enc_tx(t));
    }
}

// ----- executable encoding -----

/// Appends all of `b`.
pub fn push_bytes(out: &mut Vec<u8>, b: &Vec<u8>)
    ensures
        final(out)@ == old(out)@ + b@,
{
    let mut i: usize = 0;
    while i < b.len()
        invariant
            0 <= i <= b@.len(),
            out@ =~= old(out)@ + b@.take(i as int),
        decreases b@.len() - i,
    {
        out.push(b[i]);
        proof {
            assert(out@ =~= old(out)@ + b@.take(i + 1));
        }
        i = i + 1;
    }
    proof {
        assert(out@ =~= old(out)@ + b@);
    }
}

/// Appends a `u64` in little-endian order.
pub fn push_u64(out: &mut Vec<u8>, v: u64)
    ensures
        final(out)@ == old(out)@ + u64_le_bytes(v),
{
    let arr = crate::bytes::convert_u64_to_u8_array(v);
    out.push(arr[0]);
    out.push(arr[1]);
    out.push(arr[2]);
    out.push(arr[3]);
    out.push(arr[4]);
    out.push(arr[5]);
    out.push(arr[6]);
    out.push(arr[7]);
    proof {
        assert(out@ =~= old(out)@ + u64_le_bytes(v));
    }
}

/// Appends a `u32` in little-endian order.
pub fn push_u32(out: &mut Vec<u8>, v: u32)
    ensures
        final(out)@ == old(out)@ + u32_le_bytes(v),
{
    proof {
        assert(v as u8 == (v & 0xff) as u8) by (bit_vector);
        assert((v >> 8) as u8 == ((v >> 8) & 0xff) as u8) by (bit_vector);
        assert((v >> 16) as u8 == ((v >> 16) & 0xff) as u8) by (bit_vector);
        assert((v >> 24) as u8 == ((v >> 24) & 0xff) as u8) by (bit_vector);
    }
    out.push(v as u8);
    out.push((v >> 8) as u8);
    out.push((v >> 16) as u8);
    out.push((v >> 24) as u8);
    proof {
        assert(out@ =~= old(out)@ + u32_le_bytes(v));
    }
}

fn encode_sv(v: &StackValues, out: &mut Vec<u8>)
    ensures
        final(out)@ == old(out)@ + enc_sv(v@),
{
    match v {
        StackValues::Value(x) => {
            out.push(0);
            push_u32(out, *x);
        },
        StackValues::Signature(b) => {
            out.push(1);
            push_bytes(out, b);
        },
        StackValues::PubKeyHash(b) => {
            out.push(2);
            push_bytes(out, b);
        },
        StackValues::PubKey(b) => {
            out.push(3);
            push_bytes(out, b);
        },
    }
    proof {
        assert(out@ =~= old(out)@ + enc_sv(v@));
    }
}

fn encode_tok(t: &ScriptToken, out: &mut Vec<u8>)
    ensures
        final(out)@ == old(out)@ + enc_tok(t@),
{
    match t {
        ScriptToken::OpAdd => out.push(0),
        ScriptToken::OpEqual => out.push(1),
        ScriptToken::OpEqualVerify => out.push(2),
        ScriptToken::OpCheckSig => out.push(3),
        ScriptToken::OpHash160 => out.push(4),
        ScriptToken::OpDup => out.push(5),
        ScriptToken::Value(v) => {
            out.push(6);
            encode_sv(v, out);
        },
    }
    proof {
        assert(out@ =~= old(out)@ + enc_tok(t@));
    }
}

fn encode_script(ts: &Vec<ScriptToken>, out: &mut Vec<u8>)
    ensures
        final(out)@ == old(out)@ + enc_toks(ts.deep_view()),
{
    push_u64(out, ts.len() as u64);
    let ghost base = out@;
    let mut i: usize = 0;
    while i < ts.len()
        invariant
            0 <= i <= ts@.len(),
            out@ =~= base + cat_toks(ts.deep_view().take(i as int)),
        decreases ts@.len() - i,
    {
        encode_tok(&ts[i], out);
        proof {
            assert(ts.deep_view().take(i as int).push(ts@[i as int]@) =~= ts.deep_view().take(
                i + 1,
            ));
            lemma_cat_toks_snoc(ts.deep_view().take(i as int), ts@[i as int]@);
        }
        i = i + 1;
    }
    proof {
        assert(ts.deep_view().take(ts@.len() as int) =~= ts.deep_view());
        assert(out@ =~= old(out)@ + enc_toks(ts.deep_view()));
    }
}

fn encode_sig(g: &ScriptSig, out: &mut Vec<u8>)
    ensures
        final(out)@ == old(out)@ + enc_sig(g@),
{
    push_bytes(out, &g.signature);
    push_bytes(out, &g.pub_key);
    proof {
        assert(out@ =~= old(out)@ + enc_sig(g@));
    }
}

fn encode_in(v: &TXInput, out: &mut Vec<u8>)
    ensures
        final(out)@ == old(out)@ + enc_in(v@),
{
    push_bytes(out, &v.tx_id);
    push_u64(out, v.vout as u64);
    encode_sig(&v.script_sig, out);
    proof {
        assert(out@ =~= old(out)@ + enc_in(v@));
    }
}

fn encode_out(o: &TXOutput, out: &mut Vec<u8>)
    ensures
        final(out)@ == old(out)@ + enc_out(o@),
{
    push_u64(out, o.value);
    encode_script(&o.script_pub_key.script, out);
    proof {
        assert(out@ =~= old(out)@ + enc_out(o@));
    }
}

fn encode_ins(vs: &Vec<TXInput>, out: &mut Vec<u8>)
    ensures
        final(out)@ == old(out)@ + enc_ins(vs.deep_view()),
{
    push_u64(out, vs.len() as u64);
    let ghost base = out@;
    let mut i: usize = 0;
    while i < vs.len()
        invariant
            0 <= i <= vs@.len(),
            out@ =~= base + cat_ins(vs.deep_view().take(i as int)),
        decreases vs@.len() - i,
    {
        encode_in(&vs[i], out);
        proof {
            assert(vs.deep_view().take(i as int).push(vs@[i as int]@) =~= vs.deep_view().take(
                i + 1,
            ));
            lemma_cat_ins_snoc(vs.deep_view().take(i as int), vs@[i as int]@);
        }
        i = i + 1;
    }
    proof {
        assert(vs.deep_view().take(vs@.len() as int) =~= vs.deep_view());
        assert(out@ =~= old(out)@ + enc_ins(vs.deep_view()));
    }
}

fn encode_outs(os: &Vec<TXOutput>, out: &mut Vec<u8>)
    ensures
        final(out)@ == old(out)@ + enc_outs(os.deep_view()),
{
    push_u64(out, os.len() as u64);
    let ghost base = out@;
    let mut i: usize = 0;
    while i < os.len()
        invariant
            0 <= i <= os@.len(),
            out@ =~= base + cat_outs(os.deep_view().take(i as int)),
        decreases os@.len() - i,
    {
        encode_out(&os[i], out);
        proof {
            assert(os.deep_view().take(i as int).push(os@[i as int]@) =~= os.deep_view().take(
                i + 1,
            ));
            lemma_cat_outs_snoc(os.deep_view().take(i as int), os@[i as int]@);
        }
        i = i + 1;
    }
    proof {
        assert(os.deep_view().take(os@.len() as int) =~= os.deep_view());
        assert(out@ =~= old(out)@ + enc_outs(os.deep_view()));
    }
}

/// The canonical bytes of a transaction.
pub fn encode_tx(t: &Transaction) -> (r: Vec<u8>)
    ensures
        r@ == enc_tx(t@),
{
    let mut out: Vec<u8> = Vec::new();
    push_bytes(&mut out, &t.id);
    push_u64(&mut out, t.memo.len() as u64);
    push_bytes(&mut out, &t.memo);
    encode_ins(&t.vin, &mut out);
    encode_outs(&t.vout, &mut out);
    proof {
        assert(out@ =~= enc_tx(t@));
    }
    out
}

/// The canonical bytes of a block.
pub fn encode_block(b: &Block) -> (r: Vec<u8>)
    ensures
        r@ == enc_block(b@),
{
    let mut out: Vec<u8> = Vec::new();
    push_u64(&mut out, b.timestamp);
    push_u64(&mut out, b.transactions.len() as u64);
    let ghost base = out@;
    let mut i: usize = 0;
    while i < b.transactions.len()
        invariant
            0 <= i <= b.transactions@.len(),
            out@ =~= base + cat_txs(b.transactions.deep_view().take(i as int)),
        decreases b.transactions@.len() - i,
    {
        let enc = encode_tx(&b.transactions[i]);
        push_bytes(&mut out, &enc);
        proof {
            assert(b.transactions.deep_view().take(i as int).push(b.transactions@[i as int]@)
                =~= b.transactions.deep_view().take(i + 1));
            lemma_cat_txs_snoc(b.transactions.deep_view().take(i as int), b.transactions@[
                i as int]@);
        }
        i = i + 1;
    }
    proof {
        assert(b.transactions.deep_view().take(b.transactions@.len() as int)
            =~= b.transactions.deep_view());
    }
    push_bytes(&mut out, &b.prev_block_hash);
    push_bytes(&mut out, &b.hash);
    push_u64(&mut out, b.nonce);
    proof {
        assert(out@ =~= enc_block(b@));
    }
    out
}

} // verus!

verus! {

// ----- executable decoding -----

/// Reads a `u64` at `pos`, little-endian.
pub fn read_u64(s: &Vec<u8>, pos: usize) -> (r: Option<(u64, usize)>)
    requires
        pos <= s@.len(),
    ensures
        r matches Some((v, end)) ==> end == pos + 8 && end <= s@.len() && dec_u64(
            s@.skip(pos as int),
        ) == Some((v, 8int)),
        r is None ==> dec_u64(s@.skip(pos as int)) is None,
{
    if s.len() - pos < 8 {
        return None;
    }
    let v = (s[pos] as u64) | ((s[pos + 1] as u64) << 8u64) | ((s[pos + 2] as u64) << 16u64) | ((s[
        pos + 3] as u64) << 24u64) | ((s[pos + 4] as u64) << 32u64) | ((s[pos + 5] as u64)
        << 40u64) | ((s[pos + 6] as u64) << 48u64) | ((s[pos + 7] as u64) << 56u64);
    proof {
        reveal(u64_of_le);
        let b = s@.skip(pos as int).take(8);
        assert(b[0] == s@[pos as int]);
        assert(b[1] == s@[pos + 1]);
        assert(b[2] == s@[pos + 2]);
        assert(b[3] == s@[pos + 3]);
        assert(b[4] == s@[pos + 4]);
        assert(b[5] == s@[pos + 5]);
        assert(b[6] == s@[pos + 6]);
        assert(b[7] == s@[pos + 7]);
        assert(u64_of_le(b) == v);
    }
    Some((v, pos + 8))
}

/// Reads a `u32` at `pos`, little-endian.
pub fn read_u32(s: &Vec<u8>, pos: usize) -> (r: Option<(u32, usize)>)
    requires
        pos <= s@.len(),
    ensures
        r matches Some((v, end)) ==> end == pos + 4 && end <= s@.len() && dec_u32(
            s@.skip(pos as int),
        ) == Some((v, 4int)),
        r is None ==> dec_u32(s@.skip(pos as int)) is None,
{
    if s.len() - pos < 4 {
        return None;
    }
    let v = (s[pos] as u32) | ((s[pos + 1] as u32) << 8u32) | ((s[pos + 2] as u32) << 16u32) | ((s[
        pos + 3] as u32) << 24u32);
    proof {
        reveal(u32_of_le);
        let b = s@.skip(pos as int).take(4);
        assert(b[0] == s@[pos as int]);
        assert(b[1] == s@[pos + 1]);
        assert(b[2] == s@[pos + 2]);
        assert(b[3] == s@[pos + 3]);
        assert(u32_of_le(b) == v);
    }
    Some((v, pos + 4))
}

/// Copies `n` raw bytes at `pos`.
pub fn read_bytes(s: &Vec<u8>, pos: usize, n: usize) -> (r: Option<(Vec<u8>, usize)>)
    requires
        pos <= s@.len(),
    ensures
        r matches Some((b, end)) ==> end == pos + n && end <= s@.len() && dec_bytes(
            s@.skip(pos as int),
            n as int,
        ) == Some((b@, n as int)),
        r is None ==> dec_bytes(s@.skip(pos as int), n as int) is None,
{
    if s.len() - pos < n {
        return None;
    }
    let mut b: Vec<u8> = Vec::new();
    let mut i: usize = 0;
    while i < n
        invariant
            0 <= i <= n,
            pos + n <= s@.len(),
            s@.len() <= usize::MAX,
            b@ =~= s@.subrange(pos as int, pos + i),
        decreases n - i,
    {
        b.push(s[pos + i]);
        proof {
            assert(b@ =~= s@.subrange(pos as int, pos + i + 1));
        }
        i = i + 1;
    }
    proof {
        assert(b@ =~= s@.skip(pos as int).take(n as int));
    }
    Some((b, pos + n))
}

fn read_sv(s: &Vec<u8>, pos: usize) -> (r: Option<(StackValues, usize)>)
    requires
        pos <= s@.len(),
    ensures
        r matches Some((v, end)) ==> pos < end <= s@.len() && dec_sv(s@.skip(pos as int)) == Some(
            (v@, end - pos as int),
        ),
        r is None ==> dec_sv(s@.skip(pos as int)) is None,
{
    if pos >= s.len() {
        return None;
    }
    let tag = s[pos];
    proof {
        assert(s@.skip(pos as int)[0] == s@[pos as int]);
        assert(s@.skip(pos as int).skip(1) =~= s@.skip(pos + 1));
    }
    if tag == 0 {
        match read_u32(s, pos + 1) {
            Some((x, end)) => Some((StackValues::Value(x), end)),
            None => None,
        }
    } else if tag == 1 {
        match read_bytes(s, pos + 1, 64) {
            Some((b, end)) => Some((StackValues::Signature(b), end)),
            None => None,
        }
    } else if tag == 2 {
        match read_bytes(s, pos + 1, 20) {
            Some((b, end)) => Some((StackValues::PubKeyHash(b), end)),
            None => None,
        }
    } else if tag == 3 {
        match read_bytes(s, pos + 1, 33) {
            Some((b, end)) => Some((StackValues::PubKey(b), end)),
            None => None,
        }
    } else {
        None
    }
}

fn read_tok(s: &Vec<u8>, pos: usize) -> (r: Option<(ScriptToken, usize)>)
    requires
        pos <= s@.len(),
    ensures
        r matches Some((t, end)) ==> pos < end <= s@.len() && dec_tok(s@.skip(pos as int)) == Some(
            (t@, end - pos as int),
        ),
        r is None ==> dec_tok(s@.skip(pos as int)) is None,
{
    if pos >= s.len() {
        return None;
    }
    let tag = s[pos];
    proof {
        assert(s@.skip(pos as int)[0] == s@[pos as int]);
        assert(s@.skip(pos as int).skip(1) =~= s@.skip(pos + 1));
    }
    if tag == 0 {
        Some((ScriptToken::OpAdd, pos + 1))
    } else if tag == 1 {
        Some((ScriptToken::OpEqual, pos + 1))
    } else if tag == 2 {
        Some((ScriptToken::OpEqualVerify, pos + 1))
    } else if tag == 3 {
        Some((ScriptToken::OpCheckSig, pos + 1))
    } else if tag == 4 {
        Some((ScriptToken::OpHash160, pos + 1))
    } else if tag == 5 {
        Some((ScriptToken::OpDup, pos + 1))
    } else if tag == 6 {
        match read_sv(s, pos + 1) {
            Some((v, end)) => Some((ScriptToken::Value(v), end)),
            None => None,
        }
    } else {
        None
    }
}

fn read_script(s: &Vec<u8>, pos: usize) -> (r: Option<(Vec<ScriptToken>, usize)>)
    requires
        pos <= s@.len(),
    ensures
        r matches Some((ts, end)) ==> pos < end <= s@.len() && dec_toks(s@.skip(pos as int))
            == Some((ts.deep_view(), end - pos as int)),
        r is None ==> dec_toks(s@.skip(pos as int)) is None,
{
    let (cnt, p1) = match read_u64(s, pos) {
        Some(x) => x,
        None => {
            return None;
        },
    };
    proof {
        assert(s@.skip(pos as int).skip(8) =~= s@.skip(p1 as int));
    }
    let mut acc: Vec<ScriptToken> = Vec::new();
    let mut cur: usize = p1;
    let mut k: u64 = 0;
    while k < cnt
        invariant
            0 <= k <= cnt,
            pos <= s@.len(),
            p1 == pos + 8,
            p1 <= cur <= s@.len(),
            dec_u64(s@.skip(pos as int)) == Some((cnt, 8int)),
            s@.skip(pos as int).skip(8) == s@.skip(p1 as int),
            dec_toks_n(s@.skip(p1 as int), cnt as int) == (match dec_toks_n(
                s@.skip(cur as int),
                cnt - k,
            ) {
                Some((ts, m)) => Some::<(Seq<TokV>, int)>(
                    (acc.deep_view() + ts, (cur - p1) + m),
                ),
                None => None::<(Seq<TokV>, int)>,
            }),
        decreases cnt - k,
    {
        let ghost pre = acc;
        let (t, end) = match read_tok(s, cur) {
            Some(x) => x,
            None => {
                proof {
                    assert(dec_toks_n(s@.skip(cur as int), cnt - k) is None);
                }
                return None;
            },
        };
        proof {
            assert(s@.skip(cur as int).skip(end - cur as int) =~= s@.skip(end as int));
        }
        acc.push(t);
        proof {
            crate::views::lemma_deep_view_push(pre, acc);
            assert forall|ts2: Seq<TokV>|
                pre.deep_view() + (seq![t@] + ts2) =~= acc.deep_view() + ts2 by {}
        }
        cur = end;
        k = k + 1;
    }
    proof {
        assert(dec_toks_n(s@.skip(cur as int), 0int) == Some((Seq::<TokV>::empty(), 0int)));
        assert(acc.deep_view() + Seq::<TokV>::empty() =~= acc.deep_view());
    }
    Some((acc, cur))
}

fn read_sig(s: &Vec<u8>, pos: usize) -> (r: Option<(ScriptSig, usize)>)
    requires
        pos <= s@.len(),
    ensures
        r matches Some((g, end)) ==> end == pos + 97 && end <= s@.len() && dec_sig(
            s@.skip(pos as int),
        ) == Some((g@, 97int)),
        r is None ==> dec_sig(s@.skip(pos as int)) is None,
{
    let (signature, p1) = match read_bytes(s, pos, 64) {
        Some(x) => x,
        None => {
            return None;
        },
    };
    let (pub_key, p2) = match read_bytes(s, p1, 33) {
        Some(x) => x,
        None => {
            proof {
                assert(s@.skip(pos as int).len() < 97);
            }
            return None;
        },
    };
    let g = ScriptSig { signature, pub_key };
    proof {
        assert(g@.signature =~= s@.skip(pos as int).take(64));
        assert(g@.pub_key =~= s@.skip(pos as int).skip(64).take(33));
    }
    Some((g, p2))
}

fn read_in(s: &Vec<u8>, pos: usize) -> (r: Option<(TXInput, usize)>)
    requires
        pos <= s@.len(),
    ensures
        r matches Some((v, end)) ==> end == pos + 137 && end <= s@.len() && dec_in(
            s@.skip(pos as int),
        ) == Some((v@, 137int)),
        r is None ==> dec_in(s@.skip(pos as int)) is None,
{
    let (tx_id, p1) = match read_bytes(s, pos, 32) {
        Some(x) => x,
        None => {
            return None;
        },
    };
    proof {
        assert(s@.skip(pos as int).skip(32) =~= s@.skip(p1 as int));
    }
    let (vout_raw, p2) = match read_u64(s, p1) {
        Some(x) => x,
        None => {
            return None;
        },
    };
    proof {
        assert(s@.skip(pos as int).skip(40) =~= s@.skip(p2 as int));
    }
    let (script_sig, p3) = match read_sig(s, p2) {
        Some(x) => x,
        None => {
            return None;
        },
    };
    let v = TXInput { tx_id, vout: vout_raw as i64, script_sig };
    proof {
        assert(v@.tx_id =~= s@.skip(pos as int).take(32));
    }
    Some((v, p3))
}

fn read_out(s: &Vec<u8>, pos: usize) -> (r: Option<(TXOutput, usize)>)
    requires
        pos <= s@.len(),
    ensures
        r matches Some((o, end)) ==> pos < end <= s@.len() && dec_out(s@.skip(pos as int)) == Some(
            (o@, end - pos as int),
        ),
        r is None ==> dec_out(s@.skip(pos as int)) is None,
{
    let (value, p1) = match read_u64(s, pos) {
        Some(x) => x,
        None => {
            return None;
        },
    };
    proof {
        assert(s@.skip(pos as int).skip(8) =~= s@.skip(p1 as int));
    }
    let (script, p2) = match read_script(s, p1) {
        Some(x) => x,
        None => {
            return None;
        },
    };
    let o = TXOutput { value, script_pub_key: ScriptPubKey { script } };
    Some((o, p2))
}

fn read_ins(s: &Vec<u8>, pos: usize) -> (r: Option<(Vec<TXInput>, usize)>)
    requires
        pos <= s@.len(),
    ensures
        r matches Some((vs, end)) ==> pos < end <= s@.len() && dec_ins(s@.skip(pos as int))
            == Some((vs.deep_view(), end - pos as int)),
        r is None ==> dec_ins(s@.skip(pos as int)) is None,
{
    let (cnt, p1) = match read_u64(s, pos) {
        Some(x) => x,
        None => {
            return None;
        },
    };
    proof {
        assert(s@.skip(pos as int).skip(8) =~= s@.skip(p1 as int));
    }
    let mut acc: Vec<TXInput> = Vec::new();
    let mut cur: usize = p1;
    let mut k: u64 = 0;
    while k < cnt
        invariant
            0 <= k <= cnt,
            pos <= s@.len(),
            p1 == pos + 8,
            p1 <= cur <= s@.len(),
            dec_u64(s@.skip(pos as int)) == Some((cnt, 8int)),
            s@.skip(pos as int).skip(8) == s@.skip(p1 as int),
            dec_ins_n(s@.skip(p1 as int), cnt as int) == (match dec_ins_n(
                s@.skip(cur as int),
                cnt - k,
            ) {
                Some((vs, m)) => Some::<(Seq<InV>, int)>((acc.deep_view() + vs, (cur - p1) + m)),
                None => None::<(Seq<InV>, int)>,
            }),
        decreases cnt - k,
    {
        let ghost pre = acc;
        let (v, end) = match read_in(s, cur) {
            Some(x) => x,
            None => {
                proof {
                    assert(dec_ins_n(s@.skip(cur as int), cnt - k) is None);
                }
                return None;
            },
        };
        proof {
            assert(s@.skip(cur as int).skip(end - cur as int) =~= s@.skip(end as int));
        }
        acc.push(v);
        proof {
            crate::views::lemma_deep_view_push(pre, acc);
            assert forall|vs2: Seq<InV>|
                pre.deep_view() + (seq![v@] + vs2) =~= acc.deep_view() + vs2 by {}
        }
        cur = end;
        k = k + 1;
    }
    proof {
        assert(dec_ins_n(s@.skip(cur as int), 0int) == Some((Seq::<InV>::empty(), 0int)));
        assert(acc.deep_view() + Seq::<InV>::empty() =~= acc.deep_view());
    }
    Some((acc, cur))
}

fn read_outs(s: &Vec<u8>, pos: usize) -> (r: Option<(Vec<TXOutput>, usize)>)
    requires
        pos <= s@.len(),
    ensures
        r matches Some((os, end)) ==> pos < end <= s@.len() && dec_outs(s@.skip(pos as int))
            == Some((os.deep_view(), end - pos as int)),
        r is None ==> dec_outs(s@.skip(pos as int)) is None,
{
    let (cnt, p1) = match read_u64(s, pos) {
        Some(x) => x,
        None => {
            return None;
        },
    };
    proof {
        assert(s@.skip(pos as int).skip(8) =~= s@.skip(p1 as int));
    }
    let mut acc: Vec<TXOutput> = Vec::new();
    let mut cur: usize = p1;
    let mut k: u64 = 0;
    while k < cnt
        invariant
            0 <= k <= cnt,
            pos <= s@.len(),
            p1 == pos + 8,
            p1 <= cur <= s@.len(),
            dec_u64(s@.skip(pos as int)) == Some((cnt, 8int)),
            s@.skip(pos as int).skip(8) == s@.skip(p1 as int),
            dec_outs_n(s@.skip(p1 as int), cnt as int) == (match dec_outs_n(
                s@.skip(cur as int),
                cnt - k,
            ) {
                Some((os, m)) => Some::<(Seq<OutV>, int)>(
                    (acc.deep_view() + os, (cur - p1) + m),
                ),
                None => None::<(Seq<OutV>, int)>,
            }),
        decreases cnt - k,
    {
        let ghost pre = acc;
        let (o, end) = match read_out(s, cur) {
            Some(x) => x,
            None => {
                proof {
                    assert(dec_outs_n(s@.skip(cur as int), cnt - k) is None);
                }
                return None;
            },
        };
        proof {
            assert(s@.skip(cur as int).skip(end - cur as int) =~= s@.skip(end as int));
        }
        acc.push(o);
        proof {
            crate::views::lemma_deep_view_push(pre, acc);
            assert forall|os2: Seq<OutV>|
                pre.deep_view() + (seq![o@] + os2) =~= acc.deep_view() + os2 by {}
        }
        cur = end;
        k = k + 1;
    }
    proof {
        assert(dec_outs_n(s@.skip(cur as int), 0int) == Some((Seq::<OutV>::empty(), 0int)));
        assert(acc.deep_view() + Seq::<OutV>::empty() =~= acc.deep_view());
    }
    Some((acc, cur))
}

fn read_tx(s: &Vec<u8>, pos: usize) -> (r: Option<(Transaction, usize)>)
    requires
        pos <= s@.len(),
    ensures
        r matches Some((t, end)) ==> pos < end <= s@.len() && dec_tx(s@.skip(pos as int)) == Some(
            (t@, end - pos as int),
        ),
        r is None ==> dec_tx(s@.skip(pos as int)) is None,
{
    let (id, p1) = match read_bytes(s, pos, 32) {
        Some(x) => x,
        None => {
            return None;
        },
    };
    proof {
        assert(s@.skip(pos as int).skip(32) =~= s@.skip(p1 as int));
    }
    let (mlen, p2) = match read_u64(s, p1) {
        Some(x) => x,
        None => {
            return None;
        },
    };
    proof {
        assert(s@.skip(pos as int).skip(40) =~= s@.skip(p2 as int));
    }
    if mlen > (usize::MAX as u64) {
        proof {
            vstd::std_specs::vec::axiom_spec_len(s);
            assert(s@.skip(p2 as int).len() < mlen as int);
            assert(dec_bytes(s@.skip(pos as int).skip(40), mlen as int) is None);
        }
        return None;
    }
    let (memo, p3) = match read_bytes(s, p2, mlen as usize) {
        Some(x) => x,
        None => {
            return None;
        },
    };
    proof {
        assert(s@.skip(pos as int).skip(40 + mlen as int) =~= s@.skip(p3 as int));
    }
    let (vin, p4) = match read_ins(s, p3) {
        Some(x) => x,
        None => {
            return None;
        },
    };
    proof {
        assert(s@.skip(pos as int).skip(40 + mlen as int + (p4 - p3)) =~= s@.skip(p4 as int));
    }
    let (vout, p5) = match read_outs(s, p4) {
        Some(x) => x,
        None => {
            return None;
        },
    };
    let t = Transaction { id, memo, vin, vout };
    proof {
        assert(t@.id =~= s@.skip(pos as int).take(32));
    }
    Some((t, p5))
}

fn read_block(s: &Vec<u8>, pos: usize) -> (r: Option<(Block, usize)>)
    requires
        pos <= s@.len(),
    ensures
        r matches Some((b, end)) ==> pos < end <= s@.len() && dec_block(s@.skip(pos as int))
            == Some((b@, end - pos as int)),
        r is None ==> dec_block(s@.skip(pos as int)) is None,
{
    let (timestamp, p1) = match read_u64(s, pos) {
        Some(x) => x,
        None => {
            return None;
        },
    };
    proof {
        assert(s@.skip(pos as int).skip(8) =~= s@.skip(p1 as int));
    }
    let (cnt, p2) = match read_u64(s, p1) {
        Some(x) => x,
        None => {
            return None;
        },
    };
    proof {
        assert(s@.skip(p1 as int).skip(8) =~= s@.skip(p2 as int));
    }
    let mut txs: Vec<Transaction> = Vec::new();
    let mut cur: usize = p2;
    let mut k: u64 = 0;
    while k < cnt
        invariant
            0 <= k <= cnt,
            pos <= s@.len(),
            p1 == pos + 8,
            p2 == p1 + 8,
            p2 <= cur <= s@.len(),
            dec_u64(s@.skip(pos as int)) == Some((timestamp, 8int)),
            s@.skip(pos as int).skip(8) == s@.skip(p1 as int),
            dec_u64(s@.skip(p1 as int)) == Some((cnt, 8int)),
            s@.skip(p1 as int).skip(8) == s@.skip(p2 as int),
            dec_txs_n(s@.skip(p2 as int), cnt as int) == (match dec_txs_n(
                s@.skip(cur as int),
                cnt - k,
            ) {
                Some((ts, m)) => Some::<(Seq<TxV>, int)>(
                    (txs.deep_view() + ts, (cur - p2) + m),
                ),
                None => None::<(Seq<TxV>, int)>,
            }),
        decreases cnt - k,
    {
        let ghost pre = txs;
        let (t, end) = match read_tx(s, cur) {
            Some(x) => x,
            None => {
                proof {
                    assert(dec_txs_n(s@.skip(cur as int), cnt - k) is None);
                }
                return None;
            },
        };
        proof {
            assert(s@.skip(cur as int).skip(end - cur as int) =~= s@.skip(end as int));
        }
        txs.push(t);
        proof {
            crate::views::lemma_deep_view_push(pre, txs);
            assert forall|ts2: Seq<TxV>|
                pre.deep_view() + (seq![t@] + ts2) =~= txs.deep_view() + ts2 by {}
        }
        cur = end;
        k = k + 1;
    }
    proof {
        assert(dec_txs_n(s@.skip(cur as int), 0int) == Some((Seq::<TxV>::empty(), 0int)));
        assert(txs.deep_view() + Seq::<TxV>::empty() =~= txs.deep_view());
        assert(dec_txs(s@.skip(p1 as int)) == Some((txs.deep_view(), (cur - p1) as int)));
    }
    proof {
        assert(s@.skip(pos as int).skip(8 + (cur - p1)) =~= s@.skip(cur as int));
    }
    let (prev_block_hash, p3) = match read_bytes(s, cur, 32) {
        Some(x) => x,
        None => {
            proof {
                assert(s@.skip(cur as int).len() < 72);
            }
            return None;
        },
    };
    let (hash, p4) = match read_bytes(s, p3, 32) {
        Some(x) => x,
        None => {
            proof {
                assert(s@.skip(cur as int).len() < 72);
            }
            return None;
        },
    };
    let (nonce, p5) = match read_u64(s, p4) {
        Some(x) => x,
        None => {
            proof {
                assert(s@.skip(cur as int).len() < 72);
            }
            return None;
        },
    };
    let b = Block { timestamp, transactions: txs, hash, prev_block_hash, nonce };
    proof {
        let tail = s@.skip(pos as int).skip(8 + (cur - p1));
        assert(tail =~= s@.skip(cur as int));
        assert(b@.prev_block_hash =~= tail.take(32));
        assert(b@.hash =~= tail.skip(32).take(32));
        assert(tail.skip(64).take(8) =~= s@.skip(p4 as int).take(8));
        assert(tail.len() >= 72);
    }
    Some((b, p5))
}

/// Decodes one block from the whole byte string; trailing bytes are a
/// failure.
pub fn decode_block_bytes(s: &Vec<u8>) -> (r: Option<Block>)
    ensures
        r matches Some(b) ==> dec_block_full(s@) == Some(b@) && crate::block::block_wf(b@)
            && block_bounded(b@),
        r is Some <==> dec_block_full(s@) is Some,
{
    proof {
        reveal(dec_block_full);
        assert(s@.skip(0) =~= s@);
        lemma_dec_block_wf(s@);
    }
    match read_block(s, 0) {
        Some((b, end)) => {
            if end == s.len() {
                Some(b)
            } else {
                None
            }
        },
        None => None,
    }
}

/// Decoding stops at the transaction's end: the whole string must be one
/// transaction.
#[verifier::opaque]
pub open spec fn dec_tx_full(s: Seq<u8>) -> Option<TxV> {
    match dec_tx(s) {
        Some((t, n)) => if n == s.len() {
            Some(t)
        } else {
            None
        },
        None => None,
    }
}

/// Decodes one transaction from the whole byte string; trailing bytes are a
/// failure.
pub fn decode_tx_bytes(s: &Vec<u8>) -> (r: Option<Transaction>)
    ensures
        r matches Some(t) ==> dec_tx_full(s@) == Some(t@) && crate::transaction::tx_wf(t@)
            && tx_bounded(t@),
        r is Some <==> dec_tx_full(s@) is Some,
{
    proof {
        reveal(dec_tx_full);
        assert(s@.skip(0) =~= s@);
        lemma_dec_tx_wf(s@);
    }
    match read_tx(s, 0) {
        Some((t, end)) => {
            if end == s.len() {
                Some(t)
            } else {
                None
            }
        },
        None => None,
    }
}

} // verus!
