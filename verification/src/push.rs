//! The Push network message and its codec: the worked message kind that
//! composes header, body, extension chain and payload.
//!
//! Wire layout: one header byte (kind id in the low five bits, then the N,
//! M and Z flags), the wire expression (numeric scope, and a
//! length-prefixed suffix exactly when N is set), the extension chain
//! (present exactly when Z is set), and a length-prefixed payload.
//! Encoding suppresses every extension whose value is the default; the
//! decoder restores defaults for every extension kind the chain never
//! mentions, and skips unknown kinds. A header whose kind id is not the
//! Push id is a read error, so a dispatcher may try kind-specific decoders
//! by id.

use vstd::prelude::*;
use vstd::arithmetic::div_mod::lemma_fundamental_div_mod_converse;
use crate::bytes::{ByteReader, ByteWriter, ReadError, WriteError};
use crate::varint::{
    venc, vdec, enc_bytes, bytes_dec, cond_dec, write_varint, read_varint, write_buf, read_buf,
    write_cond_buf, read_cond_buf, varint_len,
    lemma_venc_len, lemma_venc_vdec, lemma_vdec_extend, lemma_vdec_consumed,
    lemma_enc_bytes_dec, lemma_bytes_dec_extend, lemma_bytes_dec_consumed,
};
use crate::exts::{
    Destination, Timestamp, TimestampView, ExtState, ExtRecord, ext_defaults, ext_more,
    exts_dec, ext_step, chain_enc, chain_apply, rec_enc, rec_apply, all_valid,
    lemma_chain_dec, lemma_exts_dec_extend, lemma_exts_dec_consumed,
    EXT_QOS_ID, EXT_TSTAMP_ID, EXT_DST_ID, ENC_UNIT, ENC_VARINT, ENC_BLOCK, DEFAULT_QOS,
};

verus! {

/// The Push message kind id, held in the low five header bits.
pub const PUSH_ID: u8 = 5;
/// Header flag N: the wire expression carries an explicit suffix.
pub const FLAG_N: u8 = 32;
/// Header flag M: the numeric-alias namespace is sender-assigned.
pub const FLAG_M: u8 = 64;
/// Header flag Z: at least one extension record follows the body.
pub const FLAG_Z: u8 = 128;

/// Which peer owns the numeric-alias namespace a wire expression's scope
/// id resolves in. The wire default is [`Mapping::Receiver`].
#[derive(Clone, Copy, PartialEq, Eq, Structural, Debug)]
pub enum Mapping {
    Receiver,
    Sender,
}

impl Default for Mapping {
    fn default() -> (m: Mapping)
        ensures
            m == Mapping::Receiver,
    {
        Mapping::Receiver
    }
}

/// A compact topic key: a numeric scope alias, plus an explicit suffix
/// (as its bytes) when the key is not fully covered by the alias. An empty
/// suffix means "no suffix": resolution then happens via the side mapping
/// table keyed by `scope`.
pub struct WireExpr {
    pub scope: u64,
    pub suffix: Vec<u8>,
}

impl WireExpr {
    /// Whether the key carries an explicit suffix.
    pub fn has_suffix(&self) -> (b: bool)
        ensures
            b == (self.suffix@.len() != 0),
    {
        self.suffix.len() != 0
    }
}

/// The mathematical value of a [`WireExpr`].
#[verifier::ext_equal]
pub struct WireExprView {
    pub scope: u64,
    pub suffix: Seq<u8>,
}

impl View for WireExpr {
    type V = WireExprView;

    open spec fn view(&self) -> WireExprView {
        WireExprView { scope: self.scope, suffix: self.suffix@ }
    }
}

/// A Push message: a payload published towards a topic key, with optional
/// QoS, timestamp and destination metadata. Optional fields at their
/// default are not put on the wire.
pub struct Push {
    pub wire_expr: WireExpr,
    pub mapping: Mapping,
    pub payload: Vec<u8>,
    pub ext_qos: u8,
    pub ext_tstamp: Option<Timestamp>,
    pub ext_dst: Destination,
}

/// The mathematical value of a [`Push`].
#[verifier::ext_equal]
pub struct PushView {
    pub wire_expr: WireExprView,
    pub mapping: Mapping,
    pub payload: Seq<u8>,
    pub ext_qos: u8,
    pub ext_tstamp: Option<TimestampView>,
    pub ext_dst: Destination,
}

impl View for Push {
    type V = PushView;

    open spec fn view(&self) -> PushView {
        PushView {
            wire_expr: self.wire_expr@,
            mapping: self.mapping,
            payload: self.payload@,
            ext_qos: self.ext_qos,
            ext_tstamp: match self.ext_tstamp {
                Some(t) => Some(t@),
                None => None,
            },
            ext_dst: self.ext_dst,
        }
    }
}

pub open spec fn has_qos_ext(p: PushView) -> bool {
    p.ext_qos != DEFAULT_QOS
}

pub open spec fn has_tstamp_ext(p: PushView) -> bool {
    p.ext_tstamp is Some
}

pub open spec fn has_dst_ext(p: PushView) -> bool {
    p.ext_dst != Destination::Subscribers
}

/// Whether any optional field differs from its default, i.e. whether the
/// encoding carries an extension chain.
pub open spec fn has_exts(p: PushView) -> bool {
    has_qos_ext(p) || has_tstamp_ext(p) || has_dst_ext(p)
}

/// The kind id in a message header byte.
pub open spec fn hdr_kind(h: u8) -> u8 {
    h % 32
}

/// The N flag: an explicit suffix follows the scope.
pub open spec fn hdr_n(h: u8) -> bool {
    (h / 32) % 2 == 1
}

/// The M flag: the alias namespace is sender-assigned.
pub open spec fn hdr_m(h: u8) -> bool {
    (h / 64) % 2 == 1
}

/// The Z flag: an extension chain follows the body.
pub open spec fn hdr_z(h: u8) -> bool {
    h >= 128
}

/// The header byte of a message: flags computed from which fields differ
/// from their defaults.
pub open spec fn push_header(p: PushView) -> u8 {
    (PUSH_ID as int
        + if p.wire_expr.suffix.len() != 0 { FLAG_N as int } else { 0int }
        + if p.mapping == Mapping::Sender { FLAG_M as int } else { 0int }
        + if has_exts(p) { FLAG_Z as int } else { 0int }) as u8
}

/// The extension records a message puts on the wire, in the encoder's
/// fixed order: QoS, then timestamp, then destination — only those whose
/// value differs from the default.
pub open spec fn push_recs(p: PushView) -> Seq<ExtRecord> {
    (if has_qos_ext(p) { seq![ExtRecord::Qos(p.ext_qos)] } else { Seq::<ExtRecord>::empty() })
        + (if has_tstamp_ext(p) { seq![ExtRecord::Tstamp(p.ext_tstamp->Some_0)] } else { Seq::<ExtRecord>::empty() })
        + (if has_dst_ext(p) { seq![ExtRecord::Dst] } else { Seq::<ExtRecord>::empty() })
}

/// The bytes of a wire expression: the scope alias, then the suffix block
/// — only when there is a suffix.
pub open spec fn wire_expr_enc(w: WireExprView) -> Seq<u8> {
    venc(w.scope) + if w.suffix.len() != 0 { enc_bytes(w.suffix) } else { Seq::<u8>::empty() }
}

/// The bytes that encode a whole Push message.
pub open spec fn push_enc(p: PushView) -> Seq<u8> {
    seq![push_header(p)] + wire_expr_enc(p.wire_expr) + chain_enc(push_recs(p))
        + enc_bytes(p.payload)
}

/// What decoding a Push message at the head of `s` yields: the message and
/// the bytes consumed, or nothing when the kind id does not match, the
/// stream ends early, or any component is malformed.
pub open spec fn push_dec(s: Seq<u8>) -> Option<(PushView, int)> {
    if s.len() == 0 {
        None
    } else {
        let h = s[0];
        if hdr_kind(h) != PUSH_ID {
            None
        } else {
            match vdec(s.skip(1)) {
                None => None,
                Some((scope, n1)) => {
                    let p1 = 1 + n1;
                    if p1 <= s.len() {
                        let sfx_res: Option<(Seq<u8>, int)> = if hdr_n(h) {
                            bytes_dec(s.skip(p1))
                        } else {
                            Some((Seq::<u8>::empty(), 0))
                        };
                        match sfx_res {
                            None => None,
                            Some((sfx, n2)) => {
                                let p2 = p1 + n2;
                                if p2 <= s.len() {
                                    let est: Option<(ExtState, int)> = if hdr_z(h) {
                                        exts_dec(s.skip(p2), ext_defaults())
                                    } else {
                                        Some((ext_defaults(), 0))
                                    };
                                    match est {
                                        None => None,
                                        Some((stf, n3)) => {
                                            let p3 = p2 + n3;
                                            if p3 <= s.len() {
                                                match bytes_dec(s.skip(p3)) {
                                                    None => None,
                                                    Some((pl, n4)) => Some((PushView {
                                                        wire_expr: WireExprView { scope, suffix: sfx },
                                                        mapping: if hdr_m(h) {
                                                            Mapping::Sender
                                                        } else {
                                                            Mapping::Receiver
                                                        },
                                                        payload: pl,
                                                        ext_qos: stf.qos,
                                                        ext_tstamp: stf.tstamp,
                                                        ext_dst: stf.dst,
                                                    }, p3 + n4)),
                                                }
                                            } else {
                                                None
                                            }
                                        },
                                    }
                                } else {
                                    None
                                }
                            },
                        }
                    } else {
                        None
                    }
                },
            }
        }
    }
}

/// The machine limits a message must respect for its encoding to exist:
/// every variable-length part must have an encodable length.
pub open spec fn push_wf(p: PushView) -> bool {
    &&& p.payload.len() <= u64::MAX
    &&& p.wire_expr.suffix.len() <= u64::MAX
    &&& (p.ext_tstamp matches Some(tv) ==> tv.id.len() + 10 <= u64::MAX)
}

proof fn lemma_push_header(p: PushView)
    ensures
        hdr_kind(push_header(p)) == PUSH_ID,
        hdr_n(push_header(p)) == (p.wire_expr.suffix.len() != 0),
        hdr_m(push_header(p)) == (p.mapping == Mapping::Sender),
        hdr_z(push_header(p)) == has_exts(p),
{
    let a: int = if p.wire_expr.suffix.len() != 0 { 1 } else { 0 };
    let b: int = if p.mapping == Mapping::Sender { 1 } else { 0 };
    let c: int = if has_exts(p) { 1 } else { 0 };
    let h = push_header(p);
    assert(h == 5 + 32 * a + 64 * b + 128 * c);
    lemma_fundamental_div_mod_converse(h as int, 32, a + 2 * b + 4 * c, 5);
    lemma_fundamental_div_mod_converse(a + 2 * b + 4 * c, 2, b + 2 * c, a);
    lemma_fundamental_div_mod_converse(h as int, 64, b + 2 * c, 5 + 32 * a);
    lemma_fundamental_div_mod_converse(b + 2 * c, 2, c, b);
}

/// The records a message encodes are valid, and replaying them over the
/// default state rebuilds exactly the message's extension fields.
proof fn lemma_push_recs_apply(p: PushView)
    requires
        push_wf(p),
    ensures
        all_valid(push_recs(p)),
        chain_apply(push_recs(p), ext_defaults())
            == (ExtState { qos: p.ext_qos, tstamp: p.ext_tstamp, dst: p.ext_dst }),
        push_recs(p).len() != 0 <==> has_exts(p),
{
    let st0 = ext_defaults();
    let target = ExtState { qos: p.ext_qos, tstamp: p.ext_tstamp, dst: p.ext_dst };
    let rq = ExtRecord::Qos(p.ext_qos);
    let rt = ExtRecord::Tstamp(p.ext_tstamp->Some_0);
    let rd = ExtRecord::Dst;
    let rs = push_recs(p);
    let e = Seq::<ExtRecord>::empty();
    if has_qos_ext(p) {
        if has_tstamp_ext(p) {
            if has_dst_ext(p) {
                assert(rs =~= seq![rq, rt, rd]);
                lemma_chain_apply3(rq, rt, rd, st0);
            } else {
                assert(rs =~= seq![rq, rt]);
                lemma_chain_apply2(rq, rt, st0);
            }
        } else {
            if has_dst_ext(p) {
                assert(rs =~= seq![rq, rd]);
                lemma_chain_apply2(rq, rd, st0);
            } else {
                assert(rs =~= seq![rq]);
                lemma_chain_apply1(rq, st0);
            }
        }
    } else {
        if has_tstamp_ext(p) {
            if has_dst_ext(p) {
                assert(rs =~= seq![rt, rd]);
                lemma_chain_apply2(rt, rd, st0);
            } else {
                assert(rs =~= seq![rt]);
                lemma_chain_apply1(rt, st0);
            }
        } else {
            if has_dst_ext(p) {
                assert(rs =~= seq![rd]);
                lemma_chain_apply1(rd, st0);
            } else {
                assert(rs =~= e);
            }
        }
    }
    assert(chain_apply(rs, st0) =~= target);
}

proof fn lemma_chain_apply1(a: ExtRecord, st: ExtState)
    ensures
        chain_apply(seq![a], st) == rec_apply(a, st),
{
    assert(seq![a].skip(1) =~= Seq::<ExtRecord>::empty());
    assert(chain_apply(Seq::<ExtRecord>::empty(), rec_apply(a, st)) == rec_apply(a, st));
}

proof fn lemma_chain_apply2(a: ExtRecord, b: ExtRecord, st: ExtState)
    ensures
        chain_apply(seq![a, b], st) == rec_apply(b, rec_apply(a, st)),
{
    assert(seq![a, b].skip(1) =~= seq![b]);
    lemma_chain_apply1(b, rec_apply(a, st));
}

proof fn lemma_chain_apply3(a: ExtRecord, b: ExtRecord, c: ExtRecord, st: ExtState)
    ensures
        chain_apply(seq![a, b, c], st) == rec_apply(c, rec_apply(b, rec_apply(a, st))),
{
    assert(seq![a, b, c].skip(1) =~= seq![b, c]);
    lemma_chain_apply2(b, c, rec_apply(a, st));
}

/// Round trip: decoding an encoded message yields exactly that message and
/// consumes exactly its bytes, whatever bytes follow it on the stream.
#[verifier::rlimit(100)]
pub proof fn lemma_push_roundtrip(p: PushView, t: Seq<u8>)
    requires
        push_wf(p),
    ensures
        push_dec(push_enc(p) + t) == Some((p, push_enc(p).len() as int)),
{
    let h = push_header(p);
    lemma_push_header(p);
    let we = wire_expr_enc(p.wire_expr);
    let ch = chain_enc(push_recs(p));
    let pl = enc_bytes(p.payload);
    let e = push_enc(p);
    let s = e + t;
    assert(s[0] == h);
    assert(e.len() == 1 + we.len() + ch.len() + pl.len());

    // scope
    let sfxpart: Seq<u8> = if p.wire_expr.suffix.len() != 0 {
        enc_bytes(p.wire_expr.suffix)
    } else {
        Seq::<u8>::empty()
    };
    let rest1 = sfxpart + (ch + (pl + t));
    assert(s.skip(1) =~= venc(p.wire_expr.scope) + rest1);
    lemma_venc_vdec(p.wire_expr.scope, rest1);
    let n1 = venc(p.wire_expr.scope).len() as int;
    let p1 = 1 + n1;
    assert(vdec(s.skip(1)) == Some((p.wire_expr.scope, n1)));
    assert(p1 <= s.len());
    assert(s.skip(p1) =~= sfxpart + (ch + (pl + t)));

    // suffix
    let n2: int = if p.wire_expr.suffix.len() != 0 {
        lemma_enc_bytes_dec(p.wire_expr.suffix, ch + (pl + t));
        assert(s.skip(p1) =~= enc_bytes(p.wire_expr.suffix) + (ch + (pl + t)));
        enc_bytes(p.wire_expr.suffix).len() as int
    } else {
        assert(p.wire_expr.suffix =~= Seq::<u8>::empty());
        0
    };
    let p2 = p1 + n2;
    assert(p2 <= s.len());
    assert(s.skip(p2) =~= ch + (pl + t));

    // extensions
    lemma_push_recs_apply(p);
    let stf = ExtState { qos: p.ext_qos, tstamp: p.ext_tstamp, dst: p.ext_dst };
    let n3: int = if has_exts(p) {
        lemma_chain_dec(push_recs(p), pl + t, ext_defaults());
        assert(exts_dec(s.skip(p2), ext_defaults()) == Some((stf, ch.len() as int)));
        ch.len() as int
    } else {
        assert(push_recs(p).len() == 0);
        assert(ch =~= Seq::<u8>::empty());
        assert(stf =~= ext_defaults());
        0
    };
    let p3 = p2 + n3;
    assert(p3 <= s.len());
    assert(s.skip(p3) =~= pl + t);
    assert(s.skip(p3) =~= enc_bytes(p.payload) + t);

    // payload
    lemma_enc_bytes_dec(p.payload, t);
    let n4 = pl.len() as int;
    assert(bytes_dec(s.skip(p3)) == Some((p.payload, n4)));
    assert(p3 + n4 == e.len());

    let dec = push_dec(s);
    assert(dec is Some);
    let (pv, n) = dec->Some_0;
    assert(pv.wire_expr =~= p.wire_expr);
    assert(pv =~= p);
    assert(n == e.len());
}

/// Bytes appended after a decodable message change nothing about it.
pub proof fn lemma_push_dec_extend(s: Seq<u8>, t: Seq<u8>)
    requires
        push_dec(s) is Some,
    ensures
        push_dec(s + t) == push_dec(s),
{
    let u = s + t;
    assert(s.len() > 0);
    let h = s[0];
    assert(u[0] == h);
    assert(u.skip(1) =~= s.skip(1) + t);
    assert(vdec(s.skip(1)) is Some);
    lemma_vdec_extend(s.skip(1), t);
    lemma_vdec_consumed(s.skip(1));
    let (scope, n1) = vdec(s.skip(1))->Some_0;
    let p1 = 1 + n1;
    assert(0 <= p1 <= s.len());
    assert(u.skip(p1) =~= s.skip(p1) + t);
    let n2: int = if hdr_n(h) {
        assert(bytes_dec(s.skip(p1)) is Some);
        lemma_bytes_dec_extend(s.skip(p1), t);
        lemma_bytes_dec_consumed(s.skip(p1));
        bytes_dec(s.skip(p1))->Some_0.1
    } else {
        0
    };
    let p2 = p1 + n2;
    assert(0 <= p2 <= s.len());
    assert(u.skip(p2) =~= s.skip(p2) + t);
    let n3: int = if hdr_z(h) {
        assert(exts_dec(s.skip(p2), ext_defaults()) is Some);
        lemma_exts_dec_extend(s.skip(p2), t, ext_defaults());
        lemma_exts_dec_consumed(s.skip(p2), ext_defaults());
        exts_dec(s.skip(p2), ext_defaults())->Some_0.1
    } else {
        0
    };
    let p3 = p2 + n3;
    assert(0 <= p3 <= s.len());
    assert(u.skip(p3) =~= s.skip(p3) + t);
    assert(bytes_dec(s.skip(p3)) is Some);
    lemma_bytes_dec_extend(s.skip(p3), t);
}

/// A successful decode consumes at least one and at most `s.len()` bytes.
pub proof fn lemma_push_dec_consumed(s: Seq<u8>)
    ensures
        push_dec(s) matches Some((p, n)) ==> 1 <= n <= s.len(),
{
    if push_dec(s) is Some {
        let h = s[0];
        let (scope, n1) = vdec(s.skip(1))->Some_0;
        let p1 = 1 + n1;
        lemma_vdec_consumed(s.skip(1));
        let n2: int = if hdr_n(h) {
            lemma_bytes_dec_consumed(s.skip(p1));
            bytes_dec(s.skip(p1))->Some_0.1
        } else {
            0
        };
        let p2 = p1 + n2;
        let n3: int = if hdr_z(h) {
            lemma_exts_dec_consumed(s.skip(p2), ext_defaults());
            exts_dec(s.skip(p2), ext_defaults())->Some_0.1
        } else {
            0
        };
        let p3 = p2 + n3;
        lemma_bytes_dec_consumed(s.skip(p3));
    }
}

/// Truncation: a valid encoding cut anywhere strictly before its end never
/// decodes — the loss is always detected as a read error.
pub proof fn lemma_push_truncation(p: PushView, i: int)
    requires
        push_wf(p),
        0 <= i < push_enc(p).len(),
    ensures
        push_dec(push_enc(p).take(i)) is None,
{
    let e = push_enc(p);
    lemma_push_roundtrip(p, Seq::<u8>::empty());
    assert(e + Seq::<u8>::empty() =~= e);
    assert(push_dec(e) == Some((p, e.len() as int)));
    if push_dec(e.take(i)) is Some {
        let n = push_dec(e.take(i))->Some_0.1;
        lemma_push_dec_consumed(e.take(i));
        assert(n <= i);
        lemma_push_dec_extend(e.take(i), e.skip(i));
        assert(e.take(i) + e.skip(i) =~= e);
        assert(push_dec(e) == push_dec(e.take(i)));
        assert(false);
    }
}

/// Default suppression: a message whose optional fields are all at their
/// defaults encodes zero extension records with the Z flag clear, and
/// decoding that encoding restores the same defaults.
pub proof fn lemma_default_suppression(p: PushView, t: Seq<u8>)
    requires
        push_wf(p),
        p.ext_qos == DEFAULT_QOS,
        p.ext_tstamp is None,
        p.ext_dst == Destination::Subscribers,
    ensures
        push_recs(p).len() == 0,
        !hdr_z(push_header(p)),
        push_enc(p) == seq![push_header(p)] + wire_expr_enc(p.wire_expr) + enc_bytes(p.payload),
        push_dec(push_enc(p) + t) == Some((p, push_enc(p).len() as int)),
{
    lemma_push_header(p);
    assert(push_recs(p) =~= Seq::<ExtRecord>::empty());
    assert(chain_enc(push_recs(p)) =~= Seq::<u8>::empty());
    assert(push_enc(p) =~= seq![push_header(p)] + wire_expr_enc(p.wire_expr)
        + enc_bytes(p.payload));
    lemma_push_roundtrip(p, t);
}

proof fn lemma_prefix_trans(a: Seq<u8>, b: Seq<u8>, c: Seq<u8>)
    requires
        a.is_prefix_of(b),
        b.is_prefix_of(c),
    ensures
        a.is_prefix_of(c),
{
    assert(a =~= c.subrange(0, a.len() as int));
}

proof fn lemma_chain_enc1(a: ExtRecord)
    ensures
        chain_enc(seq![a]) == rec_enc(a, false),
{
    assert(seq![a].skip(1) =~= Seq::<ExtRecord>::empty());
    assert(chain_enc(Seq::<ExtRecord>::empty()) =~= Seq::<u8>::empty());
    assert(chain_enc(seq![a]) =~= rec_enc(a, false));
}

proof fn lemma_chain_enc2(a: ExtRecord, b: ExtRecord)
    ensures
        chain_enc(seq![a, b]) == rec_enc(a, true) + rec_enc(b, false),
{
    assert(seq![a, b].skip(1) =~= seq![b]);
    lemma_chain_enc1(b);
}

proof fn lemma_chain_enc3(a: ExtRecord, b: ExtRecord, c: ExtRecord)
    ensures
        chain_enc(seq![a, b, c]) == rec_enc(a, true) + (rec_enc(b, true) + rec_enc(c, false)),
{
    assert(seq![a, b, c].skip(1) =~= seq![b, c]);
    lemma_chain_enc2(b, c);
}

/// How a message's chain splits into the segments the encoder emits, in
/// the fixed order with the continuation flags threaded through.
proof fn lemma_push_chain_enc(p: PushView)
    ensures
        chain_enc(push_recs(p)) == (if has_qos_ext(p) {
            rec_enc(ExtRecord::Qos(p.ext_qos), has_tstamp_ext(p) || has_dst_ext(p))
        } else {
            Seq::<u8>::empty()
        }) + (if has_tstamp_ext(p) {
            rec_enc(ExtRecord::Tstamp(p.ext_tstamp->Some_0), has_dst_ext(p))
        } else {
            Seq::<u8>::empty()
        }) + (if has_dst_ext(p) {
            rec_enc(ExtRecord::Dst, false)
        } else {
            Seq::<u8>::empty()
        }),
{
    let rq = ExtRecord::Qos(p.ext_qos);
    let rt = ExtRecord::Tstamp(p.ext_tstamp->Some_0);
    let rd = ExtRecord::Dst;
    let rs = push_recs(p);
    if has_qos_ext(p) {
        if has_tstamp_ext(p) {
            if has_dst_ext(p) {
                assert(rs =~= seq![rq, rt, rd]);
                lemma_chain_enc3(rq, rt, rd);
            } else {
                assert(rs =~= seq![rq, rt]);
                lemma_chain_enc2(rq, rt);
            }
        } else {
            if has_dst_ext(p) {
                assert(rs =~= seq![rq, rd]);
                lemma_chain_enc2(rq, rd);
            } else {
                assert(rs =~= seq![rq]);
                lemma_chain_enc1(rq);
            }
        }
    } else {
        if has_tstamp_ext(p) {
            if has_dst_ext(p) {
                assert(rs =~= seq![rt, rd]);
                lemma_chain_enc2(rt, rd);
            } else {
                assert(rs =~= seq![rt]);
                lemma_chain_enc1(rt);
            }
        } else {
            if has_dst_ext(p) {
                assert(rs =~= seq![rd]);
                lemma_chain_enc1(rd);
            } else {
                assert(rs =~= Seq::<ExtRecord>::empty());
            }
        }
    }
    assert(chain_enc(rs) =~= (if has_qos_ext(p) {
        rec_enc(ExtRecord::Qos(p.ext_qos), has_tstamp_ext(p) || has_dst_ext(p))
    } else {
        Seq::<u8>::empty()
    }) + (if has_tstamp_ext(p) {
        rec_enc(ExtRecord::Tstamp(p.ext_tstamp->Some_0), has_dst_ext(p))
    } else {
        Seq::<u8>::empty()
    }) + (if has_dst_ext(p) {
        rec_enc(ExtRecord::Dst, false)
    } else {
        Seq::<u8>::empty()
    }));
}

/// Writes one QoS extension record; fails exactly when it does not fit.
fn write_qos_ext(w: &mut ByteWriter, q: u8, more: bool) -> (res: Result<(), WriteError>)
    requires
        old(w).wf(),
    ensures
        final(w).wf(),
        final(w).cap() == old(w).cap(),
        match res {
            Ok(()) => old(w).bytes().len() + rec_enc(ExtRecord::Qos(q), more).len()
                    <= old(w).cap()
                && final(w).bytes() == old(w).bytes() + rec_enc(ExtRecord::Qos(q), more),
            Err(_) => old(w).bytes().len() + rec_enc(ExtRecord::Qos(q), more).len()
                    > old(w).cap()
                && old(w).bytes().is_prefix_of(final(w).bytes()),
        },
{
    let ghost rec = rec_enc(ExtRecord::Qos(q), more);
    let eh: u8 = if more { 161 } else { 33 };
    proof {
        assert(eh == crate::exts::ext_hdr(EXT_QOS_ID, ENC_VARINT, more));
        assert(rec =~= seq![eh] + venc(q as u64));
    }
    if w.write_u8(eh).is_err() {
        proof {
            assert(old(w).bytes().is_prefix_of(w.bytes()));
        }
        return Err(WriteError);
    }
    if write_varint(w, q as u64).is_err() {
        proof {
            lemma_prefix_trans(old(w).bytes(), old(w).bytes() + seq![eh], w.bytes());
        }
        return Err(WriteError);
    }
    proof {
        assert(w.bytes() =~= old(w).bytes() + rec);
    }
    Ok(())
}

/// Writes one timestamp extension record; fails exactly when it does not
/// fit (a body too long for the machine never fits).
fn write_tstamp_ext(w: &mut ByteWriter, ts: &Timestamp, more: bool) -> (res: Result<(), WriteError>)
    requires
        old(w).wf(),
    ensures
        final(w).wf(),
        final(w).cap() == old(w).cap(),
        match res {
            Ok(()) => old(w).bytes().len() + rec_enc(ExtRecord::Tstamp(ts@), more).len()
                    <= old(w).cap()
                && final(w).bytes() == old(w).bytes() + rec_enc(ExtRecord::Tstamp(ts@), more),
            Err(_) => old(w).bytes().len() + rec_enc(ExtRecord::Tstamp(ts@), more).len()
                    > old(w).cap()
                && old(w).bytes().is_prefix_of(final(w).bytes()),
        },
{
    let ghost rec = rec_enc(ExtRecord::Tstamp(ts@), more);
    let ghost c = venc(ts@.time) + ts@.id;
    let eh: u8 = if more { 194 } else { 66 };
    proof {
        assert(eh == crate::exts::ext_hdr(EXT_TSTAMP_ID, ENC_BLOCK, more));
        assert(rec =~= seq![eh] + enc_bytes(c));
        lemma_venc_len(ts.time);
    }
    if w.write_u8(eh).is_err() {
        proof {
            assert(old(w).bytes().is_prefix_of(w.bytes()));
        }
        return Err(WriteError);
    }
    let ghost d0 = old(w).bytes() + seq![eh];
    let tlen = varint_len(ts.time);
    if ts.id.len() > usize::MAX - tlen {
        proof {
            w.lemma_cap_bound();
            assert(rec.len() > usize::MAX);
            assert(old(w).bytes().is_prefix_of(w.bytes()));
        }
        return Err(WriteError);
    }
    let clen = tlen + ts.id.len();
    proof {
        assert(clen as u64 == c.len() as u64);
    }
    if write_varint(w, clen as u64).is_err() {
        proof {
            lemma_prefix_trans(old(w).bytes(), d0, w.bytes());
            assert(rec.len() == 1 + venc(c.len() as u64).len() + c.len());
        }
        return Err(WriteError);
    }
    if write_varint(w, ts.time).is_err() {
        proof {
            lemma_prefix_trans(old(w).bytes(), d0 + venc(c.len() as u64), w.bytes());
            assert(rec.len() == 1 + venc(c.len() as u64).len() + venc(ts@.time).len()
                + ts@.id.len());
        }
        return Err(WriteError);
    }
    if w.write_all(&ts.id).is_err() {
        proof {
            lemma_prefix_trans(old(w).bytes(), d0 + venc(c.len() as u64) + venc(ts@.time),
                w.bytes());
            assert(rec.len() == 1 + venc(c.len() as u64).len() + venc(ts@.time).len()
                + ts@.id.len());
        }
        return Err(WriteError);
    }
    proof {
        assert(enc_bytes(c) =~= venc(c.len() as u64) + venc(ts@.time) + ts@.id);
        assert(w.bytes() =~= old(w).bytes() + rec);
    }
    Ok(())
}

/// Writes one destination extension record; fails exactly when the single
/// header byte does not fit.
fn write_dst_ext(w: &mut ByteWriter, more: bool) -> (res: Result<(), WriteError>)
    requires
        old(w).wf(),
    ensures
        final(w).wf(),
        final(w).cap() == old(w).cap(),
        match res {
            Ok(()) => old(w).bytes().len() + rec_enc(ExtRecord::Dst, more).len() <= old(w).cap()
                && final(w).bytes() == old(w).bytes() + rec_enc(ExtRecord::Dst, more),
            Err(_) => old(w).bytes().len() + rec_enc(ExtRecord::Dst, more).len() > old(w).cap()
                && old(w).bytes().is_prefix_of(final(w).bytes()),
        },
{
    let eh: u8 = if more { 131 } else { 3 };
    proof {
        assert(eh == crate::exts::ext_hdr(EXT_DST_ID, ENC_UNIT, more));
        assert(rec_enc(ExtRecord::Dst, more) =~= seq![eh]);
    }
    if w.write_u8(eh).is_err() {
        proof {
            assert(old(w).bytes().is_prefix_of(w.bytes()));
        }
        return Err(WriteError);
    }
    proof {
        assert(w.bytes() =~= old(w).bytes() + seq![eh]);
    }
    Ok(())
}

/// Writes a message's whole extension chain in the fixed order, threading
/// the continuation count; fails exactly when the chain does not fit.
#[verifier::rlimit(100)]
fn write_push_exts(w: &mut ByteWriter, x: &Push) -> (res: Result<(), WriteError>)
    requires
        old(w).wf(),
    ensures
        final(w).wf(),
        final(w).cap() == old(w).cap(),
        match res {
            Ok(()) => old(w).bytes().len() + chain_enc(push_recs(x@)).len() <= old(w).cap()
                && final(w).bytes() == old(w).bytes() + chain_enc(push_recs(x@)),
            Err(_) => old(w).bytes().len() + chain_enc(push_recs(x@)).len() > old(w).cap()
                && old(w).bytes().is_prefix_of(final(w).bytes()),
        },
{
    let ghost p = x@;
    let ghost ch = chain_enc(push_recs(p));
    let qos_p = x.ext_qos != DEFAULT_QOS;
    let tstamp_p = x.ext_tstamp.is_some();
    let dst_p = x.ext_dst != Destination::default();
    let mut n_exts: u8 = 0;
    if qos_p {
        n_exts = n_exts + 1;
    }
    if tstamp_p {
        n_exts = n_exts + 1;
    }
    if dst_p {
        n_exts = n_exts + 1;
    }
    let ghost seg3: Seq<u8> = if qos_p {
        rec_enc(ExtRecord::Qos(p.ext_qos), tstamp_p || dst_p)
    } else {
        Seq::<u8>::empty()
    };
    let ghost seg4: Seq<u8> = if tstamp_p {
        rec_enc(ExtRecord::Tstamp(p.ext_tstamp->Some_0), dst_p)
    } else {
        Seq::<u8>::empty()
    };
    let ghost seg5: Seq<u8> = if dst_p { rec_enc(ExtRecord::Dst, false) } else { Seq::<u8>::empty() };
    proof {
        lemma_push_chain_enc(p);
        assert(ch =~= seg3 + seg4 + seg5);
        assert(ch.len() == seg3.len() + seg4.len() + seg5.len());
    }
    if qos_p {
        n_exts = n_exts - 1;
        let more = n_exts != 0;
        proof {
            assert(more == (tstamp_p || dst_p));
        }
        if write_qos_ext(w, x.ext_qos, more).is_err() {
            return Err(WriteError);
        }
    }
    let ghost d3 = old(w).bytes() + seg3;
    proof {
        assert(w.bytes() =~= d3);
    }
    match &x.ext_tstamp {
        Some(ts) => {
            n_exts = n_exts - 1;
            let more = n_exts != 0;
            proof {
                assert(more == dst_p);
                assert(p.ext_tstamp->Some_0 == ts@);
            }
            if write_tstamp_ext(w, ts, more).is_err() {
                proof {
                    lemma_prefix_trans(old(w).bytes(), d3, w.bytes());
                }
                return Err(WriteError);
            }
        },
        None => {},
    }
    let ghost d4 = d3 + seg4;
    proof {
        assert(w.bytes() =~= d4);
    }
    if dst_p {
        n_exts = n_exts - 1;
        proof {
            assert(n_exts == 0);
        }
        if write_dst_ext(w, false).is_err() {
            proof {
                lemma_prefix_trans(old(w).bytes(), d4, w.bytes());
            }
            return Err(WriteError);
        }
    }
    proof {
        old(w).lemma_wf_len();
        assert(w.bytes() =~= old(w).bytes() + ch);
    }
    Ok(())
}

/// Encodes a message onto the writer; fails exactly when the encoding does
/// not fit in the writer's remaining capacity — nothing else can fail,
/// every message has an encoding.
#[verifier::rlimit(100)]
pub fn encode_push(w: &mut ByteWriter, x: &Push) -> (res: Result<(), WriteError>)
    requires
        old(w).wf(),
    ensures
        final(w).wf(),
        final(w).cap() == old(w).cap(),
        match res {
            Ok(()) => old(w).bytes().len() + push_enc(x@).len() <= old(w).cap()
                && final(w).bytes() == old(w).bytes() + push_enc(x@),
            Err(_) => old(w).bytes().len() + push_enc(x@).len() > old(w).cap()
                && old(w).bytes().is_prefix_of(final(w).bytes()),
        },
{
    let ghost p = x@;
    let ghost e = push_enc(p);
    let qos_p = x.ext_qos != DEFAULT_QOS;
    let tstamp_p = x.ext_tstamp.is_some();
    let dst_p = x.ext_dst != Destination::default();
    let sfx_p = x.wire_expr.has_suffix();
    let map_p = x.mapping != Mapping::default();
    let have_exts = qos_p || tstamp_p || dst_p;
    let mut header: u8 = PUSH_ID;
    if have_exts {
        header = header + FLAG_Z;
    }
    if map_p {
        header = header + FLAG_M;
    }
    if sfx_p {
        header = header + FLAG_N;
    }
    let ghost seg1 = venc(p.wire_expr.scope);
    let ghost seg2: Seq<u8> = if sfx_p { enc_bytes(p.wire_expr.suffix) } else { Seq::<u8>::empty() };
    let ghost ch = chain_enc(push_recs(p));
    let ghost seg6 = enc_bytes(p.payload);
    proof {
        assert(header == push_header(p));
        assert(wire_expr_enc(p.wire_expr) =~= seg1 + seg2);
        assert(e =~= seq![header] + seg1 + seg2 + ch + seg6);
        assert(e.len() == 1 + seg1.len() + seg2.len() + ch.len() + seg6.len());
    }

    // header
    if w.write_u8(header).is_err() {
        proof {
            assert(old(w).bytes().is_prefix_of(w.bytes()));
        }
        return Err(WriteError);
    }
    let ghost d0 = old(w).bytes() + seq![header];

    // wire expression: scope alias
    if write_varint(w, x.wire_expr.scope).is_err() {
        proof {
            lemma_prefix_trans(old(w).bytes(), d0, w.bytes());
        }
        return Err(WriteError);
    }
    let ghost d1 = d0 + seg1;

    // wire expression: suffix, gated by the N flag
    if write_cond_buf(w, sfx_p, &x.wire_expr.suffix).is_err() {
        proof {
            lemma_prefix_trans(old(w).bytes(), d1, w.bytes());
        }
        return Err(WriteError);
    }
    let ghost d2 = d1 + seg2;
    proof {
        assert(w.bytes() =~= d2);
    }

    // extension chain
    if write_push_exts(w, x).is_err() {
        proof {
            lemma_prefix_trans(old(w).bytes(), d2, w.bytes());
        }
        return Err(WriteError);
    }
    let ghost d5 = d2 + ch;
    proof {
        assert(w.bytes() =~= d5);
    }

    // payload
    if write_buf(w, &x.payload).is_err() {
        proof {
            lemma_prefix_trans(old(w).bytes(), d5, w.bytes());
        }
        return Err(WriteError);
    }
    proof {
        assert(w.bytes() =~= old(w).bytes() + e);
    }
    Ok(())
}

/// Decodes a whole extension chain at the reader's cursor, looping until a
/// record's continuation bit is clear; unknown kinds are skipped by their
/// self-described length, and every kind never seen keeps its default.
/// Fails exactly when the stream ends mid-record, a body is malformed, or
/// a selector is invalid.
#[verifier::rlimit(100)]
fn decode_exts(r: &mut ByteReader) -> (res: Result<(u8, Option<Timestamp>, Destination), ReadError>)
    requires
        old(r).wf(),
    ensures
        final(r).wf(),
        match res {
            Ok(out) => exts_dec(old(r).remaining(), ext_defaults()) matches Some((stf, n))
                && stf == crate::exts::ext_state_of(out.0, out.1, out.2)
                && final(r).remaining() == old(r).remaining().skip(n),
            Err(_) => exts_dec(old(r).remaining(), ext_defaults()) is None,
        },
{
    let ghost chain0 = old(r).remaining();
    let mut ext_qos: u8 = DEFAULT_QOS;
    let mut ext_tstamp: Option<Timestamp> = None;
    let mut ext_dst: Destination = Destination::Subscribers;
    let ghost mut cons: int = 0;
    let mut has_ext = true;
    proof {
        assert(crate::exts::ext_state_of(ext_qos, ext_tstamp, ext_dst) =~= ext_defaults());
    }
    while has_ext
        invariant
            r.wf(),
            chain0 == old(r).remaining(),
            0 <= cons <= chain0.len(),
            r.remaining() == chain0.skip(cons),
            ({
                let stc = crate::exts::ext_state_of(ext_qos, ext_tstamp, ext_dst);
                if has_ext {
                    exts_dec(chain0, ext_defaults()) == (match exts_dec(chain0.skip(cons), stc) {
                        Some((stf, n)) => Some((stf, cons + n)),
                        None => None::<(ExtState, int)>,
                    })
                } else {
                    exts_dec(chain0, ext_defaults()) == Some((stc, cons))
                }
            }),
        decreases chain0.len() - cons,
    {
        let ghost rem0 = r.remaining();
        let ghost st0 = crate::exts::ext_state_of(ext_qos, ext_tstamp, ext_dst);
        let ghost mut used: int = 0;
        let eh = match r.read_u8() {
            Ok(b) => b,
            Err(_) => {
                proof {
                    assert(exts_dec(rem0, st0) is None);
                }
                return Err(ReadError);
            },
        };
        proof {
            assert(eh == rem0[0]);
            assert(r.remaining() =~= rem0.skip(1));
        }
        let id = eh % 32;
        let enc = (eh / 32) % 4;
        if id == EXT_QOS_ID && enc == ENC_VARINT {
            let v = match read_varint(r) {
                Ok(v) => v,
                Err(_) => {
                    proof {
                        assert(ext_step(rem0, st0) is None);
                        assert(exts_dec(rem0, st0) is None);
                    }
                    return Err(ReadError);
                },
            };
            if v > 255 {
                proof {
                    assert(ext_step(rem0, st0) is None);
                    assert(exts_dec(rem0, st0) is None);
                }
                return Err(ReadError);
            }
            ext_qos = v as u8;
            proof {
                lemma_vdec_consumed(rem0.skip(1));
                let n = vdec(rem0.skip(1))->Some_0.1;
                used = 1 + n;
                assert(ext_step(rem0, st0)
                    == Some((crate::exts::ext_state_of(ext_qos, ext_tstamp, ext_dst), used)));
                assert(r.remaining() =~= rem0.skip(used));
            }
        } else if id == EXT_TSTAMP_ID && enc == ENC_BLOCK {
            let c = match read_buf(r) {
                Ok(c) => c,
                Err(_) => {
                    proof {
                        assert(ext_step(rem0, st0) is None);
                        assert(exts_dec(rem0, st0) is None);
                    }
                    return Err(ReadError);
                },
            };
            let ghost cv = c@;
            let mut cr = ByteReader::new(c);
            let time = match read_varint(&mut cr) {
                Ok(t) => t,
                Err(_) => {
                    proof {
                        assert(vdec(cv) is None);
                        assert(ext_step(rem0, st0) is None);
                        assert(exts_dec(rem0, st0) is None);
                    }
                    return Err(ReadError);
                },
            };
            let idb = cr.read_rest();
            ext_tstamp = Some(Timestamp { time, id: idb });
            proof {
                lemma_bytes_dec_consumed(rem0.skip(1));
                lemma_vdec_consumed(cv);
                let n = bytes_dec(rem0.skip(1))->Some_0.1;
                let k = vdec(cv)->Some_0.1;
                used = 1 + n;
                assert(idb@ =~= cv.skip(k));
                assert(ext_step(rem0, st0)
                    == Some((crate::exts::ext_state_of(ext_qos, ext_tstamp, ext_dst), used)));
                assert(r.remaining() =~= rem0.skip(used));
            }
        } else if id == EXT_DST_ID && enc == ENC_UNIT {
            ext_dst = Destination::Queryables;
            proof {
                used = 1;
                assert(ext_step(rem0, st0)
                    == Some((crate::exts::ext_state_of(ext_qos, ext_tstamp, ext_dst), 1int)));
            }
        } else if enc == ENC_UNIT {
            proof {
                used = 1;
                assert(ext_step(rem0, st0) == Some((st0, 1int)));
            }
        } else if enc == ENC_VARINT {
            match read_varint(r) {
                Ok(_) => {},
                Err(_) => {
                    proof {
                        assert(ext_step(rem0, st0) is None);
                        assert(exts_dec(rem0, st0) is None);
                    }
                    return Err(ReadError);
                },
            }
            proof {
                lemma_vdec_consumed(rem0.skip(1));
                let n = vdec(rem0.skip(1))->Some_0.1;
                used = 1 + n;
                assert(ext_step(rem0, st0) == Some((st0, used)));
                assert(r.remaining() =~= rem0.skip(used));
            }
        } else if enc == ENC_BLOCK {
            match read_buf(r) {
                Ok(_) => {},
                Err(_) => {
                    proof {
                        assert(ext_step(rem0, st0) is None);
                        assert(exts_dec(rem0, st0) is None);
                    }
                    return Err(ReadError);
                },
            }
            proof {
                lemma_bytes_dec_consumed(rem0.skip(1));
                let n = bytes_dec(rem0.skip(1))->Some_0.1;
                used = 1 + n;
                assert(ext_step(rem0, st0) == Some((st0, used)));
                assert(r.remaining() =~= rem0.skip(used));
            }
        } else {
            proof {
                assert(ext_step(rem0, st0) is None);
                assert(exts_dec(rem0, st0) is None);
            }
            return Err(ReadError);
        }
        has_ext = eh >= 128;
        proof {
            let st1 = crate::exts::ext_state_of(ext_qos, ext_tstamp, ext_dst);
            assert(ext_step(rem0, st0) == Some((st1, used)));
            assert(1 <= used <= rem0.len());
            assert(ext_more(rem0[0]) == (eh >= 128));
            if has_ext {
                assert(exts_dec(rem0, st0) == (match exts_dec(rem0.skip(used), st1) {
                    Some((stf, n2)) => Some((stf, used + n2)),
                    None => None::<(ExtState, int)>,
                }));
            } else {
                assert(exts_dec(rem0, st0) == Some((st1, used)));
            }
            cons = cons + used;
            assert(chain0.skip(cons) =~= rem0.skip(used));
            if has_ext {
                match exts_dec(chain0.skip(cons), st1) {
                    Some((stf, n2)) => {
                        assert(exts_dec(rem0, st0) == Some((stf, used + n2)));
                        assert(exts_dec(chain0, ext_defaults()) == Some((stf, cons + n2)));
                    },
                    None => {
                        assert(exts_dec(rem0, st0) is None);
                        assert(exts_dec(chain0, ext_defaults()) is None);
                    },
                }
            } else {
                assert(exts_dec(chain0, ext_defaults()) == Some((st1, cons)));
            }
        }
    }
    proof {
        assert(exts_dec(chain0, ext_defaults())
            == Some((crate::exts::ext_state_of(ext_qos, ext_tstamp, ext_dst), cons)));
    }
    Ok((ext_qos, ext_tstamp, ext_dst))
}

/// Decodes one Push message at the reader's cursor; fails exactly when the
/// bytes there do not begin a well-formed Push encoding — a wrong kind id,
/// a truncated stream and a malformed component are all read errors — and
/// never returns a partially-filled message.
#[verifier::rlimit(100)]
pub fn decode_push(r: &mut ByteReader) -> (res: Result<Push, ReadError>)
    requires
        old(r).wf(),
    ensures
        final(r).wf(),
        match res {
            Ok(x) => push_dec(old(r).remaining()) matches Some((pv, n))
                && pv == x@
                && final(r).remaining() == old(r).remaining().skip(n),
            Err(_) => push_dec(old(r).remaining()) is None,
        },
{
    let ghost s = old(r).remaining();
    let h = match r.read_u8() {
        Ok(h) => h,
        Err(_) => {
            return Err(ReadError);
        },
    };
    proof {
        assert(h == s[0]);
        assert(r.remaining() =~= s.skip(1));
    }
    if h % 32 != PUSH_ID {
        return Err(ReadError);
    }
    let n_flag = (h / 32) % 2 == 1;
    let m_flag = (h / 64) % 2 == 1;
    let z_flag = h >= 128;

    // body: the wire expression, its suffix gated by the N flag
    let scope = match read_varint(r) {
        Ok(v) => v,
        Err(_) => {
            return Err(ReadError);
        },
    };
    proof {
        lemma_vdec_consumed(s.skip(1));
    }
    let ghost n1 = vdec(s.skip(1))->Some_0.1;
    let ghost p1 = 1 + n1;
    proof {
        assert(r.remaining() =~= s.skip(p1));
    }
    let suffix: Vec<u8> = match read_cond_buf(r, n_flag) {
        Ok(v) => v,
        Err(_) => {
            return Err(ReadError);
        },
    };
    proof {
        if hdr_n(h) {
            lemma_bytes_dec_consumed(s.skip(p1));
        }
    }
    let ghost n2: int = if hdr_n(h) { bytes_dec(s.skip(p1))->Some_0.1 } else { 0 };
    let ghost p2 = p1 + n2;
    proof {
        assert(r.remaining() =~= s.skip(p2));
        assert(suffix@ == (if hdr_n(h) {
            bytes_dec(s.skip(p1))->Some_0.0
        } else {
            Seq::<u8>::empty()
        }));
    }

    // extensions, present exactly when the Z flag is set
    let (ext_qos, ext_tstamp, ext_dst) = if z_flag {
        match decode_exts(r) {
            Ok(out) => out,
            Err(_) => {
                return Err(ReadError);
            },
        }
    } else {
        (DEFAULT_QOS, None, Destination::Subscribers)
    };
    proof {
        if hdr_z(h) {
            lemma_exts_dec_consumed(s.skip(p2), ext_defaults());
        }
    }
    let ghost n3: int = if hdr_z(h) { exts_dec(s.skip(p2), ext_defaults())->Some_0.1 } else { 0 };
    let ghost p3 = p2 + n3;
    proof {
        assert(r.remaining() =~= s.skip(p3));
        assert(crate::exts::ext_state_of(ext_qos, ext_tstamp, ext_dst) == (if hdr_z(h) {
            exts_dec(s.skip(p2), ext_defaults())->Some_0.0
        } else {
            ext_defaults()
        }));
    }

    // payload, read last, unconditionally
    let payload = match read_buf(r) {
        Ok(v) => v,
        Err(_) => {
            return Err(ReadError);
        },
    };
    proof {
        lemma_bytes_dec_consumed(s.skip(p3));
    }
    let ghost n4 = bytes_dec(s.skip(p3))->Some_0.1;
    let x = Push {
        wire_expr: WireExpr { scope, suffix },
        mapping: if m_flag {
            Mapping::Sender
        } else {
            Mapping::Receiver
        },
        payload,
        ext_qos,
        ext_tstamp,
        ext_dst,
    };
    proof {
        assert(push_dec(s) is Some);
        assert(push_dec(s)->Some_0.0 =~= x@);
        assert(push_dec(s)->Some_0.1 == p3 + n4);
        assert(r.remaining() =~= s.skip(p3 + n4));
    }
    Ok(x)
}

} // verus!
