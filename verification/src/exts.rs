//! Extension-record chain: an ordered sequence of optional, self-describing
//! metadata records attached to a message.
//!
//! Each record is one header byte — kind id in the low five bits, a body
//! encoding selector in the next two, the continuation bit on top —
//! followed by the record's body. The selector makes every body
//! self-length-describing, so a decoder that does not recognise a kind id
//! still consumes exactly the record's bytes and stays aligned: unknown
//! kinds are skipped, never an error. The chain ends at the first record
//! whose continuation bit is clear; a message with no extensions encodes
//! zero records and clears its own "has extensions" header flag instead.

use vstd::prelude::*;
use vstd::arithmetic::div_mod::lemma_fundamental_div_mod_converse;
use crate::varint::{venc, vdec, enc_bytes, bytes_dec};
use crate::varint::{
    lemma_venc_len, lemma_venc_vdec, lemma_vdec_extend,
    lemma_enc_bytes_dec, lemma_bytes_dec_extend,
};

verus! {

/// Kind id of the quality-of-service extension (body: one varint).
pub const EXT_QOS_ID: u8 = 1;
/// Kind id of the timestamp extension (body: one length-prefixed block).
pub const EXT_TSTAMP_ID: u8 = 2;
/// Kind id of the destination extension (no body).
pub const EXT_DST_ID: u8 = 3;

/// Body encoding selector: no body at all.
pub const ENC_UNIT: u8 = 0;
/// Body encoding selector: the body is a single varint.
pub const ENC_VARINT: u8 = 1;
/// Body encoding selector: the body is a length-prefixed block.
pub const ENC_BLOCK: u8 = 2;

/// The default quality-of-service byte; a message whose QoS equals it
/// carries no QoS extension on the wire.
pub const DEFAULT_QOS: u8 = 5;

/// Where a message is directed; conveyed by the bodyless destination
/// extension, whose mere presence selects [`Destination::Queryables`].
#[derive(Clone, Copy, PartialEq, Eq, Structural, Debug)]
pub enum Destination {
    Subscribers,
    Queryables,
}

impl Default for Destination {
    fn default() -> (d: Destination)
        ensures
            d == Destination::Subscribers,
    {
        Destination::Subscribers
    }
}

/// A point in time paired with the identifier of the clock that produced
/// it; carried by the timestamp extension.
pub struct Timestamp {
    pub time: u64,
    pub id: Vec<u8>,
}

/// The mathematical value of a [`Timestamp`].
#[verifier::ext_equal]
pub struct TimestampView {
    pub time: u64,
    pub id: Seq<u8>,
}

impl View for Timestamp {
    type V = TimestampView;

    open spec fn view(&self) -> TimestampView {
        TimestampView { time: self.time, id: self.id@ }
    }
}

/// The fields a decoded extension chain fills in: every kind the chain
/// never mentions keeps its default.
#[verifier::ext_equal]
pub struct ExtState {
    pub qos: u8,
    pub tstamp: Option<TimestampView>,
    pub dst: Destination,
}

/// The [`ExtState`] a set of decoded extension values stands for.
pub open spec fn ext_state_of(q: u8, ts: Option<Timestamp>, d: Destination) -> ExtState {
    ExtState {
        qos: q,
        tstamp: match ts {
            Some(t) => Some(t@),
            None => None,
        },
        dst: d,
    }
}

/// The state a decoder starts from: all extension kinds at their default.
pub open spec fn ext_defaults() -> ExtState {
    ExtState { qos: DEFAULT_QOS, tstamp: None, dst: Destination::Subscribers }
}

/// The kind id held in an extension header byte.
pub open spec fn ext_id(h: u8) -> u8 {
    h % 32
}

/// The body encoding selector held in an extension header byte.
pub open spec fn ext_enc(h: u8) -> u8 {
    (h / 32) % 4
}

/// Whether the header byte announces another record after this one.
pub open spec fn ext_more(h: u8) -> bool {
    h >= 128
}

/// The header byte with the given kind id, selector and continuation bit.
pub open spec fn ext_hdr(id: u8, enc: u8, more: bool) -> u8
    recommends
        id < 32,
        enc < 4,
{
    (id + 32 * enc + if more { 128int } else { 0int }) as u8
}

proof fn lemma_ext_hdr(id: u8, enc: u8, more: bool)
    requires
        id < 32,
        enc < 4,
    ensures
        ext_id(ext_hdr(id, enc, more)) == id,
        ext_enc(ext_hdr(id, enc, more)) == enc,
        ext_more(ext_hdr(id, enc, more)) == more,
{
    let m: int = if more { 1 } else { 0 };
    let h = ext_hdr(id, enc, more);
    assert(h == id + 32 * enc + 128 * m);
    lemma_fundamental_div_mod_converse(h as int, 32, enc + 4 * m, id as int);
    lemma_fundamental_div_mod_converse(enc + 4 * m, 4, m, enc as int);
}

/// Decodes one extension record at the head of `s` into an updated state
/// and the bytes consumed: known kinds fill their field, unknown kinds are
/// skipped by their self-described body length.
pub open spec fn ext_step(s: Seq<u8>, st: ExtState) -> Option<(ExtState, int)> {
    if s.len() == 0 {
        None
    } else {
        let h = s[0];
        let body = s.skip(1);
        if ext_id(h) == EXT_QOS_ID && ext_enc(h) == ENC_VARINT {
            match vdec(body) {
                Some((v, n)) => if v <= 255 && 1 + n <= s.len() {
                    Some((ExtState { qos: v as u8, tstamp: st.tstamp, dst: st.dst }, 1 + n))
                } else {
                    None
                },
                None => None,
            }
        } else if ext_id(h) == EXT_TSTAMP_ID && ext_enc(h) == ENC_BLOCK {
            match bytes_dec(body) {
                Some((c, n)) => if 1 + n <= s.len() {
                    match vdec(c) {
                        Some((tm, k)) => if 0 <= k <= c.len() {
                            Some((ExtState {
                                qos: st.qos,
                                tstamp: Some(TimestampView { time: tm, id: c.skip(k) }),
                                dst: st.dst,
                            }, 1 + n))
                        } else {
                            None
                        },
                        None => None,
                    }
                } else {
                    None
                },
                None => None,
            }
        } else if ext_id(h) == EXT_DST_ID && ext_enc(h) == ENC_UNIT {
            Some((ExtState { qos: st.qos, tstamp: st.tstamp, dst: Destination::Queryables }, 1))
        } else if ext_enc(h) == ENC_UNIT {
            Some((st, 1))
        } else if ext_enc(h) == ENC_VARINT {
            match vdec(body) {
                Some((v, n)) => if 1 + n <= s.len() {
                    Some((st, 1 + n))
                } else {
                    None
                },
                None => None,
            }
        } else if ext_enc(h) == ENC_BLOCK {
            match bytes_dec(body) {
                Some((c, n)) => if 1 + n <= s.len() {
                    Some((st, 1 + n))
                } else {
                    None
                },
                None => None,
            }
        } else {
            None
        }
    }
}

/// Decodes a whole chain (at least one record) at the head of `s`,
/// following continuation bits, and yields the final state and the bytes
/// consumed; fails if the stream ends mid-record or a body is malformed.
pub open spec fn exts_dec(s: Seq<u8>, st: ExtState) -> Option<(ExtState, int)>
    decreases s.len(),
{
    if s.len() == 0 {
        None
    } else {
        match ext_step(s, st) {
            Some((st2, used)) => if 1 <= used <= s.len() {
                if ext_more(s[0]) {
                    match exts_dec(s.skip(used), st2) {
                        Some((st3, n2)) => Some((st3, used + n2)),
                        None => None,
                    }
                } else {
                    Some((st2, used))
                }
            } else {
                None
            },
            None => None,
        }
    }
}

/// One extension record as a value: the three known kinds, and the three
/// shapes an unrecognised kind can take on the wire.
pub enum ExtRecord {
    Qos(u8),
    Tstamp(TimestampView),
    Dst,
    UnknownUnit(u8),
    UnknownVarint(u8, u64),
    UnknownBlock(u8, Seq<u8>),
}

/// Whether a record can be put on the wire: unknown kind ids must fit the
/// five id bits and must not collide with a known (id, selector) pair, and
/// block bodies must have an encodable length.
pub open spec fn rec_valid(rec: ExtRecord) -> bool {
    match rec {
        ExtRecord::Qos(_) => true,
        ExtRecord::Tstamp(tv) => tv.id.len() + 10 <= u64::MAX,
        ExtRecord::Dst => true,
        ExtRecord::UnknownUnit(id) => id < 32 && id != EXT_DST_ID,
        ExtRecord::UnknownVarint(id, _) => id < 32 && id != EXT_QOS_ID,
        ExtRecord::UnknownBlock(id, b) => id < 32 && id != EXT_TSTAMP_ID && b.len() <= u64::MAX,
    }
}

/// Which extension field a record speaks to; unknown shapes are told apart
/// too, though none of them touches any field.
pub open spec fn rec_kind(rec: ExtRecord) -> int {
    match rec {
        ExtRecord::Qos(_) => 0,
        ExtRecord::Tstamp(_) => 1,
        ExtRecord::Dst => 2,
        ExtRecord::UnknownUnit(_) => 3,
        ExtRecord::UnknownVarint(_, _) => 4,
        ExtRecord::UnknownBlock(_, _) => 5,
    }
}

pub open spec fn rec_is_unknown(rec: ExtRecord) -> bool {
    match rec {
        ExtRecord::UnknownUnit(_) => true,
        ExtRecord::UnknownVarint(_, _) => true,
        ExtRecord::UnknownBlock(_, _) => true,
        _ => false,
    }
}

/// The bytes of one record, with the given continuation bit.
pub open spec fn rec_enc(rec: ExtRecord, more: bool) -> Seq<u8> {
    match rec {
        ExtRecord::Qos(q) => seq![ext_hdr(EXT_QOS_ID, ENC_VARINT, more)] + venc(q as u64),
        ExtRecord::Tstamp(tv) => seq![ext_hdr(EXT_TSTAMP_ID, ENC_BLOCK, more)]
            + enc_bytes(venc(tv.time) + tv.id),
        ExtRecord::Dst => seq![ext_hdr(EXT_DST_ID, ENC_UNIT, more)],
        ExtRecord::UnknownUnit(id) => seq![ext_hdr(id, ENC_UNIT, more)],
        ExtRecord::UnknownVarint(id, v) => seq![ext_hdr(id, ENC_VARINT, more)] + venc(v),
        ExtRecord::UnknownBlock(id, b) => seq![ext_hdr(id, ENC_BLOCK, more)] + enc_bytes(b),
    }
}

/// What decoding one record does to the state: known kinds set their
/// field, unknown kinds change nothing.
pub open spec fn rec_apply(rec: ExtRecord, st: ExtState) -> ExtState {
    match rec {
        ExtRecord::Qos(q) => ExtState { qos: q, tstamp: st.tstamp, dst: st.dst },
        ExtRecord::Tstamp(tv) => ExtState { qos: st.qos, tstamp: Some(tv), dst: st.dst },
        ExtRecord::Dst => ExtState { qos: st.qos, tstamp: st.tstamp, dst: Destination::Queryables },
        _ => st,
    }
}

/// The bytes of a whole chain: every record but the last carries the
/// continuation bit.
pub open spec fn chain_enc(rs: Seq<ExtRecord>) -> Seq<u8>
    decreases rs.len(),
{
    if rs.len() == 0 {
        Seq::empty()
    } else {
        rec_enc(rs[0], rs.len() > 1) + chain_enc(rs.skip(1))
    }
}

/// The state after decoding the records of `rs` in order.
pub open spec fn chain_apply(rs: Seq<ExtRecord>, st: ExtState) -> ExtState
    decreases rs.len(),
{
    if rs.len() == 0 {
        st
    } else {
        chain_apply(rs.skip(1), rec_apply(rs[0], st))
    }
}

pub open spec fn all_valid(rs: Seq<ExtRecord>) -> bool {
    forall|i: int| 0 <= i < rs.len() ==> rec_valid(#[trigger] rs[i])
}

/// Decoding one encoded record consumes exactly its bytes and applies
/// exactly its effect, whatever follows it.
proof fn lemma_rec_step(rec: ExtRecord, more: bool, rest: Seq<u8>, st: ExtState)
    requires
        rec_valid(rec),
    ensures
        rec_enc(rec, more).len() >= 1,
        (rec_enc(rec, more) + rest)[0] == rec_enc(rec, more)[0],
        ext_more(rec_enc(rec, more)[0]) == more,
        ext_step(rec_enc(rec, more) + rest, st)
            == Some((rec_apply(rec, st), rec_enc(rec, more).len() as int)),
{
    let s = rec_enc(rec, more) + rest;
    match rec {
        ExtRecord::Qos(q) => {
            let h = ext_hdr(EXT_QOS_ID, ENC_VARINT, more);
            lemma_ext_hdr(EXT_QOS_ID, ENC_VARINT, more);
            assert(s[0] == h);
            assert(s.skip(1) =~= venc(q as u64) + rest);
            lemma_venc_vdec(q as u64, rest);
            lemma_venc_len(q as u64);
        },
        ExtRecord::Tstamp(tv) => {
            let h = ext_hdr(EXT_TSTAMP_ID, ENC_BLOCK, more);
            lemma_ext_hdr(EXT_TSTAMP_ID, ENC_BLOCK, more);
            assert(s[0] == h);
            let c = venc(tv.time) + tv.id;
            lemma_venc_len(tv.time);
            assert(s.skip(1) =~= enc_bytes(c) + rest);
            lemma_enc_bytes_dec(c, rest);
            lemma_venc_vdec(tv.time, tv.id);
            let k = venc(tv.time).len() as int;
            assert(c.skip(k) =~= tv.id);
            assert(ext_step(s, st) == Some((rec_apply(rec, st), rec_enc(rec, more).len() as int)));
        },
        ExtRecord::Dst => {
            lemma_ext_hdr(EXT_DST_ID, ENC_UNIT, more);
            assert(s[0] == ext_hdr(EXT_DST_ID, ENC_UNIT, more));
        },
        ExtRecord::UnknownUnit(id) => {
            lemma_ext_hdr(id, ENC_UNIT, more);
            assert(s[0] == ext_hdr(id, ENC_UNIT, more));
        },
        ExtRecord::UnknownVarint(id, v) => {
            lemma_ext_hdr(id, ENC_VARINT, more);
            assert(s[0] == ext_hdr(id, ENC_VARINT, more));
            assert(s.skip(1) =~= venc(v) + rest);
            lemma_venc_vdec(v, rest);
            lemma_venc_len(v);
        },
        ExtRecord::UnknownBlock(id, b) => {
            lemma_ext_hdr(id, ENC_BLOCK, more);
            assert(s[0] == ext_hdr(id, ENC_BLOCK, more));
            assert(s.skip(1) =~= enc_bytes(b) + rest);
            lemma_enc_bytes_dec(b, rest);
        },
    }
}

/// Decoding an encoded chain yields exactly the state its records build
/// and consumes exactly its bytes, whatever follows it.
pub proof fn lemma_chain_dec(rs: Seq<ExtRecord>, t: Seq<u8>, st: ExtState)
    requires
        rs.len() >= 1,
        all_valid(rs),
    ensures
        exts_dec(chain_enc(rs) + t, st)
            == Some((chain_apply(rs, st), chain_enc(rs).len() as int)),
    decreases rs.len(),
{
    let more = rs.len() > 1;
    let tail = chain_enc(rs.skip(1)) + t;
    let s = chain_enc(rs) + t;
    assert(s =~= rec_enc(rs[0], more) + tail);
    lemma_rec_step(rs[0], more, tail, st);
    let used = rec_enc(rs[0], more).len() as int;
    assert(s.len() >= 1);
    if more {
        assert(s.skip(used) =~= chain_enc(rs.skip(1)) + t);
        assert(all_valid(rs.skip(1)));
        lemma_chain_dec(rs.skip(1), t, rec_apply(rs[0], st));
        assert(chain_enc(rs).len() == used + chain_enc(rs.skip(1)).len());
    } else {
        assert(rs.skip(1).len() == 0);
        assert(chain_apply(rs.skip(1), rec_apply(rs[0], st)) == rec_apply(rs[0], st));
        assert(chain_apply(rs, st) == rec_apply(rs[0], st));
        assert(chain_enc(rs) =~= rec_enc(rs[0], false));
    }
}

/// Bytes appended after a decodable chain change nothing about it.
proof fn lemma_ext_step_extend(s: Seq<u8>, t: Seq<u8>, st: ExtState)
    requires
        ext_step(s, st) is Some,
    ensures
        ext_step(s + t, st) == ext_step(s, st),
{
    assert((s + t)[0] == s[0]);
    let h = s[0];
    assert((s + t).skip(1) =~= s.skip(1) + t);
    if ext_id(h) == EXT_QOS_ID && ext_enc(h) == ENC_VARINT {
        lemma_vdec_extend(s.skip(1), t);
    } else if ext_id(h) == EXT_TSTAMP_ID && ext_enc(h) == ENC_BLOCK {
        lemma_bytes_dec_extend(s.skip(1), t);
    } else if ext_id(h) == EXT_DST_ID && ext_enc(h) == ENC_UNIT {
    } else if ext_enc(h) == ENC_UNIT {
    } else if ext_enc(h) == ENC_VARINT {
        lemma_vdec_extend(s.skip(1), t);
    } else if ext_enc(h) == ENC_BLOCK {
        lemma_bytes_dec_extend(s.skip(1), t);
    }
}

pub proof fn lemma_exts_dec_extend(s: Seq<u8>, t: Seq<u8>, st: ExtState)
    requires
        exts_dec(s, st) is Some,
    ensures
        exts_dec(s + t, st) == exts_dec(s, st),
    decreases s.len(),
{
    lemma_ext_step_extend(s, t, st);
    let (st2, used) = ext_step(s, st)->Some_0;
    assert((s + t)[0] == s[0]);
    if ext_more(s[0]) {
        assert((s + t).skip(used) =~= s.skip(used) + t);
        lemma_exts_dec_extend(s.skip(used), t, st2);
    }
}

pub proof fn lemma_exts_dec_consumed(s: Seq<u8>, st: ExtState)
    ensures
        exts_dec(s, st) matches Some((stf, n)) ==> 1 <= n <= s.len(),
    decreases s.len(),
{
    if s.len() > 0 {
        match ext_step(s, st) {
            Some((st2, used)) => {
                if 1 <= used <= s.len() && ext_more(s[0]) {
                    lemma_exts_dec_consumed(s.skip(used), st2);
                }
            },
            None => {},
        }
    }
}

/// Forward compatibility: a chain that carries an unrecognised record
/// between two others decodes to exactly the state of the chain without
/// it — the unknown record is skipped, the known ones are recovered.
pub proof fn lemma_unknown_extension_skipped(
    r1: ExtRecord,
    u: ExtRecord,
    r2: ExtRecord,
    t: Seq<u8>,
    st: ExtState,
)
    requires
        rec_valid(r1),
        rec_valid(u),
        rec_valid(r2),
        rec_is_unknown(u),
    ensures
        exts_dec(chain_enc(seq![r1, u, r2]) + t, st) matches Some((stf, n))
            && stf == chain_apply(seq![r1, r2], st)
            && n == chain_enc(seq![r1, u, r2]).len(),
{
    let rs = seq![r1, u, r2];
    assert(all_valid(rs));
    lemma_chain_dec(rs, t, st);
    assert(rs.skip(1) =~= seq![u, r2]);
    assert(seq![u, r2].skip(1) =~= seq![r2]);
    assert(seq![r2].skip(1) =~= Seq::<ExtRecord>::empty());
    let rs2 = seq![r1, r2];
    assert(rs2.skip(1) =~= seq![r2]);
    assert(rec_apply(u, rec_apply(r1, st)) == rec_apply(r1, st));
    let st1 = rec_apply(r1, st);
    let ste = Seq::<ExtRecord>::empty();
    assert(chain_apply(ste, rec_apply(r2, st1)) == rec_apply(r2, st1));
    assert(chain_apply(seq![r2], st1) == rec_apply(r2, st1));
    assert(chain_apply(seq![u, r2], st1) == chain_apply(seq![r2], rec_apply(u, st1)));
    assert(chain_apply(rs, st) == chain_apply(seq![u, r2], st1));
    assert(chain_apply(rs2, st) == chain_apply(seq![r2], st1));
    assert(chain_apply(rs, st) == chain_apply(rs2, st));
}

/// Two extension records of different kinds can be decoded in either
/// order: their effects on the decoded state commute. Records of an
/// unrecognised shape commute with everything, since they change nothing.
/// Together with the chain decoding law this is why re-ordering a chain's
/// records, with the continuation bits re-threaded, never changes the
/// decoded field values.
pub proof fn lemma_rec_apply_commutes(a: ExtRecord, b: ExtRecord, st: ExtState)
    requires
        rec_kind(a) != rec_kind(b) || rec_is_unknown(a),
    ensures
        rec_apply(b, rec_apply(a, st)) == rec_apply(a, rec_apply(b, st)),
{
}

/// Replaying a chain's records is insensitive to exchanging two
/// neighbouring records of different kinds (or an unrecognised one with
/// anything): the per-record effects commute.
proof fn lemma_chain_apply_swap(rs: Seq<ExtRecord>, i: int, st: ExtState)
    requires
        0 <= i,
        i + 1 < rs.len(),
        rec_kind(rs[i]) != rec_kind(rs[i + 1]) || rec_is_unknown(rs[i]),
    ensures
        chain_apply(rs.update(i, rs[i + 1]).update(i + 1, rs[i]), st) == chain_apply(rs, st),
    decreases i,
{
    let rs2 = rs.update(i, rs[i + 1]).update(i + 1, rs[i]);
    if i == 0 {
        lemma_rec_apply_commutes(rs[0], rs[1], st);
        assert(rs.skip(1)[0] == rs[1]);
        assert(rs.skip(1).skip(1) =~= rs.skip(2));
        assert(chain_apply(rs, st) == chain_apply(rs.skip(1), rec_apply(rs[0], st)));
        assert(chain_apply(rs.skip(1), rec_apply(rs[0], st))
            == chain_apply(rs.skip(1).skip(1), rec_apply(rs[1], rec_apply(rs[0], st))));
        assert(rs2[0] == rs[1]);
        assert(rs2.skip(1)[0] == rs[0]);
        assert(rs2.skip(1).skip(1) =~= rs.skip(2));
        assert(rs2.skip(1).len() == rs.len() - 1);
        assert(chain_apply(rs2, st) == chain_apply(rs2.skip(1), rec_apply(rs[1], st)));
        assert(chain_apply(rs2.skip(1), rec_apply(rs[1], st))
            == chain_apply(rs2.skip(1).skip(1), rec_apply(rs[0], rec_apply(rs[1], st))));
        assert(chain_apply(rs2, st)
            == chain_apply(rs.skip(2), rec_apply(rs[0], rec_apply(rs[1], st))));
    } else {
        assert(rs2[0] == rs[0]);
        assert(rs2.skip(1) =~= rs.skip(1).update(i - 1, rs.skip(1)[i]).update(i, rs.skip(1)[i - 1]));
        lemma_chain_apply_swap(rs.skip(1), i - 1, rec_apply(rs[0], st));
        assert(chain_apply(rs2, st) == chain_apply(rs2.skip(1), rec_apply(rs[0], st)));
        assert(chain_apply(rs, st) == chain_apply(rs.skip(1), rec_apply(rs[0], st)));
    }
}

/// Extension order independence, in its general form: a chain with two
/// neighbouring records of different kinds exchanged — the continuation
/// bits re-threaded by the encoder as always — decodes to exactly the same
/// field values. Any re-ordering of a chain's distinct-kind records is a
/// product of such exchanges.
pub proof fn lemma_extension_swap_independent(
    rs: Seq<ExtRecord>,
    i: int,
    t: Seq<u8>,
    st: ExtState,
)
    requires
        all_valid(rs),
        0 <= i,
        i + 1 < rs.len(),
        rec_kind(rs[i]) != rec_kind(rs[i + 1]) || rec_is_unknown(rs[i]),
    ensures
        ({
            let rs2 = rs.update(i, rs[i + 1]).update(i + 1, rs[i]);
            exts_dec(chain_enc(rs) + t, st) matches Some((st1, n1))
                && exts_dec(chain_enc(rs2) + t, st) matches Some((st2, n2))
                && st1 == st2
        }),
{
    let rs2 = rs.update(i, rs[i + 1]).update(i + 1, rs[i]);
    assert(all_valid(rs2)) by {
        assert forall|k: int| 0 <= k < rs2.len() implies rec_valid(#[trigger] rs2[k]) by {
            if k == i {
                assert(rs2[k] == rs[i + 1]);
            } else if k == i + 1 {
                assert(rs2[k] == rs[i]);
            } else {
                assert(rs2[k] == rs[k]);
            }
        }
    }
    lemma_chain_dec(rs, t, st);
    lemma_chain_dec(rs2, t, st);
    lemma_chain_apply_swap(rs, i, st);
}

/// The decoded state of an encoded chain, with the consumed count dropped.
pub open spec fn chain_dec_state(rs: Seq<ExtRecord>, t: Seq<u8>, st: ExtState) -> Option<ExtState> {
    match exts_dec(chain_enc(rs) + t, st) {
        Some((stf, n)) => Some(stf),
        None => None,
    }
}

/// Extension order independence: the encoder emits the known kinds in one
/// fixed order, but a decoder accepts them in any order — every ordering
/// of the same records, with continuation bits re-threaded, decodes to the
/// same field values.
pub proof fn lemma_extension_order_independent(
    q: u8,
    tv: TimestampView,
    t: Seq<u8>,
    st: ExtState,
)
    requires
        tv.id.len() + 10 <= u64::MAX,
    ensures
        ({
            let target = Some(ExtState {
                qos: q,
                tstamp: Some(tv),
                dst: Destination::Queryables,
            });
            let rq = ExtRecord::Qos(q);
            let rt = ExtRecord::Tstamp(tv);
            let rd = ExtRecord::Dst;
            chain_dec_state(seq![rq, rt, rd], t, st) == target
                && chain_dec_state(seq![rq, rd, rt], t, st) == target
                && chain_dec_state(seq![rt, rq, rd], t, st) == target
                && chain_dec_state(seq![rt, rd, rq], t, st) == target
                && chain_dec_state(seq![rd, rq, rt], t, st) == target
                && chain_dec_state(seq![rd, rt, rq], t, st) == target
        }),
{
    let rq = ExtRecord::Qos(q);
    let rt = ExtRecord::Tstamp(tv);
    let rd = ExtRecord::Dst;
    lemma_chain_order(rq, rt, rd, t, st);
    lemma_chain_order(rq, rd, rt, t, st);
    lemma_chain_order(rt, rq, rd, t, st);
    lemma_chain_order(rt, rd, rq, t, st);
    lemma_chain_order(rd, rq, rt, t, st);
    lemma_chain_order(rd, rt, rq, t, st);
}

proof fn lemma_chain_order(a: ExtRecord, b: ExtRecord, c: ExtRecord, t: Seq<u8>, st: ExtState)
    requires
        rec_valid(a),
        rec_valid(b),
        rec_valid(c),
    ensures
        chain_dec_state(seq![a, b, c], t, st)
            == Some(rec_apply(c, rec_apply(b, rec_apply(a, st)))),
{
    let rs = seq![a, b, c];
    assert(all_valid(rs));
    lemma_chain_dec(rs, t, st);
    assert(rs.skip(1) =~= seq![b, c]);
    assert(seq![b, c].skip(1) =~= seq![c]);
    assert(seq![c].skip(1) =~= Seq::<ExtRecord>::empty());
    let st1 = rec_apply(a, st);
    let st2 = rec_apply(b, st1);
    assert(chain_apply(Seq::<ExtRecord>::empty(), rec_apply(c, st2)) == rec_apply(c, st2));
    assert(chain_apply(seq![c], st2) == rec_apply(c, st2));
    assert(chain_apply(seq![b, c], st1) == chain_apply(seq![c], st2));
    assert(chain_apply(rs, st) == chain_apply(seq![b, c], st1));
}

} // verus!
