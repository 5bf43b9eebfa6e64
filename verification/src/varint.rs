//! Variable-length integer codec: 7 payload bits per byte, least-significant
//! group first, with the high bit of each byte marking that more bytes
//! follow. A `u64` therefore takes at most 10 bytes. Decoding fails when the
//! stream ends before a terminating byte, when no terminator appears within
//! 10 bytes, or when the accumulated value would overflow 64 bits.
//!
//! On top of the bare integers sits the length-prefixed byte-block codec
//! (`enc_bytes` / `bytes_dec`, [`write_buf`] / [`read_buf`]) that every
//! self-describing body encoding uses.

use vstd::prelude::*;
use vstd::arithmetic::div_mod::lemma_fundamental_div_mod;
use crate::bytes::{ByteReader, ByteWriter, ReadError, WriteError};

verus! {

/// The bytes that encode `v`.
pub open spec fn venc(v: u64) -> Seq<u8>
    decreases v,
{
    if v < 128 {
        seq![v as u8]
    } else {
        seq![(128 + (v % 128)) as u8] + venc(v / 128)
    }
}

pub open spec fn pow128(n: nat) -> int
    decreases n,
{
    if n == 0 {
        1
    } else {
        128 * pow128((n - 1) as nat)
    }
}

/// The decoder's state after `i` continuation bytes: `acc` is the value of
/// the bytes seen so far and `mul` the weight of the next group. Yields the
/// decoded value (unbounded) and the number of bytes consumed.
pub open spec fn vdec_from(s: Seq<u8>, i: int, acc: int, mul: int) -> Option<(int, int)>
    decreases 10 - i,
{
    if i < 0 || i >= 10 || i >= s.len() {
        None
    } else if s[i] < 128 {
        Some((acc + mul * (s[i] as int), i + 1))
    } else {
        vdec_from(s, i + 1, acc + mul * ((s[i] - 128) as int), mul * 128)
    }
}

/// What decoding a varint at the head of `s` yields: the value and the
/// number of bytes consumed, or nothing if `s` holds no well-formed varint
/// that fits in a `u64`.
pub open spec fn vdec(s: Seq<u8>) -> Option<(u64, int)> {
    match vdec_from(s, 0, 0, 1) {
        Some((v, n)) => if 0 <= v <= u64::MAX {
            Some((v as u64, n))
        } else {
            None
        },
        None => None,
    }
}

proof fn lemma_pow128_pos(n: nat)
    ensures
        pow128(n) >= 1,
    decreases n,
{
    if n > 0 {
        lemma_pow128_pos((n - 1) as nat);
    }
}

proof fn lemma_pow128_mono(a: nat, b: nat)
    requires
        a <= b,
    ensures
        pow128(a) <= pow128(b),
    decreases b,
{
    if a < b {
        lemma_pow128_mono(a, (b - 1) as nat);
        lemma_pow128_pos((b - 1) as nat);
    }
}

proof fn lemma_pow128_vals()
    ensures
        pow128(8) == 0x100000000000000,
        pow128(9) == 0x8000000000000000,
        pow128(10) == 0x400000000000000000,
{
    reveal_with_fuel(pow128, 11);
}

/// An encoded varint is 1 to 10 bytes long.
proof fn lemma_venc_len_bound(v: u64, k: nat)
    requires
        k >= 1,
        v < pow128(k),
    ensures
        1 <= venc(v).len() <= k,
    decreases v,
{
    if v >= 128 {
        assert(pow128(k) == 128 * pow128((k - 1) as nat));
        assert(v / 128 < pow128((k - 1) as nat)) by (nonlinear_arith)
            requires
                v < 128 * pow128((k - 1) as nat),
                v >= 128,
        ;
        lemma_venc_len_bound(v / 128, (k - 1) as nat);
    }
}

pub proof fn lemma_venc_len(v: u64)
    ensures
        1 <= venc(v).len() <= 10,
{
    lemma_pow128_vals();
    lemma_venc_len_bound(v, 10);
}

/// A successful decode consumes at least one and at most `s.len()` bytes,
/// and never yields a negative value when started from a non-negative state.
proof fn lemma_vdec_from_consumed(s: Seq<u8>, i: int, acc: int, mul: int)
    requires
        acc >= 0,
        mul >= 0,
    ensures
        vdec_from(s, i, acc, mul) matches Some((v, n)) ==> i < n <= s.len() && v >= 0,
    decreases 10 - i,
{
    if !(i < 0 || i >= 10 || i >= s.len()) && s[i] >= 128 {
        assert(mul * ((s[i] - 128) as int) >= 0) by (nonlinear_arith)
            requires
                mul >= 0,
                s[i] >= 128,
        ;
        assert(mul * 128 >= 0) by (nonlinear_arith)
            requires
                mul >= 0,
        ;
        lemma_vdec_from_consumed(s, i + 1, acc + mul * ((s[i] - 128) as int), mul * 128);
    } else if !(i < 0 || i >= 10 || i >= s.len()) {
        assert(mul * (s[i] as int) >= 0) by (nonlinear_arith)
            requires
                mul >= 0,
                s[i] >= 0,
        ;
    }
}

pub proof fn lemma_vdec_consumed(s: Seq<u8>)
    ensures
        vdec(s) matches Some((v, n)) ==> 1 <= n <= s.len(),
{
    lemma_vdec_from_consumed(s, 0, 0, 1);
}

/// Appending bytes after a decodable varint changes nothing about it.
proof fn lemma_vdec_from_extend(s: Seq<u8>, t: Seq<u8>, i: int, acc: int, mul: int)
    requires
        vdec_from(s, i, acc, mul) is Some,
    ensures
        vdec_from(s + t, i, acc, mul) == vdec_from(s, i, acc, mul),
    decreases 10 - i,
{
    assert(!(i < 0 || i >= 10 || i >= s.len()));
    assert((s + t)[i] == s[i]);
    if s[i] >= 128 {
        lemma_vdec_from_extend(s, t, i + 1, acc + mul * ((s[i] - 128) as int), mul * 128);
    }
}

pub proof fn lemma_vdec_extend(s: Seq<u8>, t: Seq<u8>)
    requires
        vdec(s) is Some,
    ensures
        vdec(s + t) == vdec(s),
{
    lemma_vdec_from_extend(s, t, 0, 0, 1);
}

proof fn lemma_venc_vdec_from(s: Seq<u8>, v: u64, t: Seq<u8>, i: int, acc: int, mul: int)
    requires
        0 <= i <= s.len(),
        s.skip(i) == venc(v) + t,
        i + venc(v).len() <= 10,
    ensures
        vdec_from(s, i, acc, mul) == Some((acc + mul * (v as int), i + venc(v).len())),
    decreases v,
{
    assert(venc(v).len() >= 1);
    assert(s.skip(i).len() == s.len() - i);
    assert(s[i] == s.skip(i)[0]);
    if v < 128 {
        assert(s[i] == v as u8);
        assert(mul * (s[i] as int) == mul * (v as int));
    } else {
        assert(s[i] == (128 + (v % 128)) as u8);
        assert(s[i] >= 128);
        assert((s[i] - 128) as int == (v % 128) as int);
        assert(s.skip(i + 1) =~= s.skip(i).skip(1));
        assert(s.skip(i).skip(1) =~= venc(v / 128) + t);
        lemma_venc_vdec_from(s, v / 128, t, i + 1, acc + mul * ((v % 128) as int), mul * 128);
        lemma_fundamental_div_mod(v as int, 128);
        assert(acc + mul * ((v % 128) as int) + (mul * 128) * ((v / 128) as int)
            == acc + mul * (v as int)) by (nonlinear_arith)
            requires
                v as int == 128 * ((v / 128) as int) + ((v % 128) as int),
        ;
        assert(venc(v).len() == 1 + venc(v / 128).len());
    }
}

/// Round trip: the decoder recovers exactly what the encoder wrote, no
/// matter what bytes follow.
pub proof fn lemma_venc_vdec(v: u64, t: Seq<u8>)
    ensures
        vdec(venc(v) + t) == Some((v, venc(v).len() as int)),
{
    lemma_venc_len(v);
    let s = venc(v) + t;
    assert(s.skip(0) =~= venc(v) + t);
    lemma_venc_vdec_from(s, v, t, 0, 0, 1);
    assert(1 * (v as int) == v as int);
}

/// Writes `v` as a varint; fails exactly when the encoding does not fit in
/// the writer's remaining capacity.
pub fn write_varint(w: &mut ByteWriter, v: u64) -> (res: Result<(), WriteError>)
    requires
        old(w).wf(),
    ensures
        final(w).wf(),
        final(w).cap() == old(w).cap(),
        match res {
            Ok(()) => old(w).bytes().len() + venc(v).len() <= old(w).cap()
                && final(w).bytes() == old(w).bytes() + venc(v),
            Err(_) => old(w).bytes().len() + venc(v).len() > old(w).cap()
                && old(w).bytes().is_prefix_of(final(w).bytes()),
        },
{
    let mut x = v;
    let ghost mut em: Seq<u8> = Seq::empty();
    proof {
        assert(venc(v) =~= em + venc(x));
    }
    while x >= 128
        invariant
            w.wf(),
            w.cap() == old(w).cap(),
            w.bytes() == old(w).bytes() + em,
            venc(v) == em + venc(x),
        decreases x,
    {
        let b: u8 = (x % 128) as u8 + 128;
        proof {
            assert(venc(x) =~= seq![b] + venc(x / 128));
            assert(venc(x).len() >= 1 + venc(x / 128).len());
            assert(venc(x / 128).len() >= 1);
        }
        if w.write_u8(b).is_err() {
            proof {
                assert(old(w).bytes().len() + venc(v).len()
                    >= old(w).bytes().len() + em.len() + 2);
                assert(old(w).bytes().is_prefix_of(w.bytes()));
            }
            return Err(WriteError);
        }
        proof {
            em = em + seq![b];
            assert(venc(v) =~= em + venc(x / 128));
            assert(w.bytes() =~= old(w).bytes() + em);
        }
        x = x / 128;
    }
    proof {
        assert(venc(x) =~= seq![x as u8]);
    }
    if w.write_u8(x as u8).is_err() {
        proof {
            assert(old(w).bytes().len() + venc(v).len()
                >= old(w).bytes().len() + em.len() + 1);
            assert(old(w).bytes().is_prefix_of(w.bytes()));
        }
        return Err(WriteError);
    }
    proof {
        assert(w.bytes() =~= old(w).bytes() + venc(v));
    }
    Ok(())
}

/// Reads one varint; fails exactly when no well-formed `u64` varint starts
/// the stream.
pub fn read_varint(r: &mut ByteReader) -> (res: Result<u64, ReadError>)
    requires
        old(r).wf(),
    ensures
        final(r).wf(),
        match res {
            Ok(v) => vdec(old(r).remaining()) matches Some((v2, n))
                && v2 == v
                && final(r).remaining() == old(r).remaining().skip(n),
            Err(_) => vdec(old(r).remaining()) is None,
        },
{
    let ghost s = old(r).remaining();
    let mut i: usize = 0;
    let mut acc: u64 = 0;
    let mut mul: u64 = 1;
    proof {
        lemma_pow128_vals();
    }
    while i < 10
        invariant
            r.wf(),
            i <= 10,
            s == old(r).remaining(),
            i as int <= s.len(),
            r.remaining() == s.skip(i as int),
            mul as int == pow128(i as nat),
            acc < mul,
            vdec_from(s, 0, 0, 1) == vdec_from(s, i as int, acc as int, mul as int),
        decreases 10 - i,
    {
        let b = match r.read_u8() {
            Ok(b) => b,
            Err(_) => {
                proof {
                    assert(s.skip(i as int).len() == 0);
                    assert(i >= s.len());
                }
                return Err(ReadError);
            },
        };
        proof {
            lemma_pow128_vals();
            assert(b == s.skip(i as int)[0]);
            assert(b == s[i as int]);
            assert(r.remaining() =~= s.skip(i as int + 1));
            lemma_pow128_mono(i as nat, 9);
        }
        if b < 128 {
            let low: u64 = b as u64;
            if i == 9 && low > 1 {
                proof {
                    assert(vdec_from(s, i as int, acc as int, mul as int)
                        == Some((acc + mul * (low as int), 10int)));
                    assert(acc + mul * (low as int) > u64::MAX) by (nonlinear_arith)
                        requires
                            mul == 0x8000000000000000,
                            low >= 2,
                            acc >= 0,
                    ;
                }
                return Err(ReadError);
            }
            proof {
                if i < 9 {
                    lemma_pow128_mono(i as nat + 1, 9);
                    assert(acc + mul * (low as int) < pow128(i as nat + 1)) by (nonlinear_arith)
                        requires
                            acc < mul,
                            low < 128,
                            mul >= 1,
                            mul == pow128(i as nat),
                            pow128(i as nat + 1) == 128 * pow128(i as nat),
                    ;
                } else {
                    assert(acc + mul * (low as int) <= u64::MAX) by (nonlinear_arith)
                        requires
                            acc < mul,
                            low <= 1,
                            mul == 0x8000000000000000,
                    ;
                }
            }
            let v = acc + mul * low;
            proof {
                assert(vdec_from(s, i as int, acc as int, mul as int)
                    == Some((v as int, i as int + 1)));
                assert(vdec(s) == Some((v, i as int + 1)));
            }
            return Ok(v);
        }
        if i == 9 {
            proof {
                assert(vdec_from(s, 10int, acc as int + mul as int * ((b - 128) as int),
                    mul as int * 128) is None);
                assert(vdec_from(s, i as int, acc as int, mul as int) is None);
            }
            return Err(ReadError);
        }
        let low: u64 = (b - 128) as u64;
        proof {
            lemma_pow128_mono(i as nat + 1, 9);
            assert(pow128(i as nat + 1) == 128 * pow128(i as nat));
            assert(acc + mul * (low as int) < 128 * (mul as int)) by (nonlinear_arith)
                requires
                    acc < mul,
                    low < 128,
                    mul >= 1,
            ;
        }
        acc = acc + mul * low;
        mul = mul * 128;
        i = i + 1;
    }
    proof {
        assert(vdec_from(s, i as int, acc as int, mul as int) is None);
    }
    Err(ReadError)
}

/// The bytes that encode a length-prefixed block: the length as a varint,
/// then the block itself.
pub open spec fn enc_bytes(b: Seq<u8>) -> Seq<u8>
    recommends
        b.len() <= u64::MAX,
{
    venc(b.len() as u64) + b
}

/// What decoding a length-prefixed block at the head of `s` yields.
pub open spec fn bytes_dec(s: Seq<u8>) -> Option<(Seq<u8>, int)> {
    match vdec(s) {
        Some((l, n)) => if n + l <= s.len() {
            Some((s.subrange(n, n + l as int), n + l as int))
        } else {
            None
        },
        None => None,
    }
}

pub proof fn lemma_enc_bytes_dec(b: Seq<u8>, t: Seq<u8>)
    requires
        b.len() <= u64::MAX,
    ensures
        bytes_dec(enc_bytes(b) + t) == Some((b, enc_bytes(b).len() as int)),
{
    let l = b.len() as u64;
    assert(enc_bytes(b) + t =~= venc(l) + (b + t));
    lemma_venc_vdec(l, b + t);
    let n = venc(l).len() as int;
    assert((enc_bytes(b) + t).subrange(n, n + l as int) =~= b);
}

pub proof fn lemma_bytes_dec_extend(s: Seq<u8>, t: Seq<u8>)
    requires
        bytes_dec(s) is Some,
    ensures
        bytes_dec(s + t) == bytes_dec(s),
{
    lemma_vdec_extend(s, t);
    lemma_vdec_consumed(s);
    let (l, n) = vdec(s)->Some_0;
    assert((s + t).subrange(n, n + l as int) =~= s.subrange(n, n + l as int));
}

pub proof fn lemma_bytes_dec_consumed(s: Seq<u8>)
    ensures
        bytes_dec(s) matches Some((v, n)) ==> 1 <= n <= s.len(),
{
    lemma_vdec_consumed(s);
}

/// Writes a length-prefixed block; fails exactly when it does not fit.
pub fn write_buf(w: &mut ByteWriter, b: &Vec<u8>) -> (res: Result<(), WriteError>)
    requires
        old(w).wf(),
    ensures
        final(w).wf(),
        final(w).cap() == old(w).cap(),
        match res {
            Ok(()) => old(w).bytes().len() + enc_bytes(b@).len() <= old(w).cap()
                && final(w).bytes() == old(w).bytes() + enc_bytes(b@),
            Err(_) => old(w).bytes().len() + enc_bytes(b@).len() > old(w).cap()
                && old(w).bytes().is_prefix_of(final(w).bytes()),
        },
{
    let l = b.len() as u64;
    if write_varint(w, l).is_err() {
        return Err(WriteError);
    }
    if w.write_all(b).is_err() {
        return Err(WriteError);
    }
    proof {
        assert(w.bytes() =~= old(w).bytes() + enc_bytes(b@));
    }
    Ok(())
}

/// How many bytes the varint encoding of `v` takes.
pub fn varint_len(v: u64) -> (n: usize)
    ensures
        n as nat == venc(v).len(),
        1 <= n <= 10,
{
    proof {
        lemma_venc_len(v);
    }
    let mut x = v;
    let mut n: usize = 1;
    while x >= 128
        invariant
            1 <= n,
            venc(v).len() == (n - 1) + venc(x).len(),
            venc(x).len() <= 10,
            n + venc(x).len() <= 11,
        decreases x,
    {
        proof {
            assert(venc(x) =~= seq![(128 + (x % 128)) as u8] + venc(x / 128));
        }
        x = x / 128;
        n = n + 1;
    }
    proof {
        assert(venc(x) =~= seq![x as u8]);
    }
    n
}

/// Reads a length-prefixed block; fails exactly when the length prefix is
/// malformed or announces more bytes than remain.
pub fn read_buf(r: &mut ByteReader) -> (res: Result<Vec<u8>, ReadError>)
    requires
        old(r).wf(),
    ensures
        final(r).wf(),
        match res {
            Ok(v) => bytes_dec(old(r).remaining()) matches Some((b, n))
                && v@ == b
                && final(r).remaining() == old(r).remaining().skip(n),
            Err(_) => bytes_dec(old(r).remaining()) is None,
        },
{
    let ghost s = old(r).remaining();
    let l = match read_varint(r) {
        Ok(l) => l,
        Err(_) => {
            return Err(ReadError);
        },
    };
    proof {
        lemma_vdec_consumed(s);
    }
    let rem = r.remaining_len();
    if l > rem as u64 {
        return Err(ReadError);
    }
    let v = match r.read_exact_vec(l as usize) {
        Ok(v) => v,
        Err(_) => {
            return Err(ReadError);
        },
    };
    proof {
        let n = vdec(s)->Some_0.1;
        assert(v@ =~= s.subrange(n, n + l as int));
        assert(r.remaining() =~= s.skip(n + l as int));
    }
    Ok(v)
}

/// The bytes of a conditionally-present block: the block when the
/// condition holds, nothing at all otherwise.
pub open spec fn cond_enc(cond: bool, b: Seq<u8>) -> Seq<u8> {
    if cond {
        enc_bytes(b)
    } else {
        Seq::<u8>::empty()
    }
}

/// What decoding a conditionally-present block yields: the condition comes
/// from outside (a header flag), and when it is false nothing is read and
/// the block is empty.
pub open spec fn cond_dec(cond: bool, s: Seq<u8>) -> Option<(Seq<u8>, int)> {
    if cond {
        bytes_dec(s)
    } else {
        Some((Seq::<u8>::empty(), 0))
    }
}

/// Writes a block only when `cond` holds: one codec serves the present and
/// the absent case, the caller supplying the condition.
pub fn write_cond_buf(w: &mut ByteWriter, cond: bool, b: &Vec<u8>) -> (res: Result<(), WriteError>)
    requires
        old(w).wf(),
    ensures
        final(w).wf(),
        final(w).cap() == old(w).cap(),
        match res {
            Ok(()) => old(w).bytes().len() + cond_enc(cond, b@).len() <= old(w).cap()
                && final(w).bytes() == old(w).bytes() + cond_enc(cond, b@),
            Err(_) => old(w).bytes().len() + cond_enc(cond, b@).len() > old(w).cap()
                && old(w).bytes().is_prefix_of(final(w).bytes()),
        },
{
    if cond {
        write_buf(w, b)
    } else {
        proof {
            old(w).lemma_wf_len();
            assert(w.bytes() =~= old(w).bytes() + cond_enc(false, b@));
        }
        Ok(())
    }
}

/// Reads a block only when `cond` holds; with the condition false nothing
/// is consumed and the block is empty.
pub fn read_cond_buf(r: &mut ByteReader, cond: bool) -> (res: Result<Vec<u8>, ReadError>)
    requires
        old(r).wf(),
    ensures
        final(r).wf(),
        match res {
            Ok(v) => cond_dec(cond, old(r).remaining()) matches Some((b, n))
                && v@ == b
                && final(r).remaining() == old(r).remaining().skip(n),
            Err(_) => cond_dec(cond, old(r).remaining()) is None,
        },
{
    if cond {
        read_buf(r)
    } else {
        let v: Vec<u8> = Vec::new();
        proof {
            assert(v@ =~= Seq::<u8>::empty());
            assert(r.remaining() =~= old(r).remaining().skip(0));
        }
        Ok(v)
    }
}

} // verus!
