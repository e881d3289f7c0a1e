//! The hybrid run-length / bit-packed integer stream.
//!
//! A stream is a row of runs. Each run starts with an unsigned
//! variable-length header; the header's low bit picks the run kind. An
//! even header `2 * n` announces one value, stored in `ceil(bit_width /
//! 8)` little-endian bytes, repeated `n` times. An odd header `2 * g + 1`
//! announces `g` groups of eight values, bit-packed LSB-first in `g *
//! bit_width` bytes. Decoding stops once the expected value count is
//! reached; trailing bytes are permitted and ignored.

use vstd::prelude::*;
use vstd::arithmetic::power2::{pow2, lemma_pow2_adds, lemma_pow2_strictly_increases, lemma2_to64, lemma2_to64_rest};
use crate::deserialize::bitutil::{bits_value, le_value, spec_bit};
use crate::errors::DecodeError;

verus! {

/// Reads an unsigned variable-length integer of at most five bytes from
/// the head of a region: `k` bytes were already read into `acc`. Gives
/// the value and the number of bytes consumed.
pub open spec fn spec_uvarint_rec(bytes: Seq<u8>, k: nat, acc: nat) -> Option<(nat, nat)>
    decreases 5 - k,
{
    if k >= 5 || k >= bytes.len() {
        None
    } else {
        let b = bytes[k as int];
        let acc2 = (acc + (b % 128) * pow2(7 * k)) as nat;
        if b < 128 {
            Some((acc2, (k + 1) as nat))
        } else if k == 4 {
            None
        } else {
            spec_uvarint_rec(bytes, (k + 1) as nat, acc2)
        }
    }
}

/// The unsigned variable-length integer at the head of a region, with
/// the number of bytes it occupies.
pub open spec fn spec_uvarint(bytes: Seq<u8>) -> Option<(nat, nat)> {
    spec_uvarint_rec(bytes, 0, 0)
}

/// A read header occupies one to five bytes, all within the region.
pub proof fn lemma_uvarint_bounds(bytes: Seq<u8>, k: nat, acc: nat)
    ensures
        spec_uvarint_rec(bytes, k, acc) matches Some(p) ==> k + 1 <= p.1 <= 5 && p.1
            <= bytes.len(),
    decreases 5 - k,
{
    if k < 5 && k < bytes.len() {
        let b = bytes[k as int];
        if b >= 128 && k < 4 {
            lemma_uvarint_bounds(bytes, (k + 1) as nat, (acc + (b % 128) * pow2(7 * k)) as nat);
        }
    }
}

/// Reads the unsigned variable-length header at `pos`. Gives the value
/// and the number of bytes consumed, or nothing when the header is
/// truncated or longer than five bytes.
pub fn read_uvarint(data: &[u8], pos: usize) -> (r: Option<(u64, usize)>)
    requires
        pos <= data@.len(),
    ensures
        r is Some <==> spec_uvarint(data@.skip(pos as int)) is Some,
        r matches Some(p) ==> (spec_uvarint(data@.skip(pos as int)) matches Some(q) && p.0 as nat
            == q.0 && p.1 as nat == q.1 && 1 <= p.1 <= 5 && pos + p.1 <= data@.len() && p.0
            < 0x8_0000_0000u64),
{
    let ghost rem = data@.skip(pos as int);
    let avail = data.len() - pos;
    let mut k: usize = 0;
    let mut acc: u64 = 0;
    let mut mult: u64 = 1;
    proof {
        assert(pow2(0) == 1) by {
            lemma2_to64();
        }
    }
    loop
        invariant
            pos <= data@.len(),
            data@.len() <= usize::MAX,
            rem == data@.skip(pos as int),
            avail == data@.len() - pos,
            k <= 4,
            mult == pow2((7 * k) as nat),
            acc < pow2((7 * k) as nat),
            spec_uvarint_rec(rem, k as nat, acc as nat) == spec_uvarint(rem),
        decreases 5 - k,
    {
        if k >= avail {
            return None;
        }
        let b = data[pos + k];
        proof {
            assert(rem[k as int] == b);
            assert((b % 128) as nat == b as nat % 128);
            lemma_pow2_adds((7 * k) as nat, 7);
            lemma2_to64();
            assert(acc + (b % 128) * mult < pow2((7 * (k + 1)) as nat)) by (nonlinear_arith)
                requires
                    acc < pow2((7 * k) as nat),
                    mult == pow2((7 * k) as nat),
                    b % 128 < 128,
                    pow2((7 * (k + 1)) as nat) == 128 * pow2((7 * k) as nat),
            ;
            if k < 4 {
                lemma_pow2_strictly_increases((7 * (k + 1)) as nat, 35);
            }
            assert(pow2(35) == 0x8_0000_0000) by {
                lemma2_to64_rest();
            }
        }
        acc = acc + ((b % 128) as u64) * mult;
        if b < 128 {
            proof {
                lemma_uvarint_bounds(rem, 0, 0);
            }
            return Some((acc, k + 1));
        }
        if k == 4 {
            return None;
        }
        mult = mult * 128;
        k = k + 1;
    }
}

} // verus!

verus! {

/// One run-length-encoded value, repeated.
pub open spec fn spec_rle_values(v: u32, n: nat) -> Seq<u32> {
    Seq::new(n, |i| v)
}

/// The first `cnt` bit-packed values of a packed region.
pub open spec fn spec_packed_values(region: Seq<u8>, bw: nat, cnt: nat) -> Seq<u32> {
    Seq::new(cnt, |i: int| (bits_value(region, i * bw, bw)) as u32)
}

/// What decoding a hybrid stream gives: `count` unsigned values of
/// `bw` bits each, or nothing when a header or payload is truncated or
/// the stream ends before `count` values were produced. Bytes after the
/// run that completes the count are ignored.
pub open spec fn spec_hybrid_decode(bytes: Seq<u8>, bw: nat, count: nat) -> Option<Seq<u32>>
    decreases bytes.len(),
{
    if count == 0 {
        Some(Seq::empty())
    } else {
        match spec_uvarint(bytes) {
            None => None,
            Some((header, k)) => {
                if k < 1 || k > bytes.len() {
                    None
                } else {
                    let rest = bytes.skip(k as int);
                    if header % 2 == 0 {
                        let n = header / 2;
                        let w = (bw + 7) / 8;
                        if rest.len() < w {
                            None
                        } else {
                            let v = (le_value(rest.take(w as int)) % pow2(bw)) as u32;
                            if n >= count {
                                Some(spec_rle_values(v, count))
                            } else {
                                match spec_hybrid_decode(
                                    rest.skip(w as int),
                                    bw,
                                    (count - n) as nat,
                                ) {
                                    None => None,
                                    Some(tail) => Some(spec_rle_values(v, n) + tail),
                                }
                            }
                        }
                    } else {
                        let g = header / 2;
                        let nbytes = g * bw;
                        let nvals = 8 * g;
                        if rest.len() < nbytes {
                            None
                        } else {
                            let region = rest.take(nbytes as int);
                            if nvals >= count {
                                Some(spec_packed_values(region, bw, count))
                            } else {
                                match spec_hybrid_decode(
                                    rest.skip(nbytes as int),
                                    bw,
                                    (count - nvals) as nat,
                                ) {
                                    None => None,
                                    Some(tail) => Some(spec_packed_values(region, bw, nvals)
                                        + tail),
                                }
                            }
                        }
                    }
                }
            },
        }
    }
}

/// Decodes a hybrid run-length / bit-packed stream of `count` values of
/// `bit_width` bits each. Fails with a corruption error exactly when the
/// stream is truncated with respect to its own headers or ends before
/// `count` values were produced.
#[verifier::rlimit(50)]
pub fn hybrid_rle_decode(data: &[u8], bit_width: usize, count: usize) -> (r: Result<
    Vec<u32>,
    DecodeError,
>)
    requires
        bit_width <= 32,
    ensures
        r is Ok <==> spec_hybrid_decode(data@, bit_width as nat, count as nat) is Some,
        r matches Ok(v) ==> spec_hybrid_decode(data@, bit_width as nat, count as nat) == Some(v@),
        r is Err ==> r->Err_0 == DecodeError::CorruptedStream,
{
    let ghost bw = bit_width as nat;
    let ghost full = spec_hybrid_decode(data@, bw, count as nat);
    let mut out: Vec<u32> = Vec::new();
    let mut pos: usize = 0;
    let dlen = data.len();
    proof {
        assert(data@.skip(0) =~= data@);
    }
    while out.len() < count
        invariant
            bit_width <= 32,
            bw == bit_width as nat,
            pos <= data@.len(),
            dlen == data@.len(),
            out@.len() <= count,
            full == spec_hybrid_decode(data@, bw, count as nat),
            ({
                let tail = spec_hybrid_decode(
                    data@.skip(pos as int),
                    bw,
                    (count - out@.len()) as nat,
                );
                &&& (tail is Some <==> full is Some)
                &&& (tail matches Some(t) ==> full == Some(out@ + t))
            }),
        decreases data@.len() - pos,
    {
        let rem_count = count - out.len();
        let ghost rem_bytes = data@.skip(pos as int);
        let ghost rem_nat = rem_count as nat;
        let hdr = match read_uvarint(data, pos) {
            Some(p) => p,
            None => {
                return Err(DecodeError::CorruptedStream);
            },
        };
        let header = hdr.0;
        let k = hdr.1;
        let pos2 = pos + k;
        let ghost rest = rem_bytes.skip(k as int);
        proof {
            assert(rest =~= data@.skip(pos2 as int));
        }
        if header % 2 == 0 {
            // a run-length run: one little-endian value, repeated
            let n64 = header / 2;
            let w = (bit_width + 7) / 8;
            if w > dlen - pos2 {
                return Err(DecodeError::CorruptedStream);
            }
            let ghost valreg = rest.take(w as int);
            let mut j: usize = 0;
            let mut acc: u64 = 0;
            let mut mult: u64 = 1;
            proof {
                assert(pow2(0) == 1) by {
                    lemma2_to64();
                }
                assert(valreg.skip(0) =~= valreg);
            }
            while j < w
                invariant
                    j <= w,
                    w <= 4,
                    dlen == data@.len(),
                    pos2 + w <= data@.len(),
                    valreg == data@.skip(pos2 as int).take(w as int),
                    rest == data@.skip(pos2 as int),
                    mult == pow2((8 * j) as nat),
                    acc < pow2((8 * j) as nat),
                    le_value(valreg) == acc + mult * le_value(valreg.skip(j as int)),
                decreases w - j,
            {
                let b = data[pos2 + j];
                proof {
                    assert(valreg[j as int] == b);
                    assert(valreg.skip(j as int)[0] == b);
                    assert(valreg.skip(j as int).skip(1) =~= valreg.skip(j + 1));
                    lemma_pow2_adds((8 * j) as nat, 8);
                    lemma2_to64();
                    assert(le_value(valreg.skip(j as int)) == b + 256 * le_value(
                        valreg.skip(j + 1),
                    ));
                    assert(acc + mult * (b + 256 * le_value(valreg.skip(j + 1))) == (acc + b
                        * mult) + (mult * 256) * le_value(valreg.skip(j + 1)))
                        by (nonlinear_arith)
                    ;
                    assert(acc + b * mult < pow2((8 * (j + 1)) as nat)) by (nonlinear_arith)
                        requires
                            acc < pow2((8 * j) as nat),
                            mult == pow2((8 * j) as nat),
                            b < 256,
                            pow2((8 * (j + 1)) as nat) == 256 * pow2((8 * j) as nat),
                    ;
                }
                acc = acc + (b as u64) * mult;
                mult = mult * 256;
                j += 1;
            }
            proof {
                assert(valreg.skip(w as int) =~= Seq::<u8>::empty());
                assert(le_value(valreg.skip(w as int)) == 0);
                assert(mult * le_value(valreg.skip(w as int)) == 0) by (nonlinear_arith)
                    requires
                        le_value(valreg.skip(w as int)) == 0,
                ;
                assert(le_value(valreg) == acc);
                lemma_pow2_strictly_increases((8 * w) as nat, 33);
                assert(pow2(33) == 0x2_0000_0000) by {
                    lemma2_to64_rest();
                }
                vstd::bits::lemma_u64_pow2_no_overflow(bw);
                vstd::bits::lemma_u64_shl_is_mul(1u64, bit_width as u64);
            }
            let modulus: u64 = 1u64 << (bit_width as u64);
            let value: u32 = (acc % modulus) as u32;
            proof {
                lemma_pow2_strictly_increases(bw, 33);
                if bw < 32 {
                    lemma_pow2_strictly_increases(bw, 32);
                }
                assert(pow2(32) == 0x1_0000_0000) by {
                    lemma2_to64();
                    lemma2_to64_rest();
                }
            }
            let m: usize = if n64 < rem_count as u64 {
                n64 as usize
            } else {
                rem_count
            };
            let ghost out_pre = out@;
            let mut t: usize = 0;
            while t < m
                invariant
                    t <= m,
                    out@ =~= out_pre + spec_rle_values(value, t as nat),
                decreases m - t,
            {
                proof {
                    assert(spec_rle_values(value, (t + 1) as nat) =~= spec_rle_values(
                        value,
                        t as nat,
                    ).push(value));
                }
                out.push(value);
                t += 1;
            }
            pos = pos2 + w;
            proof {
                assert(valreg == rest.take(w as int));
                assert(rest.skip(w as int) =~= data@.skip(pos as int));
                assert(le_value(rest.take(w as int)) % pow2(bw) == (acc as nat) % pow2(bw));
                if n64 as nat >= rem_nat {
                    assert(spec_hybrid_decode(rem_bytes, bw, rem_nat) == Some(
                        spec_rle_values(value, rem_nat),
                    ));
                    assert(out@ =~= out_pre + spec_rle_values(value, rem_nat));
                    assert((count - out@.len()) as nat == 0);
                    assert(out_pre + spec_rle_values(value, rem_nat) + Seq::<u32>::empty()
                        =~= out@);
                } else {
                    assert(spec_hybrid_decode(rem_bytes, bw, rem_nat) == (
                    match spec_hybrid_decode(rest.skip(w as int), bw, (rem_nat - n64) as nat) {
                        None => None,
                        Some(tail) => Some(spec_rle_values(value, n64 as nat) + tail),
                    }));
                    assert(forall|tl: Seq<u32>| (out_pre + spec_rle_values(value, n64 as nat))
                        + tl =~= out_pre + (spec_rle_values(value, n64 as nat) + tl));
                }
            }
        } else {
            // a bit-packed run: groups of eight values, LSB-first
            let g64 = header / 2;
            proof {
                assert(g64 < 0x4_0000_0000u64);
                assert(g64 * (bit_width as u64) <= 0x80_0000_0000u64) by (nonlinear_arith)
                    requires
                        g64 <= 0x4_0000_0000u64,
                        bit_width <= 32,
                ;
            }
            let nbytes64 = g64 * (bit_width as u64);
            let avail = (dlen - pos2) as u64;
            if nbytes64 > avail {
                return Err(DecodeError::CorruptedStream);
            }
            let nbytes = nbytes64 as usize;
            let nvals64 = 8u64 * g64;
            let take: usize = if nvals64 < rem_count as u64 {
                nvals64 as usize
            } else {
                rem_count
            };
            let ghost region = rest.take(nbytes as int);
            let ghost out_pre = out@;
            let mut j: usize = 0;
            while j < take
                invariant
                    j <= take,
                    bit_width <= 32,
                    bw == bit_width as nat,
                    take as u64 <= nvals64,
                    nvals64 == 8 * g64,
                    g64 < 0x4_0000_0000u64,
                    nbytes64 == g64 * (bit_width as u64),
                    nbytes64 <= 0x80_0000_0000u64,
                    nbytes as u64 == nbytes64,
                    pos2 + nbytes <= data@.len(),
                    dlen == data@.len(),
                    region == data@.skip(pos2 as int).take(nbytes as int),
                    out@ =~= out_pre + spec_packed_values(region, bw, j as nat),
                decreases take - j,
            {
                let mut t: usize = 0;
                let mut va: u64 = 0;
                let mut vmult: u64 = 1;
                let ghost startbit = j as int * bw;
                proof {
                    assert(pow2(0) == 1) by {
                        lemma2_to64();
                    }
                }
                while t < bit_width
                    invariant
                        t <= bit_width,
                        bit_width <= 32,
                        bw == bit_width as nat,
                        j < take,
                        take as u64 <= nvals64,
                        nvals64 == 8 * g64,
                        g64 < 0x4_0000_0000u64,
                        nbytes64 == g64 * (bit_width as u64),
                        nbytes64 <= 0x80_0000_0000u64,
                        nbytes as u64 == nbytes64,
                        pos2 + nbytes <= data@.len(),
                        dlen == data@.len(),
                        region == data@.skip(pos2 as int).take(nbytes as int),
                        startbit == j as int * bw,
                        vmult == pow2(t as nat),
                        va < pow2(t as nat),
                        bits_value(region, startbit, bw) == va + vmult * bits_value(
                            region,
                            startbit + t,
                            (bw - t) as nat,
                        ),
                    decreases bit_width - t,
                {
                    proof {
                        assert((j as u64) * (bit_width as u64) + (t as u64) < 8
                            * nbytes64) by (nonlinear_arith)
                            requires
                                (j as u64) < nvals64,
                                (t as u64) < bit_width as u64,
                                nvals64 == 8 * g64,
                                nbytes64 == g64 * (bit_width as u64),
                                bit_width >= 1,
                        ;
                    }
                    let idx: u64 = (j as u64) * (bit_width as u64) + (t as u64);
                    let off: u64 = idx / 8;
                    let sh: u64 = idx % 8;
                    proof {
                        assert(off < nbytes64) by (nonlinear_arith)
                            requires
                                idx < 8 * nbytes64,
                                off == idx / 8,
                        ;
                    }
                    let byte = data[pos2 + off as usize];
                    let bitv: u64 = ((byte as u64) >> sh) & 1;
                    proof {
                        vstd::bits::lemma_u64_shr_is_div(byte as u64, sh);
                        vstd::bits::lemma_u64_low_bits_mask_is_mod((byte as u64) >> sh, 1);
                        assert(vstd::bits::low_bits_mask(1) == 1) by {
                            vstd::bits::lemma_low_bits_mask_values();
                        }
                        assert(pow2(1) == 2) by {
                            lemma2_to64();
                        }
                        assert(region[idx as int / 8] == byte);
                        assert(idx as int == startbit + t) by (nonlinear_arith)
                            requires
                                idx == (j as u64) * (bit_width as u64) + (t as u64),
                                startbit == j as int * bw,
                                bw == bit_width as nat,
                        ;
                        assert((idx as int) % 8 == sh as int);
                        assert((idx as int) / 8 == off as int);
                        assert(bitv == spec_bit(region, startbit + t)) by {
                            vstd::bits::lemma_u64_shr_is_div(byte as u64, sh);
                            assert(pow2(sh as nat) > 0) by {
                                vstd::arithmetic::power2::lemma_pow2_pos(sh as nat);
                            }
                        }
                        assert(bits_value(region, startbit + t, (bw - t) as nat) == spec_bit(
                            region,
                            startbit + t,
                        ) + 2 * bits_value(region, startbit + t + 1, (bw - t - 1) as nat));
                        lemma_pow2_adds(t as nat, 1);
                        lemma2_to64();
                        assert(va + vmult * (bitv + 2 * bits_value(
                            region,
                            startbit + t + 1,
                            (bw - t - 1) as nat,
                        )) == (va + bitv * vmult) + (vmult * 2) * bits_value(
                            region,
                            startbit + t + 1,
                            (bw - t - 1) as nat,
                        )) by (nonlinear_arith);
                        assert(va + bitv * vmult < pow2((t + 1) as nat)) by (nonlinear_arith)
                            requires
                                va < pow2(t as nat),
                                vmult == pow2(t as nat),
                                bitv <= 1,
                                pow2((t + 1) as nat) == 2 * pow2(t as nat),
                        ;
                        lemma_pow2_strictly_increases((t + 1) as nat, 33);
                        assert(pow2(33) == 0x2_0000_0000) by {
                            lemma2_to64_rest();
                        }
                    }
                    va = va + bitv * vmult;
                    vmult = vmult * 2;
                    t += 1;
                }
                proof {
                    assert(bits_value(region, startbit + t as int, (bw - t) as nat) == 0);
                    assert(vmult * bits_value(region, startbit + t as int, (bw - t) as nat)
                        == 0) by (nonlinear_arith)
                        requires
                            bits_value(region, startbit + t as int, (bw - t) as nat) == 0,
                    ;
                    assert(va == bits_value(region, startbit, bw));
                    if bw < 32 {
                        lemma_pow2_strictly_increases(bw, 32);
                    }
                    assert(pow2(32) == 0x1_0000_0000) by {
                        lemma2_to64();
                        lemma2_to64_rest();
                    }
                    assert(spec_packed_values(region, bw, (j + 1) as nat) =~= spec_packed_values(
                        region,
                        bw,
                        j as nat,
                    ).push((bits_value(region, j as int * bw, bw)) as u32));
                }
                let value: u32 = va as u32;
                out.push(value);
                j += 1;
            }
            pos = pos2 + nbytes;
            proof {
                assert(rest.skip(nbytes as int) =~= data@.skip(pos as int));
                if nvals64 as nat >= rem_nat {
                    assert(take == rem_count);
                    assert(spec_hybrid_decode(rem_bytes, bw, rem_nat) == Some(
                        spec_packed_values(region, bw, rem_nat),
                    ));
                    assert((count - out@.len()) as nat == 0);
                    assert(out_pre + spec_packed_values(region, bw, rem_nat) + Seq::<
                        u32,
                    >::empty() =~= out@);
                } else {
                    assert(take as u64 == nvals64);
                    assert(spec_hybrid_decode(rem_bytes, bw, rem_nat) == (
                    match spec_hybrid_decode(
                        rest.skip(nbytes as int),
                        bw,
                        (rem_nat - nvals64) as nat,
                    ) {
                        None => None,
                        Some(tail) => Some(spec_packed_values(region, bw, nvals64 as nat)
                            + tail),
                    }));
                    assert(forall|tl: Seq<u32>| (out_pre + spec_packed_values(
                        region,
                        bw,
                        nvals64 as nat,
                    )) + tl =~= out_pre + (spec_packed_values(region, bw, nvals64 as nat) + tl));
                }
            }
        }
    }
    proof {
        assert(out@ + Seq::<u32>::empty() =~= out@);
    }
    Ok(out)
}

} // verus!

verus! {

/// One run-length run holding a single value once: the header `2`, then
/// the value's `ceil(bw / 8)` little-endian bytes.
pub open spec fn spec_rle_run(v: u32, bw: nat) -> Seq<u8> {
    seq![2u8] + crate::deserialize::bitutil::le_bytes(v as nat, (bw + 7) / 8)
}

/// A hybrid stream that encodes each value as its own run-length run.
pub open spec fn spec_encode(values: Seq<u32>, bw: nat) -> Seq<u8>
    decreases values.len(),
{
    if values.len() == 0 {
        Seq::empty()
    } else {
        spec_rle_run(values[0], bw) + spec_encode(values.skip(1), bw)
    }
}

/// Encodes values of `bit_width` bits each as a hybrid stream, one
/// run-length run per value.
pub fn hybrid_rle_encode(values: &[u32], bit_width: usize) -> (r: Vec<u8>)
    requires
        bit_width <= 32,
    ensures
        r@ == spec_encode(values@, bit_width as nat),
{
    let ghost bw = bit_width as nat;
    let w = (bit_width + 7) / 8;
    let mut out: Vec<u8> = Vec::new();
    let mut i: usize = 0;
    proof {
        assert(values@.skip(0) =~= values@);
    }
    while i < values.len()
        invariant
            bit_width <= 32,
            bw == bit_width as nat,
            w == (bit_width + 7) / 8,
            i <= values@.len(),
            spec_encode(values@, bw) =~= out@ + spec_encode(values@.skip(i as int), bw),
        decreases values@.len() - i,
    {
        let v = values[i];
        let ghost out0 = out@;
        out.push(2u8);
        let mut cur: u32 = v;
        let mut j: usize = 0;
        while j < w
            invariant
                j <= w,
                w == (bit_width + 7) / 8,
                out@.len() == out0.len() + 1 + j,
                out@.take(out0.len() as int + 1) =~= out0.push(2u8),
                crate::deserialize::bitutil::le_bytes(v as nat, (bit_width as nat + 7) / 8)
                    =~= out@.skip(out0.len() as int + 1) + crate::deserialize::bitutil::le_bytes(
                    cur as nat,
                    ((bit_width + 7) / 8 - j) as nat,
                ),
            decreases w - j,
        {
            let ghost pre = out@;
            out.push((cur % 256) as u8);
            proof {
                assert(out@.skip(out0.len() as int + 1) =~= pre.skip(out0.len() as int + 1).push(
                    (cur % 256) as u8,
                ));
                assert(out@.take(out0.len() as int + 1) =~= pre.take(out0.len() as int + 1));
                assert(((bit_width + 7) / 8 - j) as nat >= 1);
                assert(crate::deserialize::bitutil::le_bytes(
                    cur as nat,
                    ((bit_width + 7) / 8 - j) as nat,
                ) == seq![(cur % 256) as u8] + crate::deserialize::bitutil::le_bytes(
                    (cur / 256) as nat,
                    ((bit_width + 7) / 8 - j - 1) as nat,
                ));
                assert(pre.skip(out0.len() as int + 1) + (seq![(cur % 256) as u8]
                    + crate::deserialize::bitutil::le_bytes(
                    (cur / 256) as nat,
                    ((bit_width + 7) / 8 - j - 1) as nat,
                )) =~= out@.skip(out0.len() as int + 1) + crate::deserialize::bitutil::le_bytes(
                    (cur / 256) as nat,
                    ((bit_width + 7) / 8 - j - 1) as nat,
                ));
            }
            cur = cur / 256;
            j += 1;
        }
        proof {
            assert(crate::deserialize::bitutil::le_bytes(cur as nat, 0) =~= Seq::<u8>::empty());
            assert(out@.skip(out0.len() as int + 1) + Seq::<u8>::empty() =~= out@.skip(out0.len() as int + 1));
            assert(crate::deserialize::bitutil::le_bytes(v as nat, (bw + 7) / 8) == out@.skip(
                out0.len() as int + 1,
            ));
            assert(out@ =~= out@.take(out0.len() as int + 1) + out@.skip(out0.len() as int + 1));
            assert(out@ =~= out0 + (seq![2u8] + out@.skip(out0.len() as int + 1)));
            assert(spec_rle_run(values@[i as int], bw) == seq![2u8] + out@.skip(
                out0.len() as int + 1,
            ));
            assert(out@ =~= out0 + spec_rle_run(values@[i as int], bw));
            assert(values@.skip(i as int).skip(1) =~= values@.skip(i + 1));
            assert(spec_encode(values@.skip(i as int), bw) == spec_rle_run(values@[i as int], bw)
                + spec_encode(values@.skip(i + 1), bw));
            assert(out0 + (spec_rle_run(values@[i as int], bw) + spec_encode(
                values@.skip(i + 1),
                bw,
            )) =~= out@ + spec_encode(values@.skip(i + 1), bw));
        }
        i += 1;
    }
    proof {
        assert(values@.skip(values@.len() as int) =~= Seq::<u32>::empty());
        assert(out@ + Seq::<u8>::empty() =~= out@);
    }
    out
}

/// Encoding a sequence of values that fit in `bw` bits and decoding the
/// stream back, at any bit width up to 32, gives the sequence again.
pub proof fn lemma_hybrid_rle_round_trip(values: Seq<u32>, bw: nat)
    requires
        bw <= 32,
        forall|i: int| 0 <= i < values.len() ==> (#[trigger] values[i]) < pow2(bw),
    ensures
        spec_hybrid_decode(spec_encode(values, bw), bw, values.len()) == Some(values),
    decreases values.len(),
{
    if values.len() == 0 {
        assert(spec_hybrid_decode(spec_encode(values, bw), bw, 0) == Some(Seq::<u32>::empty()));
        assert(values =~= Seq::<u32>::empty());
    } else {
        let v = values[0];
        let w = (bw + 7) / 8;
        let enc = spec_encode(values, bw);
        let rest_enc = spec_encode(values.skip(1), bw);
        assert(bw <= 8 * w);
        assert((v as nat) < pow2(8 * w)) by {
            if bw < 8 * w {
                lemma_pow2_strictly_increases(bw, 8 * w);
            }
        }
        crate::deserialize::bitutil::lemma_le_round_trip(v as nat, w);
        let vb = crate::deserialize::bitutil::le_bytes(v as nat, w);
        assert(enc =~= seq![2u8] + (vb + rest_enc));
        assert(enc[0] == 2);
        assert(spec_uvarint(enc) == Some((2nat, 1nat))) by {
            assert(pow2(0) == 1) by {
                lemma2_to64();
            }
            assert((2u8 % 128) == 2);
        }
        let rest = enc.skip(1);
        assert(rest =~= vb + rest_enc);
        assert(rest.len() >= w);
        assert(rest.take(w as int) =~= vb);
        assert(le_value(rest.take(w as int)) == v as nat);
        assert((v as nat) % pow2(bw) == v as nat) by (nonlinear_arith)
            requires
                (v as nat) < pow2(bw),
        ;
        assert(((le_value(rest.take(w as int)) % pow2(bw)) as u32) == v);
        if values.len() == 1 {
            assert(spec_hybrid_decode(enc, bw, 1) == Some(spec_rle_values(v, 1)));
            assert(spec_rle_values(v, 1) =~= values);
        } else {
            lemma_hybrid_rle_round_trip(values.skip(1), bw);
            assert(rest.skip(w as int) =~= rest_enc);
            assert(spec_hybrid_decode(rest.skip(w as int), bw, (values.len() - 1) as nat)
                == Some(values.skip(1)));
            assert(spec_rle_values(v, 1) + values.skip(1) =~= values);
        }
    }
}

} // verus!

verus! {

/// A decoded hybrid stream holds exactly the expected number of values.
pub proof fn lemma_hybrid_decode_len(bytes: Seq<u8>, bw: nat, count: nat)
    ensures
        spec_hybrid_decode(bytes, bw, count) matches Some(s) ==> s.len() == count,
    decreases bytes.len(),
{
    if count != 0 {
        match spec_uvarint(bytes) {
            None => {},
            Some((header, k)) => {
                if 1 <= k <= bytes.len() {
                    let rest = bytes.skip(k as int);
                    if header % 2 == 0 {
                        let n = header / 2;
                        let w = (bw + 7) / 8;
                        if rest.len() >= w && n < count {
                            lemma_hybrid_decode_len(rest.skip(w as int), bw, (count - n) as nat);
                        }
                    } else {
                        let g = header / 2;
                        let nbytes = g * bw;
                        let nvals = 8 * g;
                        if rest.len() >= nbytes && nvals < count {
                            lemma_hybrid_decode_len(
                                rest.skip(nbytes as int),
                                bw,
                                (count - nvals) as nat,
                            );
                        }
                    }
                }
            },
        }
    }
}

} // verus!
