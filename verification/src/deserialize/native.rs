//! Zero-copy style reinterpretation of a byte region as fixed-width
//! native values.

use vstd::prelude::*;
use crate::deserialize::bitutil::le_value;
use crate::errors::DecodeError;

verus! {

/// A fixed-width native value that can be read from little-endian bytes.
pub trait NativeType: Sized + Copy {
    /// The value's width in bytes.
    spec fn spec_width() -> nat;

    /// The value read from exactly `spec_width` little-endian bytes.
    spec fn spec_from_le(b: Seq<u8>) -> Self;

    /// The value's width in bytes.
    fn width() -> (w: usize)
        ensures
            w as nat == Self::spec_width(),
            1 <= w <= 16,
    ;

    /// Reads one value from its little-endian bytes.
    fn from_le(b: &[u8]) -> (r: Self)
        requires
            b@.len() == Self::spec_width(),
        ensures
            r == Self::spec_from_le(b@),
    ;
}

/// The signed 32-bit value with the given unsigned representation.
pub open spec fn spec_i32_from_unsigned(v: nat) -> i32 {
    if v < 0x8000_0000 {
        v as i32
    } else {
        (v - 0x1_0000_0000) as i32
    }
}

/// The signed 64-bit value with the given unsigned representation.
pub open spec fn spec_i64_from_unsigned(v: nat) -> i64 {
    if v < 0x8000_0000_0000_0000 {
        v as i64
    } else {
        (v - 0x1_0000_0000_0000_0000) as i64
    }
}

fn read_le_u64(b: &[u8]) -> (r: u64)
    requires
        1 <= b@.len() <= 8,
    ensures
        r as nat == le_value(b@),
{
    let ghost full = b@;
    let w = b.len();
    let mut j: usize = 0;
    let mut acc: u64 = 0;
    let mut mult: u64 = 1;
    proof {
        assert(vstd::arithmetic::power2::pow2(0) == 1) by {
            vstd::arithmetic::power2::lemma2_to64();
        }
        assert(full.skip(0) =~= full);
    }
    while j < w
        invariant
            j <= w,
            w == b@.len(),
            1 <= w <= 8,
            full == b@,
            j < w ==> mult == vstd::arithmetic::power2::pow2((8 * j) as nat),
            acc < vstd::arithmetic::power2::pow2((8 * j) as nat),
            le_value(full) == acc + vstd::arithmetic::power2::pow2((8 * j) as nat) * le_value(
                full.skip(j as int),
            ),
        decreases w - j,
    {
        let byte = b[j];
        proof {
            assert(full.skip(j as int)[0] == byte);
            assert(full.skip(j as int).skip(1) =~= full.skip(j + 1));
            vstd::arithmetic::power2::lemma_pow2_adds((8 * j) as nat, 8);
            vstd::arithmetic::power2::lemma2_to64();
            assert(le_value(full.skip(j as int)) == byte + 256 * le_value(full.skip(j + 1)));
            assert(acc + mult * (byte + 256 * le_value(full.skip(j + 1))) == (acc + byte * mult)
                + (mult * 256) * le_value(full.skip(j + 1))) by (nonlinear_arith);
            assert(acc + byte * mult < vstd::arithmetic::power2::pow2(
                (8 * (j + 1)) as nat,
            )) by (nonlinear_arith)
                requires
                    acc < vstd::arithmetic::power2::pow2((8 * j) as nat),
                    mult == vstd::arithmetic::power2::pow2((8 * j) as nat),
                    byte < 256,
                    vstd::arithmetic::power2::pow2((8 * (j + 1)) as nat) == 256
                        * vstd::arithmetic::power2::pow2((8 * j) as nat),
            ;
            if 8 * (j + 1) < 64 {
                vstd::arithmetic::power2::lemma_pow2_strictly_increases((8 * (j + 1)) as nat, 64);
            }
            assert(vstd::arithmetic::power2::pow2(64) == 0x1_0000_0000_0000_0000) by {
                vstd::arithmetic::power2::lemma2_to64_rest();
            }
        }
        acc = acc + (byte as u64) * mult;
        if j + 1 < w {
            proof {
                vstd::arithmetic::power2::lemma_pow2_strictly_increases((8 * (j + 1)) as nat, 64);
            }
            mult = mult * 256;
        }
        j += 1;
    }
    proof {
        assert(full.skip(w as int) =~= Seq::<u8>::empty());
        assert(le_value(full.skip(w as int)) == 0);
        assert(vstd::arithmetic::power2::pow2((8 * w) as nat) * le_value(full.skip(w as int))
            == 0) by (nonlinear_arith)
            requires
                le_value(full.skip(w as int)) == 0,
        ;
    }
    acc
}

impl NativeType for i32 {
    open spec fn spec_width() -> nat {
        4
    }

    open spec fn spec_from_le(b: Seq<u8>) -> i32 {
        spec_i32_from_unsigned(le_value(b))
    }

    fn width() -> (w: usize) {
        4
    }

    fn from_le(b: &[u8]) -> (r: i32) {
        let u = read_le_u64(b);
        proof {
            crate::deserialize::bitutil::lemma_le_value_bound(b@);
            assert(vstd::arithmetic::power2::pow2(32) == 0x1_0000_0000) by {
                vstd::arithmetic::power2::lemma2_to64();
                vstd::arithmetic::power2::lemma2_to64_rest();
            }
        }
        if u >= 0x8000_0000u64 {
            let mag = (u - 0x8000_0000u64) as u32;
            (mag as i32) - 0x4000_0000i32 - 0x4000_0000i32
        } else {
            u as i32
        }
    }
}

impl NativeType for i64 {
    open spec fn spec_width() -> nat {
        8
    }

    open spec fn spec_from_le(b: Seq<u8>) -> i64 {
        spec_i64_from_unsigned(le_value(b))
    }

    fn width() -> (w: usize) {
        8
    }

    fn from_le(b: &[u8]) -> (r: i64) {
        let u = read_le_u64(b);
        proof {
            crate::deserialize::bitutil::lemma_le_value_bound(b@);
            assert(vstd::arithmetic::power2::pow2(64) == 0x1_0000_0000_0000_0000) by {
                vstd::arithmetic::power2::lemma2_to64();
                vstd::arithmetic::power2::lemma2_to64_rest();
            }
        }
        if u >= 0x8000_0000_0000_0000u64 {
            let mag = u - 0x8000_0000_0000_0000u64;
            (mag as i64) - 0x4000_0000_0000_0000i64 - 0x4000_0000_0000_0000i64
        } else {
            u as i64
        }
    }
}

/// What reinterpreting a byte region as fixed-width values gives: one
/// value per width-sized chunk, or nothing when the region's length is
/// not a multiple of the width.
pub open spec fn spec_native_cast<T: NativeType>(data: Seq<u8>) -> Option<Seq<T>> {
    let w = T::spec_width() as int;
    if data.len() as int % w == 0 {
        Some(Seq::new((data.len() as int / w) as nat, |i: int| T::spec_from_le(data.subrange(i * w, (i + 1) * w))))
    } else {
        None
    }
}

/// Reinterprets a byte region as a row of fixed-width native values.
/// Fails with a length mismatch exactly when the region's length is not
/// a multiple of the value width.
pub fn native_cast<T: NativeType>(data: &[u8]) -> (r: Result<Vec<T>, DecodeError>)
    ensures
        r is Ok <==> spec_native_cast::<T>(data@) is Some,
        r matches Ok(v) ==> spec_native_cast::<T>(data@) == Some(v@),
        r is Err ==> r->Err_0 == DecodeError::BufferLengthMismatch,
{
    let w = T::width();
    let dlen = data.len();
    if dlen % w != 0 {
        return Err(DecodeError::BufferLengthMismatch);
    }
    let n = dlen / w;
    let ghost vals = spec_native_cast::<T>(data@)->0;
    let mut out: Vec<T> = Vec::new();
    let mut i: usize = 0;
    proof {
        assert(n as int * w as int == dlen as int) by (nonlinear_arith)
            requires
                n as int == dlen as int / w as int,
                dlen as int % w as int == 0,
                w >= 1,
        ;
    }
    while i < n
        invariant
            i <= n,
            w as nat == T::spec_width(),
            1 <= w,
            dlen == data@.len(),
            n as int * w as int == dlen as int,
            n as int == dlen as int / w as int,
            dlen as int % w as int == 0,
            vals == spec_native_cast::<T>(data@)->0,
            out@ =~= vals.take(i as int),
        decreases n - i,
    {
        proof {
            assert((i + 1) as int * w as int <= n as int * w as int) by (nonlinear_arith)
                requires
                    i < n,
                    w >= 1,
            ;
            assert(i as int * w as int <= (i + 1) as int * w as int) by (nonlinear_arith)
                requires
                    w >= 1,
                    i >= 0,
            ;
        }
        let chunk = &data[i * w..(i + 1) * w];
        proof {
            assert(chunk@ =~= data@.subrange(i as int * w, (i + 1) as int * w));
            assert((i + 1) as int * w as int - i as int * w as int == w as int)
                by (nonlinear_arith);
            assert(chunk@.len() == w as nat);
        }
        let v = T::from_le(chunk);
        proof {
            assert(vals[i as int] == T::spec_from_le(
                data@.subrange(i as int * w, (i + 1) as int * w),
            ));
            assert(vals.take(i + 1) =~= vals.take(i as int).push(vals[i as int]));
        }
        out.push(v);
        i += 1;
    }
    proof {
        assert(vals.take(n as int) =~= vals);
    }
    Ok(out)
}

} // verus!
