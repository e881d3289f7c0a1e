//! Bit- and byte-level views of a byte region: single bits, bit-packed
//! integers read LSB-first, and little-endian byte values.

use vstd::prelude::*;
use vstd::arithmetic::power2::{pow2, lemma_pow2_adds, lemma2_to64};

verus! {

/// Bit `i` of a byte region, counting LSB-first within each byte.
pub open spec fn spec_bit(bytes: Seq<u8>, i: int) -> nat {
    ((bytes[i / 8] as nat) / pow2((i % 8) as nat)) % 2
}

/// The value of `width` bits starting at bit `start` of a byte region,
/// packed LSB-first and read least significant bit first.
pub open spec fn bits_value(bytes: Seq<u8>, start: int, width: nat) -> nat
    decreases width,
{
    if width == 0 {
        0
    } else {
        spec_bit(bytes, start) + 2 * bits_value(bytes, start + 1, (width - 1) as nat)
    }
}

/// The value of a byte region read as a little-endian integer.
pub open spec fn le_value(bytes: Seq<u8>) -> nat
    decreases bytes.len(),
{
    if bytes.len() == 0 {
        0
    } else {
        (bytes[0] + 256 * le_value(bytes.skip(1))) as nat
    }
}

/// A little-endian value of `n` bytes is below `pow2(8 * n)`.
pub proof fn lemma_le_value_bound(bytes: Seq<u8>)
    ensures
        le_value(bytes) < pow2((8 * bytes.len()) as nat),
    decreases bytes.len(),
{
    if bytes.len() == 0 {
        assert(pow2(0) == 1) by {
            lemma2_to64();
        }
    } else {
        lemma_le_value_bound(bytes.skip(1));
        assert(pow2(8 * bytes.len()) == 256 * pow2((8 * (bytes.len() - 1)) as nat)) by {
            lemma_pow2_adds(8, 8 * (bytes.len() - 1) as nat);
            lemma2_to64();
        }
        assert(bytes[0] + 256 * le_value(bytes.skip(1)) < 256 * pow2((8 * (bytes.len() - 1)) as nat))
            by (nonlinear_arith)
            requires
                bytes[0] < 256,
                le_value(bytes.skip(1)) < pow2((8 * (bytes.len() - 1)) as nat),
        ;
    }
}

/// The little-endian bytes of a value, lowest byte first.
pub open spec fn le_bytes(v: nat, w: nat) -> Seq<u8>
    decreases w,
{
    if w == 0 {
        Seq::empty()
    } else {
        seq![(v % 256) as u8] + le_bytes(v / 256, (w - 1) as nat)
    }
}

/// Writing a value as `w` little-endian bytes and reading it back gives
/// the value, whenever it fits in `w` bytes.
pub proof fn lemma_le_round_trip(v: nat, w: nat)
    requires
        v < pow2(8 * w),
    ensures
        le_bytes(v, w).len() == w,
        le_value(le_bytes(v, w)) == v,
    decreases w,
{
    if w == 0 {
        assert(pow2(0) == 1) by {
            lemma2_to64();
        }
    } else {
        assert(pow2(8 * w) == 256 * pow2(8 * (w - 1) as nat)) by {
            lemma_pow2_adds(8, 8 * (w - 1) as nat);
            lemma2_to64();
        }
        assert(v / 256 < pow2(8 * (w - 1) as nat)) by (nonlinear_arith)
            requires
                v < 256 * pow2(8 * (w - 1) as nat),
        ;
        lemma_le_round_trip(v / 256, (w - 1) as nat);
        let s = le_bytes(v, w);
        assert(s.skip(1) =~= le_bytes(v / 256, (w - 1) as nat));
        assert(le_value(s) == v % 256 + 256 * (v / 256));
    }
}

} // verus!
