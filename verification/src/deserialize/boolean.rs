//! Plain-encoded boolean pages: one value per bit, LSB-first, no run
//! headers.

use vstd::prelude::*;
use crate::deserialize::bitutil::spec_bit;
use crate::errors::DecodeError;

verus! {

/// The booleans packed LSB-first in a byte region, one per bit.
pub open spec fn spec_plain_booleans(region: Seq<u8>, count: nat) -> Seq<bool> {
    Seq::new(count, |i: int| spec_bit(region, i) == 1)
}

/// Decodes `count` plain booleans from a region of packed bits. Fails
/// exactly when the region holds fewer than `count` bits.
pub fn decode_plain_booleans(data: &[u8], count: usize) -> (r: Result<Vec<bool>, DecodeError>)
    ensures
        r is Ok <==> count <= 8 * data@.len(),
        r matches Ok(v) ==> v@ == spec_plain_booleans(data@, count as nat),
        r is Err ==> r->Err_0 == DecodeError::CorruptedStream,
{
    let dlen = data.len();
    if count > 0 && (count - 1) / 8 >= dlen {
        proof {
            assert(count > 8 * data@.len()) by (nonlinear_arith)
                requires
                    count >= 1,
                    (count - 1) / 8 >= data@.len(),
            ;
        }
        return Err(DecodeError::CorruptedStream);
    }
    proof {
        if count > 0 {
            assert(count <= 8 * data@.len()) by (nonlinear_arith)
                requires
                    count >= 1,
                    (count - 1) / 8 < data@.len(),
            ;
        }
    }
    let mut out: Vec<bool> = Vec::new();
    let mut i: usize = 0;
    while i < count
        invariant
            count > 0 ==> (count - 1) / 8 < dlen,
            dlen == data@.len(),
            i <= count,
            out@ =~= spec_plain_booleans(data@, i as nat).take(i as int),
        decreases count - i,
    {
        proof {
            assert(i / 8 <= (count - 1) / 8) by (nonlinear_arith)
                requires
                    i < count,
            ;
        }
        let byte = data[i / 8];
        let sh: u64 = (i % 8) as u64;
        let bitv: u64 = ((byte as u64) >> sh) & 1;
        proof {
            vstd::bits::lemma_u64_shr_is_div(byte as u64, sh);
            vstd::bits::lemma_u64_low_bits_mask_is_mod((byte as u64) >> sh, 1);
            assert(vstd::bits::low_bits_mask(1) == 1) by {
                vstd::bits::lemma_low_bits_mask_values();
            }
            assert(vstd::arithmetic::power2::pow2(1) == 2) by {
                vstd::arithmetic::power2::lemma2_to64();
            }
            assert(bitv == spec_bit(data@, i as int)) by {
                vstd::arithmetic::power2::lemma_pow2_pos((i % 8) as nat);
            }
            assert(spec_plain_booleans(data@, (i + 1) as nat).take(i + 1) =~= spec_plain_booleans(
                data@,
                i as nat,
            ).take(i as int).push(spec_bit(data@, i as int) == 1));
        }
        out.push(bitv == 1);
        i += 1;
    }
    proof {
        assert(spec_plain_booleans(data@, count as nat).take(count as int) =~= spec_plain_booleans(
            data@,
            count as nat,
        ));
    }
    Ok(out)
}

} // verus!
