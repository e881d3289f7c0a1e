//! Fixed-length binary pages: a byte region sliced into chunks of one
//! fixed width.

use vstd::prelude::*;
use vstd::slice::slice_to_vec;
use crate::errors::DecodeError;

verus! {

/// What slicing a region into `w`-byte chunks gives: one chunk per `w`
/// bytes, or nothing when the width is zero or the length is not a
/// multiple of it.
pub open spec fn spec_fixed_chunks(data: Seq<u8>, w: nat) -> Option<Seq<Seq<u8>>> {
    if w >= 1 && data.len() as int % w as int == 0 {
        Some(
            Seq::new(
                (data.len() as int / w as int) as nat,
                |i: int| data.subrange(i * w, (i + 1) * w),
            ),
        )
    } else {
        None
    }
}

/// Slices a byte region into chunks of `width` bytes each. Fails with a
/// length mismatch exactly when the width is zero or the region's length
/// is not a multiple of it.
pub fn decode_fixed_len(data: &[u8], width: usize) -> (r: Result<Vec<Vec<u8>>, DecodeError>)
    ensures
        r is Ok <==> spec_fixed_chunks(data@, width as nat) is Some,
        r matches Ok(v) ==> {
            &&& spec_fixed_chunks(data@, width as nat) matches Some(chunks)
            &&& v@.len() == chunks.len()
            &&& forall|i: int| 0 <= i < chunks.len() ==> (#[trigger] v@[i])@ == chunks[i]
        },
        r is Err ==> r->Err_0 == DecodeError::BufferLengthMismatch,
{
    if width == 0 {
        return Err(DecodeError::BufferLengthMismatch);
    }
    let dlen = data.len();
    if dlen % width != 0 {
        return Err(DecodeError::BufferLengthMismatch);
    }
    let n = dlen / width;
    let ghost chunks = spec_fixed_chunks(data@, width as nat)->0;
    let mut out: Vec<Vec<u8>> = Vec::new();
    let mut i: usize = 0;
    proof {
        assert(n as int * width as int == dlen as int) by (nonlinear_arith)
            requires
                n as int == dlen as int / width as int,
                dlen as int % width as int == 0,
                width >= 1,
        ;
    }
    while i < n
        invariant
            i <= n,
            width >= 1,
            dlen == data@.len(),
            n as int * width as int == dlen as int,
            dlen as int % width as int == 0,
            chunks == spec_fixed_chunks(data@, width as nat)->0,
            chunks.len() == n,
            out@.len() == i,
            forall|k: int| 0 <= k < i ==> (#[trigger] out@[k])@ == chunks[k],
        decreases n - i,
    {
        proof {
            assert((i + 1) as int * width as int <= n as int * width as int) by (nonlinear_arith)
                requires
                    i < n,
                    width >= 1,
            ;
            assert(i as int * width as int <= (i + 1) as int * width as int) by (nonlinear_arith)
                requires
                    width >= 1,
                    i >= 0,
            ;
        }
        let chunk = slice_to_vec(&data[i * width..(i + 1) * width]);
        proof {
            assert(chunk@ =~= data@.subrange(i as int * width, (i + 1) as int * width));
            assert(chunks[i as int] =~= data@.subrange(
                i as int * width,
                (i + 1) as int * width,
            ));
        }
        out.push(chunk);
        i += 1;
    }
    Ok(out)
}

} // verus!
