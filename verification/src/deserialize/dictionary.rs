//! Dictionaries: immutable, indexable tables of previously decoded
//! values, shared by every data page of a column chunk.

use vstd::prelude::*;
use vstd::slice::slice_to_vec;
use crate::deserialize::fixed_len::{decode_fixed_len, spec_fixed_chunks};
use crate::deserialize::native::{native_cast, spec_native_cast, NativeType};
use crate::errors::DecodeError;

verus! {

/// An immutable table of native values, resolved by index.
pub struct Dictionary<T> {
    pub values: Vec<T>,
}

impl<T: Copy> Dictionary<T> {
    /// Resolves one index. Fails exactly when the index is not smaller
    /// than the table's length: an out-of-range index is never wrapped
    /// around or replaced by a default.
    pub fn value(&self, index: usize) -> (r: Result<T, DecodeError>)
        ensures
            r is Ok <==> index < self.values@.len(),
            r matches Ok(v) ==> v == self.values@[index as int],
            r is Err ==> r->Err_0 == DecodeError::DictionaryIndexOutOfRange,
    {
        if index < self.values.len() {
            Ok(self.values[index])
        } else {
            Err(DecodeError::DictionaryIndexOutOfRange)
        }
    }

    /// How many values the table holds.
    pub fn len(&self) -> (r: usize)
        ensures
            r == self.values@.len(),
    {
        self.values.len()
    }
}

/// Builds a native dictionary from a dictionary page's value bytes.
pub fn read_native_dictionary<T: NativeType>(data: &[u8]) -> (r: Result<Dictionary<T>, DecodeError>)
    ensures
        r is Ok <==> spec_native_cast::<T>(data@) is Some,
        r matches Ok(d) ==> spec_native_cast::<T>(data@) == Some(d.values@),
        r is Err ==> r->Err_0 == DecodeError::BufferLengthMismatch,
{
    let values = native_cast::<T>(data)?;
    Ok(Dictionary { values })
}

/// An immutable table of fixed-width byte values, resolved by index.
pub struct FixedLenDictionary {
    pub width: usize,
    pub values: Vec<Vec<u8>>,
}

impl FixedLenDictionary {
    /// Resolves one index to a copy of its byte value. Fails exactly
    /// when the index is not smaller than the table's length.
    pub fn value(&self, index: usize) -> (r: Result<Vec<u8>, DecodeError>)
        ensures
            r is Ok <==> index < self.values@.len(),
            r matches Ok(v) ==> v@ == self.values@[index as int]@,
            r is Err ==> r->Err_0 == DecodeError::DictionaryIndexOutOfRange,
    {
        if index < self.values.len() {
            Ok(slice_to_vec(self.values[index].as_slice()))
        } else {
            Err(DecodeError::DictionaryIndexOutOfRange)
        }
    }

    /// How many values the table holds.
    pub fn len(&self) -> (r: usize)
        ensures
            r == self.values@.len(),
    {
        self.values.len()
    }
}

/// Builds a fixed-length binary dictionary from a dictionary page's
/// value bytes.
pub fn read_fixed_len_dictionary(data: &[u8], width: usize) -> (r: Result<
    FixedLenDictionary,
    DecodeError,
>)
    ensures
        r is Ok <==> spec_fixed_chunks(data@, width as nat) is Some,
        r matches Ok(d) ==> {
            &&& d.width == width
            &&& spec_fixed_chunks(data@, width as nat) matches Some(chunks)
            &&& d.values@.len() == chunks.len()
            &&& forall|i: int| 0 <= i < chunks.len() ==> (#[trigger] d.values@[i])@ == chunks[i]
        },
        r is Err ==> r->Err_0 == DecodeError::BufferLengthMismatch,
{
    let values = decode_fixed_len(data, width)?;
    Ok(FixedLenDictionary { width, values })
}

} // verus!

verus! {

/// Builds a boolean dictionary from a dictionary page's bit-packed
/// value bytes.
pub fn read_boolean_dictionary(data: &[u8], count: usize) -> (r: Result<
    Dictionary<bool>,
    DecodeError,
>)
    ensures
        r is Ok <==> count <= 8 * data@.len(),
        r matches Ok(d) ==> d.values@ == crate::deserialize::boolean::spec_plain_booleans(
            data@,
            count as nat,
        ),
        r is Err ==> r->Err_0 == DecodeError::CorruptedStream,
{
    let values = crate::deserialize::boolean::decode_plain_booleans(data, count)?;
    Ok(Dictionary { values })
}

} // verus!
