//! Error values returned by the page decode engine.

use vstd::prelude::*;
use vstd::string::*;

verus! {

/// A failure while decoding one page. Every failure is reported through a
/// `Result`; the engine never truncates or substitutes values silently.
#[derive(Clone, Copy, Debug, PartialEq, Eq, Structural)]
pub enum DecodeError {
    /// The combination of encoding, repetition and filtering is not
    /// implemented by this engine.
    UnsupportedEncoding,
    /// A byte region's length is not a multiple of the expected element
    /// width.
    BufferLengthMismatch,
    /// A hybrid run-length stream has a truncated header or payload, or
    /// ends before the expected number of values was produced.
    CorruptedStream,
    /// A dictionary index is not smaller than the dictionary's length.
    DictionaryIndexOutOfRange,
    /// The values stream ended while the validity stream still marks rows
    /// as present.
    Underflow,
}

/// A failure while parsing or validating a textual schema. It carries the
/// message that describes what was expected and what was found.
#[derive(Debug)]
pub struct ParquetError {
    pub msg: String,
}

impl ParquetError {
    /// Builds a general schema error from its message.
    pub fn general(msg: String) -> (r: ParquetError)
        ensures
            r.msg == msg,
    {
        ParquetError { msg }
    }

    /// The full error text, with the same prefix for every schema error.
    pub fn to_string(&self) -> (r: String)
        ensures
            r@ == "Parquet error: "@ + self.msg@,
    {
        let mut s = String::from_str("Parquet error: ");
        s.append(self.msg.as_str());
        s
    }
}

} // verus!
