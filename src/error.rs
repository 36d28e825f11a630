use vstd::prelude::*;

verus! {

/// Lets `std::io::Error` stand in a field; it is carried through, never inspected.
#[verifier::external_type_specification]
#[verifier::external_body]
pub struct ExIoError(std::io::Error);

/// The ways a compression or decompression can fail.
pub enum LzwError {
    /// A failure of the underlying file or stream.
    ErrIO(std::io::Error),
    /// The symbol stream cannot be packed.
    ErrCompress(String),
    /// The payload is misaligned or holds fewer symbols than declared.
    ErrDecompress(String),
    /// The magic is wrong, or a code does not name a table entry.
    ErrInvalidLzw,
    /// Anything else.
    ErrOther(String),
}

} // verus!
