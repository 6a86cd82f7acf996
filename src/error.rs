use vstd::prelude::*;

verus! {

/// Everything that can stop a batch of passwords from being produced.
#[derive(Debug)]
pub enum PasswordError {
    /// The specification is the empty string.
    EmptySpec,
    /// A byte outside printable ASCII (0x20..=0x7e) occurs in the specification.
    Untypeable,
    /// A hyphen stands where only an escaped hyphen may.
    UnescapedHyphen,
    /// A backslash is followed by something other than `-` or `\`.
    InvalidEscape(u8),
    /// The specification ends right after a backslash.
    UnterminatedEscape,
    /// The specification ends right after `x-`.
    UnterminatedRange,
    /// The compiled set holds no byte at all.
    EmptyCharset,
    /// The system's entropy source failed.
    Entropy(rand::Error),
}

} // verus!

verus! {

/// The error that `rand`'s generators report; carried through unchanged.
#[verifier::external_type_specification]
#[verifier::external_body]
pub struct ExRandError(rand::Error);

} // verus!
