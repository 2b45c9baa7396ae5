//! Recovery and re-issuance of a threshold-shared device key-encryption key.
//!
//! A symmetric secret, split into Shamir threshold shares over a 64-bit prime
//! field, is recombined from a quorum of shares, checked against a legacy
//! encrypted backup record, and then re-split under a freshly generated prime
//! modulus.

use vstd::prelude::*;

pub mod cipher;
pub mod codec;
pub mod editor;
pub mod field;
pub mod hexfmt;
pub mod kdf;
pub mod numtheory;
pub mod prime;
pub mod record;
pub mod shamir;
pub mod workflow;

verus! {

/// Errors the recovery pipeline can report.
#[derive(Debug, Clone, Copy, PartialEq, Eq, Structural)]
pub enum RecryptError {
    /// Plain-integer bookkeeping arithmetic left the 64-bit range.
    IntegerOverflow,
    /// A plain integer was asked for a modular inverse, or a residue whose
    /// value is not coprime to the modulus.
    NotInvertible,
    /// A split was asked for with a threshold under two, or with more
    /// required shares than total shares.
    InvalidThreshold,
    /// Decrypted trailing bytes do not form valid block padding — the usual
    /// sign that the reconstructed secret was wrong.
    InvalidPadding,
    /// A backup record of the wrong size.
    RecordWrongLength,
    /// A backup record that does not start with the magic tag.
    RecordBadMagic,
    /// Valid padding, but the remaining payload is not the 32 bytes a key
    /// backup holds.
    WrongPayloadLength,
    /// No prime above the requested bound was found within the retry budget.
    PrimeExhausted,
    /// Text input holding a character that is neither a hexadecimal digit
    /// nor a grouping colon.
    InputNotHex,
    /// Text input whose digit count is not the sixteen digits of a 64-bit
    /// value.
    InputWrongLength,
    /// The backup record would not decrypt under the reconstructed secret —
    /// the entered shares are likely wrong.
    LikelyWrongShares,
}

} // verus!
