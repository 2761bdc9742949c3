use vstd::prelude::*;

verus! {

/// The ways an operation of this library can fail.
#[derive(Debug, Clone, Copy, PartialEq, Eq, Structural)]
pub enum CryptoError {
    /// A buffer does not end in valid PKCS#7 padding.
    InvalidPadding,
    /// An oracle did not behave as the attack that queried it assumes.
    OracleContractViolated,
    /// A length is wrong: a ciphertext not made of whole blocks, or an IV,
    /// nonce or key of the wrong size.
    MalformedInput,
}

} // verus!
