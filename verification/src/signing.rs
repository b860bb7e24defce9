//! What checking a commit's cryptographic signature can say.

use vstd::prelude::*;
use crate::backend::CommitId;

verus! {

/// What a check found out about a signature.
#[derive(Clone, Copy, Debug, PartialEq, Eq, Structural)]
pub enum SigStatus {
    /// The signature fits the content and its key is known.
    Good,
    /// The signature could not be judged, for want of its key.
    Unknown,
    /// The signature does not fit the content.
    Bad,
}

/// The outcome of checking one signature.
#[derive(Clone, Debug, PartialEq, Eq)]
pub struct Verification {
    pub status: SigStatus,
    /// The key that signed, if the check could tell.
    pub key: Option<String>,
    /// The signer as the check would show it to a reader.
    pub display: Option<String>,
}

/// Why a signature could not be checked at all.
#[derive(Clone, Debug, PartialEq, Eq)]
pub enum SignError {
    /// The signature is not in a form that the signer understands.
    InvalidSignatureFormat,
    /// The signer failed, and says how.
    Backend(String),
}

/// What a signer answers: the outcome of the check, or why there is none.
pub type SignResult<T> = Result<T, SignError>;

/// Something that can check signatures.
pub trait SigningBackend {
    /// Checks the signature `signature` over `data` for the commit
    /// `commit_id`.
    fn verify(&self, commit_id: &CommitId, data: &Vec<u8>, signature: &Vec<u8>) -> SignResult<
        Verification,
    >;
}

/// The verification of a commit, given what the signer said of its
/// signature: nothing for an unsigned commit, else the signer's answer.
pub open spec fn verification_of(answer: Option<SignResult<Verification>>) -> SignResult<
    Option<Verification>,
> {
    match answer {
        None => Ok(None),
        Some(Ok(verification)) => Ok(Some(verification)),
        Some(Err(error)) => Err(error),
    }
}

/// Turns the signer's answer on a commit's signature, if the commit has
/// one, into the commit's verification. An unsigned commit is no error.
pub fn verification_from(answer: Option<SignResult<Verification>>) -> (r: SignResult<
    Option<Verification>,
>)
    ensures
        r == verification_of(answer),
{
    match answer {
        None => Ok(None),
        Some(Ok(verification)) => Ok(Some(verification)),
        Some(Err(error)) => Err(error),
    }
}

} // verus!
