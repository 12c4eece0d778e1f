//! Verification of fetched sources against their expected content hash.
//! The download itself is outside work; what is verified here is the
//! decision: a fetched file is accepted exactly when its digest equals the
//! expected one.

use vstd::prelude::*;

use crate::store::ArtifactId;

verus! {

/// Why a fetch failed.
#[derive(Debug)]
pub enum FetchError {
    /// The transfer tool reported a failure.
    CurlError(String),
    /// A filesystem operation failed.
    IOError(String),
    /// The fetched content's digest differs from the expected one.
    InvalidHash(String),
}

/// What to fetch and where to keep it.
#[derive(Debug)]
pub struct FetchOptions {
    /// The source location.
    pub url: String,
    /// The expected content digest.
    pub hash: ArtifactId,
    /// The store directory that receives the file.
    pub store: String,
    /// Extra options for the transfer tool.
    pub curl_opts: Vec<String>,
}

/// Accept a fetched file exactly when its digest equals the expected one.
pub fn verify_fetched(expected: &ArtifactId, actual: &ArtifactId) -> (r: Result<(), FetchError>)
    ensures
        r is Ok <==> expected.bytes@ == actual.bytes@,
        r is Err ==> r->Err_0 is InvalidHash,
{
    if expected.eq_to(actual) {
        Ok(())
    } else {
        Err(FetchError::InvalidHash("expected hash did not match real hash".to_owned()))
    }
}

} // verus!
