//! The error taxonomy of the service and its mapping to HTTP statuses.

use vstd::prelude::*;

verus! {

/// What can go wrong while handling one request.
///
/// `InvalidCommand` is a client error and is raised before the classifier or
/// the store is touched. `SentimentError` is a classifier failure (the model
/// produced no usable result). `S3Error` is a store retrieval or write
/// failure. `EncodingError` is a data-integrity failure: malformed counter
/// document bytes, an unknown label token, or a count that does not fit.
#[derive(Clone, Copy, Debug, PartialEq, Eq, Structural)]
pub enum LambdaError {
    InvalidCommand,
    SentimentError,
    S3Error,
    EncodingError,
}

/// The HTTP status a failure maps to: the unsupported command is the
/// caller's fault (400); everything else is an internal failure (500), whose
/// detail is kept out of the response.
pub open spec fn spec_status(e: LambdaError) -> u16 {
    match e {
        LambdaError::InvalidCommand => 400u16,
        LambdaError::SentimentError => 500u16,
        LambdaError::S3Error => 500u16,
        LambdaError::EncodingError => 500u16,
    }
}

/// Executable form of `spec_status`.
pub fn http_status(e: &LambdaError) -> (status: u16)
    ensures
        status == spec_status(*e),
{
    match e {
        LambdaError::InvalidCommand => 400,
        LambdaError::SentimentError => 500,
        LambdaError::S3Error => 500,
        LambdaError::EncodingError => 500,
    }
}

impl LambdaError {
    /// A short operator-facing description of the failure, for logs.
    pub fn message(&self) -> (msg: String)
        ensures
            msg@ == (match self {
                LambdaError::InvalidCommand => "Invalid command"@,
                LambdaError::SentimentError => "Sentiment analysis error"@,
                LambdaError::S3Error => "AWS S3 Error"@,
                LambdaError::EncodingError => "Counter document encoding error"@,
            }),
    {
        match self {
            LambdaError::InvalidCommand => "Invalid command".to_owned(),
            LambdaError::SentimentError => "Sentiment analysis error".to_owned(),
            LambdaError::S3Error => "AWS S3 Error".to_owned(),
            LambdaError::EncodingError => "Counter document encoding error".to_owned(),
        }
    }
}

} // verus!
