//! The classifier's typed boundary: the raw verdict the black-box model
//! hands back, and its interpretation as a classification result. The model
//! call itself is an external capability; everything it reports is taken as
//! plain values and validated here.

use vstd::prelude::*;
use crate::errors::LambdaError;
use crate::label::Label;

verus! {

/// Confidence is carried in millionths: `1000000` stands for certainty 1.
pub const CONFIDENCE_UNIT: u32 = 1000000;

/// One classification: a label of the closed polarity set and a confidence
/// within the unit interval, in millionths.
#[derive(Clone, Copy, Debug, PartialEq, Eq, Structural)]
pub struct ClassificationResult {
    pub label: Label,
    pub confidence_micros: u32,
}

impl ClassificationResult {
    /// The confidence lies in [0, 1].
    pub open spec fn wf(self) -> bool {
        self.confidence_micros <= CONFIDENCE_UNIT
    }
}

/// The model's raw verdict for one text, as plain values: whether the
/// polarity came out positive, and the reported confidence in millionths.
#[derive(Clone, Copy, Debug, PartialEq, Eq, Structural)]
pub struct RawPrediction {
    pub positive: bool,
    pub score_micros: u32,
}

/// Interprets the model's batch output for a single text. The model yields
/// one verdict per input; an empty batch means it produced no usable output,
/// a `SentimentError`. A reported confidence above the unit is clamped, so a
/// returned result always carries a label of the closed set and a
/// confidence in [0, 1].
pub fn interpret_prediction(preds: &Vec<RawPrediction>) -> (r: Result<
    ClassificationResult,
    LambdaError,
>)
    ensures
        match r {
            Result::Ok(c) => preds@.len() > 0 && c.wf() && c.label == (if preds@[0].positive {
                Label::Positive
            } else {
                Label::Negative
            }) && c.confidence_micros == (if preds@[0].score_micros <= CONFIDENCE_UNIT {
                preds@[0].score_micros
            } else {
                CONFIDENCE_UNIT
            }),
            Result::Err(e) => preds@.len() == 0 && e == LambdaError::SentimentError,
        },
{
    if preds.len() == 0 {
        return Result::Err(LambdaError::SentimentError);
    }
    let p = preds[0];
    let label = if p.positive {
        Label::Positive
    } else {
        Label::Negative
    };
    let confidence_micros = if p.score_micros <= CONFIDENCE_UNIT {
        p.score_micros
    } else {
        CONFIDENCE_UNIT
    };
    Result::Ok(ClassificationResult { label, confidence_micros })
}

} // verus!
