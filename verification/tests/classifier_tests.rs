use sentiment_counter::classifier::{interpret_prediction, RawPrediction, CONFIDENCE_UNIT};
use sentiment_counter::errors::LambdaError;
use sentiment_counter::label::Label;

#[test]
fn empty_model_output_is_sentiment_error() {
    let preds: Vec<RawPrediction> = Vec::new();
    assert!(matches!(
        interpret_prediction(&preds),
        Err(LambdaError::SentimentError)
    ));
}

#[test]
fn positive_verdict_maps_to_positive_label() {
    let preds = vec![RawPrediction { positive: true, score_micros: 998000 }];
    let c = interpret_prediction(&preds).unwrap();
    assert_eq!(c.label, Label::Positive);
    assert_eq!(c.confidence_micros, 998000);
}

#[test]
fn negative_verdict_maps_to_negative_label() {
    let preds = vec![RawPrediction { positive: false, score_micros: 750000 }];
    let c = interpret_prediction(&preds).unwrap();
    assert_eq!(c.label, Label::Negative);
    assert_eq!(c.confidence_micros, 750000);
}

#[test]
fn confidence_is_clamped_to_the_unit() {
    let preds = vec![RawPrediction { positive: true, score_micros: 2000000 }];
    let c = interpret_prediction(&preds).unwrap();
    assert_eq!(c.confidence_micros, CONFIDENCE_UNIT);
}

#[test]
fn only_the_first_verdict_counts() {
    let preds = vec![
        RawPrediction { positive: false, score_micros: 600000 },
        RawPrediction { positive: true, score_micros: 900000 },
    ];
    let c = interpret_prediction(&preds).unwrap();
    assert_eq!(c.label, Label::Negative);
}
