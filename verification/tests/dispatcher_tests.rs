use sentiment_counter::classifier::{interpret_prediction, RawPrediction};
use sentiment_counter::dispatcher::{apply_classification, apply_load, apply_save, apply_update,
    receive, respond, route_get, save_payload, validate, check_method, DispatchState, LambdaInput};
use sentiment_counter::errors::{http_status, LambdaError};
use sentiment_counter::store::{LoadOutcome, SaveOutcome};

/// Drives one request through the dispatcher against an in-memory store,
/// with the model's raw verdicts supplied as the classifier event.
fn run_request(
    command: &str,
    text: &str,
    verdicts: Vec<RawPrediction>,
    store: &mut Option<Vec<u8>>,
) -> (u16, String) {
    let input = LambdaInput { command: command.to_string(), text: text.to_string() };
    let mut state = validate(receive(input));
    if matches!(state, DispatchState::Rejected { .. }) {
        return finish(respond(state));
    }
    state = apply_classification(state, interpret_prediction(&verdicts));
    loop {
        if matches!(state, DispatchState::Failed { .. }) {
            return finish(respond(state));
        }
        let outcome = match store {
            Some(bytes) => LoadOutcome::Found(bytes.clone()),
            None => LoadOutcome::Missing,
        };
        state = apply_load(state, outcome);
        if matches!(state, DispatchState::Failed { .. }) {
            return finish(respond(state));
        }
        state = apply_update(state);
        if matches!(state, DispatchState::Failed { .. }) {
            return finish(respond(state));
        }
        let payload = save_payload(&state);
        *store = Some(payload);
        state = apply_save(state, SaveOutcome::Saved);
        if matches!(state, DispatchState::Persisted { .. }) {
            return finish(respond(state));
        }
    }
}

fn finish(state: DispatchState) -> (u16, String) {
    match state {
        DispatchState::Responded { status, output } => (status, output.result),
        _ => panic!("respond did not terminalize"),
    }
}

#[test]
fn test_process_event_positive_sentiment() {
    let mut store = None;
    let verdicts = vec![RawPrediction { positive: true, score_micros: 998000 }];
    let (status, body) = run_request("sentiment", "I love Rust!", verdicts, &mut store);
    assert!(body.contains("Positive"));
    assert_eq!(status, 200);
}

#[test]
fn test_process_event_negative_sentiment() {
    let mut store = None;
    let verdicts = vec![RawPrediction { positive: false, score_micros: 970000 }];
    let (status, body) = run_request("sentiment", "I hate Rust!", verdicts, &mut store);
    assert!(body.contains("Negative"));
    assert_eq!(status, 200);
}

#[test]
fn test_invalid_command() {
    let input = LambdaInput {
        command: "unknown_command".to_string(),
        text: "Some text".to_string(),
    };
    let state = validate(receive(input));
    assert!(matches!(state, DispatchState::Rejected { status: 400 }));
}

#[test]
fn unknown_command_yields_400_and_no_store_write() {
    let mut store = None;
    let verdicts = vec![RawPrediction { positive: true, score_micros: 998000 }];
    let (status, body) = run_request("unknown_command", "Some text", verdicts, &mut store);
    assert_eq!(status, 400);
    assert_eq!(body, "Invalid command");
    assert!(store.is_none());
}

#[test]
fn classifier_failure_yields_500_and_no_store_write() {
    let mut store = None;
    let (status, body) = run_request("sentiment", "anything", Vec::new(), &mut store);
    assert_eq!(status, 500);
    assert_eq!(body, "Internal error");
    assert!(store.is_none());
}

#[test]
fn store_load_failure_fails_the_request() {
    let input = LambdaInput { command: "sentiment".to_string(), text: "fine".to_string() };
    let verdicts = vec![RawPrediction { positive: true, score_micros: 900000 }];
    let mut state = validate(receive(input));
    state = apply_classification(state, interpret_prediction(&verdicts));
    state = apply_load(state, LoadOutcome::Failure);
    assert!(matches!(state, DispatchState::Failed { error: LambdaError::S3Error }));
    let (status, _) = finish(respond(state));
    assert_eq!(status, 500);
}

#[test]
fn malformed_stored_bytes_fail_the_request() {
    let input = LambdaInput { command: "sentiment".to_string(), text: "fine".to_string() };
    let verdicts = vec![RawPrediction { positive: true, score_micros: 900000 }];
    let mut state = validate(receive(input));
    state = apply_classification(state, interpret_prediction(&verdicts));
    state = apply_load(state, LoadOutcome::Found(b"not a document".to_vec()));
    assert!(matches!(state, DispatchState::Failed { error: LambdaError::EncodingError }));
}

#[test]
fn save_failure_fails_the_whole_request() {
    // policy: a persistence failure after successful classification fails
    // the request
    let input = LambdaInput { command: "sentiment".to_string(), text: "fine".to_string() };
    let verdicts = vec![RawPrediction { positive: true, score_micros: 900000 }];
    let mut state = validate(receive(input));
    state = apply_classification(state, interpret_prediction(&verdicts));
    state = apply_load(state, LoadOutcome::Missing);
    state = apply_update(state);
    state = apply_save(state, SaveOutcome::Failure);
    assert!(matches!(state, DispatchState::Failed { error: LambdaError::S3Error }));
    let (status, body) = finish(respond(state));
    assert_eq!(status, 500);
    assert_eq!(body, "Internal error");
}

#[test]
fn version_mismatch_retries_then_gives_up() {
    let input = LambdaInput { command: "sentiment".to_string(), text: "fine".to_string() };
    let verdicts = vec![RawPrediction { positive: true, score_micros: 900000 }];
    let mut state = validate(receive(input));
    state = apply_classification(state, interpret_prediction(&verdicts));
    let mut mismatches: u32 = 0;
    loop {
        state = apply_load(state, LoadOutcome::Missing);
        state = apply_update(state);
        let _payload = save_payload(&state);
        state = apply_save(state, SaveOutcome::VersionMismatch);
        match state {
            DispatchState::Classified { .. } => {
                mismatches += 1;
            }
            DispatchState::Failed { error } => {
                assert_eq!(error, LambdaError::S3Error);
                break;
            }
            _ => panic!("unexpected state after mismatched save"),
        }
    }
    assert_eq!(mismatches, 3);
}

#[test]
fn end_to_end_love_this_from_empty_store() {
    let mut store = None;
    let verdicts = vec![RawPrediction { positive: true, score_micros: 999000 }];
    let (status, body) = run_request("sentiment", "I love this!", verdicts, &mut store);
    assert_eq!(status, 200);
    assert!(body.contains("Positive"));
    assert_eq!(store, Some(b"Positive,1\n".to_vec()));
}

#[test]
fn end_to_end_love_this_from_preloaded_store() {
    let mut store = Some(b"Negative,2\nPositive,5\n".to_vec());
    let verdicts = vec![RawPrediction { positive: true, score_micros: 999000 }];
    let (status, body) = run_request("sentiment", "I love this!", verdicts, &mut store);
    assert_eq!(status, 200);
    assert!(body.contains("Positive"));
    assert_eq!(store, Some(b"Negative,2\nPositive,6\n".to_vec()));
}

#[test]
fn route_get_missing_text_is_400_before_classification() {
    let r = route_get(None);
    let (status, output) = r.err().expect("missing text must be rejected");
    assert_eq!(status, 400);
    assert_eq!(output.result, "Missing text parameter");
}

#[test]
fn route_get_builds_the_sentiment_command() {
    let inp = route_get(Some("I love this!".to_string())).unwrap();
    assert_eq!(inp.command, "sentiment");
    assert_eq!(inp.text, "I love this!");
}

#[test]
fn disallowed_method_is_405() {
    let r = check_method(&"PUT".to_string());
    let (status, output) = r.err().expect("PUT must be refused");
    assert_eq!(status, 405);
    assert_eq!(output.result, "Method not allowed");
    assert!(check_method(&"GET".to_string()).is_ok());
    assert!(check_method(&"POST".to_string()).is_ok());
}

#[test]
fn http_status_mapping() {
    assert_eq!(http_status(&LambdaError::InvalidCommand), 400);
    assert_eq!(http_status(&LambdaError::SentimentError), 500);
    assert_eq!(http_status(&LambdaError::S3Error), 500);
    assert_eq!(http_status(&LambdaError::EncodingError), 500);
}

#[test]
fn error_messages_for_operator_logs() {
    assert_eq!(LambdaError::InvalidCommand.message(), "Invalid command");
    assert_eq!(LambdaError::SentimentError.message(), "Sentiment analysis error");
    assert_eq!(LambdaError::S3Error.message(), "AWS S3 Error");
    assert_eq!(
        LambdaError::EncodingError.message(),
        "Counter document encoding error"
    );
}
