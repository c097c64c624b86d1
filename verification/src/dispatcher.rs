//! The dispatcher: a state machine that carries one request through
//! `Received -> Validated -> Classified -> Loaded -> Updated -> Persisted ->
//! Responded`, short-circuiting to `Rejected` on an unsupported command and
//! to `Failed` on a component error. The outside work (the model call, the
//! store's get and put) happens between transitions; each outcome enters as
//! a plain event, so every decision in the cycle is verified.
//!
//! Consistency: the save is a conditional write (expected version observed
//! at load), retried from a fresh load up to `SAVE_RETRY_LIMIT` times on a
//! version mismatch, surfacing `S3Error` on exhaustion. Policy on a
//! persistence failure after a successful classification: the whole request
//! fails, because the count update is part of the command's contract.

use vstd::prelude::*;
use crate::classifier::ClassificationResult;
use crate::codec::{collapse, doc_bytes, encode, parse_rows, rows_fit};
use crate::document::{CountRecord, CounterDocument};
use crate::errors::{LambdaError, http_status, spec_status};
use crate::label::Label;
use crate::store::{LoadOutcome, SaveOutcome, load_document};

verus! {

/// The parsed request envelope: a command and the text to classify.
#[derive(Debug)]
pub struct LambdaInput {
    pub command: String,
    pub text: String,
}

/// The response envelope: a human-readable result line.
#[derive(Debug)]
pub struct LambdaOutput {
    pub result: String,
}

/// How often a conditional save refused on a version mismatch is retried
/// (each retry re-loads, re-increments, and re-saves) before the request
/// fails with `S3Error`.
pub const SAVE_RETRY_LIMIT: u8 = 3;

/// The dispatcher's states. `Responded` and `Failed` are terminal;
/// `Rejected` only awaits its response envelope.
pub enum DispatchState {
    Received { input: LambdaInput },
    Validated { text: String },
    Classified { result: ClassificationResult, retries: u8 },
    Loaded { result: ClassificationResult, doc: CounterDocument, retries: u8 },
    Updated { result: ClassificationResult, doc: CounterDocument, retries: u8 },
    Persisted { result: ClassificationResult },
    Responded { status: u16, output: LambdaOutput },
    Rejected { status: u16 },
    Failed { error: LambdaError },
}

impl DispatchState {
    /// Every document a state carries is well-formed and every
    /// classification result lies in the unit interval.
    pub open spec fn wf(self) -> bool {
        match self {
            DispatchState::Classified { result, .. } => result.wf(),
            DispatchState::Loaded { result, doc, .. } => result.wf() && doc.wf(),
            DispatchState::Updated { result, doc, .. } => result.wf() && doc.wf(),
            DispatchState::Persisted { result } => result.wf(),
            _ => true,
        }
    }
}

/// The success line of the response envelope.
pub open spec fn response_text(l: Label) -> Seq<char> {
    match l {
        Label::Positive => "Sentiment: Positive"@,
        Label::Negative => "Sentiment: Negative"@,
    }
}

/// What validation decides: only the literal command `sentiment` is
/// supported; anything else is rejected with a client error, before the
/// text is looked at.
pub open spec fn spec_validate(input: LambdaInput) -> DispatchState {
    if input.command@ == "sentiment"@ {
        DispatchState::Validated { text: input.text }
    } else {
        DispatchState::Rejected { status: 400u16 }
    }
}

/// Enters the state machine with a parsed request.
pub fn receive(input: LambdaInput) -> (s: DispatchState)
    ensures
        s == (DispatchState::Received { input }),
{
    DispatchState::Received { input }
}

/// `Received -> Validated | Rejected`: checks the command literal.
pub fn validate(s: DispatchState) -> (s2: DispatchState)
    requires
        s is Received,
    ensures
        s2.wf(),
        match s {
            DispatchState::Received { input } => s2 == spec_validate(input),
            _ => false,
        },
{
    match s {
        DispatchState::Received { input } => {
            let cmd = "sentiment".to_owned();
            if input.command == cmd {
                DispatchState::Validated { text: input.text }
            } else {
                DispatchState::Rejected { status: 400 }
            }
        },
        _ => unreached(),
    }
}

/// `Validated -> Classified | Failed`: folds in the classifier's outcome.
/// The classifier itself never touches the store; on its failure the store
/// is never reached.
pub fn apply_classification(
    s: DispatchState,
    outcome: Result<ClassificationResult, LambdaError>,
) -> (s2: DispatchState)
    requires
        s is Validated,
        outcome matches Result::Ok(c) ==> c.wf(),
    ensures
        s2.wf(),
        match outcome {
            Result::Ok(c) => s2 == (DispatchState::Classified {
                result: c,
                retries: SAVE_RETRY_LIMIT,
            }),
            Result::Err(e) => s2 == (DispatchState::Failed { error: e }),
        },
{
    match outcome {
        Result::Ok(c) => DispatchState::Classified { result: c, retries: SAVE_RETRY_LIMIT },
        Result::Err(e) => DispatchState::Failed { error: e },
    }
}

/// `Classified -> Loaded | Failed`: folds in the store's retrieval outcome,
/// decoding the stored document; a missing key is first use and loads the
/// empty document.
pub fn apply_load(s: DispatchState, outcome: LoadOutcome) -> (s2: DispatchState)
    requires
        s is Classified,
        s.wf(),
    ensures
        s2.wf(),
        match s {
            DispatchState::Classified { result, retries } => match outcome {
                LoadOutcome::Found(bytes) => (match parse_rows(bytes@) {
                    Option::Some(rows) => {
                        if rows_fit(rows) {
                            s2 matches DispatchState::Loaded { result: r2, doc, retries: t2 }
                                && r2 == result && t2 == retries && doc.wf() && doc.records@
                                == collapse(rows)
                        } else {
                            s2 == (DispatchState::Failed { error: LambdaError::EncodingError })
                        }
                    },
                    Option::None => s2 == (DispatchState::Failed {
                        error: LambdaError::EncodingError,
                    }),
                }),
                LoadOutcome::Missing => s2 matches DispatchState::Loaded {
                    result: r2,
                    doc,
                    retries: t2,
                } && r2 == result && t2 == retries && doc.wf() && doc.records@
                    == Seq::<CountRecord>::empty(),
                LoadOutcome::Failure => s2 == (DispatchState::Failed {
                    error: LambdaError::S3Error,
                }),
            },
            _ => false,
        },
{
    match s {
        DispatchState::Classified { result, retries } => {
            match load_document(outcome) {
                Result::Ok(doc) => DispatchState::Loaded { result, doc, retries },
                Result::Err(e) => DispatchState::Failed { error: e },
            }
        },
        _ => unreached(),
    }
}

/// `Loaded -> Updated | Failed`: the aggregator step, pure and local. The
/// one way it can fail is the data-integrity limit of a count already at
/// `u64::MAX`.
pub fn apply_update(s: DispatchState) -> (s2: DispatchState)
    requires
        s is Loaded,
        s.wf(),
    ensures
        s2.wf(),
        match s {
            DispatchState::Loaded { result, doc, retries } => {
                if doc.count_of(result.label) < u64::MAX {
                    s2 matches DispatchState::Updated { result: r2, doc: d2, retries: t2 } && r2
                        == result && t2 == retries && d2.wf() && d2.count_of(result.label)
                        == doc.count_of(result.label) + 1 && d2.has_label(result.label) && (
                    forall|m: Label| m != result.label ==> d2.count_of(m) == doc.count_of(m)) && (
                    forall|m: Label| m != result.label ==> d2.has_label(m) == doc.has_label(m))
                } else {
                    s2 == (DispatchState::Failed { error: LambdaError::EncodingError })
                }
            },
            _ => false,
        },
{
    match s {
        DispatchState::Loaded { result, doc, retries } => {
            let c = doc.get_count(result.label);
            if c == u64::MAX {
                DispatchState::Failed { error: LambdaError::EncodingError }
            } else {
                let d2 = doc.increment(result.label);
                DispatchState::Updated { result, doc: d2, retries }
            }
        },
        _ => unreached(),
    }
}

/// The bytes the pending save must write: the updated document, encoded.
pub fn save_payload(s: &DispatchState) -> (v: Vec<u8>)
    requires
        s is Updated,
    ensures
        match s {
            DispatchState::Updated { doc, .. } => v@ == doc_bytes(doc.records@),
            _ => false,
        },
{
    match s {
        DispatchState::Updated { doc, .. } => encode(doc),
        _ => unreached(),
    }
}

/// `Updated -> Persisted | Classified | Failed`: folds in the save outcome.
/// A conditional save refused on a version mismatch is retried from a fresh
/// load while the budget lasts; exhaustion, like any other write failure,
/// surfaces `S3Error`.
pub fn apply_save(s: DispatchState, outcome: SaveOutcome) -> (s2: DispatchState)
    requires
        s is Updated,
        s.wf(),
    ensures
        s2.wf(),
        match s {
            DispatchState::Updated { result, doc, retries } => match outcome {
                SaveOutcome::Saved => s2 == (DispatchState::Persisted { result }),
                SaveOutcome::VersionMismatch => {
                    if retries > 0 {
                        s2 == (DispatchState::Classified {
                            result,
                            retries: (retries - 1) as u8,
                        })
                    } else {
                        s2 == (DispatchState::Failed { error: LambdaError::S3Error })
                    }
                },
                SaveOutcome::Failure => s2 == (DispatchState::Failed {
                    error: LambdaError::S3Error,
                }),
            },
            _ => false,
        },
{
    match s {
        DispatchState::Updated { result, doc: _, retries } => match outcome {
            SaveOutcome::Saved => DispatchState::Persisted { result },
            SaveOutcome::VersionMismatch => {
                if retries > 0 {
                    DispatchState::Classified { result, retries: retries - 1 }
                } else {
                    DispatchState::Failed { error: LambdaError::S3Error }
                }
            },
            SaveOutcome::Failure => DispatchState::Failed { error: LambdaError::S3Error },
        },
        _ => unreached(),
    }
}

/// Terminalizes: builds the response envelope. Success responds 200 and
/// carries the classification result's label verbatim; a rejection keeps
/// its client-error status; an internal failure maps to its status with the
/// detail withheld from the caller (`message` is for the operator's log).
pub fn respond(s: DispatchState) -> (s2: DispatchState)
    requires
        s is Persisted || s is Rejected || s is Failed,
        s.wf(),
    ensures
        s2 is Responded,
        match s {
            DispatchState::Persisted { result } => s2 matches DispatchState::Responded {
                status,
                output,
            } && status == 200u16 && output.result@ == response_text(result.label),
            DispatchState::Rejected { status: st } => s2 matches DispatchState::Responded {
                status,
                output,
            } && status == st && output.result@ == "Invalid command"@,
            DispatchState::Failed { error } => s2 matches DispatchState::Responded {
                status,
                output,
            } && status == spec_status(error) && output.result@ == (
            if error == LambdaError::InvalidCommand {
                "Invalid command"@
            } else {
                "Internal error"@
            }),
            _ => false,
        },
{
    match s {
        DispatchState::Persisted { result } => {
            let text = match result.label {
                Label::Positive => "Sentiment: Positive".to_owned(),
                Label::Negative => "Sentiment: Negative".to_owned(),
            };
            DispatchState::Responded { status: 200, output: LambdaOutput { result: text } }
        },
        DispatchState::Rejected { status } => {
            DispatchState::Responded {
                status,
                output: LambdaOutput { result: "Invalid command".to_owned() },
            }
        },
        DispatchState::Failed { error } => {
            let status = http_status(&error);
            let text = match error {
                LambdaError::InvalidCommand => "Invalid command".to_owned(),
                _ => "Internal error".to_owned(),
            };
            DispatchState::Responded { status, output: LambdaOutput { result: text } }
        },
        _ => unreached(),
    }
}

/// Transport gate for the HTTP front: GET (query transport) and POST (JSON
/// envelope) are served, any other method is disallowed.
pub fn check_method(method: &String) -> (r: Result<(), (u16, LambdaOutput)>)
    ensures
        (method@ == "GET"@ || method@ == "POST"@) ==> r is Ok,
        !(method@ == "GET"@ || method@ == "POST"@) ==> (r matches Result::Err(resp) && resp.0
            == 405u16 && resp.1.result@ == "Method not allowed"@),
{
    let get = "GET".to_owned();
    let post = "POST".to_owned();
    if *method == get || *method == post {
        Result::Ok(())
    } else {
        Result::Err((405, LambdaOutput { result: "Method not allowed".to_owned() }))
    }
}

/// Routing for the GET transport: the command is implied, the `text` query
/// parameter is the input. A missing parameter is a client error answered
/// before the classifier is ever consulted.
pub fn route_get(text_param: Option<String>) -> (r: Result<LambdaInput, (u16, LambdaOutput)>)
    ensures
        match text_param {
            Option::Some(text) => r matches Result::Ok(inp) && inp.command@ == "sentiment"@
                && inp.text == text,
            Option::None => r matches Result::Err(resp) && resp.0 == 400u16 && resp.1.result@
                == "Missing text parameter"@,
        },
{
    match text_param {
        Option::Some(text) => Result::Ok(
            LambdaInput { command: "sentiment".to_owned(), text },
        ),
        Option::None => Result::Err(
            (400, LambdaOutput { result: "Missing text parameter".to_owned() }),
        ),
    }
}

/// Unknown commands never reach the classifier or the store: validation
/// moves them straight to `Rejected` with a client-error status, and every
/// classifier or store transition requires a live, non-rejected state.
pub proof fn lemma_unknown_command_rejected(input: LambdaInput)
    requires
        input.command@ != "sentiment"@,
    ensures
        spec_validate(input) == (DispatchState::Rejected { status: 400u16 }),
{
}

/// The per-label counts after a serialized sequence of committed
/// increments.
pub open spec fn counts_after(neg: nat, pos: nat, commits: Seq<Label>) -> (nat, nat)
    decreases commits.len(),
{
    if commits.len() == 0 {
        (neg, pos)
    } else {
        let before = counts_after(neg, pos, commits.drop_last());
        match commits.last() {
            Label::Negative => (before.0 + 1, before.1),
            Label::Positive => (before.0, before.1 + 1),
        }
    }
}

/// How many commits carry `l`.
pub open spec fn commit_count(commits: Seq<Label>, l: Label) -> nat
    decreases commits.len(),
{
    if commits.len() == 0 {
        0
    } else {
        commit_count(commits.drop_last(), l) + if commits.last() == l {
            1nat
        } else {
            0
        }
    }
}

/// No update is lost under the conditional-save loop: a save commits only
/// against the version it loaded, so concurrent cycles serialize into some
/// order of commits, and after any such order each label's count has grown
/// by exactly the number of commits that carried it. (Without the
/// conditional write, two concurrent cycles may load the same document and
/// the later save silently overwrites the earlier increment.)
pub proof fn lemma_serialized_commits(neg: nat, pos: nat, commits: Seq<Label>)
    ensures
        counts_after(neg, pos, commits).0 == neg + commit_count(commits, Label::Negative),
        counts_after(neg, pos, commits).1 == pos + commit_count(commits, Label::Positive),
    decreases commits.len(),
{
    if commits.len() > 0 {
        lemma_serialized_commits(neg, pos, commits.drop_last());
    }
}

} // verus!
