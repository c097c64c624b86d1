//! The typed half of the counter store: the blob store itself is an
//! externally owned capability (`get(key) -> bytes | NotFound | error`,
//! `put(key, bytes)`, optionally conditional on a version). What it hands
//! back enters here as plain outcomes; loading, and the pure
//! read-modify-write of the document bytes, are verified against the codec.

use vstd::prelude::*;
use crate::codec::{collapse, decode, doc_bytes, encode, lemma_collapse_of_wf, neg_part,
    parse_rows, pos_part, rows_fit};
use crate::document::{CountRecord, CounterDocument, canon_rows, rows_total};
use crate::errors::LambdaError;
use crate::label::Label;

verus! {

/// What a retrieval against the blob store produced: the stored bytes, no
/// object under the key, or a retrieval failure (auth, network, permission).
pub enum LoadOutcome {
    Found(Vec<u8>),
    Missing,
    Failure,
}

/// What a save attempt produced. `VersionMismatch` is a conditional write
/// refused because the stored version moved since the load.
pub enum SaveOutcome {
    Saved,
    VersionMismatch,
    Failure,
}

/// The typed load: a missing key is first use and yields the empty document;
/// stored bytes are decoded; any other retrieval failure is an `S3Error`.
pub fn load_document(outcome: LoadOutcome) -> (r: Result<CounterDocument, LambdaError>)
    ensures
        match outcome {
            LoadOutcome::Found(bytes) => (match parse_rows(bytes@) {
                Option::Some(rows) => {
                    if rows_fit(rows) {
                        r matches Result::Ok(d) && d.wf() && d.records@ == collapse(rows)
                    } else {
                        r == Result::<CounterDocument, LambdaError>::Err(LambdaError::EncodingError)
                    }
                },
                Option::None => r == Result::<CounterDocument, LambdaError>::Err(
                    LambdaError::EncodingError,
                ),
            }),
            LoadOutcome::Missing => r matches Result::Ok(d) && d.wf() && d.records@
                == Seq::<CountRecord>::empty(),
            LoadOutcome::Failure => r == Result::<CounterDocument, LambdaError>::Err(
                LambdaError::S3Error,
            ),
        },
{
    match outcome {
        LoadOutcome::Found(bytes) => decode(&bytes),
        LoadOutcome::Missing => Result::Ok(CounterDocument::new()),
        LoadOutcome::Failure => Result::Err(LambdaError::S3Error),
    }
}

/// The rows after one increment of `l` on the collapsed document: the
/// label's total grows by one (and the label becomes present), the other
/// label keeps its row, or its absence, untouched.
pub open spec fn bumped(rows: Seq<CountRecord>, l: Label) -> Seq<CountRecord>
    recommends
        rows_fit(rows),
        rows_total(rows, l) < u64::MAX,
{
    match l {
        Label::Negative => canon_rows(
            Option::Some((rows_total(rows, Label::Negative) + 1) as u64),
            pos_part(rows),
        ),
        Label::Positive => canon_rows(
            neg_part(rows),
            Option::Some((rows_total(rows, Label::Positive) + 1) as u64),
        ),
    }
}

/// The pure core of one read-modify-write cycle: decode the stored bytes,
/// increment the label's count, re-encode. Fails with `EncodingError`
/// exactly when the bytes are malformed, a summed total overflows, or the
/// label's count is already at the `u64` limit.
pub fn update_document(bytes: &Vec<u8>, l: Label) -> (r: Result<Vec<u8>, LambdaError>)
    ensures
        match parse_rows(bytes@) {
            Option::Some(rows) => {
                if !rows_fit(rows) || rows_total(rows, l) == u64::MAX {
                    r == Result::<Vec<u8>, LambdaError>::Err(LambdaError::EncodingError)
                } else {
                    r matches Result::Ok(out) && out@ == doc_bytes(bumped(rows, l))
                }
            },
            Option::None => r == Result::<Vec<u8>, LambdaError>::Err(LambdaError::EncodingError),
        },
{
    let d = match decode(bytes) {
        Result::Ok(d) => d,
        Result::Err(e) => {
            return Result::Err(e);
        },
    };
    let ghost rows = parse_rows(bytes@).unwrap();
    proof {
        crate::codec::lemma_collapse_counts(rows);
    }
    let c = d.get_count(l);
    if c == u64::MAX {
        return Result::Err(LambdaError::EncodingError);
    }
    let d2 = d.increment(l);
    proof {
        lemma_collapse_of_wf(d2);
        assert(d2.records@ == canon_rows(neg_part(d2.records@), pos_part(d2.records@)));
        match l {
            Label::Negative => {
                assert(d2.count_of(Label::Positive) == d.count_of(Label::Positive));
                assert(d2.has_label(Label::Positive) == d.has_label(Label::Positive));
                assert(rows_total(d.records@, Label::Positive) == rows_total(
                    rows,
                    Label::Positive,
                ));
                assert(pos_part(d2.records@) == pos_part(rows));
                assert(d2.has_label(Label::Negative));
                assert(d2.count_of(Label::Negative) == rows_total(rows, Label::Negative) + 1);
                assert(neg_part(d2.records@) == Option::Some(
                    (rows_total(rows, Label::Negative) + 1) as u64,
                ));
                assert(d2.records@ == bumped(rows, l));
            },
            Label::Positive => {
                assert(d2.count_of(Label::Negative) == d.count_of(Label::Negative));
                assert(d2.has_label(Label::Negative) == d.has_label(Label::Negative));
                assert(rows_total(d.records@, Label::Negative) == rows_total(
                    rows,
                    Label::Negative,
                ));
                assert(neg_part(d2.records@) == neg_part(rows));
                assert(d2.has_label(Label::Positive));
                assert(d2.count_of(Label::Positive) == rows_total(rows, Label::Positive) + 1);
                assert(pos_part(d2.records@) == Option::Some(
                    (rows_total(rows, Label::Positive) + 1) as u64,
                ));
                assert(d2.records@ == bumped(rows, l));
            },
        }
    }
    let out = encode(&d2);
    Result::Ok(out)
}

} // verus!
