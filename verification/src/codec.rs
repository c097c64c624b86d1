//! The counter document codec: a UTF-8 text of rows `label,count`
//! terminated by newlines, rows sorted by the labels' canonical order.
//! Encoding is total and deterministic; decoding validates every byte,
//! rejects unknown label tokens, and collapses duplicate labels by
//! summation (a defence against malformed historical data).

use vstd::prelude::*;
use crate::digits::{is_digit, dec_val, dec_rep, lemma_dec_rep_digits, lemma_dec_val_of_rep,
    parse_dec, push_dec_rep};
use crate::document::{CountRecord, CounterDocument, canon_rows, lemma_absent_total_zero,
    lemma_canon_props, lemma_rows_present_append, lemma_rows_singleton, lemma_rows_total_append,
    rows_present, rows_total};
use crate::errors::LambdaError;
use crate::label::{Label, label_bytes, label_token, lemma_label_bytes_distinct,
    lemma_label_bytes_shape};

verus! {

/// One encoded row: the label token, a comma, the count's decimal digits,
/// and a newline.
pub open spec fn row_bytes(l: Label, c: u64) -> Seq<u8> {
    label_bytes(l) + seq![44u8] + dec_rep(c as nat) + seq![10u8]
}

/// The encoding of a row sequence: its rows, in order.
pub open spec fn doc_bytes(rows: Seq<CountRecord>) -> Seq<u8>
    decreases rows.len(),
{
    if rows.len() == 0 {
        Seq::<u8>::empty()
    } else {
        row_bytes(rows[0].label, rows[0].count) + doc_bytes(rows.skip(1))
    }
}

/// Appending a row appends its bytes.
pub proof fn lemma_doc_bytes_push(rows: Seq<CountRecord>, r: CountRecord)
    ensures
        doc_bytes(rows.push(r)) == doc_bytes(rows) + row_bytes(r.label, r.count),
    decreases rows.len(),
{
    let p = rows.push(r);
    assert(p.len() == rows.len() + 1);
    if rows.len() == 0 {
        assert(p[0] == r);
        assert(p.skip(1) =~= Seq::<CountRecord>::empty());
        assert(doc_bytes(Seq::<CountRecord>::empty()) == Seq::<u8>::empty());
        assert(doc_bytes(p) == row_bytes(r.label, r.count) + doc_bytes(p.skip(1)));
        assert(doc_bytes(rows) == Seq::<u8>::empty());
        assert(doc_bytes(p) =~= doc_bytes(rows) + row_bytes(r.label, r.count));
    } else {
        assert(p[0] == rows[0]);
        assert(p.skip(1) =~= rows.skip(1).push(r));
        lemma_doc_bytes_push(rows.skip(1), r);
        assert(doc_bytes(p) == row_bytes(p[0].label, p[0].count) + doc_bytes(p.skip(1)));
        assert(doc_bytes(rows) == row_bytes(rows[0].label, rows[0].count) + doc_bytes(
            rows.skip(1),
        ));
        assert(doc_bytes(p) =~= doc_bytes(rows) + row_bytes(r.label, r.count));
    }
}

/// Which label a token denotes, if any. The label set is closed: any other
/// token is an encoding error.
pub open spec fn token_label(t: Seq<u8>) -> Option<Label> {
    if t == label_bytes(Label::Negative) {
        Option::Some(Label::Negative)
    } else if t == label_bytes(Label::Positive) {
        Option::Some(Label::Positive)
    } else {
        Option::None
    }
}

/// How many digits stand at the front of `s`.
pub open spec fn leading_digits(s: Seq<u8>) -> int
    decreases s.len(),
{
    if s.len() > 0 && is_digit(s[0]) {
        1 + leading_digits(s.skip(1))
    } else {
        0
    }
}

/// A digit block followed by a non-digit (or nothing) has its length as the
/// leading digit count.
pub proof fn lemma_leading_digits_concat(a: Seq<u8>, b: Seq<u8>)
    requires
        forall|i: int| 0 <= i < a.len() ==> is_digit(#[trigger] a[i]),
        b.len() == 0 || !is_digit(b[0]),
    ensures
        leading_digits(a + b) == a.len(),
    decreases a.len(),
{
    if a.len() == 0 {
        assert(a + b =~= b);
    } else {
        assert((a + b)[0] == a[0]);
        assert((a + b).skip(1) =~= a.skip(1) + b);
        lemma_leading_digits_concat(a.skip(1), b);
    }
}

/// The grammar of a counter document, parsed row by row from the front.
/// `None` is any malformation: a row without its comma or newline, an
/// unknown label token, an empty digit run, or a count beyond `u64`.
pub open spec fn parse_rows(s: Seq<u8>) -> Option<Seq<CountRecord>>
    decreases s.len(),
{
    if s.len() == 0 {
        Option::Some(Seq::<CountRecord>::empty())
    } else if s.len() < 9 || s[8] != 44u8 {
        Option::None
    } else {
        match token_label(s.subrange(0, 8)) {
            Option::None => Option::None,
            Option::Some(l) => {
                let d = leading_digits(s.skip(9));
                if d < 1 {
                    Option::None
                } else if 9 + d >= s.len() || s[9 + d] != 10u8 {
                    Option::None
                } else if dec_val(s.subrange(9, 9 + d)) > u64::MAX {
                    Option::None
                } else {
                    match parse_rows(s.skip(10 + d)) {
                        Option::None => Option::None,
                        Option::Some(rest) => Option::Some(
                            seq![
                                CountRecord {
                                    label: l,
                                    count: dec_val(s.subrange(9, 9 + d)) as u64,
                                },
                            ] + rest,
                        ),
                    }
                }
            },
        }
    }
}

/// Whether the per-label totals of a row sequence fit in `u64`.
pub open spec fn rows_fit(rows: Seq<CountRecord>) -> bool {
    rows_total(rows, Label::Negative) <= u64::MAX && rows_total(rows, Label::Positive) <= u64::MAX
}

/// The `Negative` part of a collapsed row sequence.
pub open spec fn neg_part(rows: Seq<CountRecord>) -> Option<u64>
    recommends
        rows_fit(rows),
{
    if rows_present(rows, Label::Negative) {
        Option::Some(rows_total(rows, Label::Negative) as u64)
    } else {
        Option::None
    }
}

/// The `Positive` part of a collapsed row sequence.
pub open spec fn pos_part(rows: Seq<CountRecord>) -> Option<u64>
    recommends
        rows_fit(rows),
{
    if rows_present(rows, Label::Positive) {
        Option::Some(rows_total(rows, Label::Positive) as u64)
    } else {
        Option::None
    }
}

/// Collapsing a row sequence: one canonical row per present label, counts
/// summed.
pub open spec fn collapse(rows: Seq<CountRecord>) -> Seq<CountRecord>
    recommends
        rows_fit(rows),
{
    canon_rows(neg_part(rows), pos_part(rows))
}

/// Encodes a document: total and deterministic, row for row.
pub fn encode(d: &CounterDocument) -> (v: Vec<u8>)
    ensures
        v@ == doc_bytes(d.records@),
{
    let mut v: Vec<u8> = Vec::new();
    let n = d.records.len();
    let mut i: usize = 0;
    proof {
        assert(d.records@.take(0) =~= Seq::<CountRecord>::empty());
        assert(v@ =~= doc_bytes(d.records@.take(0)));
    }
    while i < n
        invariant
            i <= n == d.records@.len(),
            v@ == doc_bytes(d.records@.take(i as int)),
        decreases n - i,
    {
        let r = d.records[i];
        let mut tok = label_token(r.label);
        v.append(&mut tok);
        v.push(44u8);
        push_dec_rep(r.count, &mut v);
        v.push(10u8);
        proof {
            assert(v@ =~= doc_bytes(d.records@.take(i as int)) + row_bytes(r.label, r.count));
            lemma_doc_bytes_push(d.records@.take(i as int), r);
            assert(d.records@.take(i as int).push(r) =~= d.records@.take(i as int + 1));
        }
        i = i + 1;
    }
    proof {
        assert(d.records@.take(n as int) =~= d.records@);
    }
    v
}

/// Whether the eight bytes at `at` are the token of `l`.
fn token_matches(bytes: &Vec<u8>, at: usize, l: Label) -> (r: bool)
    requires
        at + 8 <= bytes@.len(),
    ensures
        r == (bytes@.subrange(at as int, at as int + 8) == label_bytes(l)),
{
    let tok = label_token(l);
    let blen = bytes.len();
    let mut i: usize = 0;
    while i < 8
        invariant
            0 <= i <= 8,
            at + 8 <= blen == bytes@.len(),
            tok@ == label_bytes(l),
            forall|k: int| 0 <= k < i ==> bytes@[at + k] == label_bytes(l)[k],
        decreases 8 - i,
    {
        if bytes[at + i] != tok[i] {
            proof {
                assert(bytes@.subrange(at as int, at as int + 8)[i as int] != label_bytes(
                    l,
                )[i as int]);
            }
            return false;
        }
        i = i + 1;
    }
    proof {
        assert(bytes@.subrange(at as int, at as int + 8) =~= label_bytes(l));
    }
    true
}

/// Scans the digit run starting at `from`.
fn digit_run(bytes: &Vec<u8>, from: usize) -> (n: usize)
    requires
        from <= bytes@.len(),
    ensures
        n == leading_digits(bytes@.skip(from as int)),
        from + n <= bytes@.len(),
        forall|k: int| from <= k < from + n ==> is_digit(#[trigger] bytes@[k]),
{
    let len = bytes.len();
    let mut i: usize = from;
    while i < len && 48 <= bytes[i] && bytes[i] <= 57
        invariant
            from <= i <= len == bytes@.len(),
            leading_digits(bytes@.skip(from as int)) == i - from + leading_digits(
                bytes@.skip(i as int),
            ),
            forall|k: int| from <= k < i ==> is_digit(#[trigger] bytes@[k]),
        decreases len - i,
    {
        proof {
            assert(bytes@.skip(i as int)[0] == bytes@[i as int]);
            assert(bytes@.skip(i as int).skip(1) =~= bytes@.skip(i as int + 1));
        }
        i = i + 1;
    }
    proof {
        if i == len {
            assert(bytes@.skip(i as int) =~= Seq::<u8>::empty());
        } else {
            assert(bytes@.skip(i as int)[0] == bytes@[i as int]);
        }
        assert(leading_digits(bytes@.skip(i as int)) == 0);
    }
    i - from
}

/// Decodes counter document bytes. Returns the collapsed, well-formed
/// document exactly when the bytes match the row grammar and the summed
/// totals fit in `u64`; every malformation is an `EncodingError`.
pub fn decode(bytes: &Vec<u8>) -> (r: Result<CounterDocument, LambdaError>)
    ensures
        match parse_rows(bytes@) {
            Option::Some(rows) => {
                if rows_fit(rows) {
                    r matches Result::Ok(d) && d.wf() && d.records@ == collapse(rows)
                } else {
                    r == Result::<CounterDocument, LambdaError>::Err(LambdaError::EncodingError)
                }
            },
            Option::None => r == Result::<CounterDocument, LambdaError>::Err(
                LambdaError::EncodingError,
            ),
        },
{
    let n = bytes.len();
    let mut at: usize = 0;
    let mut neg_acc: Option<u64> = Option::None;
    let mut pos_acc: Option<u64> = Option::None;
    let ghost mut acc = Seq::<CountRecord>::empty();
    proof {
        assert(bytes@.skip(0) =~= bytes@);
    }
    while at < n
        invariant
            at <= n == bytes@.len(),
            match parse_rows(bytes@.skip(at as int)) {
                Option::Some(rest) => parse_rows(bytes@) == Option::Some(acc + rest),
                Option::None => parse_rows(bytes@) is None,
            },
            match neg_acc {
                Option::Some(v) => rows_present(acc, Label::Negative) && v as nat == rows_total(
                    acc,
                    Label::Negative,
                ),
                Option::None => !rows_present(acc, Label::Negative),
            },
            match pos_acc {
                Option::Some(v) => rows_present(acc, Label::Positive) && v as nat == rows_total(
                    acc,
                    Label::Positive,
                ),
                Option::None => !rows_present(acc, Label::Positive),
            },
        decreases n - at,
    {
        let ghost s = bytes@.skip(at as int);
        proof {
            assert(s.len() == n - at);
        }
        if n - at < 9 {
            return Result::Err(LambdaError::EncodingError);
        }
        if bytes[at + 8] != 44 {
            proof {
                assert(s[8] == bytes@[at as int + 8]);
            }
            return Result::Err(LambdaError::EncodingError);
        }
        proof {
            assert(s[8] == bytes@[at as int + 8]);
            assert(s.subrange(0, 8) =~= bytes@.subrange(at as int, at as int + 8));
        }
        let l: Label;
        if token_matches(bytes, at, Label::Negative) {
            l = Label::Negative;
        } else if token_matches(bytes, at, Label::Positive) {
            l = Label::Positive;
        } else {
            proof {
                assert(token_label(s.subrange(0, 8)) is None);
            }
            return Result::Err(LambdaError::EncodingError);
        }
        proof {
            lemma_label_bytes_distinct();
            assert(token_label(s.subrange(0, 8)) == Option::Some(l));
        }
        let dstart = at + 9;
        let drun = digit_run(bytes, dstart);
        proof {
            assert(s.skip(9) =~= bytes@.skip(dstart as int));
        }
        if drun == 0 {
            return Result::Err(LambdaError::EncodingError);
        }
        let dend = dstart + drun;
        if dend >= n {
            proof {
                assert(9 + leading_digits(s.skip(9)) >= s.len());
            }
            return Result::Err(LambdaError::EncodingError);
        }
        if bytes[dend] != 10 {
            proof {
                assert(s[9 + leading_digits(s.skip(9))] == bytes@[dend as int]);
            }
            return Result::Err(LambdaError::EncodingError);
        }
        proof {
            assert(s[9 + leading_digits(s.skip(9))] == bytes@[dend as int]);
            assert(s.subrange(9, 9 + leading_digits(s.skip(9))) =~= bytes@.subrange(
                dstart as int,
                dend as int,
            ));
        }
        let cval: u64;
        match parse_dec(bytes, dstart, dend) {
            Option::Some(v) => {
                cval = v;
            },
            Option::None => {
                return Result::Err(LambdaError::EncodingError);
            },
        }
        let row = CountRecord { label: l, count: cval };
        let ghost rest_s = s.skip(10 + drun as int);
        proof {
            assert(rest_s =~= bytes@.skip(dend as int + 1));
            assert(parse_rows(s) == (match parse_rows(rest_s) {
                Option::None => Option::<Seq<CountRecord>>::None,
                Option::Some(rest) => Option::Some(seq![row] + rest),
            }));
        }
        // fold the row into the per-label accumulators
        match l {
            Label::Negative => {
                let cur: u64 = match neg_acc {
                    Option::Some(v) => v,
                    Option::None => 0,
                };
                proof {
                    if neg_acc is None {
                        lemma_absent_total_zero(acc, Label::Negative);
                    }
                    assert(cur as nat == rows_total(acc, Label::Negative));
                }
                match cur.checked_add(cval) {
                    Option::Some(sum) => {
                        neg_acc = Option::Some(sum);
                    },
                    Option::None => {
                        proof {
                            lemma_overflow_unfit(acc, row, rest_s, Label::Negative);
                        }
                        return Result::Err(LambdaError::EncodingError);
                    },
                }
            },
            Label::Positive => {
                let cur: u64 = match pos_acc {
                    Option::Some(v) => v,
                    Option::None => 0,
                };
                proof {
                    if pos_acc is None {
                        lemma_absent_total_zero(acc, Label::Positive);
                    }
                    assert(cur as nat == rows_total(acc, Label::Positive));
                }
                match cur.checked_add(cval) {
                    Option::Some(sum) => {
                        pos_acc = Option::Some(sum);
                    },
                    Option::None => {
                        proof {
                            lemma_overflow_unfit(acc, row, rest_s, Label::Positive);
                        }
                        return Result::Err(LambdaError::EncodingError);
                    },
                }
            },
        }
        proof {
            lemma_acc_step(acc, row, Label::Negative);
            lemma_acc_step(acc, row, Label::Positive);
            match parse_rows(rest_s) {
                Option::Some(rest2) => {
                    assert(parse_rows(s) == Option::Some(seq![row] + rest2));
                    assert(acc + (seq![row] + rest2) =~= acc.push(row) + rest2);
                },
                Option::None => {
                    assert(parse_rows(s) is None);
                },
            }
            acc = acc.push(row);
        }
        at = dend + 1;
    }
    proof {
        assert(bytes@.skip(at as int) =~= Seq::<u8>::empty());
        assert(parse_rows(bytes@.skip(at as int)) == Option::Some(Seq::<CountRecord>::empty()));
        assert(acc + Seq::<CountRecord>::empty() =~= acc);
        assert(parse_rows(bytes@) == Option::Some(acc));
    }
    let d = CounterDocument::from_parts(neg_acc, pos_acc);
    proof {
        if neg_acc is None {
            lemma_absent_total_zero(acc, Label::Negative);
        }
        if pos_acc is None {
            lemma_absent_total_zero(acc, Label::Positive);
        }
        assert(rows_fit(acc));
        assert(neg_acc == neg_part(acc));
        assert(pos_acc == pos_part(acc));
    }
    Result::Ok(d)
}

/// Folding one more row into an accumulated row sequence: the total for `l`
/// grows by the row's count when the row carries `l`, presence gains the
/// row's label, and nothing else changes.
proof fn lemma_acc_step(acc: Seq<CountRecord>, row: CountRecord, l: Label)
    ensures
        rows_total(acc.push(row), l) == rows_total(acc, l) + if row.label == l {
            row.count as nat
        } else {
            0
        },
        rows_present(acc.push(row), l) == (rows_present(acc, l) || row.label == l),
{
    assert(acc.push(row) =~= acc + seq![row]);
    lemma_rows_total_append(acc, seq![row], l);
    lemma_rows_present_append(acc, seq![row], l);
    lemma_rows_singleton(row, l);
}

/// If the accumulated total of `l` plus the next row's count already exceeds
/// `u64::MAX`, the whole parsed row sequence does not fit.
proof fn lemma_overflow_unfit(acc: Seq<CountRecord>, row: CountRecord, rest_s: Seq<u8>, l: Label)
    requires
        row.label == l,
        rows_total(acc, l) + row.count > u64::MAX,
    ensures
        match parse_rows(rest_s) {
            Option::Some(rest) => !rows_fit(acc + (seq![row] + rest)),
            Option::None => true,
        },
{
    match parse_rows(rest_s) {
        Option::Some(rest) => {
            lemma_rows_total_append(acc, seq![row] + rest, l);
            lemma_rows_total_append(seq![row], rest, l);
            lemma_rows_singleton(row, l);
            assert(rows_total(acc + (seq![row] + rest), l) > u64::MAX);
        },
        Option::None => {},
    }
}

/// Collapsing keeps each label's total and presence.
pub proof fn lemma_collapse_counts(rows: Seq<CountRecord>)
    requires
        rows_fit(rows),
    ensures
        rows_total(collapse(rows), Label::Negative) == rows_total(rows, Label::Negative),
        rows_total(collapse(rows), Label::Positive) == rows_total(rows, Label::Positive),
        rows_present(collapse(rows), Label::Negative) == rows_present(rows, Label::Negative),
        rows_present(collapse(rows), Label::Positive) == rows_present(rows, Label::Positive),
{
    lemma_canon_props(neg_part(rows), pos_part(rows));
    if !rows_present(rows, Label::Negative) {
        lemma_absent_total_zero(rows, Label::Negative);
    }
    if !rows_present(rows, Label::Positive) {
        lemma_absent_total_zero(rows, Label::Positive);
    }
}

/// Round trip: parsing the encoding of any row sequence yields it back.
pub proof fn lemma_parse_of_doc_bytes(rows: Seq<CountRecord>)
    ensures
        parse_rows(doc_bytes(rows)) == Option::Some(rows),
    decreases rows.len(),
{
    if rows.len() == 0 {
        assert(doc_bytes(rows).len() == 0);
        assert(parse_rows(doc_bytes(rows)) == Option::Some(Seq::<CountRecord>::empty()));
        assert(rows =~= Seq::<CountRecord>::empty());
    } else {
        let r = rows[0];
        let tail = doc_bytes(rows.skip(1));
        let s = doc_bytes(rows);
        let lb = label_bytes(r.label);
        let dr = dec_rep(r.count as nat);
        let d = dr.len() as int;
        lemma_label_bytes_shape(r.label);
        lemma_dec_rep_digits(r.count as nat);
        lemma_dec_val_of_rep(r.count as nat);
        assert(s =~= lb + seq![44u8] + dr + seq![10u8] + tail);
        assert(s.len() == 10 + d + tail.len());
        assert(s.subrange(0, 8) =~= lb);
        assert(s[8] == 44u8);
        lemma_label_bytes_distinct();
        assert(token_label(s.subrange(0, 8)) == Option::Some(r.label)) by {
            match r.label {
                Label::Negative => {},
                Label::Positive => {
                    assert(s.subrange(0, 8) != label_bytes(Label::Negative));
                },
            }
        }
        assert(s.skip(9) =~= dr + (seq![10u8] + tail));
        assert((seq![10u8] + tail)[0] == 10u8);
        lemma_leading_digits_concat(dr, seq![10u8] + tail);
        assert(leading_digits(s.skip(9)) == d);
        assert(1 <= d);
        assert(9 + d < s.len());
        assert(s[9 + d] == 10u8) by {
            assert(s == (lb + seq![44u8] + dr) + (seq![10u8] + tail));
            assert((lb + seq![44u8] + dr).len() == 9 + d);
        }
        assert(s.subrange(9, 9 + d) =~= dr);
        assert(dec_val(s.subrange(9, 9 + d)) == r.count as nat);
        assert(s.skip(10 + d) =~= tail);
        lemma_parse_of_doc_bytes(rows.skip(1));
        assert(parse_rows(s) == Option::Some(
            seq![CountRecord { label: r.label, count: (r.count as nat) as u64 }] + rows.skip(1),
        ));
        assert(CountRecord { label: r.label, count: (r.count as nat) as u64 } == r);
        assert(seq![r] + rows.skip(1) =~= rows);
    }
}

/// A well-formed document's rows fit and collapse to themselves: decoding
/// re-yields exactly the document that was encoded.
pub proof fn lemma_collapse_of_wf(doc: CounterDocument)
    requires
        doc.wf(),
    ensures
        rows_fit(doc.records@),
        collapse(doc.records@) == doc.records@,
{
    let rows = doc.records@;
    if rows.len() == 0 {
        assert(rows =~= canon_rows(Option::None, Option::None));
        lemma_canon_props(Option::None, Option::None);
        assert(collapse(rows) =~= rows);
    } else if rows.len() == 1 {
        let r0 = rows[0];
        match r0.label {
            Label::Negative => {
                assert(rows =~= canon_rows(Option::Some(r0.count), Option::None));
                lemma_canon_props(Option::Some(r0.count), Option::None);
                assert(collapse(rows) =~= rows);
            },
            Label::Positive => {
                assert(rows =~= canon_rows(Option::None, Option::Some(r0.count)));
                lemma_canon_props(Option::None, Option::Some(r0.count));
                assert(collapse(rows) =~= rows);
            },
        }
    } else if rows.len() == 2 {
        let r0 = rows[0];
        let r1 = rows[1];
        assert(crate::label::label_rank(rows[0].label) < crate::label::label_rank(rows[1].label));
        assert(r0.label == Label::Negative && r1.label == Label::Positive) by {
            match r0.label {
                Label::Negative => {},
                Label::Positive => {},
            }
            match r1.label {
                Label::Negative => {},
                Label::Positive => {},
            }
        }
        assert(rows =~= canon_rows(Option::Some(r0.count), Option::Some(r1.count)));
        lemma_canon_props(Option::Some(r0.count), Option::Some(r1.count));
        assert(collapse(rows) =~= rows);
    } else {
        assert(crate::label::label_rank(rows[0].label) < crate::label::label_rank(rows[1].label));
        assert(crate::label::label_rank(rows[1].label) < crate::label::label_rank(rows[2].label));
        assert(false) by {
            match rows[0].label {
                Label::Negative => {},
                Label::Positive => {},
            }
            match rows[1].label {
                Label::Negative => {},
                Label::Positive => {},
            }
            match rows[2].label {
                Label::Negative => {},
                Label::Positive => {},
            }
        }
    }
}

/// The codec round trip: for every well-formed document, decoding its
/// encoding succeeds and yields an equal document. Together with `encode`'s
/// and `decode`'s contracts this pins `decode(encode(d)) == Ok(d)`.
pub proof fn lemma_codec_round_trip(doc: CounterDocument)
    requires
        doc.wf(),
    ensures
        parse_rows(doc_bytes(doc.records@)) == Option::Some(doc.records@),
        rows_fit(doc.records@),
        collapse(doc.records@) == doc.records@,
{
    lemma_parse_of_doc_bytes(doc.records@);
    lemma_collapse_of_wf(doc);
}

} // verus!
