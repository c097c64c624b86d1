//! The counter document: a mapping from label to a non-negative count,
//! held as rows sorted by the labels' canonical order, at most one row per
//! label. The aggregator step (`increment`) lives here as well.

use vstd::prelude::*;
use crate::label::{Label, label_rank};

verus! {

/// One row of a counter document.
#[derive(Clone, Copy, Debug, PartialEq, Eq, Structural)]
pub struct CountRecord {
    pub label: Label,
    pub count: u64,
}

/// The sum of the counts that a row sequence carries for `l`. Duplicate rows
/// contribute each; on a well-formed document this is the one row's count.
pub open spec fn rows_total(rows: Seq<CountRecord>, l: Label) -> nat
    decreases rows.len(),
{
    if rows.len() == 0 {
        0
    } else {
        rows_total(rows.drop_last(), l) + if rows.last().label == l {
            rows.last().count as nat
        } else {
            0
        }
    }
}

/// Whether some row of the sequence carries `l`.
pub open spec fn rows_present(rows: Seq<CountRecord>, l: Label) -> bool {
    exists|i: int| 0 <= i < rows.len() && rows[i].label == l
}

/// Totals add up across concatenation.
pub proof fn lemma_rows_total_append(a: Seq<CountRecord>, b: Seq<CountRecord>, l: Label)
    ensures
        rows_total(a + b, l) == rows_total(a, l) + rows_total(b, l),
    decreases b.len(),
{
    if b.len() == 0 {
        assert(a + b =~= a);
    } else {
        assert((a + b).drop_last() =~= a + b.drop_last());
        assert((a + b).last() == b.last());
        lemma_rows_total_append(a, b.drop_last(), l);
    }
}

/// Presence distributes over concatenation.
pub proof fn lemma_rows_present_append(a: Seq<CountRecord>, b: Seq<CountRecord>, l: Label)
    ensures
        rows_present(a + b, l) == (rows_present(a, l) || rows_present(b, l)),
{
    if rows_present(a, l) {
        let i = choose|i: int| 0 <= i < a.len() && a[i].label == l;
        assert((a + b)[i].label == l);
    }
    if rows_present(b, l) {
        let i = choose|i: int| 0 <= i < b.len() && b[i].label == l;
        assert((a + b)[a.len() + i].label == l);
    }
    if rows_present(a + b, l) {
        let i = choose|i: int| 0 <= i < (a + b).len() && (a + b)[i].label == l;
        if i < a.len() {
            assert(a[i].label == l);
        } else {
            assert(b[i - a.len()].label == l);
        }
    }
}

/// A single row's total and presence.
pub proof fn lemma_rows_singleton(r: CountRecord, l: Label)
    ensures
        rows_total(seq![r], l) == if r.label == l {
            r.count as nat
        } else {
            0
        },
        rows_present(seq![r], l) == (r.label == l),
{
    assert(seq![r].drop_last() =~= Seq::<CountRecord>::empty());
    assert(rows_total(Seq::<CountRecord>::empty(), l) == 0);
    assert(seq![r].last() == r);
    assert(rows_total(seq![r], l) == rows_total(seq![r].drop_last(), l) + if seq![r].last().label
        == l {
        seq![r].last().count as nat
    } else {
        0
    });
    if r.label == l {
        assert(seq![r][0].label == l);
    }
}

/// A label that no row carries totals zero.
pub proof fn lemma_absent_total_zero(rows: Seq<CountRecord>, l: Label)
    requires
        !rows_present(rows, l),
    ensures
        rows_total(rows, l) == 0,
    decreases rows.len(),
{
    if rows.len() > 0 {
        assert(!rows_present(rows.drop_last(), l)) by {
            if rows_present(rows.drop_last(), l) {
                let i = choose|i: int|
                    0 <= i < rows.drop_last().len() && rows.drop_last()[i].label == l;
                assert(rows[i].label == l);
            }
        }
        lemma_absent_total_zero(rows.drop_last(), l);
        assert(rows.last().label != l) by {
            if rows.last().label == l {
                assert(rows[rows.len() - 1].label == l);
            }
        }
    }
}

/// The canonical row sequence for the given per-label counts: a `Negative`
/// row if the label is present, then a `Positive` row if that one is.
pub open spec fn canon_rows(neg: Option<u64>, pos: Option<u64>) -> Seq<CountRecord> {
    (match neg {
        Option::Some(n) => seq![CountRecord { label: Label::Negative, count: n }],
        Option::None => Seq::<CountRecord>::empty(),
    }) + (match pos {
        Option::Some(p) => seq![CountRecord { label: Label::Positive, count: p }],
        Option::None => Seq::<CountRecord>::empty(),
    })
}

/// Totals, presence, and sortedness of a canonical row sequence.
pub proof fn lemma_canon_props(neg: Option<u64>, pos: Option<u64>)
    ensures
        rows_total(canon_rows(neg, pos), Label::Negative) == (match neg {
            Option::Some(n) => n as nat,
            Option::None => 0,
        }),
        rows_total(canon_rows(neg, pos), Label::Positive) == (match pos {
            Option::Some(p) => p as nat,
            Option::None => 0,
        }),
        rows_present(canon_rows(neg, pos), Label::Negative) == (neg is Some),
        rows_present(canon_rows(neg, pos), Label::Positive) == (pos is Some),
        forall|i: int, j: int|
            0 <= i < j < canon_rows(neg, pos).len() ==> label_rank(canon_rows(neg, pos)[i].label)
                < label_rank(canon_rows(neg, pos)[j].label),
{
    let nrows = (match neg {
        Option::Some(n) => seq![CountRecord { label: Label::Negative, count: n }],
        Option::None => Seq::<CountRecord>::empty(),
    });
    let prows = (match pos {
        Option::Some(p) => seq![CountRecord { label: Label::Positive, count: p }],
        Option::None => Seq::<CountRecord>::empty(),
    });
    lemma_rows_total_append(nrows, prows, Label::Negative);
    lemma_rows_total_append(nrows, prows, Label::Positive);
    lemma_rows_present_append(nrows, prows, Label::Negative);
    lemma_rows_present_append(nrows, prows, Label::Positive);
    match neg {
        Option::Some(n) => {
            lemma_rows_singleton(CountRecord { label: Label::Negative, count: n }, Label::Negative);
            lemma_rows_singleton(CountRecord { label: Label::Negative, count: n }, Label::Positive);
        },
        Option::None => {},
    }
    match pos {
        Option::Some(p) => {
            lemma_rows_singleton(CountRecord { label: Label::Positive, count: p }, Label::Negative);
            lemma_rows_singleton(CountRecord { label: Label::Positive, count: p }, Label::Positive);
        },
        Option::None => {},
    }
}

/// The persisted mapping from label to non-negative count.
#[derive(Debug)]
pub struct CounterDocument {
    /// Rows in canonical order; `wf` states the invariant. Build values
    /// through `new`, `from_parts`, `increment`, or the codec's `decode`.
    pub records: Vec<CountRecord>,
}

impl CounterDocument {
    /// Invariant: rows are strictly sorted by label rank, so each label
    /// appears at most once and the order is canonical.
    pub open spec fn wf(self) -> bool {
        forall|i: int, j: int|
            0 <= i < j < self.records@.len() ==> label_rank(self.records@[i].label) < label_rank(
                self.records@[j].label,
            )
    }

    /// The count this document carries for `l`; an absent label counts 0.
    pub open spec fn count_of(self, l: Label) -> nat {
        rows_total(self.records@, l)
    }

    /// Whether the document has a row for `l`.
    pub open spec fn has_label(self, l: Label) -> bool {
        rows_present(self.records@, l)
    }

    /// The empty document: no rows, every count 0.
    pub fn new() -> (d: CounterDocument)
        ensures
            d.wf(),
            d.records@ == Seq::<CountRecord>::empty(),
            forall|m: Label| d.count_of(m) == 0 && !d.has_label(m),
    {
        let d = CounterDocument { records: Vec::new() };
        proof {
            assert(d.records@ =~= Seq::<CountRecord>::empty());
        }
        d
    }

    /// Builds the document with the given per-label counts, in canonical row
    /// order.
    pub fn from_parts(neg: Option<u64>, pos: Option<u64>) -> (d: CounterDocument)
        ensures
            d.wf(),
            d.records@ == canon_rows(neg, pos),
    {
        let mut records: Vec<CountRecord> = Vec::new();
        match neg {
            Option::Some(n) => records.push(CountRecord { label: Label::Negative, count: n }),
            Option::None => {},
        }
        match pos {
            Option::Some(p) => records.push(CountRecord { label: Label::Positive, count: p }),
            Option::None => {},
        }
        let d = CounterDocument { records };
        proof {
            assert(d.records@ =~= canon_rows(neg, pos));
            lemma_canon_props(neg, pos);
        }
        d
    }

    /// Reads the document back as its per-label counts: the inverse of
    /// `from_parts` on well-formed documents.
    pub fn parts(&self) -> (r: (Option<u64>, Option<u64>))
        requires
            self.wf(),
        ensures
            self.records@ == canon_rows(r.0, r.1),
            match r.0 {
                Option::Some(n) => self.has_label(Label::Negative) && n as nat == self.count_of(
                    Label::Negative,
                ),
                Option::None => !self.has_label(Label::Negative),
            },
            match r.1 {
                Option::Some(p) => self.has_label(Label::Positive) && p as nat == self.count_of(
                    Label::Positive,
                ),
                Option::None => !self.has_label(Label::Positive),
            },
    {
        let n = self.records.len();
        if n == 0 {
            proof {
                assert(self.records@ =~= canon_rows(Option::None, Option::None));
                lemma_canon_props(Option::None, Option::None);
            }
            (Option::None, Option::None)
        } else if n == 1 {
            let r0 = self.records[0];
            match r0.label {
                Label::Negative => {
                    proof {
                        assert(self.records@ =~= canon_rows(Option::Some(r0.count), Option::None));
                        lemma_canon_props(Option::Some(r0.count), Option::None);
                    }
                    (Option::Some(r0.count), Option::None)
                },
                Label::Positive => {
                    proof {
                        assert(self.records@ =~= canon_rows(Option::None, Option::Some(r0.count)));
                        lemma_canon_props(Option::None, Option::Some(r0.count));
                    }
                    (Option::None, Option::Some(r0.count))
                },
            }
        } else if n == 2 {
            let r0 = self.records[0];
            let r1 = self.records[1];
            proof {
                assert(label_rank(self.records@[0].label) < label_rank(self.records@[1].label));
                assert(r0.label == Label::Negative && r1.label == Label::Positive) by {
                    match r0.label {
                        Label::Negative => {},
                        Label::Positive => {
                            assert(label_rank(self.records@[1].label) > 1);
                        },
                    }
                    match r1.label {
                        Label::Positive => {},
                        Label::Negative => {
                            assert(label_rank(self.records@[0].label) < 0);
                        },
                    }
                }
                assert(self.records@ =~= canon_rows(
                    Option::Some(r0.count),
                    Option::Some(r1.count),
                ));
                lemma_canon_props(Option::Some(r0.count), Option::Some(r1.count));
            }
            (Option::Some(r0.count), Option::Some(r1.count))
        } else {
            proof {
                assert(label_rank(self.records@[0].label) < label_rank(self.records@[1].label));
                assert(label_rank(self.records@[1].label) < label_rank(self.records@[2].label));
                assert(false) by {
                    match self.records@[0].label {
                        Label::Negative => {},
                        Label::Positive => {},
                    }
                    match self.records@[1].label {
                        Label::Negative => {},
                        Label::Positive => {},
                    }
                    match self.records@[2].label {
                        Label::Negative => {},
                        Label::Positive => {},
                    }
                }
            }
            (Option::None, Option::None)
        }
    }

    /// Executable count lookup.
    pub fn get_count(&self, l: Label) -> (c: u64)
        requires
            self.wf(),
        ensures
            c as nat == self.count_of(l),
    {
        let (neg, pos) = self.parts();
        proof {
            lemma_canon_props(neg, pos);
        }
        match l {
            Label::Negative => match neg {
                Option::Some(n) => n,
                Option::None => 0,
            },
            Label::Positive => match pos {
                Option::Some(p) => p,
                Option::None => 0,
            },
        }
    }

    /// The aggregator step: a new document equal to `self` except that the
    /// count for `l` is one greater (an absent label counts 0 first). No
    /// other label's count or presence changes, and this never fails.
    pub fn increment(&self, l: Label) -> (d: CounterDocument)
        requires
            self.wf(),
            self.count_of(l) < u64::MAX,
        ensures
            d.wf(),
            d.count_of(l) == self.count_of(l) + 1,
            d.has_label(l),
            forall|m: Label| m != l ==> d.count_of(m) == self.count_of(m),
            forall|m: Label| m != l ==> d.has_label(m) == self.has_label(m),
    {
        let (neg, pos) = self.parts();
        proof {
            lemma_canon_props(neg, pos);
        }
        let d = match l {
            Label::Negative => {
                let n = match neg {
                    Option::Some(n) => n,
                    Option::None => 0,
                };
                CounterDocument::from_parts(Option::Some(n + 1), pos)
            },
            Label::Positive => {
                let p = match pos {
                    Option::Some(p) => p,
                    Option::None => 0,
                };
                CounterDocument::from_parts(neg, Option::Some(p + 1))
            },
        };
        proof {
            match l {
                Label::Negative => {
                    lemma_canon_props(
                        Option::Some((self.count_of(Label::Negative) + 1) as u64),
                        pos,
                    );
                },
                Label::Positive => {
                    lemma_canon_props(
                        neg,
                        Option::Some((self.count_of(Label::Positive) + 1) as u64),
                    );
                },
            }
            assert(forall|m: Label| m != l ==> d.count_of(m) == self.count_of(m)) by {
                match l {
                    Label::Negative => {},
                    Label::Positive => {},
                }
            }
            assert(forall|m: Label| m != l ==> d.has_label(m) == self.has_label(m)) by {
                match l {
                    Label::Negative => {},
                    Label::Positive => {},
                }
            }
        }
        d
    }
}

impl PartialEq for CounterDocument {
    /// Two documents are equal when they hold the same rows in the same
    /// order.
    fn eq(&self, other: &Self) -> (r: bool) {
        if self.records.len() != other.records.len() {
            proof {
                assert(self.records@ != other.records@);
            }
            return false;
        }
        let n = self.records.len();
        let mut i: usize = 0;
        while i < n
            invariant
                n == self.records@.len(),
                n == other.records@.len(),
                0 <= i <= n,
                forall|k: int| 0 <= k < i ==> self.records@[k] == other.records@[k],
            decreases n - i,
        {
            if self.records[i] != other.records[i] {
                proof {
                    assert(self.records@[i as int] != other.records@[i as int]);
                }
                return false;
            }
            i = i + 1;
        }
        proof {
            assert(self.records@ =~= other.records@);
        }
        true
    }
}

impl vstd::std_specs::cmp::PartialEqSpecImpl for CounterDocument {
    open spec fn obeys_eq_spec() -> bool {
        true
    }

    open spec fn eq_spec(&self, other: &CounterDocument) -> bool {
        self.records@ == other.records@
    }
}

} // verus!
