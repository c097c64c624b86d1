//! The closed set of sentiment labels and their canonical byte tokens.

use vstd::prelude::*;

verus! {

/// A sentiment polarity. The set is closed: decoding any other token is an
/// encoding error, never a silently accepted extra label.
#[derive(Clone, Copy, Debug, PartialEq, Eq, Structural)]
pub enum Label {
    Positive,
    Negative,
}

/// Canonical sort rank of a label: rows of an encoded document are ordered by
/// the alphabetical order of the label tokens, `Negative` before `Positive`.
pub open spec fn label_rank(l: Label) -> int {
    match l {
        Label::Negative => 0,
        Label::Positive => 1,
    }
}

/// The ASCII bytes of a label's token, as it appears in an encoded document.
pub open spec fn label_bytes(l: Label) -> Seq<u8> {
    match l {
        Label::Negative => seq![78u8, 101u8, 103u8, 97u8, 116u8, 105u8, 118u8, 101u8],
        Label::Positive => seq![80u8, 111u8, 115u8, 105u8, 116u8, 105u8, 118u8, 101u8],
    }
}

/// Both tokens are eight bytes long and contain neither the column separator
/// (comma) nor the row terminator (newline) nor a decimal digit.
pub proof fn lemma_label_bytes_shape(l: Label)
    ensures
        label_bytes(l).len() == 8,
        forall|i: int|
            0 <= i < 8 ==> label_bytes(l)[i] != 44u8 && label_bytes(l)[i] != 10u8 && !(48u8
                <= label_bytes(l)[i] <= 57u8),
{
    match l {
        Label::Negative => {
            assert(forall|i: int|
                0 <= i < 8 ==> label_bytes(Label::Negative)[i] != 44u8 && label_bytes(
                    Label::Negative,
                )[i] != 10u8 && !(48u8 <= label_bytes(Label::Negative)[i] <= 57u8)) by {
                assert(label_bytes(Label::Negative) =~= seq![
                    78u8,
                    101u8,
                    103u8,
                    97u8,
                    116u8,
                    105u8,
                    118u8,
                    101u8,
                ]);
            }
        },
        Label::Positive => {
            assert(forall|i: int|
                0 <= i < 8 ==> label_bytes(Label::Positive)[i] != 44u8 && label_bytes(
                    Label::Positive,
                )[i] != 10u8 && !(48u8 <= label_bytes(Label::Positive)[i] <= 57u8)) by {
                assert(label_bytes(Label::Positive) =~= seq![
                    80u8,
                    111u8,
                    115u8,
                    105u8,
                    116u8,
                    105u8,
                    118u8,
                    101u8,
                ]);
            }
        },
    }
}

/// The two tokens differ (already in their first byte).
pub proof fn lemma_label_bytes_distinct()
    ensures
        label_bytes(Label::Negative) != label_bytes(Label::Positive),
{
    assert(label_bytes(Label::Negative)[0] == 78u8);
    assert(label_bytes(Label::Positive)[0] == 80u8);
}

/// Executable form of `label_bytes`.
pub fn label_token(l: Label) -> (v: Vec<u8>)
    ensures
        v@ == label_bytes(l),
{
    let mut v: Vec<u8> = Vec::new();
    match l {
        Label::Negative => {
            v.push(78u8);
            v.push(101u8);
            v.push(103u8);
            v.push(97u8);
            v.push(116u8);
            v.push(105u8);
            v.push(118u8);
            v.push(101u8);
            assert(v@ =~= label_bytes(l));
        },
        Label::Positive => {
            v.push(80u8);
            v.push(111u8);
            v.push(115u8);
            v.push(105u8);
            v.push(116u8);
            v.push(105u8);
            v.push(118u8);
            v.push(101u8);
            assert(v@ =~= label_bytes(l));
        },
    }
    v
}

} // verus!
