//! Decimal numerals: the byte representation of counts inside an encoded
//! counter document, with conversion in both directions.

use vstd::prelude::*;

verus! {

/// An ASCII decimal digit.
pub open spec fn is_digit(b: u8) -> bool {
    48 <= b && b <= 57
}

/// The numeric value of one digit byte.
pub open spec fn digit_val(b: u8) -> nat
    recommends
        is_digit(b),
{
    (b - 48) as nat
}

/// The value of a most-significant-first digit string. Leading zeros are
/// allowed and do not change the value.
pub open spec fn dec_val(s: Seq<u8>) -> nat
    decreases s.len(),
{
    if s.len() == 0 {
        0
    } else {
        dec_val(s.drop_last()) * 10 + digit_val(s.last())
    }
}

/// The canonical (shortest) decimal representation of a number.
pub open spec fn dec_rep(n: nat) -> Seq<u8>
    decreases n,
{
    if n < 10 {
        seq![(48 + n) as u8]
    } else {
        dec_rep(n / 10).push((48 + n % 10) as u8)
    }
}

/// A canonical representation is non-empty and consists of digits only.
pub proof fn lemma_dec_rep_digits(n: nat)
    ensures
        dec_rep(n).len() >= 1,
        forall|i: int| 0 <= i < dec_rep(n).len() ==> is_digit(#[trigger] dec_rep(n)[i]),
    decreases n,
{
    if n >= 10 {
        lemma_dec_rep_digits(n / 10);
        assert(forall|i: int|
            0 <= i < dec_rep(n).len() - 1 ==> dec_rep(n)[i] == dec_rep(n / 10)[i]);
    }
}

/// Reading back the canonical representation gives the number itself.
pub proof fn lemma_dec_val_of_rep(n: nat)
    ensures
        dec_val(dec_rep(n)) == n,
    decreases n,
{
    if n < 10 {
        assert(dec_rep(n).drop_last() =~= Seq::<u8>::empty());
        assert((48 + n) as u8 == 48 + n);
        assert(digit_val(dec_rep(n).last()) == n);
        assert(dec_val(Seq::<u8>::empty()) == 0);
        assert(dec_val(dec_rep(n)) == dec_val(dec_rep(n).drop_last()) * 10 + digit_val(
            dec_rep(n).last(),
        ));
    } else {
        lemma_dec_val_of_rep(n / 10);
        assert(dec_rep(n).drop_last() =~= dec_rep(n / 10));
        assert((48 + n % 10) as u8 == 48 + n % 10);
        assert(digit_val(dec_rep(n).last()) == n % 10);
        assert(n / 10 * 10 + n % 10 == n);
        assert(dec_val(dec_rep(n)) == dec_val(dec_rep(n).drop_last()) * 10 + digit_val(
            dec_rep(n).last(),
        ));
    }
}

/// The value of a digit string bounds the value of each of its prefixes.
pub proof fn lemma_dec_val_prefix_le(s: Seq<u8>, i: int)
    requires
        0 <= i <= s.len(),
    ensures
        dec_val(s.take(i)) <= dec_val(s),
    decreases s.len(),
{
    if i < s.len() {
        assert(s.take(i) =~= s.drop_last().take(i));
        lemma_dec_val_prefix_le(s.drop_last(), i);
        assert(dec_val(s.drop_last()) <= dec_val(s.drop_last()) * 10 + digit_val(s.last()));
    } else {
        assert(s.take(i) =~= s);
    }
}

/// Appends the canonical decimal representation of `n` to `out`.
pub fn push_dec_rep(n: u64, out: &mut Vec<u8>)
    ensures
        final(out)@ == old(out)@ + dec_rep(n as nat),
    decreases n,
{
    if n < 10 {
        out.push((48 + n) as u8);
        assert(out@ =~= old(out)@ + dec_rep(n as nat));
    } else {
        push_dec_rep(n / 10, out);
        out.push((48 + n % 10) as u8);
        assert(out@ =~= old(out)@ + dec_rep(n as nat));
    }
}

/// Reads the value of the digit string `bytes[start..end]`; `None` exactly
/// when that value does not fit in a `u64`.
pub fn parse_dec(bytes: &Vec<u8>, start: usize, end: usize) -> (r: Option<u64>)
    requires
        start <= end <= bytes@.len(),
        forall|i: int| start <= i < end ==> is_digit(#[trigger] bytes@[i]),
    ensures
        match r {
            Some(v) => v as nat == dec_val(bytes@.subrange(start as int, end as int)),
            None => dec_val(bytes@.subrange(start as int, end as int)) > u64::MAX,
        },
{
    let mut val: u64 = 0;
    let mut i: usize = start;
    assert(bytes@.subrange(start as int, start as int) =~= Seq::<u8>::empty());
    while i < end
        invariant
            start <= i <= end <= bytes@.len(),
            forall|j: int| start <= j < end ==> is_digit(#[trigger] bytes@[j]),
            val as nat == dec_val(bytes@.subrange(start as int, i as int)),
        decreases end - i,
    {
        let b = bytes[i];
        let d = (b - 48) as u64;
        let ghost whole = bytes@.subrange(start as int, end as int);
        let ghost next = bytes@.subrange(start as int, i as int + 1);
        proof {
            assert(next.drop_last() =~= bytes@.subrange(start as int, i as int));
            assert(next.last() == bytes@[i as int]);
        }
        let stepped: Option<u64> = match val.checked_mul(10) {
            Some(m) => m.checked_add(d),
            None => None,
        };
        match stepped {
            Some(v2) => {
                val = v2;
                i = i + 1;
            },
            None => {
                proof {
                    assert(dec_val(next) > u64::MAX);
                    lemma_dec_val_prefix_le(whole, i as int + 1 - start as int);
                    assert(whole.take(i as int + 1 - start as int) =~= next);
                }
                return None;
            },
        }
    }
    assert(bytes@.subrange(start as int, i as int) =~= bytes@.subrange(
        start as int,
        end as int,
    ));
    Some(val)
}

} // verus!
