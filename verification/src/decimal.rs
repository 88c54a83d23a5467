//! Unsigned decimal numbers as they stand in a field of the input text.

use vstd::prelude::*;
use vstd::slice::slice_subrange;

verus! {

/// Whether the byte is one of the ASCII digits `0` to `9`.
pub open spec fn is_digit(b: u8) -> bool {
    48 <= b <= 57
}

/// Whether every byte of the sequence is an ASCII digit.
pub open spec fn all_digits(d: Seq<u8>) -> bool {
    forall|i: int| 0 <= i < d.len() ==> is_digit(#[trigger] d[i])
}

/// The number that a sequence of ASCII digits writes in base ten.
pub open spec fn digits_value(d: Seq<u8>) -> nat
    decreases d.len(),
{
    if d.len() == 0 {
        0
    } else {
        digits_value(d.drop_last()) * 10 + (d.last() - 48) as nat
    }
}

/// The field without the one `+` that may stand in front of the digits.
pub open spec fn unsigned_digits(s: Seq<u8>) -> Seq<u8> {
    if s.len() > 0 && s[0] == 43 {
        s.skip(1)
    } else {
        s
    }
}

/// The number that the field writes, where it writes one that is at most
/// `limit`: an optional `+`, then one or more ASCII digits and nothing else.
pub open spec fn parsed_decimal(s: Seq<u8>, limit: nat) -> Option<nat> {
    let d = unsigned_digits(s);
    if d.len() > 0 && all_digits(d) && digits_value(d) <= limit {
        Some(digits_value(d))
    } else {
        None
    }
}

/// A longer run of digits never writes a smaller number than its prefix.
pub proof fn lemma_prefix_value(d: Seq<u8>, k: int)
    requires
        all_digits(d),
        0 <= k <= d.len(),
    ensures
        digits_value(d.take(k)) <= digits_value(d),
    decreases d.len() - k,
{
    if k == d.len() {
        assert(d.take(k) =~= d);
    } else {
        lemma_prefix_value(d, k + 1);
        assert(d.take(k + 1).drop_last() =~= d.take(k));
    }
}

/// Reads an unsigned decimal number from a field of the input.
///
/// Returns the number exactly when the field is an optional `+` followed by
/// one or more ASCII digits whose value fits 128 bits.
pub fn parse_decimal(field: &[u8]) -> (r: Option<u128>)
    ensures
        r is Some <==> parsed_decimal(field@, u128::MAX as nat) is Some,
        r is Some ==> r.unwrap() as nat == parsed_decimal(field@, u128::MAX as nat).unwrap(),
{
    let n: usize = field.len();
    let first: usize = if n > 0 && field[0] == 43u8 {
        1
    } else {
        0
    };
    let digits = slice_subrange(field, first, n);
    let m: usize = digits.len();
    if m == 0 {
        return None;
    }
    let mut acc: u128 = 0;
    let mut i: usize = 0;
    while i < m
        invariant
            m == digits@.len(),
            digits@ == unsigned_digits(field@),
            0 <= i <= m,
            all_digits(digits@.take(i as int)),
            acc as nat == digits_value(digits@.take(i as int)),
        decreases m - i,
    {
        let b: u8 = digits[i];
        if b < 48u8 || b > 57u8 {
            return None;
        }
        let digit: u128 = (b - 48u8) as u128;
        proof {
            assert(digits@.take(i + 1).drop_last() =~= digits@.take(i as int));
        }
        if acc > (u128::MAX - digit) / 10 {
            proof {
                if all_digits(digits@) {
                    lemma_prefix_value(digits@, i + 1);
                }
            }
            return None;
        }
        acc = acc * 10 + digit;
        i = i + 1;
    }
    assert(digits@.take(m as int) =~= digits@);
    Some(acc)
}

} // verus!
