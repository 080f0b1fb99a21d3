//! Numbers as they are written in a graph description.
//!
//! A number is an optional `+` followed by one or more decimal digits, with a
//! value that fits in `usize`. Nothing else may stand in it: no sign but `+`,
//! no space, no separator between the digits.

use vstd::prelude::*;

verus! {

/// The byte `+`.
pub const PLUS: u8 = 0x2b;

/// The byte `0`.
pub const ZERO: u8 = 0x30;

/// The byte `9`.
pub const NINE: u8 = 0x39;

/// Whether `byte` is a decimal digit.
pub open spec fn is_digit(byte: u8) -> bool {
    ZERO <= byte <= NINE
}

/// Whether `byte` separates two numbers: a space, a tab, a line feed, a form
/// feed or a carriage return.
pub open spec fn is_space(byte: u8) -> bool {
    byte == 0x20 || byte == 0x09 || byte == 0x0a || byte == 0x0c || byte == 0x0d
}

/// Whether `text` holds decimal digits only.
pub open spec fn all_digits(text: Seq<u8>) -> bool {
    forall|i: int| 0 <= i < text.len() ==> is_digit(#[trigger] text[i])
}

/// The value of a string of decimal digits, the empty one being 0.
pub open spec fn decimal(digits: Seq<u8>) -> nat
    decreases digits.len(),
{
    if digits.len() == 0 {
        0
    } else {
        (decimal(digits.drop_last()) * 10 + (digits.last() - ZERO)) as nat
    }
}

/// `token` without the `+` that may stand in front of it.
pub open spec fn unsigned(token: Seq<u8>) -> Seq<u8> {
    if token.len() > 0 && token[0] == PLUS {
        token.skip(1)
    } else {
        token
    }
}

/// The number that `token` stands for, if it stands for one.
pub open spec fn number(token: Seq<u8>) -> Option<usize> {
    let digits = unsigned(token);
    if digits.len() > 0 && all_digits(digits) && decimal(digits) <= usize::MAX {
        Some(decimal(digits) as usize)
    } else {
        None
    }
}

/// More digits never make a lesser value.
pub proof fn lemma_decimal_grows(digits: Seq<u8>, k: int)
    requires
        0 <= k <= digits.len(),
        all_digits(digits),
    ensures
        decimal(digits.take(k)) <= decimal(digits),
    decreases digits.len(),
{
    if k == digits.len() {
        assert(digits.take(k) =~= digits);
    } else {
        let before = digits.drop_last();
        assert(before.take(k) =~= digits.take(k));
        assert forall|i: int| 0 <= i < before.len() implies is_digit(#[trigger] before[i]) by {
            assert(before[i] == digits[i]);
        }
        lemma_decimal_grows(before, k);
        assert(is_digit(digits[digits.len() - 1]));
    }
}

/// Whether `byte` separates two numbers.
pub fn separates(byte: u8) -> (yes: bool)
    ensures
        yes == is_space(byte),
{
    byte == 0x20 || byte == 0x09 || byte == 0x0a || byte == 0x0c || byte == 0x0d
}

/// Reads the bytes of `text` from `lo` up to `hi` as one number.
pub fn parse(text: &[u8], lo: usize, hi: usize) -> (value: Option<usize>)
    requires
        lo <= hi <= text@.len(),
    ensures
        value == number(text@.subrange(lo as int, hi as int)),
{
    let ghost token = text@.subrange(lo as int, hi as int);
    let mut at = lo;
    if at < hi && text[at] == PLUS {
        at += 1;
    }
    let ghost digits = text@.subrange(at as int, hi as int);
    proof {
        assert(digits =~= unsigned(token));
    }
    if at == hi {
        return None;
    }
    let first = at;
    let mut value: usize = 0;
    while at < hi
        invariant
            lo <= first <= at <= hi <= text@.len(),
            first < hi,
            digits == text@.subrange(first as int, hi as int),
            digits == unsigned(text@.subrange(lo as int, hi as int)),
            all_digits(digits.take(at - first)),
            value == decimal(digits.take(at - first)),
        decreases hi - at,
    {
        let byte = text[at];
        if byte < ZERO || byte > NINE {
            proof {
                assert(!is_digit(digits[at - first]));
            }
            return None;
        }
        let digit = (byte - ZERO) as usize;
        proof {
            let upto = digits.take(at - first + 1);
            assert(upto.drop_last() =~= digits.take(at - first));
            assert(upto.last() == byte);
            assert(decimal(upto) == value * 10 + digit);
            assert forall|i: int| 0 <= i < upto.len() implies is_digit(#[trigger] upto[i]) by {
                if i < at - first {
                    assert(digits.take(at - first)[i] == upto[i]);
                }
            }
            // the value of the whole is no less than that of what was read, if
            // the whole holds digits only
            if all_digits(digits) {
                lemma_decimal_grows(digits, at - first + 1);
            }
        }
        let tens = match value.checked_mul(10) {
            Some(tens) => tens,
            None => {
                return None;
            },
        };
        value = match tens.checked_add(digit) {
            Some(sum) => sum,
            None => {
                return None;
            },
        };
        at += 1;
    }
    proof {
        assert(digits.take(at - first) =~= digits);
    }
    Some(value)
}

} // verus!
