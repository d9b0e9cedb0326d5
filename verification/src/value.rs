//! Decimal numerals and the tenths they stand for.
//!
//! A value is written as an optional sign, digits, and optionally a point and
//! more digits, with at least one digit in all. It is held as a whole number
//! of tenths; digits past the first after the point round it to the nearest
//! tenth, a half away from zero.

use vstd::prelude::*;
use crate::bytes::{lemma_position, lemma_position_is, position};

verus! {

/// Parts the whole digits of a numeral from its fraction.
pub const POINT: u8 = 0x2e;

/// The sign of a value below zero.
pub const MINUS: u8 = 0x2d;

/// The sign that a value not below zero may have.
pub const PLUS: u8 = 0x2b;

/// The digit `0`; the other digits follow it in order.
pub const ZERO: u8 = 0x30;

/// The digit `9`.
pub const NINE: u8 = 0x39;

/// Whether `b` is one of the digits `0` to `9`.
pub open spec fn is_digit(b: u8) -> bool {
    ZERO <= b <= NINE
}

/// Whether `s` holds digits only.
pub open spec fn all_digits(s: Seq<u8>) -> bool {
    forall|i: int| 0 <= i < s.len() ==> is_digit(#[trigger] s[i])
}

/// The number that a run of digits writes in base ten.
pub open spec fn digits_value(s: Seq<u8>) -> nat
    decreases s.len(),
{
    if s.len() == 0 {
        0
    } else {
        digits_value(s.drop_last()) * 10 + (s.last() - ZERO) as nat
    }
}

/// Whether the numeral starts with a sign.
pub open spec fn has_sign(s: Seq<u8>) -> bool {
    s.len() > 0 && (s[0] == MINUS || s[0] == PLUS)
}

/// Whether the numeral starts with the minus sign.
pub open spec fn is_negative(s: Seq<u8>) -> bool {
    s.len() > 0 && s[0] == MINUS
}

/// The numeral without its sign.
pub open spec fn unsigned(s: Seq<u8>) -> Seq<u8> {
    if has_sign(s) {
        s.skip(1)
    } else {
        s
    }
}

/// The digits before the point.
pub open spec fn whole_part(s: Seq<u8>) -> Seq<u8> {
    unsigned(s).take(position(unsigned(s), POINT))
}

/// The digits after the point; none where there is no point.
pub open spec fn fraction_part(s: Seq<u8>) -> Seq<u8> {
    let body = unsigned(s);
    let p = position(body, POINT);
    if p < body.len() {
        body.skip(p + 1)
    } else {
        Seq::empty()
    }
}

/// Whether `s` is a decimal numeral.
pub open spec fn is_decimal(s: Seq<u8>) -> bool {
    &&& all_digits(whole_part(s))
    &&& all_digits(fraction_part(s))
    &&& whole_part(s).len() + fraction_part(s).len() >= 1
}

/// The tenths that the fraction digits add: the first digit, and one more
/// where the second digit is five or above.
pub open spec fn fraction_tenths(frac: Seq<u8>) -> nat {
    let first: nat = if frac.len() >= 1 {
        (frac[0] - ZERO) as nat
    } else {
        0
    };
    let carry: nat = if frac.len() >= 2 && frac[1] - ZERO >= 5 {
        1
    } else {
        0
    };
    first + carry
}

/// The absolute value of the numeral `s`, in tenths.
pub open spec fn magnitude(s: Seq<u8>) -> nat {
    digits_value(whole_part(s)) * 10 + fraction_tenths(fraction_part(s))
}

/// The value of `s` in tenths: `None` where `s` is no decimal numeral or its
/// tenths do not fit 64 bits.
pub open spec fn decimal_tenths(s: Seq<u8>) -> Option<int> {
    if is_decimal(s) && magnitude(s) <= i64::MAX {
        Some(
            if is_negative(s) {
                -(magnitude(s) as int)
            } else {
                magnitude(s) as int
            },
        )
    } else {
        None
    }
}

fn digit_of(b: u8) -> (r: Option<u8>)
    ensures
        match r {
            Some(d) => is_digit(b) && d == b - ZERO,
            None => !is_digit(b),
        },
{
    if ZERO <= b && b <= NINE {
        Some(b - ZERO)
    } else {
        None
    }
}

/// Reads a decimal numeral as tenths.
pub fn parse_value(text: &[u8]) -> (r: Option<i64>)
    ensures
        match r {
            Some(v) => decimal_tenths(text@) == Some(v as int),
            None => decimal_tenths(text@) is None,
        },
{
    let len: usize = text.len();
    let negative: bool = len > 0 && text[0] == MINUS;
    let start: usize = if len > 0 && (text[0] == MINUS || text[0] == PLUS) {
        1
    } else {
        0
    };
    let ghost body = unsigned(text@);
    assert(body =~= text@.skip(start as int));
    let mut i: usize = start;
    let mut whole: u128 = 0;
    let mut over: bool = false;
    let mut digit: Option<u8> = if i < len {
        digit_of(text[i])
    } else {
        None
    };
    while digit.is_some()
        invariant
            start <= i <= len,
            len == text@.len(),
            body == text@.skip(start as int),
            forall|j: int| start <= j < i ==> is_digit(#[trigger] text@[j]),
            !over ==> whole == digits_value(text@.subrange(start as int, i as int)) && whole
                <= i64::MAX,
            over ==> digits_value(text@.subrange(start as int, i as int)) > i64::MAX,
            match digit {
                Some(d) => i < len && is_digit(text@[i as int]) && d == text@[i as int] - ZERO,
                None => i == len || !is_digit(text@[i as int]),
            },
        decreases len - i,
    {
        let d: u8 = digit.unwrap();
        proof {
            let next = text@.subrange(start as int, i + 1);
            assert(next.drop_last() =~= text@.subrange(start as int, i as int));
            assert(next.last() == text@[i as int]);
        }
        if !over {
            whole = whole * 10 + d as u128;
            if whole > i64::MAX as u128 {
                over = true;
            }
        }
        i = i + 1;
        digit = if i < len {
            digit_of(text[i])
        } else {
            None
        };
    }
    let whole_end: usize = i;
    proof {
        // No digit is a point, so the first point, if any, stands at `i`.
        assert forall|j: int| 0 <= j < whole_end - start implies body[j] != POINT by {
            assert(is_digit(text@[j + start]));
        }
        lemma_position(body, POINT);
    }
    let mut first: u128 = 0;
    let mut carry: u128 = 0;
    let mut frac_len: usize = 0;
    if i < len {
        if text[i] != POINT {
            proof {
                let p = position(body, POINT);
                assert(p > whole_end - start) by {
                    if p == whole_end - start {
                        assert(body[p] == POINT);
                    }
                }
                assert(whole_part(text@)[whole_end - start] == text@[whole_end as int]);
            }
            return None;
        }
        proof {
            lemma_position_is(body, POINT, whole_end - start);
        }
        i = i + 1;
        let frac_start: usize = i;
        let ghost frac = fraction_part(text@);
        assert(frac =~= text@.subrange(frac_start as int, len as int));
        while i < len
            invariant
                frac_start <= i <= len,
                len == text@.len(),
                frac == fraction_part(text@),
                frac == text@.subrange(frac_start as int, len as int),
                forall|j: int| frac_start <= j < i ==> is_digit(#[trigger] text@[j]),
                first == if i >= frac_start + 1 {
                    (text@[frac_start as int] - ZERO) as nat
                } else {
                    0
                },
                carry == if i >= frac_start + 2 && text@[frac_start + 1] - ZERO >= 5 {
                    1nat
                } else {
                    0
                },
                first <= 9,
                carry <= 1,
            decreases len - i,
        {
            match digit_of(text[i]) {
                None => {
                    proof {
                        assert(frac[i - frac_start] == text@[i as int]);
                    }
                    return None;
                },
                Some(d) => {
                    if i == frac_start {
                        first = d as u128;
                    } else if i == frac_start + 1 {
                        carry = if d >= 5 {
                            1
                        } else {
                            0
                        };
                    }
                },
            }
            i = i + 1;
        }
        frac_len = len - frac_start;
        proof {
            assert forall|k: int| 0 <= k < frac.len() implies is_digit(#[trigger] frac[k]) by {
                assert(is_digit(text@[k + frac_start]));
            }
            assert(first + carry == fraction_tenths(frac));
        }
    } else {
        proof {
            lemma_position_is(body, POINT, body.len() as int);
            assert(fraction_part(text@) =~= Seq::<u8>::empty());
        }
    }
    proof {
        assert(whole_part(text@) =~= text@.subrange(start as int, whole_end as int));
        assert(fraction_part(text@).len() == frac_len);
        assert(first + carry == fraction_tenths(fraction_part(text@)));
        assert forall|k: int| 0 <= k < whole_part(text@).len() implies is_digit(
            #[trigger] whole_part(text@)[k],
        ) by {
            assert(is_digit(text@[k + start]));
        }
        assert(all_digits(fraction_part(text@)));
    }
    if whole_end - start == 0 && frac_len == 0 {
        return None;
    }
    assert(is_decimal(text@));
    if over {
        return None;
    }
    let tenths: u128 = whole * 10 + first + carry;
    if tenths > i64::MAX as u128 {
        return None;
    }
    if negative {
        Some(-(tenths as i64))
    } else {
        Some(tenths as i64)
    }
}

} // verus!
