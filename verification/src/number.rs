//! Decimal numbers as they stand in the numeric columns of a word list.

use vstd::prelude::*;

verus! {

/// One of the ten decimal digits.
pub open spec fn is_digit(b: u8) -> bool {
    0x30 <= b <= 0x39
}

/// Nothing but decimal digits.
pub open spec fn all_digits(s: Seq<u8>) -> bool {
    forall|i: int| 0 <= i < s.len() ==> is_digit(#[trigger] s[i])
}

/// The number that a string of decimal digits writes.
pub open spec fn digits_value(s: Seq<u8>) -> nat
    decreases s.len(),
{
    if s.len() == 0 {
        0
    } else {
        digits_value(s.drop_last()) * 10 + (s.last() - 0x30) as nat
    }
}

/// Whether `s` opens with a sign that the column accepts: `+` always, `-` where the column
/// is signed.
pub open spec fn has_sign(s: Seq<u8>, signed: bool) -> bool {
    s.len() > 0 && (s[0] == 0x2b || (signed && s[0] == 0x2d))
}

/// The digits of `s`: what follows the sign, if there is one.
pub open spec fn digits_of(s: Seq<u8>, signed: bool) -> Seq<u8> {
    if has_sign(s, signed) {
        s.drop_first()
    } else {
        s
    }
}

/// The number that `s` writes: an optional sign and then one decimal digit or more, nothing
/// else. `None` for anything else.
pub open spec fn decimal(s: Seq<u8>, signed: bool) -> Option<int> {
    let digits = digits_of(s, signed);
    if digits.len() > 0 && all_digits(digits) {
        if signed && s[0] == 0x2d {
            Some(-(digits_value(digits) as int))
        } else {
            Some(digits_value(digits) as int)
        }
    } else {
        None
    }
}

/// The `u32` that `s` writes, if it writes one.
pub open spec fn decimal_u32(s: Seq<u8>) -> Option<u32> {
    match decimal(s, false) {
        Some(v) => if v <= u32::MAX { Some(v as u32) } else { None },
        None => None,
    }
}

/// The `i32` that `s` writes, if it writes one.
pub open spec fn decimal_i32(s: Seq<u8>) -> Option<i32> {
    match decimal(s, true) {
        Some(v) => if i32::MIN <= v <= i32::MAX { Some(v as i32) } else { None },
        None => None,
    }
}

/// More digits never write a smaller number.
pub proof fn lemma_digits_value_grows(s: Seq<u8>, n: int)
    requires
        0 <= n <= s.len(),
        all_digits(s),
    ensures
        digits_value(s.take(n)) <= digits_value(s),
    decreases s.len() - n,
{
    if n == s.len() {
        assert(s.take(n) =~= s);
    } else {
        assert(s.drop_last().take(n) =~= s.take(n));
        assert(is_digit(s[s.len() - 1]));
        assert forall|i: int| 0 <= i < s.drop_last().len() implies is_digit(
            #[trigger] s.drop_last()[i],
        ) by {
            assert(is_digit(s[i]));
        }
        lemma_digits_value_grows(s.drop_last(), n);
    }
}

/// The number written by the digits of `bytes` from `from` on, where it is at most `limit`.
/// `None` where there is no digit, something else than a digit, or a larger number.
fn magnitude(bytes: &[u8], from: usize, limit: u64) -> (value: Option<u64>)
    requires
        from <= bytes.len(),
        limit <= 0x1_0000_0000,
    ensures
        value == (if from < bytes.len() && all_digits(bytes@.skip(from as int)) && digits_value(
            bytes@.skip(from as int),
        ) <= limit {
            Some(digits_value(bytes@.skip(from as int)) as u64)
        } else {
            None
        }),
{
    if from >= bytes.len() {
        return None;
    }
    let ghost digits = bytes@.skip(from as int);
    let mut acc: u64 = 0;
    let mut i: usize = from;
    while i < bytes.len()
        invariant
            from <= i <= bytes.len(),
            limit <= 0x1_0000_0000,
            digits == bytes@.skip(from as int),
            all_digits(digits.take(i - from)),
            acc == digits_value(digits.take(i - from)),
            acc <= limit,
        decreases bytes.len() - i,
    {
        let b = bytes[i];
        let ghost k = i - from;
        assert(digits[k] == b);
        if b < 0x30 || b > 0x39 {
            return None;
        }
        proof {
            assert(digits.take(k + 1).drop_last() =~= digits.take(k));
            assert(digits.take(k + 1).last() == b);
            assert forall|j: int| 0 <= j < digits.take(k + 1).len() implies is_digit(
                #[trigger] digits.take(k + 1)[j],
            ) by {
                if j < k {
                    assert(is_digit(digits.take(k)[j]));
                }
            }
        }
        let next: u64 = acc * 10 + (b - 0x30) as u64;
        if next > limit {
            proof {
                if all_digits(digits) {
                    lemma_digits_value_grows(digits, k + 1);
                }
            }
            return None;
        }
        acc = next;
        i += 1;
    }
    assert(digits.take(i - from) =~= digits);
    Some(acc)
}

/// Reads a `u32` written in decimal, as `str::parse` does.
pub fn parse_u32(bytes: &[u8]) -> (value: Option<u32>)
    ensures
        value == decimal_u32(bytes@),
{
    let from: usize = if bytes.len() > 0 && bytes[0] == 0x2b { 1 } else { 0 };
    proof {
        if from == 1 {
            assert(bytes@.skip(1) =~= bytes@.drop_first());
        } else {
            assert(bytes@.skip(0) =~= bytes@);
        }
    }
    match magnitude(bytes, from, 0xffff_ffff) {
        Some(v) => Some(v as u32),
        None => None,
    }
}

/// Reads an `i32` written in decimal, as `str::parse` does.
pub fn parse_i32(bytes: &[u8]) -> (value: Option<i32>)
    ensures
        value == decimal_i32(bytes@),
{
    let negative = bytes.len() > 0 && bytes[0] == 0x2d;
    let from: usize = if bytes.len() > 0 && (bytes[0] == 0x2b || negative) { 1 } else { 0 };
    proof {
        if from == 1 {
            assert(bytes@.skip(1) =~= bytes@.drop_first());
        } else {
            assert(bytes@.skip(0) =~= bytes@);
        }
    }
    if negative {
        match magnitude(bytes, from, 0x8000_0000) {
            Some(v) => {
                if v == 0x8000_0000 {
                    Some(i32::MIN)
                } else {
                    Some(-(v as i32))
                }
            },
            None => None,
        }
    } else {
        match magnitude(bytes, from, 0x7fff_ffff) {
            Some(v) => Some(v as i32),
            None => None,
        }
    }
}

} // verus!
