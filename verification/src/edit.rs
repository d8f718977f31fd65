//! Committing the text of an integer field: when the field loses focus, its
//! text is parsed; a value too large or too small becomes the type's bound,
//! empty text becomes zero, and text that is not a number leaves the value as
//! it was. The field then shows the value's decimal text.

use crate::text::{decimal, digit_of, int_text, push_char, push_decimal};
use vstd::prelude::*;

verus! {

/// Why text is not an integer of a given type.
#[derive(Clone, Copy, Debug, PartialEq, Eq, Structural)]
pub enum IntTextError {
    /// The text is empty.
    Empty,
    /// The text is not an optional sign followed by decimal digits.
    InvalidDigit,
    /// The number is above the type's maximum.
    PosOverflow,
    /// The number is below the type's minimum.
    NegOverflow,
}

pub open spec fn is_digit(c: char) -> bool {
    '0' <= c <= '9'
}

/// At least one character, and decimal digits only.
pub open spec fn all_digits(s: Seq<char>) -> bool {
    s.len() > 0 && forall|i: int| 0 <= i < s.len() ==> is_digit(#[trigger] s[i])
}

/// The number that the decimal digits `s` write.
pub open spec fn digits_value(s: Seq<char>) -> int
    decreases s.len(),
{
    if s.len() == 0 {
        0
    } else {
        digits_value(s.drop_last()) * 10 + (s.last() as int - '0' as int)
    }
}

/// The integer that `s` writes as an optional `+` or `-` followed by decimal
/// digits, or `None` when `s` has another form.
pub open spec fn int_value(s: Seq<char>) -> Option<int> {
    if s.len() > 0 && (s[0] == '+' || s[0] == '-') {
        if all_digits(s.drop_first()) {
            if s[0] == '-' {
                Some(-digits_value(s.drop_first()))
            } else {
                Some(digits_value(s.drop_first()))
            }
        } else {
            None
        }
    } else if all_digits(s) {
        Some(digits_value(s))
    } else {
        None
    }
}

/// What a parse into the range `min..=max` gives, as far as the form of the
/// text decides it.
pub open spec fn parse_agrees(s: Seq<char>, r: Result<i64, IntTextError>, min: int, max: int) -> bool {
    &&& (r is Ok <==> (int_value(s) is Some && min <= int_value(s)->0 <= max))
    &&& (r is Ok ==> int_value(s) == Some(r->Ok_0 as int))
    &&& (r == Err::<i64, IntTextError>(IntTextError::Empty) <==> s.len() == 0)
    &&& (int_value(s) is Some && int_value(s)->0 > max ==> r == Err::<i64, IntTextError>(
        IntTextError::PosOverflow,
    ))
    &&& (int_value(s) is Some && int_value(s)->0 < min ==> r == Err::<i64, IntTextError>(
        IntTextError::NegOverflow,
    ))
}

/// What `str::parse::<i8>` gives for `s`.
pub uninterp spec fn parsed_i8(s: Seq<char>) -> Result<i64, IntTextError>;

/// What `str::parse::<i16>` gives for `s`.
pub uninterp spec fn parsed_i16(s: Seq<char>) -> Result<i64, IntTextError>;

/// What `str::parse::<i32>` gives for `s`.
pub uninterp spec fn parsed_i32(s: Seq<char>) -> Result<i64, IntTextError>;

/// What `str::parse::<i64>` gives for `s`.
pub uninterp spec fn parsed_i64(s: Seq<char>) -> Result<i64, IntTextError>;

/// `str::parse::<i8>` of std, its error told by `IntErrorKind`. Its
/// documentation states the form accepted (an optional sign, then decimal
/// digits only) and what each error kind means; stated here: `Ok` exactly for
/// that form in range, with its value; `Empty` exactly for empty text; the
/// overflow kinds for numbers of that form out of range. Not stated: which of
/// `InvalidDigit` and an overflow kind text of another form gives.
#[verifier::external_body]
fn parse_i8(text: &str) -> (r: Result<i64, IntTextError>)
    ensures
        r == parsed_i8(text@),
        parse_agrees(text@, r, i8::MIN as int, i8::MAX as int),
{
    match text.parse::<i8>() {
        Ok(v) => Ok(v as i64),
        Err(e) => Err(match e.kind() {
            std::num::IntErrorKind::Empty => IntTextError::Empty,
            std::num::IntErrorKind::PosOverflow => IntTextError::PosOverflow,
            std::num::IntErrorKind::NegOverflow => IntTextError::NegOverflow,
            _ => IntTextError::InvalidDigit,
        }),
    }
}

/// `str::parse::<i16>` of std; stated as for [`parse_i8`], over the range of `i16`.
#[verifier::external_body]
fn parse_i16(text: &str) -> (r: Result<i64, IntTextError>)
    ensures
        r == parsed_i16(text@),
        parse_agrees(text@, r, i16::MIN as int, i16::MAX as int),
{
    match text.parse::<i16>() {
        Ok(v) => Ok(v as i64),
        Err(e) => Err(match e.kind() {
            std::num::IntErrorKind::Empty => IntTextError::Empty,
            std::num::IntErrorKind::PosOverflow => IntTextError::PosOverflow,
            std::num::IntErrorKind::NegOverflow => IntTextError::NegOverflow,
            _ => IntTextError::InvalidDigit,
        }),
    }
}

/// `str::parse::<i32>` of std; stated as for [`parse_i8`], over the range of `i32`.
#[verifier::external_body]
fn parse_i32(text: &str) -> (r: Result<i64, IntTextError>)
    ensures
        r == parsed_i32(text@),
        parse_agrees(text@, r, i32::MIN as int, i32::MAX as int),
{
    match text.parse::<i32>() {
        Ok(v) => Ok(v as i64),
        Err(e) => Err(match e.kind() {
            std::num::IntErrorKind::Empty => IntTextError::Empty,
            std::num::IntErrorKind::PosOverflow => IntTextError::PosOverflow,
            std::num::IntErrorKind::NegOverflow => IntTextError::NegOverflow,
            _ => IntTextError::InvalidDigit,
        }),
    }
}

/// `str::parse::<i64>` of std; stated as for [`parse_i8`], over the range of `i64`.
#[verifier::external_body]
fn parse_i64(text: &str) -> (r: Result<i64, IntTextError>)
    ensures
        r == parsed_i64(text@),
        parse_agrees(text@, r, i64::MIN as int, i64::MAX as int),
{
    match text.parse::<i64>() {
        Ok(v) => Ok(v as i64),
        Err(e) => Err(match e.kind() {
            std::num::IntErrorKind::Empty => IntTextError::Empty,
            std::num::IntErrorKind::PosOverflow => IntTextError::PosOverflow,
            std::num::IntErrorKind::NegOverflow => IntTextError::NegOverflow,
            _ => IntTextError::InvalidDigit,
        }),
    }
}

/// The value a field holding `old` takes for the parse result `r`: the parsed
/// value, `max` or `min` on overflow, zero for empty text, else `old`.
pub open spec fn committed(old: int, r: Result<i64, IntTextError>, min: int, max: int) -> int {
    match r {
        Ok(v) => v as int,
        Err(IntTextError::PosOverflow) => max,
        Err(IntTextError::NegOverflow) => min,
        Err(IntTextError::Empty) => 0,
        Err(IntTextError::InvalidDigit) => old,
    }
}

/// What the field's value becomes, by the text's form alone: where the form
/// leaves the parse error open, one of the outcomes it can have.
pub open spec fn commit_by_form(old: int, s: Seq<char>, min: int, max: int, v: int) -> bool {
    if s.len() == 0 {
        v == 0
    } else if int_value(s) is Some {
        v == if int_value(s)->0 > max {
            max
        } else if int_value(s)->0 < min {
            min
        } else {
            int_value(s)->0
        }
    } else {
        v == old || v == max || v == min
    }
}

proof fn lemma_commit_by_form(old: int, s: Seq<char>, r: Result<i64, IntTextError>, min: int, max: int)
    requires
        parse_agrees(s, r, min, max),
    ensures
        commit_by_form(old, s, min, max, committed(old, r, min, max)),
{
}

proof fn lemma_digit_value(d: int)
    requires
        0 <= d < 10,
    ensures
        is_digit(digit_of(d)),
        digit_of(d) as int - '0' as int == d,
{
}

proof fn lemma_decimal_digits(n: nat)
    ensures
        all_digits(decimal(n)),
        digits_value(decimal(n)) == n,
        decimal(n).len() > 0,
    decreases n,
{
    lemma_digit_value((n % 10) as int);
    if n >= 10 {
        lemma_decimal_digits(n / 10);
        let s = decimal(n);
        assert(s.drop_last() == decimal(n / 10));
        assert forall|i: int| 0 <= i < s.len() implies is_digit(#[trigger] s[i]) by {
            if i < s.len() - 1 {
                assert(s[i] == decimal(n / 10)[i]);
            }
        }
        assert(s.last() == digit_of((n % 10) as int));
        assert((n / 10) * 10 + n % 10 == n) by (nonlinear_arith);
    } else {
        assert(decimal(n).drop_last() =~= Seq::<char>::empty());
        assert(digits_value(Seq::<char>::empty()) == 0);
    }
}

/// The text a value is shown as reads back as that value.
pub proof fn law_int_text_reads_back(v: int)
    ensures
        int_value(int_text(v)) == Some(v),
{
    if v < 0 {
        let d = decimal((-v) as nat);
        lemma_decimal_digits((-v) as nat);
        assert((seq!['-'] + d).drop_first() =~= d);
    } else {
        let d = decimal(v as nat);
        lemma_decimal_digits(v as nat);
        assert(is_digit(d[0]));
    }
}

/// Committing again the text that a commit leaves in the field keeps the
/// value: `w` is what the second commit gives.
pub proof fn law_commit_is_stable(v: int, min: int, max: int, w: int)
    requires
        min <= v <= max,
        commit_by_form(v, int_text(v), min, max, w),
    ensures
        w == v,
{
    law_int_text_reads_back(v);
    lemma_decimal_digits(if v < 0 { (-v) as nat } else { v as nat });
}

/// The value for the parse result `r` of a field's text, the field's type
/// ranging over `min..=max`: see [`committed`].
pub fn commit_parsed(old: i64, r: Result<i64, IntTextError>, min: i64, max: i64) -> (v: i64)
    ensures
        v == committed(old as int, r, min as int, max as int),
{
    match r {
        Ok(v) => v,
        Err(IntTextError::PosOverflow) => max,
        Err(IntTextError::NegOverflow) => min,
        Err(IntTextError::Empty) => 0,
        Err(IntTextError::InvalidDigit) => old,
    }
}

/// `Display` of an integer: a minus sign for negatives, then the digits.
pub fn int_string(v: i64) -> (s: String)
    ensures
        s@ == int_text(v as int),
{
    let mut s = String::new();
    if v < 0 {
        push_char(&mut s, '-');
        let m: u64 = if v == i64::MIN {
            9223372036854775808u64
        } else {
            (-v) as u64
        };
        push_decimal(&mut s, m);
    } else {
        push_decimal(&mut s, v as u64);
    }
    s
}

/// Commits the text of an `i8` field: the value becomes what the text gives
/// (see [`committed`]), and the text becomes the value's decimal text.
pub fn commit_i8_text(value: &mut i8, buffer: &mut String)
    ensures
        *final(value) as int == committed(
            *old(value) as int,
            parsed_i8(old(buffer)@),
            i8::MIN as int,
            i8::MAX as int,
        ),
        commit_by_form(*old(value) as int, old(buffer)@, i8::MIN as int, i8::MAX as int, *final(value) as int),
        final(buffer)@ == int_text(*final(value) as int),
{
    let r = parse_i8(buffer.as_str());
    proof {
        lemma_commit_by_form(*value as int, buffer@, r, i8::MIN as int, i8::MAX as int);
    }
    *value = commit_parsed(*value as i64, r, i8::MIN as i64, i8::MAX as i64) as i8;
    *buffer = int_string(*value as i64);
}

/// Commits the text of an `i16` field; as [`commit_i8_text`], over `i16`.
pub fn commit_i16_text(value: &mut i16, buffer: &mut String)
    ensures
        *final(value) as int == committed(
            *old(value) as int,
            parsed_i16(old(buffer)@),
            i16::MIN as int,
            i16::MAX as int,
        ),
        commit_by_form(*old(value) as int, old(buffer)@, i16::MIN as int, i16::MAX as int, *final(value) as int),
        final(buffer)@ == int_text(*final(value) as int),
{
    let r = parse_i16(buffer.as_str());
    proof {
        lemma_commit_by_form(*value as int, buffer@, r, i16::MIN as int, i16::MAX as int);
    }
    *value = commit_parsed(*value as i64, r, i16::MIN as i64, i16::MAX as i64) as i16;
    *buffer = int_string(*value as i64);
}

/// Commits the text of an `i32` field; as [`commit_i8_text`], over `i32`.
pub fn commit_i32_text(value: &mut i32, buffer: &mut String)
    ensures
        *final(value) as int == committed(
            *old(value) as int,
            parsed_i32(old(buffer)@),
            i32::MIN as int,
            i32::MAX as int,
        ),
        commit_by_form(*old(value) as int, old(buffer)@, i32::MIN as int, i32::MAX as int, *final(value) as int),
        final(buffer)@ == int_text(*final(value) as int),
{
    let r = parse_i32(buffer.as_str());
    proof {
        lemma_commit_by_form(*value as int, buffer@, r, i32::MIN as int, i32::MAX as int);
    }
    *value = commit_parsed(*value as i64, r, i32::MIN as i64, i32::MAX as i64) as i32;
    *buffer = int_string(*value as i64);
}

/// Commits the text of an `i64` field; as [`commit_i8_text`], over `i64`.
pub fn commit_i64_text(value: &mut i64, buffer: &mut String)
    ensures
        *final(value) as int == committed(
            *old(value) as int,
            parsed_i64(old(buffer)@),
            i64::MIN as int,
            i64::MAX as int,
        ),
        commit_by_form(*old(value) as int, old(buffer)@, i64::MIN as int, i64::MAX as int, *final(value) as int),
        final(buffer)@ == int_text(*final(value) as int),
{
    let r = parse_i64(buffer.as_str());
    proof {
        lemma_commit_by_form(*value as int, buffer@, r, i64::MIN as int, i64::MAX as int);
    }
    *value = commit_parsed(*value, r, i64::MIN, i64::MAX);
    *buffer = int_string(*value);
}

} // verus!
