use vstd::prelude::*;
use vstd::slice::slice_subrange;
use vstd::string::StringSliceAdditionalSpecFns;

use crate::decimal::{is_digit, digits_value, pow10, lemma_digits_value_bound, lemma_digits_value_push, lemma_pow10_mono, lemma_pow10_38, Decimal, DecimalParseError, MAX_PRECISION, MAX_SCALE, MIN_SCALE};

verus! {

/// ASCII whitespace: space, tab, line feed, form feed, carriage return.
pub open spec fn is_ws(b: u8) -> bool {
    b == 32 || b == 9 || b == 10 || b == 12 || b == 13
}

/// Length of the leading run of ASCII digits.
pub open spec fn digit_run_len(s: Seq<u8>) -> nat
    decreases s.len(),
{
    if s.len() > 0 && is_digit(s[0]) {
        1 + digit_run_len(s.drop_first())
    } else {
        0
    }
}

/// Length of the leading run of ASCII whitespace.
pub open spec fn ws_run_len(s: Seq<u8>) -> nat
    decreases s.len(),
{
    if s.len() > 0 && is_ws(s[0]) {
        1 + ws_run_len(s.drop_first())
    } else {
        0
    }
}

/// `n` is where the leading run of digits of `s` ends.
pub proof fn lemma_digit_run_len(s: Seq<u8>, n: int)
    requires
        0 <= n <= s.len(),
        forall|k: int| 0 <= k < n ==> is_digit(#[trigger] s[k]),
        n == s.len() || !is_digit(s[n]),
    ensures
        digit_run_len(s) == n,
    decreases n,
{
    if n > 0 {
        assert forall|k: int| 0 <= k < n - 1 implies is_digit(#[trigger] s.drop_first()[k]) by {
            assert(s.drop_first()[k] == s[k + 1]);
        }
        lemma_digit_run_len(s.drop_first(), n - 1);
    }
}

/// `n` is where the leading run of whitespace of `s` ends.
pub proof fn lemma_ws_run_len(s: Seq<u8>, n: int)
    requires
        0 <= n <= s.len(),
        forall|k: int| 0 <= k < n ==> is_ws(#[trigger] s[k]),
        n == s.len() || !is_ws(s[n]),
    ensures
        ws_run_len(s) == n,
    decreases n,
{
    if n > 0 {
        assert forall|k: int| 0 <= k < n - 1 implies is_ws(#[trigger] s.drop_first()[k]) by {
            assert(s.drop_first()[k] == s[k + 1]);
        }
        lemma_ws_run_len(s.drop_first(), n - 1);
    }
}

/// The leading run of digits holds digits only and is maximal.
pub proof fn lemma_digit_run_facts(s: Seq<u8>)
    ensures
        digit_run_len(s) <= s.len(),
        forall|k: int| 0 <= k < digit_run_len(s) ==> is_digit(#[trigger] s[k]),
        digit_run_len(s) == s.len() || !is_digit(s[digit_run_len(s) as int]),
    decreases s.len(),
{
    if s.len() > 0 && is_digit(s[0]) {
        lemma_digit_run_facts(s.drop_first());
        assert forall|k: int| 0 <= k < digit_run_len(s) implies is_digit(#[trigger] s[k]) by {
            if k > 0 {
                assert(s[k] == s.drop_first()[k - 1]);
            }
        }
    }
}

/// The leading run of whitespace holds whitespace only and is maximal.
pub proof fn lemma_ws_run_facts(s: Seq<u8>)
    ensures
        ws_run_len(s) <= s.len(),
        forall|k: int| 0 <= k < ws_run_len(s) ==> is_ws(#[trigger] s[k]),
        ws_run_len(s) == s.len() || !is_ws(s[ws_run_len(s) as int]),
    decreases s.len(),
{
    if s.len() > 0 && is_ws(s[0]) {
        lemma_ws_run_facts(s.drop_first());
        assert forall|k: int| 0 <= k < ws_run_len(s) implies is_ws(#[trigger] s[k]) by {
            if k > 0 {
                assert(s[k] == s.drop_first()[k - 1]);
            }
        }
    }
}

/// The sign of a literal.
#[derive(Clone, Copy, Debug, PartialEq, Eq, Structural)]
pub enum Sign {
    Positive,
    Negative,
}

/// Splits off one leading `+` or `-`: whether it was `-`, and the rest.
pub open spec fn sign_split(s: Seq<u8>) -> (bool, Seq<u8>) {
    if s.len() > 0 && s[0] == 43 {
        (false, s.drop_first())
    } else if s.len() > 0 && s[0] == 45 {
        (true, s.drop_first())
    } else {
        (false, s)
    }
}

/// Splits a literal into its sign and the rest, without looking at the rest.
pub fn extract_sign(s: &[u8]) -> (r: (Sign, &[u8]))
    ensures
        (r.0 == Sign::Negative) == sign_split(s@).0,
        r.1@ == sign_split(s@).1,
{
    if s.len() > 0 && s[0] == 43u8 {
        (Sign::Positive, slice_subrange(s, 1, s.len()))
    } else if s.len() > 0 && s[0] == 45u8 {
        (Sign::Negative, slice_subrange(s, 1, s.len()))
    } else {
        (Sign::Positive, s)
    }
}

/// Splits off the leading run of ASCII digits (possibly empty).
pub fn eat_digits(s: &[u8]) -> (r: (&[u8], &[u8]))
    ensures
        r.0@ == s@.take(digit_run_len(s@) as int),
        r.1@ == s@.skip(digit_run_len(s@) as int),
{
    let mut i: usize = 0;
    while i < s.len() && 48u8 <= s[i] && s[i] <= 57u8
        invariant
            i <= s@.len(),
            forall|k: int| 0 <= k < i ==> is_digit(#[trigger] s@[k]),
        decreases s@.len() - i,
    {
        i = i + 1;
    }
    proof {
        lemma_digit_run_len(s@, i as int);
    }
    (slice_subrange(s, 0, i), slice_subrange(s, i, s.len()))
}

/// Drops the leading run of ASCII whitespace.
pub fn eat_whitespaces(s: &[u8]) -> (r: &[u8])
    ensures
        r@ == s@.skip(ws_run_len(s@) as int),
{
    let mut i: usize = 0;
    while i < s.len() && (s[i] == 32u8 || s[i] == 9u8 || s[i] == 10u8 || s[i] == 12u8
        || s[i] == 13u8)
        invariant
            i <= s@.len(),
            forall|k: int| 0 <= k < i ==> is_ws(#[trigger] s@[k]),
        decreases s@.len() - i,
    {
        i = i + 1;
    }
    proof {
        lemma_ws_run_len(s@, i as int);
    }
    slice_subrange(s, i, s.len())
}

/// ASCII lower case.
pub open spec fn lower(b: u8) -> u8 {
    if 65 <= b <= 90 {
        (b + 32) as u8
    } else {
        b
    }
}

/// Whether `s` starts with `nan` in any mix of case.
pub open spec fn has_nan_prefix(s: Seq<u8>) -> bool {
    s.len() >= 3 && lower(s[0]) == 110 && lower(s[1]) == 97 && lower(s[2]) == 110
}

fn to_lower(b: u8) -> (r: u8)
    ensures
        r == lower(b),
{
    if 65u8 <= b && b <= 90u8 {
        b + 32
    } else {
        b
    }
}

/// Detects a leading `nan` token, case-insensitively, and drops it when found.
pub fn extract_nan(s: &[u8]) -> (r: (bool, &[u8]))
    ensures
        r.0 == has_nan_prefix(s@),
        r.1@ == (if r.0 { s@.skip(3) } else { s@ }),
{
    if s.len() < 3 {
        (false, s)
    } else if to_lower(s[0]) == 110u8 && to_lower(s[1]) == 97u8 && to_lower(s[2]) == 110u8 {
        (true, slice_subrange(s, 3, s.len()))
    } else {
        (false, s)
    }
}

/// Drops every leading zero.
pub open spec fn trim_leading_zeros(r: Seq<u8>) -> Seq<u8>
    decreases r.len(),
{
    if r.len() > 0 && r[0] == 48 {
        trim_leading_zeros(r.drop_first())
    } else {
        r
    }
}

/// Drops leading zeros, but keeps the last digit: `000` becomes `0`.
pub open spec fn trim_integral(r: Seq<u8>) -> Seq<u8>
    decreases r.len(),
{
    if r.len() > 1 && r[0] == 48 {
        trim_integral(r.drop_first())
    } else {
        r
    }
}

/// Drops every trailing zero.
pub open spec fn trim_trailing_zeros(r: Seq<u8>) -> Seq<u8>
    decreases r.len(),
{
    if r.len() > 0 && r.last() == 48 {
        trim_trailing_zeros(r.drop_last())
    } else {
        r
    }
}

/// `e` or `E`.
pub open spec fn is_exp_marker(b: u8) -> bool {
    b == 101 || b == 69
}

/// The exponent that follows an `e` marker, and the rest of the text.
pub open spec fn spec_extract_exponent(s: Seq<u8>) -> Result<(int, Seq<u8>), DecimalParseError> {
    let (neg, t) = sign_split(s);
    let n = digit_run_len(t) as int;
    let number = trim_leading_zeros(t.take(n));
    let v = digits_value(number) as int;
    let e = if neg { -v } else { v };
    if n == 0 {
        Err(DecimalParseError::Invalid)
    } else if number.len() > 3 {
        Err(DecimalParseError::Overflow)
    } else if e > -MIN_SCALE || e < -MAX_SCALE {
        Err(DecimalParseError::Overflow)
    } else {
        Ok((e, t.skip(n)))
    }
}

/// What a result of `extract_exponent` says, over views.
pub open spec fn exp_result_view<'a>(r: Result<(i16, &'a [u8]), DecimalParseError>) -> Result<
    (int, Seq<u8>),
    DecimalParseError,
> {
    match r {
        Ok((e, rest)) => Ok((e as int, rest@)),
        Err(e) => Err(e),
    }
}

/// Facts about a suffix of a digit run.
proof fn lemma_skip_digits(r: Seq<u8>, k: int)
    requires
        0 <= k <= r.len(),
        forall|i: int| 0 <= i < r.len() ==> is_digit(#[trigger] r[i]),
    ensures
        forall|i: int| 0 <= i < r.skip(k).len() ==> is_digit(#[trigger] r.skip(k)[i]),
{
    assert forall|i: int| 0 <= i < r.skip(k).len() implies is_digit(#[trigger] r.skip(k)[i]) by {
        assert(r.skip(k)[i] == r[i + k]);
    }
}

/// Extracts the exponent that follows an `e` marker: an optional sign and a run
/// of digits, of at most three significant digits, within the scale bounds.
pub fn extract_exponent(s: &[u8]) -> (r: Result<(i16, &[u8]), DecimalParseError>)
    ensures
        exp_result_view(r) == spec_extract_exponent(s@),
{
    let (sign, s1) = extract_sign(s);
    let (number0, rest) = eat_digits(s1);
    let ghost n = digit_run_len(s1@) as int;
    proof {
        lemma_digit_run_facts(s1@);
    }
    if number0.len() == 0 {
        return Err(DecimalParseError::Invalid);
    }
    let mut number = number0;
    while number.len() > 0 && number[0] == 48u8
        invariant
            trim_leading_zeros(number@) == trim_leading_zeros(s1@.take(n)),
            forall|i: int| 0 <= i < number@.len() ==> is_digit(#[trigger] number@[i]),
        decreases number@.len(),
    {
        proof {
            lemma_skip_digits(number@, 1);
            assert(number@.skip(1) =~= number@.drop_first());
        }
        number = slice_subrange(number, 1, number.len());
    }
    if number.len() > 3 {
        return Err(DecimalParseError::Overflow);
    }
    let mut result: i16 = 0;
    let mut i: usize = 0;
    while i < number.len()
        invariant
            number@.len() <= 3,
            i <= number@.len(),
            forall|k: int| 0 <= k < number@.len() ==> is_digit(#[trigger] number@[k]),
            result as int == digits_value(number@.take(i as int)),
        decreases number@.len() - i,
    {
        proof {
            lemma_digits_value_bound(number@.take(i as int));
            assert(number@.take(i as int + 1) =~= number@.take(i as int).push(number@[i as int]));
            lemma_digits_value_push(number@.take(i as int), number@[i as int]);
            lemma_pow10_mono(i as nat, 2);
            reveal_with_fuel(pow10, 3);
        }
        result = result * 10 + (number[i] - 48u8) as i16;
        i = i + 1;
    }
    assert(number@.take(number@.len() as int) =~= number@);
    let exp = match sign {
        Sign::Positive => result,
        Sign::Negative => -result,
    };
    if exp > -MIN_SCALE || exp < -MAX_SCALE {
        return Err(DecimalParseError::Overflow);
    }
    Ok((exp, rest))
}

/// The parts of a literal, as the grammar reads them: the sign, the integral
/// digits without leading zeros (a lone `0` stays), the fractional digits
/// without trailing zeros, and the exponent.
pub struct SpecParts {
    pub negative: bool,
    pub integral: Seq<u8>,
    pub fractional: Seq<u8>,
    pub exp: int,
}

/// The parts of a literal, borrowed from the text.
pub struct Parts<'a> {
    pub sign: Sign,
    pub integral: &'a [u8],
    pub fractional: &'a [u8],
    pub exp: i16,
}

impl<'a> View for Parts<'a> {
    type V = SpecParts;

    open spec fn view(&self) -> SpecParts {
        SpecParts {
            negative: self.sign == Sign::Negative,
            integral: self.integral@,
            fractional: self.fractional@,
            exp: self.exp as int,
        }
    }
}

/// Reads the fraction after a `.` and the exponent that may follow it.
pub open spec fn spec_after_point(negative: bool, integral: Seq<u8>, s: Seq<u8>) -> Result<
    (SpecParts, Seq<u8>),
    DecimalParseError,
> {
    let m = digit_run_len(s) as int;
    let fractional = trim_trailing_zeros(s.take(m));
    let rest = s.skip(m);
    if integral.len() == 0 && m == 0 {
        Err(DecimalParseError::Invalid)
    } else if rest.len() > 0 && is_exp_marker(rest[0]) {
        match spec_extract_exponent(rest.drop_first()) {
            Ok((exp, rest2)) => Ok((SpecParts { negative, integral, fractional, exp }, rest2)),
            Err(e) => Err(e),
        }
    } else {
        Ok((SpecParts { negative, integral, fractional, exp: 0 }, rest))
    }
}

/// The grammar `sign? (integer ('.' fraction?)? | '.' fraction) exponent?` read
/// from the start of `s`: the parts found and the text left after them.
pub open spec fn spec_parse_decimal(s: Seq<u8>) -> Result<(SpecParts, Seq<u8>), DecimalParseError> {
    let (negative, s1) = sign_split(s);
    let n = digit_run_len(s1) as int;
    let integral = trim_integral(s1.take(n));
    let s2 = s1.skip(n);
    let none = Seq::<u8>::empty();
    if s1.len() == 0 {
        Err(DecimalParseError::Invalid)
    } else if s2.len() > 0 && is_exp_marker(s2[0]) {
        if n == 0 {
            Err(DecimalParseError::Invalid)
        } else {
            match spec_extract_exponent(s2.drop_first()) {
                Ok((exp, rest)) => Ok(
                    (SpecParts { negative, integral, fractional: none, exp }, rest),
                ),
                Err(e) => Err(e),
            }
        }
    } else if s2.len() > 0 && s2[0] == 46 {
        spec_after_point(negative, integral, s2.drop_first())
    } else if n == 0 {
        Err(DecimalParseError::Invalid)
    } else {
        Ok((SpecParts { negative, integral, fractional: none, exp: 0 }, s2))
    }
}

/// What a result of `parse_decimal` says, over views.
pub open spec fn parts_result_view<'a>(
    r: Result<(Parts<'a>, &'a [u8]), DecimalParseError>,
) -> Result<(SpecParts, Seq<u8>), DecimalParseError> {
    match r {
        Ok((p, rest)) => Ok((p@, rest@)),
        Err(e) => Err(e),
    }
}

/// Checks that the text starts with a decimal literal (after an optional sign)
/// and locates its integral part, fractional part and exponent.
pub fn parse_decimal(s: &[u8]) -> (r: Result<(Parts, &[u8]), DecimalParseError>)
    ensures
        parts_result_view(r) == spec_parse_decimal(s@),
        r is Ok ==> forall|i: int|
            0 <= i < r->Ok_0.0.integral@.len() ==> is_digit(#[trigger] r->Ok_0.0.integral@[i]),
        r is Ok ==> forall|i: int|
            0 <= i < r->Ok_0.0.fractional@.len() ==> is_digit(
                #[trigger] r->Ok_0.0.fractional@[i],
            ),
{
    let (sign, s1) = extract_sign(s);
    if s1.len() == 0 {
        return Err(DecimalParseError::Invalid);
    }
    let (integral0, s2) = eat_digits(s1);
    let ghost n = digit_run_len(s1@) as int;
    proof {
        lemma_digit_run_facts(s1@);
    }
    let mut integral = integral0;
    while integral.len() > 1 && integral[0] == 48u8
        invariant
            trim_integral(integral@) == trim_integral(s1@.take(n)),
            integral@.len() == 0 <==> n == 0,
            forall|i: int| 0 <= i < integral@.len() ==> is_digit(#[trigger] integral@[i]),
        decreases integral@.len(),
    {
        proof {
            lemma_skip_digits(integral@, 1);
            assert(integral@.skip(1) =~= integral@.drop_first());
        }
        integral = slice_subrange(integral, 1, integral.len());
    }
    let empty: &[u8] = slice_subrange(s2, 0, 0);
    if s2.len() > 0 && (s2[0] == 101u8 || s2[0] == 69u8) {
        if integral.len() == 0 {
            return Err(DecimalParseError::Invalid);
        }
        let r = extract_exponent(slice_subrange(s2, 1, s2.len()));
        assert(s2@.subrange(1, s2@.len() as int) =~= s2@.drop_first());
        match r {
            Ok((exp, rest)) => {
                assert(empty@ =~= Seq::<u8>::empty());
                Ok((Parts { sign, integral, fractional: empty, exp }, rest))
            },
            Err(e) => Err(e),
        }
    } else if s2.len() > 0 && s2[0] == 46u8 {
        let s3 = slice_subrange(s2, 1, s2.len());
        assert(s3@ =~= s2@.drop_first());
        let (fractional0, s4) = eat_digits(s3);
        let ghost m = digit_run_len(s3@) as int;
        proof {
            lemma_digit_run_facts(s3@);
        }
        if integral.len() == 0 && fractional0.len() == 0 {
            return Err(DecimalParseError::Invalid);
        }
        let mut fractional = fractional0;
        while fractional.len() > 0 && fractional[fractional.len() - 1] == 48u8
            invariant
                trim_trailing_zeros(fractional@) == trim_trailing_zeros(s3@.take(m)),
                forall|i: int| 0 <= i < fractional@.len() ==> is_digit(#[trigger] fractional@[i]),
            decreases fractional@.len(),
        {
            assert(fractional@.subrange(0, fractional@.len() - 1) =~= fractional@.drop_last());
            fractional = slice_subrange(fractional, 0, fractional.len() - 1);
        }
        if s4.len() > 0 && (s4[0] == 101u8 || s4[0] == 69u8) {
            let r = extract_exponent(slice_subrange(s4, 1, s4.len()));
            assert(s4@.subrange(1, s4@.len() as int) =~= s4@.drop_first());
            match r {
                Ok((exp, rest)) => Ok((Parts { sign, integral, fractional, exp }, rest)),
                Err(e) => Err(e),
            }
        } else {
            Ok((Parts { sign, integral, fractional, exp: 0 }, s4))
        }
    } else {
        if integral.len() == 0 {
            return Err(DecimalParseError::Invalid);
        }
        assert(empty@ =~= Seq::<u8>::empty());
        Ok((Parts { sign, integral, fractional: empty, exp: 0 }, s2))
    }
}

/// Significant digits of a literal: all of its digits, but for the lone `0`
/// that stands before the point in `0.xxx`.
pub open spec fn precision_of(p: SpecParts) -> int {
    if p.integral == seq![48u8] {
        p.fractional.len() as int
    } else {
        (p.integral.len() + p.fractional.len()) as int
    }
}

/// The value that a literal's parts denote, checked against the bounds, and the
/// text left after it.
pub open spec fn spec_parse_str(s: Seq<u8>) -> Result<(Decimal, Seq<u8>), DecimalParseError> {
    match spec_parse_decimal(s) {
        Err(e) => Err(e),
        Ok((p, rest)) => {
            let scale = p.fractional.len() - p.exp;
            let m = digits_value(p.integral + p.fractional);
            if precision_of(p) > MAX_PRECISION {
                Err(DecimalParseError::Overflow)
            } else if scale > MAX_SCALE || scale < MIN_SCALE {
                Err(DecimalParseError::Overflow)
            } else {
                Ok(
                    (
                        Decimal {
                            int_val: m as u128,
                            scale: scale as i16,
                            negative: p.negative && m != 0,
                        },
                        rest,
                    ),
                )
            }
        },
    }
}

/// Every byte is whitespace.
pub open spec fn all_ws(s: Seq<u8>) -> bool {
    forall|i: int| 0 <= i < s.len() ==> is_ws(#[trigger] s[i])
}

/// The value of a whole text: whitespace, a literal that is not `nan`, whitespace.
pub open spec fn spec_from_bytes(s: Seq<u8>) -> Result<Decimal, DecimalParseError> {
    let t = s.skip(ws_run_len(s) as int);
    if t.len() == 0 {
        Err(DecimalParseError::Empty)
    } else if has_nan_prefix(t) {
        Err(DecimalParseError::Invalid)
    } else {
        match spec_parse_str(t) {
            Err(e) => Err(e),
            Ok((d, rest)) => if all_ws(rest) {
                Ok(d)
            } else {
                Err(DecimalParseError::Invalid)
            },
        }
    }
}

/// What a result of `parse_str` says, over views.
pub open spec fn value_result_view<'a>(r: Result<(Decimal, &'a [u8]), DecimalParseError>) -> Result<
    (Decimal, Seq<u8>),
    DecimalParseError,
> {
    match r {
        Ok((d, rest)) => Ok((d, rest@)),
        Err(e) => Err(e),
    }
}

/// Parses a literal at the start of the text, without surrounding whitespace or
/// `nan`, and returns its value and the text left after it.
pub fn parse_str(s: &[u8]) -> (r: Result<(Decimal, &[u8]), DecimalParseError>)
    ensures
        value_result_view(r) == spec_parse_str(s@),
        r is Ok ==> r->Ok_0.0.wf(),
{
    let (parts, rest) = match parse_decimal(s) {
        Ok(x) => x,
        Err(e) => {
            return Err(e);
        },
    };
    let Parts { sign, integral, fractional, exp } = parts;
    let ghost p = parts@;
    let lone_zero = integral.len() == 1 && integral[0] == 48u8;
    assert(lone_zero == (integral@ == seq![48u8])) by {
        if integral@.len() == 1 && integral@[0] == 48u8 {
            assert(integral@ =~= seq![48u8]);
        }
    }
    if fractional.len() > MAX_PRECISION as usize {
        return Err(DecimalParseError::Overflow);
    }
    let precision: usize = if lone_zero {
        fractional.len()
    } else {
        if integral.len() > MAX_PRECISION as usize {
            return Err(DecimalParseError::Overflow);
        }
        integral.len() + fractional.len()
    };
    if precision > MAX_PRECISION as usize {
        return Err(DecimalParseError::Overflow);
    }
    let scale: i16 = fractional.len() as i16 - exp;
    if scale > MAX_SCALE || scale < MIN_SCALE {
        return Err(DecimalParseError::Overflow);
    }
    let ghost k: nat = if lone_zero { 0 } else { integral@.len() };
    let mut acc: u128 = 0;
    let mut i: usize = 0;
    proof {
        lemma_pow10_38();
    }
    while i < integral.len()
        invariant
            i <= integral@.len(),
            k + fractional@.len() <= 38,
            lone_zero ==> integral@ == seq![48u8],
            !lone_zero ==> k == integral@.len(),
            forall|j: int| 0 <= j < integral@.len() ==> is_digit(#[trigger] integral@[j]),
            acc as int == digits_value(integral@.take(i as int)),
            acc < pow10(if lone_zero { 0 } else { i as nat }),
            pow10(38) < 0x1_0000_0000_0000_0000_0000_0000_0000_0000nat,
        decreases integral@.len() - i,
    {
        let d = integral[i];
        proof {
            assert(integral@.take(i as int + 1) =~= integral@.take(i as int).push(d));
            lemma_digits_value_push(integral@.take(i as int), d);
            lemma_pow10_mono(i as nat + 1, 38);
            if lone_zero {
                assert(integral@.take(0) =~= Seq::<u8>::empty());
            }
        }
        acc = acc * 10 + (d - 48u8) as u128;
        i = i + 1;
    }
    assert(integral@.take(integral@.len() as int) =~= integral@);
    assert(integral@ + fractional@.take(0) =~= integral@);
    let mut j: usize = 0;
    while j < fractional.len()
        invariant
            j <= fractional@.len(),
            k + fractional@.len() <= 38,
            forall|t: int| 0 <= t < fractional@.len() ==> is_digit(#[trigger] fractional@[t]),
            acc as int == digits_value(integral@ + fractional@.take(j as int)),
            acc < pow10((k + j) as nat),
            pow10(38) < 0x1_0000_0000_0000_0000_0000_0000_0000_0000nat,
        decreases fractional@.len() - j,
    {
        let d = fractional[j];
        proof {
            assert(integral@ + fractional@.take(j as int + 1) =~= (integral@ + fractional@.take(
                j as int,
            )).push(d));
            lemma_digits_value_push(integral@ + fractional@.take(j as int), d);
            lemma_pow10_mono((k + j + 1) as nat, 38);
        }
        acc = acc * 10 + (d - 48u8) as u128;
        j = j + 1;
    }
    assert(fractional@.take(fractional@.len() as int) =~= fractional@);
    proof {
        lemma_pow10_mono((k + fractional@.len()) as nat, 38);
    }
    let negative = if acc != 0 {
        sign == Sign::Negative
    } else {
        false
    };
    Ok((Decimal::from_parts_unchecked(acc, scale, negative), rest))
}

/// Parses a whole text into a `Decimal`: surrounding ASCII whitespace is
/// allowed, `nan` in any case is not.
pub fn from_str(s: &str) -> (r: Result<Decimal, DecimalParseError>)
    ensures
        r == spec_from_bytes(s.spec_bytes()),
        r is Ok ==> r->Ok_0.wf(),
{
    let b = s.as_bytes();
    let t = eat_whitespaces(b);
    if t.len() == 0 {
        return Err(DecimalParseError::Empty);
    }
    let (is_nan, t) = extract_nan(t);
    if is_nan {
        return Err(DecimalParseError::Invalid);
    }
    let (n, rest) = match parse_str(t) {
        Ok(x) => x,
        Err(e) => {
            return Err(e);
        },
    };
    let ghost parsed = spec_parse_str(t@);
    assert(parsed == Ok::<(Decimal, Seq<u8>), DecimalParseError>((n, rest@)));
    let mut i: usize = 0;
    while i < rest.len()
        invariant
            b@ == s.spec_bytes(),
            t@ == b@.skip(ws_run_len(b@) as int),
            t@.len() > 0,
            !has_nan_prefix(t@),
            parsed == spec_parse_str(t@),
            parsed == Ok::<(Decimal, Seq<u8>), DecimalParseError>((n, rest@)),
            i <= rest@.len(),
            forall|j: int| 0 <= j < i ==> is_ws(#[trigger] rest@[j]),
        decreases rest@.len() - i,
    {
        let c = rest[i];
        if !(c == 32u8 || c == 9u8 || c == 10u8 || c == 12u8 || c == 13u8) {
            assert(!is_ws(rest@[i as int]));
            assert(!all_ws(rest@));
            return Err(DecimalParseError::Invalid);
        }
        i = i + 1;
    }
    Ok(n)
}

impl std::str::FromStr for Decimal {
    type Err = DecimalParseError;

    fn from_str(s: &str) -> (r: Result<Decimal, DecimalParseError>)
        ensures
            r == spec_from_bytes(s.spec_bytes()),
    {
        from_str(s)
    }
}

} // verus!
