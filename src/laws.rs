use vstd::prelude::*;

use crate::decimal::{
    digits_value, lemma_digits_value_push, lemma_pow10_pos, lemma_digits_value_bound, lemma_pow10_38, is_digit, lemma_digits_value_leading_zero, lemma_pow10_mono, pow10, Decimal,
    DecimalParseError, MAX_PRECISION, MAX_SCALE, MIN_SCALE,
};
use crate::render::{digits_of, render, zeros};
use crate::parse::{
    all_ws, is_ws, lemma_digit_run_facts, lemma_digit_run_len, lemma_ws_run_len, sign_split,
    spec_from_bytes, ws_run_len, spec_parse_decimal, spec_parse_str, trim_integral, trim_trailing_zeros, spec_after_point, spec_extract_exponent, lemma_ws_run_facts, precision_of, trim_leading_zeros, SpecParts, has_nan_prefix, digit_run_len,
};

verus! {

/// Whitespace in front of a text whose first byte is not whitespace is all
/// that the trimmer takes away.
proof fn lemma_trim_prefix(w: Seq<u8>, t: Seq<u8>)
    requires
        all_ws(w),
        t.len() > 0,
        !is_ws(t[0]),
    ensures
        (w + t).skip(ws_run_len(w + t) as int) == t,
{
    lemma_ws_run_len(w + t, w.len() as int);
    assert((w + t).skip(w.len() as int) =~= t);
}

/// A text that starts with `nan`, in any case and after any whitespace, is
/// rejected as invalid.
pub proof fn law_nan_rejected(w: Seq<u8>, t: Seq<u8>)
    requires
        all_ws(w),
        has_nan_prefix(t),
    ensures
        spec_from_bytes(w + t) == Err::<Decimal, DecimalParseError>(DecimalParseError::Invalid),
{
    lemma_trim_prefix(w, t);
}

/// Whitespace between a sign and the digits makes the text invalid, whatever
/// follows.
pub proof fn law_space_after_sign(w: Seq<u8>, sign: u8, gap: Seq<u8>, t: Seq<u8>)
    requires
        all_ws(w),
        sign == 43 || sign == 45,
        gap.len() > 0,
        all_ws(gap),
    ensures
        spec_from_bytes(w + seq![sign] + gap + t) == Err::<Decimal, DecimalParseError>(
            DecimalParseError::Invalid,
        ),
{
    let u = seq![sign] + gap + t;
    assert(w + seq![sign] + gap + t =~= w + u);
    lemma_trim_prefix(w, u);
    assert(u.drop_first() =~= gap + t);
    assert(is_ws((gap + t)[0]));
    lemma_digit_run_len(gap + t, 0);
    assert((gap + t).skip(0) =~= gap + t);
}

/// A run of digits without leading zeros (or the lone digit `0`), after an
/// optional sign, parses exactly when it has at most `MAX_PRECISION` digits, to
/// its own value at scale zero; a longer run overflows.
pub proof fn law_precision_boundary(sign: Seq<u8>, t: Seq<u8>)
    requires
        sign.len() <= 1,
        sign.len() == 1 ==> sign[0] == 43 || sign[0] == 45,
        t.len() > 0,
        t[0] != 48 || t.len() == 1,
        forall|i: int| 0 <= i < t.len() ==> is_digit(#[trigger] t[i]),
    ensures
        t.len() <= MAX_PRECISION ==> spec_from_bytes(sign + t) == Ok::<Decimal, DecimalParseError>(
            Decimal {
                int_val: digits_value(t) as u128,
                scale: 0,
                negative: sign.len() == 1 && sign[0] == 45 && digits_value(t) != 0,
            },
        ),
        t.len() > MAX_PRECISION ==> spec_from_bytes(sign + t) == Err::<Decimal, DecimalParseError>(
            DecimalParseError::Overflow,
        ),
{
    let a = sign + t;
    if sign.len() == 0 {
        assert(a =~= t);
    }
    lemma_trim_prefix(Seq::empty(), a);
    assert(Seq::<u8>::empty() + a =~= a);
    assert(sign_split(a).1 =~= t);
    lemma_digit_run_len(t, t.len() as int);
    assert(t.take(t.len() as int) =~= t);
    assert(t.skip(t.len() as int) =~= Seq::<u8>::empty());
    assert(t + Seq::<u8>::empty() =~= t);
    assert(all_ws(Seq::<u8>::empty()));
    if t =~= seq![48u8] {
        assert(t.drop_last() =~= Seq::<u8>::empty());
        assert(t.last() == 48);
        assert(digits_value(Seq::<u8>::empty()) == 0);
        assert(digits_value(t) == 0);
    } else {
        assert(trim_integral(t) == t);
    }
}

/// Two texts whose grammar reading agrees, with no whitespace or `nan` in front,
/// have the same value.
proof fn lemma_same_reading(a: Seq<u8>, b: Seq<u8>)
    requires
        a.len() > 0,
        b.len() > 0,
        !is_ws(a[0]),
        !is_ws(b[0]),
        !has_nan_prefix(a),
        !has_nan_prefix(b),
        spec_parse_decimal(a) == spec_parse_decimal(b),
    ensures
        spec_from_bytes(a) == spec_from_bytes(b),
{
    lemma_trim_prefix(Seq::empty(), a);
    assert(Seq::<u8>::empty() + a =~= a);
    lemma_trim_prefix(Seq::empty(), b);
    assert(Seq::<u8>::empty() + b =~= b);
    assert(spec_parse_str(a) == spec_parse_str(b));
}

/// A zero in front of a run of digits lengthens the run by one and leaves its
/// digits, once leading zeros are dropped, as they were.
proof fn lemma_integral_prefix_zero(t: Seq<u8>)
    requires
        t.len() > 0,
        is_digit(t[0]),
    ensures
        digit_run_len(seq![48u8] + t) == digit_run_len(t) + 1,
        trim_integral((seq![48u8] + t).take(digit_run_len(t) + 1int)) == trim_integral(
            t.take(digit_run_len(t) as int),
        ),
        (seq![48u8] + t).skip(digit_run_len(t) + 1int) == t.skip(digit_run_len(t) as int),
        digit_run_len(t) > 0,
{
    let za = seq![48u8] + t;
    lemma_digit_run_facts(t);
    let n = digit_run_len(t) as int;
    if n == 0 {
        assert(is_digit(t[0]));
    }
    assert forall|k: int| 0 <= k < n + 1 implies is_digit(#[trigger] za[k]) by {
        if k > 0 {
            assert(za[k] == t[k - 1]);
        }
    }
    if n < t.len() {
        assert(za[n + 1] == t[n]);
    }
    lemma_digit_run_len(za, n + 1);
    assert(za.take(n + 1) =~= seq![48u8] + t.take(n));
    assert((seq![48u8] + t.take(n)).drop_first() =~= t.take(n));
    assert(za.skip(n + 1) =~= t.skip(n));
}

/// One zero in front of the digits, after the sign, leaves the grammar's
/// reading as it was.
proof fn lemma_parse_decimal_one_leading_zero(sign: Seq<u8>, t: Seq<u8>)
    requires
        sign.len() <= 1,
        sign.len() == 1 ==> sign[0] == 43 || sign[0] == 45,
        t.len() > 0,
        is_digit(t[0]),
    ensures
        spec_parse_decimal(sign + seq![48u8] + t) == spec_parse_decimal(sign + t),
{
    let a = sign + seq![48u8] + t;
    let b = sign + t;
    let za = seq![48u8] + t;
    assert(a =~= sign + za);
    assert(sign_split(a).1 =~= za);
    assert(sign_split(b).1 =~= t);
    assert(sign_split(a).0 == sign_split(b).0);
    lemma_integral_prefix_zero(t);
}

/// Leading zeros in front of the digits, after the sign, leave the grammar's
/// reading (sign, integral and fractional digits, exponent and the text left
/// over) as it was: the integral digits come out without them.
pub proof fn law_parse_decimal_leading_zeros(sign: Seq<u8>, k: nat, t: Seq<u8>)
    requires
        sign.len() <= 1,
        sign.len() == 1 ==> sign[0] == 43 || sign[0] == 45,
        t.len() > 0,
        is_digit(t[0]),
    ensures
        spec_parse_decimal(sign + zeros(k) + t) == spec_parse_decimal(sign + t),
    decreases k,
{
    if k == 0 {
        assert(sign + zeros(0) + t =~= sign + t);
    } else {
        let u = zeros((k - 1) as nat) + t;
        assert(sign + zeros(k) + t =~= sign + seq![48u8] + u);
        assert(is_digit(u[0])) by {
            if k > 1 {
                assert(u[0] == 48);
            } else {
                assert(u[0] == t[0]);
            }
        }
        lemma_parse_decimal_one_leading_zero(sign, u);
        law_parse_decimal_leading_zeros(sign, (k - 1) as nat, t);
        assert(sign + zeros((k - 1) as nat) + t =~= sign + u);
    }
}

/// Leading zeros in front of the digits change nothing.
pub proof fn law_leading_zero(sign: Seq<u8>, k: nat, t: Seq<u8>)
    requires
        sign.len() <= 1,
        sign.len() == 1 ==> sign[0] == 43 || sign[0] == 45,
        t.len() > 0,
        is_digit(t[0]),
    ensures
        spec_from_bytes(sign + zeros(k) + t) == spec_from_bytes(sign + t),
{
    let a = sign + zeros(k) + t;
    let b = sign + t;
    law_parse_decimal_leading_zeros(sign, k, t);
    if sign.len() == 0 {
        assert(b[0] == t[0]);
        if k > 0 {
            assert(a[0] == 48);
        } else {
            assert(a[0] == t[0]);
        }
    } else {
        assert(a[0] == sign[0]);
        assert(b[0] == sign[0]);
    }
    lemma_same_reading(a, b);
}

/// Dropping leading zeros from the integral digits never empties them.
proof fn lemma_trim_integral_len(r: Seq<u8>)
    ensures
        trim_integral(r).len() == 0 <==> r.len() == 0,
    decreases r.len(),
{
    if r.len() > 1 && r[0] == 48 {
        lemma_trim_integral_len(r.drop_first());
    }
}

/// After the point, one more trailing zero in the fraction changes nothing.
proof fn lemma_after_point_trailing_zero(
    negative: bool,
    integral: Seq<u8>,
    frac: Seq<u8>,
    rest: Seq<u8>,
)
    requires
        forall|i: int| 0 <= i < frac.len() ==> is_digit(#[trigger] frac[i]),
        rest.len() == 0 || !is_digit(rest[0]),
        integral.len() > 0 || frac.len() > 0,
    ensures
        spec_after_point(negative, integral, frac + seq![48u8] + rest) == spec_after_point(
            negative,
            integral,
            frac + rest,
        ),
{
    let fa = frac + seq![48u8] + rest;
    let fb = frac + rest;
    let m = frac.len() as int;
    assert forall|k: int| 0 <= k < m + 1 implies is_digit(#[trigger] fa[k]) by {
        if k < m {
            assert(fa[k] == frac[k]);
        }
    }
    assert forall|k: int| 0 <= k < m implies is_digit(#[trigger] fb[k]) by {
        assert(fb[k] == frac[k]);
    }
    if rest.len() > 0 {
        assert(fa[m + 1] == rest[0]);
        assert(fb[m] == rest[0]);
    }
    lemma_digit_run_len(fa, m + 1);
    lemma_digit_run_len(fb, m);
    assert(fa.take(m + 1) =~= frac.push(48u8));
    assert(frac.push(48u8).drop_last() =~= frac);
    assert(frac.push(48u8).last() == 48u8);
    assert(fb.take(m) =~= frac);
    assert(trim_trailing_zeros(fa.take(m + 1)) == trim_trailing_zeros(fb.take(m)));
    assert(fa.skip(m + 1) =~= rest);
    assert(fb.skip(m) =~= rest);
}

/// How the grammar reads a literal whose integral digits are followed by a point.
proof fn lemma_point_reading(sign: Seq<u8>, int_digits: Seq<u8>, tail: Seq<u8>)
    requires
        sign.len() <= 1,
        sign.len() == 1 ==> sign[0] == 43 || sign[0] == 45,
        forall|i: int| 0 <= i < int_digits.len() ==> is_digit(#[trigger] int_digits[i]),
    ensures
        spec_parse_decimal(sign + int_digits + seq![46u8] + tail) == spec_after_point(
            sign.len() == 1 && sign[0] == 45,
            trim_integral(int_digits),
            tail,
        ),
        !is_ws((sign + int_digits + seq![46u8] + tail)[0]),
        !has_nan_prefix(sign + int_digits + seq![46u8] + tail),
        (sign + int_digits + seq![46u8] + tail).len() > 0,
{
    let a = sign + int_digits + seq![46u8] + tail;
    let x = int_digits + seq![46u8] + tail;
    assert(a =~= sign + x);
    if sign.len() == 0 {
        assert(a[0] == x[0]);
    }
    assert(sign_split(a).1 =~= x);
    let n = int_digits.len() as int;
    assert(x[n] == 46);
    assert forall|k: int| 0 <= k < n implies is_digit(#[trigger] x[k]) by {
        assert(x[k] == int_digits[k]);
    }
    lemma_digit_run_len(x, n);
    assert(x.take(n) =~= int_digits);
    assert(x.skip(n).drop_first() =~= tail);
    lemma_trim_integral_len(int_digits);
}

/// One more trailing zero after the fractional digits leaves the grammar's
/// reading (sign, integral and fractional digits, exponent and the text left
/// over) as it was: the fractional digits come out without it.
pub proof fn law_parse_decimal_trailing_zero(
    sign: Seq<u8>,
    int_digits: Seq<u8>,
    frac: Seq<u8>,
    rest: Seq<u8>,
)
    requires
        sign.len() <= 1,
        sign.len() == 1 ==> sign[0] == 43 || sign[0] == 45,
        forall|i: int| 0 <= i < int_digits.len() ==> is_digit(#[trigger] int_digits[i]),
        forall|i: int| 0 <= i < frac.len() ==> is_digit(#[trigger] frac[i]),
        rest.len() == 0 || !is_digit(rest[0]),
        int_digits.len() > 0 || frac.len() > 0,
    ensures
        spec_parse_decimal(sign + int_digits + seq![46u8] + frac + seq![48u8] + rest)
            == spec_parse_decimal(sign + int_digits + seq![46u8] + frac + rest),
{
    let a = sign + int_digits + seq![46u8] + frac + seq![48u8] + rest;
    let b = sign + int_digits + seq![46u8] + frac + rest;
    assert(a =~= sign + int_digits + seq![46u8] + (frac + seq![48u8] + rest));
    assert(b =~= sign + int_digits + seq![46u8] + (frac + rest));
    lemma_point_reading(sign, int_digits, frac + seq![48u8] + rest);
    lemma_point_reading(sign, int_digits, frac + rest);
    lemma_trim_integral_len(int_digits);
    lemma_after_point_trailing_zero(
        sign.len() == 1 && sign[0] == 45,
        trim_integral(int_digits),
        frac,
        rest,
    );
}

/// One more trailing zero after the fractional digits changes nothing.
pub proof fn law_trailing_zero(sign: Seq<u8>, int_digits: Seq<u8>, frac: Seq<u8>, rest: Seq<u8>)
    requires
        sign.len() <= 1,
        sign.len() == 1 ==> sign[0] == 43 || sign[0] == 45,
        forall|i: int| 0 <= i < int_digits.len() ==> is_digit(#[trigger] int_digits[i]),
        forall|i: int| 0 <= i < frac.len() ==> is_digit(#[trigger] frac[i]),
        rest.len() == 0 || !is_digit(rest[0]),
        int_digits.len() > 0 || frac.len() > 0,
    ensures
        spec_from_bytes(sign + int_digits + seq![46u8] + frac + seq![48u8] + rest)
            == spec_from_bytes(sign + int_digits + seq![46u8] + frac + rest),
{
    let a = sign + int_digits + seq![46u8] + frac + seq![48u8] + rest;
    let b = sign + int_digits + seq![46u8] + frac + rest;
    assert(a =~= sign + int_digits + seq![46u8] + (frac + seq![48u8] + rest));
    assert(b =~= sign + int_digits + seq![46u8] + (frac + rest));
    lemma_point_reading(sign, int_digits, frac + seq![48u8] + rest);
    lemma_point_reading(sign, int_digits, frac + rest);
    law_parse_decimal_trailing_zero(sign, int_digits, frac, rest);
    lemma_same_reading(a, b);
}

/// A parse result with `w` appended to the text left over.
pub open spec fn with_suffix<T>(r: Result<(T, Seq<u8>), DecimalParseError>, w: Seq<u8>) -> Result<
    (T, Seq<u8>),
    DecimalParseError,
> {
    match r {
        Ok((v, rest)) => Ok((v, rest + w)),
        Err(e) => Err(e),
    }
}

proof fn lemma_digit_run_append_ws(y: Seq<u8>, w: Seq<u8>)
    requires
        all_ws(w),
    ensures
        digit_run_len(y + w) == digit_run_len(y),
        (y + w).take(digit_run_len(y) as int) == y.take(digit_run_len(y) as int),
        (y + w).skip(digit_run_len(y) as int) == y.skip(digit_run_len(y) as int) + w,
{
    lemma_digit_run_facts(y);
    let n = digit_run_len(y) as int;
    let x = y + w;
    assert forall|k: int| 0 <= k < n implies is_digit(#[trigger] x[k]) by {
        assert(x[k] == y[k]);
    }
    if n == y.len() && w.len() > 0 {
        assert(x[n] == w[0]);
        assert(is_ws(w[0]));
    }
    if n < y.len() {
        assert(x[n] == y[n]);
    }
    lemma_digit_run_len(x, n);
    assert(x.take(n) =~= y.take(n));
    assert(x.skip(n) =~= y.skip(n) + w);
}

proof fn lemma_sign_split_append_ws(z: Seq<u8>, w: Seq<u8>)
    requires
        all_ws(w),
    ensures
        sign_split(z + w).0 == sign_split(z).0,
        sign_split(z + w).1 == sign_split(z).1 + w,
{
    if z.len() > 0 {
        assert((z + w)[0] == z[0]);
        assert((z + w).drop_first() =~= z.drop_first() + w);
    } else {
        assert(z + w =~= w);
        if w.len() > 0 {
            assert(is_ws(w[0]));
        }
        assert(sign_split(z).1 + w =~= w);
    }
}

proof fn lemma_exponent_append_ws(z: Seq<u8>, w: Seq<u8>)
    requires
        all_ws(w),
    ensures
        spec_extract_exponent(z + w) == with_suffix(spec_extract_exponent(z), w),
{
    lemma_sign_split_append_ws(z, w);
    lemma_digit_run_append_ws(sign_split(z).1, w);
}

/// Appending whitespace keeps the first byte of a nonempty text; on an empty
/// text the first byte is whitespace, so neither a marker nor a point.
proof fn lemma_first_after_append(y: Seq<u8>, w: Seq<u8>)
    requires
        all_ws(w),
    ensures
        y.len() > 0 ==> (y + w)[0] == y[0] && (y + w).drop_first() == y.drop_first() + w,
        y.len() == 0 && w.len() > 0 ==> is_ws((y + w)[0]),
        y.len() == 0 ==> y + w == w,
{
    if y.len() > 0 {
        assert((y + w).drop_first() =~= y.drop_first() + w);
    } else {
        assert(y + w =~= w);
        if w.len() > 0 {
            assert(is_ws(w[0]));
        }
    }
}

proof fn lemma_after_point_append_ws(negative: bool, integral: Seq<u8>, z: Seq<u8>, w: Seq<u8>)
    requires
        all_ws(w),
    ensures
        spec_after_point(negative, integral, z + w) == with_suffix(
            spec_after_point(negative, integral, z),
            w,
        ),
{
    lemma_digit_run_append_ws(z, w);
    let rest = z.skip(digit_run_len(z) as int);
    lemma_first_after_append(rest, w);
    if rest.len() > 0 {
        lemma_exponent_append_ws(rest.drop_first(), w);
    }
}

proof fn lemma_parse_decimal_append_ws(x: Seq<u8>, w: Seq<u8>)
    requires
        all_ws(w),
    ensures
        spec_parse_decimal(x + w) == with_suffix(spec_parse_decimal(x), w),
{
    lemma_sign_split_append_ws(x, w);
    let s1 = sign_split(x).1;
    lemma_digit_run_append_ws(s1, w);
    let s2 = s1.skip(digit_run_len(s1) as int);
    lemma_first_after_append(s2, w);
    lemma_first_after_append(s1, w);
    if s1.len() == 0 && w.len() > 0 {
        lemma_digit_run_len(w, 0);
        assert(w.skip(0) =~= w);
    }
    if s2.len() > 0 {
        lemma_exponent_append_ws(s2.drop_first(), w);
        lemma_after_point_append_ws(
            sign_split(x).0,
            trim_integral(s1.take(digit_run_len(s1) as int)),
            s2.drop_first(),
            w,
        );
    }
}

proof fn lemma_parse_str_append_ws(x: Seq<u8>, w: Seq<u8>)
    requires
        all_ws(w),
    ensures
        spec_parse_str(x + w) == with_suffix(spec_parse_str(x), w),
{
    lemma_parse_decimal_append_ws(x, w);
}

/// Any ASCII whitespace before and after a text changes nothing.
pub proof fn law_surrounding_whitespace(w1: Seq<u8>, t: Seq<u8>, w2: Seq<u8>)
    requires
        all_ws(w1),
        all_ws(w2),
    ensures
        spec_from_bytes(w1 + t + w2) == spec_from_bytes(t),
{
    let a = w1 + t + w2;
    lemma_ws_run_facts(t);
    let k = ws_run_len(t) as int;
    if k == t.len() {
        assert forall|i: int| 0 <= i < a.len() implies is_ws(#[trigger] a[i]) by {
            if i < w1.len() {
                assert(a[i] == w1[i]);
            } else if i < w1.len() + t.len() {
                assert(a[i] == t[i - w1.len()]);
            } else {
                assert(a[i] == w2[i - w1.len() - t.len()]);
            }
        }
        lemma_ws_run_len(a, a.len() as int);
        assert(t.skip(k).len() == 0);
    } else {
        let u = t.skip(k);
        assert forall|i: int| 0 <= i < w1.len() + k implies is_ws(#[trigger] a[i]) by {
            if i < w1.len() {
                assert(a[i] == w1[i]);
            } else {
                assert(a[i] == t[i - w1.len()]);
            }
        }
        assert(a[w1.len() + k] == t[k]);
        lemma_ws_run_len(a, w1.len() + k);
        assert(a.skip(w1.len() + k) =~= u + w2);
        assert(has_nan_prefix(u + w2) == has_nan_prefix(u)) by {
            if u.len() < 3 && (u + w2).len() >= 3 {
                assert(is_ws((u + w2)[u.len() as int]));
            }
            if u.len() >= 3 {
                assert((u + w2)[0] == u[0] && (u + w2)[1] == u[1] && (u + w2)[2] == u[2]);
            }
        }
        lemma_parse_str_append_ws(u, w2);
        match spec_parse_str(u) {
            Ok((d, rest)) => {
                assert(all_ws(rest + w2) == all_ws(rest)) by {
                    if all_ws(rest) {
                        assert forall|i: int| 0 <= i < (rest + w2).len() implies is_ws(
                            #[trigger] (rest + w2)[i],
                        ) by {
                            if i >= rest.len() {
                                assert((rest + w2)[i] == w2[i - rest.len()]);
                            }
                        }
                    } else {
                        let i = choose|i: int| 0 <= i < rest.len() && !is_ws(#[trigger] rest[i]);
                        assert((rest + w2)[i] == rest[i]);
                    }
                }
            },
            Err(_) => {},
        }
    }
}

proof fn lemma_trim_leading_zeros(r: Seq<u8>)
    requires
        forall|i: int| 0 <= i < r.len() ==> is_digit(#[trigger] r[i]),
    ensures
        digits_value(trim_leading_zeros(r)) == digits_value(r),
        forall|i: int|
            0 <= i < trim_leading_zeros(r).len() ==> is_digit(#[trigger] trim_leading_zeros(r)[i]),
        trim_leading_zeros(r).len() > 0 ==> trim_leading_zeros(r)[0] != 48,
    decreases r.len(),
{
    if r.len() > 0 && r[0] == 48 {
        let t = r.drop_first();
        assert forall|i: int| 0 <= i < t.len() implies is_digit(#[trigger] t[i]) by {
            assert(t[i] == r[i + 1]);
        }
        lemma_trim_leading_zeros(t);
        assert(r =~= seq![48u8] + t);
        lemma_digits_value_leading_zero(t);
    }
}

/// A run of digits that does not start with zero is at least `10^(len - 1)`.
proof fn lemma_digits_value_lower(r: Seq<u8>)
    requires
        r.len() > 0,
        r[0] != 48,
        forall|i: int| 0 <= i < r.len() ==> is_digit(#[trigger] r[i]),
    ensures
        digits_value(r) >= pow10((r.len() - 1) as nat),
    decreases r.len(),
{
    if r.len() > 1 {
        let t = r.drop_last();
        assert forall|i: int| 0 <= i < t.len() implies is_digit(#[trigger] t[i]) by {
            assert(t[i] == r[i]);
        }
        lemma_digits_value_lower(t);
    } else {
        assert(r.drop_last() =~= Seq::<u8>::empty());
    }
}

/// The digits before a point or marker, when the first one is not zero.
proof fn lemma_trim_integral_nonzero(r: Seq<u8>)
    requires
        r.len() > 0,
        r[0] != 48,
    ensures
        trim_integral(r) == r,
{
}

/// How the grammar reads an exponent given as an optional sign and a digit run.
proof fn lemma_exponent_reading(exp_sign: Seq<u8>, k: Seq<u8>)
    requires
        exp_sign.len() <= 1,
        exp_sign.len() == 1 ==> exp_sign[0] == 43 || exp_sign[0] == 45,
        k.len() > 0,
        forall|i: int| 0 <= i < k.len() ==> is_digit(#[trigger] k[i]),
    ensures
        ({
            let v = digits_value(k) as int;
            let e = if exp_sign.len() == 1 && exp_sign[0] == 45 { -v } else { v };
            &&& (-MAX_SCALE <= e <= -MIN_SCALE) ==> spec_extract_exponent(exp_sign + k) == Ok::<
                (int, Seq<u8>),
                DecimalParseError,
            >((e, Seq::<u8>::empty()))
            &&& !(-MAX_SCALE <= e <= -MIN_SCALE) ==> spec_extract_exponent(exp_sign + k) == Err::<
                (int, Seq<u8>),
                DecimalParseError,
            >(DecimalParseError::Overflow)
        }),
{
    let z = exp_sign + k;
    if exp_sign.len() == 0 {
        assert(z =~= k);
        assert(z[0] == k[0]);
    } else {
        assert(z.drop_first() =~= k);
    }
    assert(sign_split(z).1 == k);
    lemma_digit_run_len(k, k.len() as int);
    assert(k.take(k.len() as int) =~= k);
    assert(k.skip(k.len() as int) =~= Seq::<u8>::empty());
    lemma_trim_leading_zeros(k);
    let number = trim_leading_zeros(k);
    if number.len() > 3 {
        lemma_digits_value_lower(number);
        lemma_pow10_mono(3, (number.len() - 1) as nat);
        reveal_with_fuel(pow10, 4);
    }
}

/// What the grammar reads from a literal in scientific notation.
pub open spec fn scientific_parts(
    sign: Seq<u8>,
    int_digits: Seq<u8>,
    frac: Seq<u8>,
    tail: Seq<u8>,
) -> Result<(SpecParts, Seq<u8>), DecimalParseError> {
    match spec_extract_exponent(tail) {
        Ok((exp, rest)) => Ok(
            (
                SpecParts {
                    negative: sign.len() == 1 && sign[0] == 45,
                    integral: int_digits,
                    fractional: frac,
                    exp,
                },
                rest,
            ),
        ),
        Err(e) => Err(e),
    }
}

/// How the grammar reads `sign digits . fraction e exponent`.
#[verifier::rlimit(40)]
proof fn lemma_scientific_point(
    sign: Seq<u8>,
    int_digits: Seq<u8>,
    frac: Seq<u8>,
    marker: u8,
    tail: Seq<u8>,
)
    requires
        sign.len() <= 1,
        sign.len() == 1 ==> sign[0] == 43 || sign[0] == 45,
        int_digits.len() > 0,
        int_digits[0] != 48,
        forall|i: int| 0 <= i < int_digits.len() ==> is_digit(#[trigger] int_digits[i]),
        forall|i: int| 0 <= i < frac.len() ==> is_digit(#[trigger] frac[i]),
        frac.len() > 0 ==> frac.last() != 48,
        marker == 101 || marker == 69,
    ensures
        ({
            let text = sign + int_digits + seq![46u8] + (frac + seq![marker] + tail);
            &&& text.len() > 0
            &&& !is_ws(text[0])
            &&& !has_nan_prefix(text)
            &&& spec_parse_decimal(text) == scientific_parts(sign, int_digits, frac, tail)
        }),
{
    lemma_trim_integral_nonzero(int_digits);
    let after = frac + seq![marker] + tail;
    lemma_point_reading(sign, int_digits, after);
    let m = frac.len() as int;
    assert forall|i: int| 0 <= i < m implies is_digit(#[trigger] after[i]) by {
        assert(after[i] == frac[i]);
    }
    assert(after[m] == marker);
    lemma_digit_run_len(after, m);
    assert(after.take(m) =~= frac);
    assert(after.skip(m) =~= seq![marker] + tail);
    assert((seq![marker] + tail).drop_first() =~= tail);
    assert(trim_trailing_zeros(frac) == frac);
}

/// How the grammar reads `sign digits e exponent`.
#[verifier::rlimit(40)]
proof fn lemma_scientific_plain(sign: Seq<u8>, int_digits: Seq<u8>, marker: u8, tail: Seq<u8>)
    requires
        sign.len() <= 1,
        sign.len() == 1 ==> sign[0] == 43 || sign[0] == 45,
        int_digits.len() > 0,
        int_digits[0] != 48,
        forall|i: int| 0 <= i < int_digits.len() ==> is_digit(#[trigger] int_digits[i]),
        marker == 101 || marker == 69,
    ensures
        ({
            let text = sign + (int_digits + seq![marker] + tail);
            &&& text.len() > 0
            &&& !is_ws(text[0])
            &&& !has_nan_prefix(text)
            &&& spec_parse_decimal(text) == scientific_parts(
                sign,
                int_digits,
                Seq::empty(),
                tail,
            )
        }),
{
    lemma_trim_integral_nonzero(int_digits);
    let x = int_digits + seq![marker] + tail;
    let text = sign + x;
    if sign.len() == 0 {
        assert(text[0] == x[0]);
    }
    assert(sign_split(text).1 =~= x);
    let n = int_digits.len() as int;
    assert forall|i: int| 0 <= i < n implies is_digit(#[trigger] x[i]) by {
        assert(x[i] == int_digits[i]);
    }
    assert(x[n] == marker);
    lemma_digit_run_len(x, n);
    assert(x.take(n) =~= int_digits);
    assert(x.skip(n).drop_first() =~= tail);
}

/// Scale bounds on scientific notation: with `f` fractional digits and an
/// exponent `e`, the scale is `f - e`. A scale outside the bounds overflows; a
/// scale inside them parses to that scale, as long as the exponent itself is at
/// most `-MIN_SCALE`.
#[verifier::rlimit(80)]
pub proof fn law_scale_boundary(
    sign: Seq<u8>,
    int_digits: Seq<u8>,
    point: bool,
    frac: Seq<u8>,
    marker: u8,
    exp_sign: Seq<u8>,
    exp_digits: Seq<u8>,
)
    requires
        sign.len() <= 1,
        sign.len() == 1 ==> sign[0] == 43 || sign[0] == 45,
        int_digits.len() > 0,
        int_digits[0] != 48,
        forall|i: int| 0 <= i < int_digits.len() ==> is_digit(#[trigger] int_digits[i]),
        forall|i: int| 0 <= i < frac.len() ==> is_digit(#[trigger] frac[i]),
        frac.len() > 0 ==> frac.last() != 48,
        !point ==> frac.len() == 0,
        int_digits.len() + frac.len() <= MAX_PRECISION,
        marker == 101 || marker == 69,
        exp_sign.len() <= 1,
        exp_sign.len() == 1 ==> exp_sign[0] == 43 || exp_sign[0] == 45,
        exp_digits.len() > 0,
        forall|i: int| 0 <= i < exp_digits.len() ==> is_digit(#[trigger] exp_digits[i]),
    ensures
        ({
            let text = sign + int_digits + (if point { seq![46u8] + frac } else { Seq::empty() })
                + seq![marker] + exp_sign + exp_digits;
            let v = digits_value(exp_digits) as int;
            let e = if exp_sign.len() == 1 && exp_sign[0] == 45 { -v } else { v };
            let scale = frac.len() - e;
            &&& (MIN_SCALE <= scale <= MAX_SCALE && e <= -MIN_SCALE) ==> (spec_from_bytes(
                text,
            ) is Ok && spec_from_bytes(text)->Ok_0.scale == scale)
            &&& !(MIN_SCALE <= scale <= MAX_SCALE) ==> spec_from_bytes(text) == Err::<
                Decimal,
                DecimalParseError,
            >(DecimalParseError::Overflow)
        }),
{
    let text = sign + int_digits + (if point { seq![46u8] + frac } else { Seq::empty() })
        + seq![marker] + exp_sign + exp_digits;
    let tail = exp_sign + exp_digits;
    if point {
        assert(text =~= sign + int_digits + seq![46u8] + (frac + seq![marker] + tail));
        lemma_scientific_point(sign, int_digits, frac, marker, tail);
    } else {
        assert(text =~= sign + (int_digits + seq![marker] + tail));
        assert(frac =~= Seq::<u8>::empty());
        lemma_scientific_plain(sign, int_digits, marker, tail);
    }
    lemma_exponent_reading(exp_sign, exp_digits);
    let v = digits_value(exp_digits) as int;
    let e = if exp_sign.len() == 1 && exp_sign[0] == 45 { -v } else { v };
    let p = SpecParts {
        negative: sign.len() == 1 && sign[0] == 45,
        integral: int_digits,
        fractional: frac,
        exp: e,
    };
    if -MAX_SCALE <= e <= -MIN_SCALE {
        assert(scientific_parts(sign, int_digits, frac, tail) == Ok::<
            (SpecParts, Seq<u8>),
            DecimalParseError,
        >((p, Seq::<u8>::empty())));
        lemma_value_of_parts(text, p);
    } else {
        assert(scientific_parts(sign, int_digits, frac, tail) == Err::<
            (SpecParts, Seq<u8>),
            DecimalParseError,
        >(DecimalParseError::Overflow));
        lemma_error_of_text(text);
    }
}

/// A text whose grammar reading fails, and that has no whitespace or `nan` in
/// front, fails with the same error.
proof fn lemma_error_of_text(text: Seq<u8>)
    requires
        text.len() > 0,
        !is_ws(text[0]),
        !has_nan_prefix(text),
        spec_parse_decimal(text) is Err,
    ensures
        spec_from_bytes(text) == Err::<Decimal, DecimalParseError>(spec_parse_decimal(text)->Err_0),
{
    lemma_trim_prefix(Seq::empty(), text);
    assert(Seq::<u8>::empty() + text =~= text);
}

/// The value of a whole text that the grammar reads as `p` with nothing left.
proof fn lemma_value_of_parts(text: Seq<u8>, p: SpecParts)
    requires
        text.len() > 0,
        !is_ws(text[0]),
        !has_nan_prefix(text),
        spec_parse_decimal(text) == Ok::<(SpecParts, Seq<u8>), DecimalParseError>(
            (p, Seq::<u8>::empty()),
        ),
        p.integral.len() > 0,
        p.integral[0] != 48,
        p.integral.len() + p.fractional.len() <= MAX_PRECISION,
    ensures
        MIN_SCALE <= p.fractional.len() - p.exp <= MAX_SCALE ==> (spec_from_bytes(text) is Ok
            && spec_from_bytes(text)->Ok_0.scale == p.fractional.len() - p.exp),
        !(MIN_SCALE <= p.fractional.len() - p.exp <= MAX_SCALE) ==> spec_from_bytes(text)
            == Err::<Decimal, DecimalParseError>(DecimalParseError::Overflow),
{
    lemma_trim_prefix(Seq::empty(), text);
    assert(Seq::<u8>::empty() + text =~= text);
    assert(p.integral != seq![48u8]) by {
        if p.integral =~= seq![48u8] {
            assert(p.integral[0] == 48);
        }
    }
    assert(all_ws(Seq::<u8>::empty()));
}

proof fn lemma_digits_of(m: nat)
    ensures
        digits_of(m).len() >= 1,
        forall|i: int| 0 <= i < digits_of(m).len() ==> is_digit(#[trigger] digits_of(m)[i]),
        digits_value(digits_of(m)) == m,
        m > 0 ==> digits_of(m)[0] != 48,
    decreases m,
{
    if m < 10 {
        let r = seq![(48 + m) as u8];
        assert(r.drop_last() =~= Seq::<u8>::empty());
        assert(r.last() == 48 + m);
        assert(digits_value(r) == digits_value(r.drop_last()) * 10 + (r.last() - 48) as nat);
    } else {
        lemma_digits_of(m / 10);
        let b = (48 + m % 10) as u8;
        assert(b == 48 + m % 10);
        lemma_digits_value_push(digits_of(m / 10), b);
        assert(digits_of(m) == digits_of(m / 10).push(b));
        assert((m / 10) * 10 + m % 10 == m);
        assert forall|i: int| 0 <= i < digits_of(m).len() implies is_digit(
            #[trigger] digits_of(m)[i],
        ) by {
            if i < digits_of(m / 10).len() {
                assert(digits_of(m)[i] == digits_of(m / 10)[i]);
            }
        }
        assert(digits_of(m)[0] == digits_of(m / 10)[0]);
    }
}

/// Without leading zeros, the digits of a value below `10^38` are at most 38.
proof fn lemma_digits_of_len(m: nat)
    requires
        0 < m < pow10(38),
    ensures
        digits_of(m).len() <= 38,
{
    lemma_digits_of(m);
    let ds = digits_of(m);
    if ds.len() > 38 {
        lemma_digits_value_lower(ds);
        lemma_pow10_mono(38, (ds.len() - 1) as nat);
    }
}

proof fn lemma_digits_value_zeros(x: Seq<u8>, k: nat)
    ensures
        digits_value(x + zeros(k)) == digits_value(x) * pow10(k),
    decreases k,
{
    if k == 0 {
        assert(x + zeros(0) =~= x);
        assert(pow10(0) == 1);
    } else {
        lemma_digits_value_zeros(x, (k - 1) as nat);
        assert(x + zeros(k) =~= (x + zeros((k - 1) as nat)).push(48u8));
        lemma_digits_value_push(x + zeros((k - 1) as nat), 48u8);
        assert(digits_value(x + zeros(k)) == digits_value(x + zeros((k - 1) as nat)) * 10);
        assert(pow10(k) == 10 * pow10((k - 1) as nat));
        assert(digits_value(x) * pow10((k - 1) as nat) * 10 == digits_value(x) * pow10(k))
            by (nonlinear_arith)
            requires
                pow10(k) == 10 * pow10((k - 1) as nat),
        ;
    }
}

proof fn lemma_digits_value_leading_zeros(k: nat, x: Seq<u8>)
    ensures
        digits_value(zeros(k) + x) == digits_value(x),
    decreases k,
{
    if k > 0 {
        assert(zeros(k) + x =~= seq![48u8] + (zeros((k - 1) as nat) + x));
        lemma_digits_value_leading_zero(zeros((k - 1) as nat) + x);
        lemma_digits_value_leading_zeros((k - 1) as nat, x);
    }
}

proof fn lemma_trim_trailing(f: Seq<u8>)
    requires
        forall|i: int| 0 <= i < f.len() ==> is_digit(#[trigger] f[i]),
    ensures
        trim_trailing_zeros(f).len() <= f.len(),
        f == trim_trailing_zeros(f) + zeros((f.len() - trim_trailing_zeros(f).len()) as nat),
        forall|i: int|
            0 <= i < trim_trailing_zeros(f).len() ==> is_digit(#[trigger] trim_trailing_zeros(f)[i]),
    decreases f.len(),
{
    let t = trim_trailing_zeros(f);
    if f.len() > 0 && f.last() == 48 {
        let g = f.drop_last();
        assert forall|i: int| 0 <= i < g.len() implies is_digit(#[trigger] g[i]) by {
            assert(g[i] == f[i]);
        }
        lemma_trim_trailing(g);
        let k = (g.len() - t.len()) as nat;
        assert(t + zeros(k + 1) =~= (t + zeros(k)).push(48u8));
        assert(f =~= g.push(48u8));
    } else {
        assert(f =~= f + zeros(0));
    }
}

/// The canonical text stays within `MAX_PRECISION` significant digits when
/// read back: a value whose plain notation needs more digits than that (one
/// with many implied trailing zeros, or many zeros after the point) does not.
pub open spec fn renders_within_precision(d: Decimal) -> bool {
    let ds = digits_of(d.int_val as nat);
    let s = d.scale as int;
    if d.int_val == 0 {
        true
    } else if s <= 0 {
        ds.len() - s <= MAX_PRECISION
    } else if ds.len() > s {
        true
    } else {
        trim_trailing_zeros(zeros((s - ds.len()) as nat) + ds).len() <= MAX_PRECISION
    }
}

/// A text with no whitespace or `nan` in front has the value that the grammar
/// gives it, when nothing is left after the literal.
proof fn lemma_text_value(text: Seq<u8>)
    requires
        text.len() > 0,
        !is_ws(text[0]),
        !has_nan_prefix(text),
        spec_parse_str(text) is Ok,
        spec_parse_str(text)->Ok_0.1 == Seq::<u8>::empty(),
    ensures
        spec_from_bytes(text) == Ok::<Decimal, DecimalParseError>(spec_parse_str(text)->Ok_0.0),
{
    lemma_trim_prefix(Seq::empty(), text);
    assert(Seq::<u8>::empty() + text =~= text);
    assert(all_ws(Seq::<u8>::empty()));
}

/// The parts of the canonical text of a value with a positive scale: the
/// digits before the point and those after it.
pub open spec fn fraction_split(d: Decimal) -> (Seq<u8>, Seq<u8>) {
    let ds = digits_of(d.int_val as nat);
    let s = d.scale as int;
    if ds.len() > s {
        (ds.take(ds.len() - s), ds.skip(ds.len() - s))
    } else {
        (seq![48u8], zeros((s - ds.len()) as nat) + ds)
    }
}

/// The digits on both sides of the point, together, are the value's digits.
#[verifier::rlimit(40)]
proof fn lemma_fraction_split(d: Decimal)
    requires
        d.wf(),
        d.int_val != 0,
        d.scale > 0,
    ensures
        ({
            let (ip, f) = fraction_split(d);
            &&& render(d) == (if d.negative { seq![45u8] } else { Seq::<u8>::empty() }) + ip
                + seq![46u8] + f
            &&& digits_value(ip + f) == d.int_val
            &&& forall|i: int| 0 <= i < ip.len() ==> is_digit(#[trigger] ip[i])
            &&& forall|i: int| 0 <= i < f.len() ==> is_digit(#[trigger] f[i])
            &&& trim_integral(ip) == ip
            &&& ip.len() > 0
            &&& digits_of(d.int_val as nat).len() > d.scale ==> ip.len() + f.len() <= 38 && ip
                != seq![48u8]
            &&& digits_of(d.int_val as nat).len() <= d.scale ==> ip == seq![48u8] && f == zeros(
                (d.scale - digits_of(d.int_val as nat).len()) as nat,
            ) + digits_of(d.int_val as nat)
            &&& f.len() == d.scale
        }),
{
    let m = d.int_val as nat;
    let ds = digits_of(m);
    let s = d.scale as int;
    lemma_digits_of(m);
    lemma_digits_of_len(m);
    let sign = if d.negative { seq![45u8] } else { Seq::<u8>::empty() };
    let (ip, f) = fraction_split(d);
    assert(render(d) =~= sign + ip + seq![46u8] + f);
    if ds.len() <= s {
        assert(ip + f =~= seq![48u8] + (zeros((s - ds.len()) as nat) + ds));
        lemma_digits_value_leading_zero(zeros((s - ds.len()) as nat) + ds);
        lemma_digits_value_leading_zeros((s - ds.len()) as nat, ds);
    } else {
        assert(ip + f =~= ds);
    }
    assert forall|i: int| 0 <= i < ip.len() implies is_digit(#[trigger] ip[i]) by {
        if ds.len() > s {
            assert(ip[i] == ds[i]);
        }
    }
    assert forall|i: int| 0 <= i < f.len() implies is_digit(#[trigger] f[i]) by {
        if ds.len() > s {
            assert(f[i] == ds[i + ds.len() - s]);
        } else if i >= s - ds.len() {
            assert(f[i] == ds[i - (s - ds.len())]);
        }
    }
    if ds.len() > s {
        assert(ip[0] == ds[0]);
        assert(ip != seq![48u8]) by {
            if ip =~= seq![48u8] {
                assert(ip[0] == 48);
            }
        }
    }
}

/// Round trip of a value whose scale is positive.
#[verifier::rlimit(60)]
proof fn lemma_round_trip_fraction(d: Decimal)
    requires
        d.wf(),
        d.int_val != 0,
        d.scale > 0,
        renders_within_precision(d),
    ensures
        spec_from_bytes(render(d)) is Ok,
        d.same_value(spec_from_bytes(render(d))->Ok_0),
{
    let m = d.int_val as nat;
    lemma_fraction_split(d);
    let (ip, f) = fraction_split(d);
    let sign = if d.negative { seq![45u8] } else { Seq::<u8>::empty() };
    lemma_point_reading(sign, ip, f);
    lemma_digit_run_len(f, f.len() as int);
    assert(f.take(f.len() as int) =~= f);
    assert(f.skip(f.len() as int) =~= Seq::<u8>::empty());
    lemma_trim_trailing(f);
    let t = trim_trailing_zeros(f);
    let k = (f.len() - t.len()) as nat;
    assert(ip + f =~= (ip + t) + zeros(k));
    lemma_digits_value_zeros(ip + t, k);
    let m2 = digits_value(ip + t);
    lemma_pow10_pos(k);
    assert(m2 != 0 && m2 <= m) by (nonlinear_arith)
        requires
            m == m2 * pow10(k),
            pow10(k) >= 1,
            m > 0,
    ;
    let p = SpecParts { negative: d.negative, integral: ip, fractional: t, exp: 0 };
    assert(spec_after_point(d.negative, ip, f) == Ok::<(SpecParts, Seq<u8>), DecimalParseError>(
        (p, Seq::<u8>::empty()),
    ));
    assert(spec_parse_decimal(render(d)) == Ok::<(SpecParts, Seq<u8>), DecimalParseError>(
        (p, Seq::<u8>::empty()),
    ));
    assert(precision_of(p) <= 38);
    assert(m < 0x1_0000_0000_0000_0000_0000_0000_0000_0000nat) by {
        lemma_pow10_38();
    }
    assert(spec_parse_str(render(d)) is Ok);
    lemma_text_value(render(d));
    let d2 = spec_from_bytes(render(d))->Ok_0;
    assert(d2.int_val as nat == m2);
    assert(d2.scale == t.len());
    assert(d2.negative == d.negative);
    assert(d.signed_int() * pow10(0) == d2.signed_int() * pow10(k)) by (nonlinear_arith)
        requires
            m == m2 * pow10(k),
            d.signed_int() == if d.negative { -(m as int) } else { m as int },
            d2.signed_int() == if d.negative { -(m2 as int) } else { m2 as int },
            pow10(0) == 1,
    ;
}

/// Round trip of a nonzero value whose scale is zero or negative.
#[verifier::rlimit(60)]
proof fn lemma_round_trip_integer(d: Decimal)
    requires
        d.wf(),
        d.int_val != 0,
        d.scale <= 0,
        renders_within_precision(d),
    ensures
        spec_from_bytes(render(d)) is Ok,
        d.same_value(spec_from_bytes(render(d))->Ok_0),
{
    let m = d.int_val as nat;
    let ds = digits_of(m);
    let k = (-d.scale) as nat;
    lemma_digits_of(m);
    let t = ds + zeros(k);
    let sign = if d.negative { seq![45u8] } else { Seq::<u8>::empty() };
    assert(render(d) =~= sign + t);
    assert forall|i: int| 0 <= i < t.len() implies is_digit(#[trigger] t[i]) by {
        if i < ds.len() {
            assert(t[i] == ds[i]);
        }
    }
    lemma_digits_value_zeros(ds, k);
    lemma_pow10_pos(k);
    lemma_digits_value_bound(t);
    lemma_pow10_mono(t.len(), 38);
    lemma_pow10_38();
    assert(t[0] == ds[0]);
    law_precision_boundary(sign, t);
    let d2 = spec_from_bytes(render(d))->Ok_0;
    assert(d2.int_val as nat == m * pow10(k));
    assert(d.signed_int() * pow10(k) == d2.signed_int() * pow10(0)) by (nonlinear_arith)
        requires
            d2.int_val as int == m * pow10(k),
            d.signed_int() == if d.negative { -(m as int) } else { m as int },
            d2.signed_int() == if d.negative { -(d2.int_val as int) } else { d2.int_val as int },
            pow10(0) == 1,
    ;
}

/// Rendering a value to its canonical text and parsing that text gives back
/// the same number, whenever the text fits within `MAX_PRECISION` digits.
pub proof fn law_round_trip(d: Decimal)
    requires
        d.wf(),
        renders_within_precision(d),
    ensures
        spec_from_bytes(render(d)) is Ok,
        d.same_value(spec_from_bytes(render(d))->Ok_0),
{
    if d.int_val == 0 {
        assert(render(d) =~= seq![48u8]);
        law_precision_boundary(Seq::empty(), seq![48u8]);
        assert(Seq::<u8>::empty() + seq![48u8] =~= seq![48u8]);
        assert(seq![48u8].drop_last() =~= Seq::<u8>::empty());
        assert(digits_value(Seq::<u8>::empty()) == 0);
        assert(digits_value(seq![48u8]) == 0);
        let d2 = spec_from_bytes(render(d))->Ok_0;
        assert(d2 == Decimal { int_val: 0, scale: 0, negative: false });
        assert(d.signed_int() == 0 && d2.signed_int() == 0);
        let top = if d.scale >= d2.scale { d.scale as int } else { d2.scale as int };
        assert(0 * pow10((top - d.scale) as nat) == 0 * pow10((top - d2.scale) as nat));
    } else if d.scale <= 0 {
        lemma_round_trip_integer(d);
    } else {
        lemma_round_trip_fraction(d);
    }
}

} // verus!
