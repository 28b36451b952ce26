//! Properties of dimension parsing and formatting as a whole.

use vstd::prelude::*;

use crate::dim::digits::{lemma_pow10_pos, pow10, round_half_up};
use crate::dim::notation::{
    all_digits, commas_as_points, contains, decimal_token, digit_of, digits_value, find, is_digit,
    is_separator, is_ws, lemma_find_bounds, mixed_split, signed_number, slash_after, split_from,
    trim,
    trim_end, trim_start, unsigned_number, whole_token,
};
use crate::dim::value::{
    dimension_milli, dimension_value, fraction_value, mixed_value, positive_dimension_milli, quotient,
    DimensionError,
    MAX_DIMENSION_MILLI,
};
use crate::dim::{decimal_text, digit_char, dimension_text, three_digits, without_trailing_zeros};

verus! {

/// A parsed dimension is below the maximum; a positive one is above zero.
pub proof fn law_parsed_dimension_in_range(text: Seq<char>)
    ensures
        dimension_milli(text) matches Ok(m) ==> m < MAX_DIMENSION_MILLI,
        positive_dimension_milli(text) matches Ok(m) ==> 0 < m < MAX_DIMENSION_MILLI,
{
}

/// `parse_dimension` refuses exactly zero beyond what
/// `parse_dimension_allowing_zero` refuses.
pub proof fn law_positive_is_nonzero_allowing_zero(text: Seq<char>)
    ensures
        positive_dimension_milli(text) == (if dimension_milli(text) == Ok::<u32, DimensionError>(
            0,
        ) {
            Err(DimensionError::NotPositive)
        } else {
            dimension_milli(text)
        }),
{
}

/// A parsed dimension is the exact value in milli-units rounded to the
/// nearest integer, halves rounded up: `m - 1/2 <= 1000 * p / q < m + 1/2`.
pub proof fn law_rounds_to_nearest_milli(text: Seq<char>)
    ensures
        dimension_milli(text) matches Ok(m) ==> (dimension_value(text) matches Ok(v) && v.0 >= 0
            && v.1 > 0 && v.1 * (2 * m - 1) <= 2000 * v.0 < v.1 * (2 * m + 1)),
{
    if let Ok(m) = dimension_milli(text) {
        let v = dimension_value(text)->Ok_0;
        let n = (1000 * v.0) as nat;
        let q = v.1;
        lemma_value_denominator_positive(text);
        let d = n / q;
        let r = n % q;
        assert(n == d * q + r && 0 <= r < q) by {
            vstd::arithmetic::div_mod::lemma_fundamental_div_mod(n as int, q as int);
        }
        if 2 * r >= q {
            assert(m == d + 1);
            assert(q * (2 * m - 1) <= 2 * n < q * (2 * m + 1)) by (nonlinear_arith)
                requires
                    n == d * q + r,
                    2 * r >= q,
                    r < q,
                    m == d + 1,
            ;
        } else {
            assert(m == d);
            assert(q * (2 * m - 1) <= 2 * n < q * (2 * m + 1)) by (nonlinear_arith)
                requires
                    n == d * q + r,
                    2 * r < q,
                    r >= 0,
                    m == d,
            ;
        }
    }
}

/// Parsing keeps order: of two accepted texts, the one with the smaller or
/// equal exact value gives the smaller or equal milli-units.
pub proof fn law_parse_is_monotone(a: Seq<char>, b: Seq<char>)
    requires
        dimension_milli(a) is Ok,
        dimension_milli(b) is Ok,
        dimension_value(a)->Ok_0.0 * dimension_value(b)->Ok_0.1 <= dimension_value(b)->Ok_0.0
            * dimension_value(a)->Ok_0.1,
    ensures
        dimension_milli(a)->Ok_0 <= dimension_milli(b)->Ok_0,
{
    law_rounds_to_nearest_milli(a);
    law_rounds_to_nearest_milli(b);
    let ma = dimension_milli(a)->Ok_0 as int;
    let mb = dimension_milli(b)->Ok_0 as int;
    let pa = dimension_value(a)->Ok_0.0;
    let qa = dimension_value(a)->Ok_0.1 as int;
    let pb = dimension_value(b)->Ok_0.0;
    let qb = dimension_value(b)->Ok_0.1 as int;
    if ma > mb {
        assert(false) by (nonlinear_arith)
            requires
                qa > 0,
                qb > 0,
                qa * (2 * ma - 1) <= 2000 * pa,
                2000 * pb < qb * (2 * mb + 1),
                pa * qb <= pb * qa,
                ma >= mb + 1,
        {
            assert(qa * (2 * mb + 1) <= qa * (2 * ma - 1));
            assert(qa * qb * (2 * mb + 1) <= 2000 * pa * qb);
            assert(2000 * pa * qb <= 2000 * pb * qa);
            assert(2000 * pb * qa < qb * (2 * mb + 1) * qa);
        }
    }
}

/// A formatted dimension parses back to the same milli-units where it is
/// below the maximum, and is refused as too large at or above it; through
/// `parse_dimension`, zero is refused as not positive.
pub proof fn law_format_then_parse(milli: u32)
    ensures
        dimension_milli(dimension_text(milli)) == (if milli < MAX_DIMENSION_MILLI {
            Ok::<u32, DimensionError>(milli)
        } else {
            Err(DimensionError::TooLarge)
        }),
        positive_dimension_milli(dimension_text(milli)) == (if milli == 0 {
            Err::<u32, DimensionError>(DimensionError::NotPositive)
        } else if milli < MAX_DIMENSION_MILLI {
            Ok(milli)
        } else {
            Err(DimensionError::TooLarge)
        }),
{
    let s = dimension_text(milli);
    let whole = (milli / 1000) as nat;
    let frac = (milli % 1000) as nat;
    let ds = decimal_text(whole);
    let fs = without_trailing_zeros(three_digits(frac));
    lemma_dimension_text_shape(milli);
    lemma_plain_decimal_value(s);
    lemma_decimal_text(whole);
    if frac == 0 {
        assert(s == ds);
        assert forall|j: int| 0 <= j < s.len() implies s[j] != '.' by {
            assert(is_digit(ds[j]));
        }
        lemma_find_absent(s, '.');
        assert(s.take(s.len() as int) =~= s);
        assert(s + Seq::<char>::empty() =~= s);
        assert(unsigned_number(s) == Some((whole, 0nat)));
        assert(pow10(0) == 1);
        assert(milli == 1000 * whole);
        lemma_round_exact(milli as nat, 1);
        assert(milli as nat * 1 == milli);
    } else {
        lemma_fraction_digits(frac);
        lemma_find_first(s, '.', ds.len() as int);
        assert(s.take(ds.len() as int) =~= ds);
        assert(s.skip(ds.len() + 1 as int) =~= fs);
        assert(unsigned_number(s) == Some((digits_value(ds + fs), fs.len())));
        lemma_digits_value_append(ds, fs);
        let l = fs.len();
        let vf = digits_value(fs);
        let p = pow10(l);
        lemma_pow10_pos(l);
        assert(milli == 1000 * whole + frac);
        assert(1000 * (whole * p + vf) == milli * p) by (nonlinear_arith)
            requires
                1000 * vf == frac * p,
                milli == 1000 * whole + frac,
        ;
        lemma_round_exact(milli as nat, p);
    }
}

/// The formatted text: decimal digits of the whole units, then, where the
/// milli part is not zero, a point and its digits.
proof fn lemma_dimension_text_shape(milli: u32)
    ensures
        ({
            let s = dimension_text(milli);
            let ds = decimal_text((milli / 1000) as nat);
            let fs = without_trailing_zeros(three_digits((milli % 1000) as nat));
            &&& s.len() > 0
            &&& is_digit(s[0])
            &&& is_digit(s.last())
            &&& all_digits(ds)
            &&& (milli % 1000 == 0 ==> s == ds)
            &&& (milli % 1000 != 0 ==> s == ds + seq!['.'] + fs && all_digits(fs) && fs.len() > 0)
            &&& forall|j: int|
                0 <= j < s.len() ==> (is_digit(#[trigger] s[j]) || s[j] == '.')
        }),
{
    let s = dimension_text(milli);
    let whole = (milli / 1000) as nat;
    let frac = (milli % 1000) as nat;
    let ds = decimal_text(whole);
    let fs = without_trailing_zeros(three_digits(frac));
    lemma_decimal_text(whole);
    if frac != 0 {
        lemma_fraction_digits(frac);
        assert(s == ds + seq!['.'] + fs);
        assert(s.last() == fs.last());
    } else {
        assert(s == ds);
    }
    assert forall|j: int| 0 <= j < s.len() implies (is_digit(s[j]) || s[j] == '.') by {
        if j < ds.len() {
            assert(s[j] == ds[j]);
        } else if j > ds.len() {
            assert(s[j] == fs[j - ds.len() - 1]);
        }
    }
}

/// Text of digits and points, digits at both ends: it is read as a decimal.
proof fn lemma_plain_decimal_value(s: Seq<char>)
    requires
        s.len() > 0,
        forall|j: int| 0 <= j < s.len() ==> (is_digit(#[trigger] s[j]) || s[j] == '.'),
    ensures
        dimension_value(s) == match unsigned_number(s) {
            Some((d, k)) => Ok::<(int, nat), DimensionError>((d as int, pow10(k))),
            None => Err(DimensionError::NotANumber),
        },
{
    assert forall|j: int| 0 <= j < s.len() implies !is_ws(s[j]) && !is_separator(s[j]) && s[j]
        != '/' && s[j] != ',' by {
        lemma_digit_char_class(s[j]);
    }
    assert(!is_ws(s[0]));
    assert(!is_ws(s.last()));
    assert(trim_start(s) == s);
    assert(trim(s) == s);
    lemma_split_none(s, 1);
    lemma_find_absent(s, '/');
    assert(commas_as_points(s) =~= s);
    assert(decimal_token(s) == signed_number(s));
}

/// A formatted dimension is the shortest decimal of its value: it has a point
/// exactly where the value is not whole, at most three digits after it and
/// no trailing zero there, and no leading zero before a further digit.
pub proof fn law_format_is_shortest(milli: u32)
    ensures
        contains(dimension_text(milli), '.') <==> milli % 1000 != 0,
        contains(dimension_text(milli), '.') ==> dimension_text(milli).last() != '0',
        contains(dimension_text(milli), '.') ==> dimension_text(milli).len() - find(
            dimension_text(milli),
            '.',
        ) - 1 <= 3,
        dimension_text(milli)[0] == '0' ==> dimension_text(milli).len() == 1 || dimension_text(
            milli,
        )[1] == '.',
{
    let s = dimension_text(milli);
    let whole = (milli / 1000) as nat;
    let frac = (milli % 1000) as nat;
    let ds = decimal_text(whole);
    let fs = without_trailing_zeros(three_digits(frac));
    lemma_decimal_text(whole);
    lemma_decimal_text_leading(whole);
    lemma_dimension_text_shape(milli);
    if frac == 0 {
        assert forall|j: int| 0 <= j < s.len() implies s[j] != '.' by {
            assert(is_digit(ds[j]));
        }
        lemma_find_absent(s, '.');
    } else {
        lemma_fraction_digits(frac);
        lemma_no_trailing_zero(three_digits(frac));
        assert(s[ds.len() as int] == '.');
        assert forall|j: int| 0 <= j < ds.len() implies s[j] != '.' by {
            assert(s[j] == ds[j]);
            assert(is_digit(ds[j]));
        }
        lemma_find_first(s, '.', ds.len() as int);
        assert(s.last() == fs.last());
        assert(s[0] == ds[0]);
        if ds.len() > 1 {
            assert(s[1] == ds[1]);
        }
    }
}

/// What `without_trailing_zeros` leaves does not end in `0`.
proof fn lemma_no_trailing_zero(s: Seq<char>)
    ensures
        without_trailing_zeros(s).len() > 0 ==> without_trailing_zeros(s).last() != '0',
    decreases s.len(),
{
    if s.len() > 0 && s.last() == '0' {
        lemma_no_trailing_zero(s.drop_last());
    }
}

/// The decimal text of a number starts with `0` only where the number is 0.
proof fn lemma_decimal_text_leading(n: nat)
    ensures
        decimal_text(n)[0] == '0' ==> n == 0 && decimal_text(n).len() == 1,
    decreases n,
{
    if n < 10 {
        crate::dim::lemma_digit_char_zero(n);
    } else {
        lemma_decimal_text_leading(n / 10);
        lemma_decimal_text(n / 10);
        assert(decimal_text(n)[0] == decimal_text(n / 10)[0]);
    }
}

/// Digits and decimal points only, with at least one digit: `12.5`, `.5`,
/// `5.`, `100`.
pub open spec fn is_plain_decimal(t: Seq<char>) -> bool {
    &&& forall|j: int| 0 <= j < t.len() ==> (is_digit(#[trigger] t[j]) || t[j] == '.')
    &&& exists|j: int| 0 <= j < t.len() && is_digit(#[trigger] t[j])
}

/// Two outcomes denote the same: both the same refusal, or both numbers with
/// equal value (numerator times the other denominator).
pub open spec fn same_value(
    a: Result<(int, nat), DimensionError>,
    b: Result<(int, nat), DimensionError>,
) -> bool {
    match (a, b) {
        (Ok(x), Ok(y)) => x.0 * y.1 == y.0 * x.1,
        (Err(e), Err(f)) => e == f,
        _ => false,
    }
}

/// A zero appended after the digits of a decimal with a point changes
/// neither its value nor its milli-units: `12.5`, `12.50` and `12.5000` are
/// the same dimension.
pub proof fn law_trailing_zero_after_point(t: Seq<char>)
    requires
        is_plain_decimal(t),
        contains(t, '.'),
    ensures
        same_value(dimension_value(t + seq!['0']), dimension_value(t)),
        dimension_milli(t + seq!['0']) == dimension_milli(t),
{
    let t0 = t + seq!['0'];
    let k = find(t, '.');
    lemma_find_bounds(t, '.');
    assert(t0[k as int] == '.');
    assert forall|j: int| 0 <= j < k implies t0[j] != '.' by {
        assert(t0[j] == t[j]);
    }
    lemma_find_first(t0, '.', k as int);
    assert forall|j: int| 0 <= j < t0.len() implies (is_digit(#[trigger] t0[j]) || t0[j] == '.') by {
        if j < t.len() {
            assert(t0[j] == t[j]);
        }
    }
    lemma_plain_decimal_value(t);
    lemma_plain_decimal_value(t0);
    let whole = t.take(k as int);
    let frac = t.skip(k + 1 as int);
    let frac0 = t0.skip(k + 1 as int);
    assert(t0.take(k as int) =~= whole);
    assert(frac0 =~= frac + seq!['0']);
    assert(frac0.last() == '0');
    assert(frac0.drop_last() =~= frac);
    let j = choose|j: int| 0 <= j < t.len() && is_digit(#[trigger] t[j]);
    assert(j != k);
    assert(whole.len() + frac.len() > 0);
    assert(all_digits(frac0) == all_digits(frac)) by {
        if all_digits(frac) {
            assert forall|i: int| 0 <= i < frac0.len() implies is_digit(frac0[i]) by {
                if i < frac.len() {
                    assert(frac0[i] == frac[i]);
                }
            }
        }
        if all_digits(frac0) {
            assert forall|i: int| 0 <= i < frac.len() implies is_digit(frac[i]) by {
                assert(frac0[i] == frac[i]);
            }
        }
    }
    if all_digits(whole) && all_digits(frac) {
        let w = whole + frac;
        assert((whole + frac0).drop_last() =~= w);
        assert((whole + frac0).last() == '0');
        let d = digits_value(w);
        assert(digits_value(whole + frac0) == d * 10);
        let n = frac.len();
        let q = pow10(n);
        assert(pow10(n + 1) == 10 * q);
        assert((d * 10) as int * q == d as int * (10 * q)) by (nonlinear_arith);
        lemma_pow10_pos(n);
        lemma_round_scaled((1000 * d) as nat, q);
        assert(1000 * (d * 10) == 10 * (1000 * d)) by (nonlinear_arith);
    }
}

/// A leading `-` negates a plain decimal, and a leading `+` leaves it as it
/// is; so a `-` before any positive decimal is refused.
pub proof fn law_sign_of_decimal(t: Seq<char>)
    requires
        is_plain_decimal(t),
    ensures
        dimension_value(seq!['-'] + t) == match dimension_value(t) {
            Ok(v) => Ok::<(int, nat), DimensionError>((-v.0, v.1)),
            Err(e) => Err(e),
        },
        dimension_value(seq!['+'] + t) == dimension_value(t),
        dimension_value(t) matches Ok(v) && v.0 > 0 ==> dimension_milli(seq!['-'] + t) == Err::<
            u32,
            DimensionError,
        >(DimensionError::NotANumber),
{
    lemma_plain_decimal_value(t);
    lemma_signed_plain(t, '-');
    lemma_signed_plain(t, '+');
}

proof fn lemma_signed_plain(t: Seq<char>, sign: char)
    requires
        is_plain_decimal(t),
        sign == '-' || sign == '+',
    ensures
        dimension_value(seq![sign] + t) == match unsigned_number(t) {
            Some((d, k)) => Ok::<(int, nat), DimensionError>(
                (if sign == '-' {
                    -(d as int)
                } else {
                    d as int
                }, pow10(k)),
            ),
            None => Err(DimensionError::NotANumber),
        },
{
    let s = seq![sign] + t;
    let j = choose|j: int| 0 <= j < t.len() && is_digit(#[trigger] t[j]);
    assert(t.len() > 0);
    assert forall|i: int| 0 <= i < t.len() implies !is_ws(t[i]) && !is_separator(t[i]) && t[i]
        != '/' && t[i] != ',' by {
        lemma_digit_char_class(t[i]);
    }
    assert forall|i: int| 0 <= i < s.len() implies !is_ws(#[trigger] s[i]) && s[i] != '/' && s[i]
        != ',' by {
        if i > 0 {
            assert(s[i] == t[i - 1]);
        }
    }
    assert forall|i: int| 1 <= i < s.len() implies !is_separator(#[trigger] s[i]) by {
        assert(s[i] == t[i - 1]);
    }
    assert(trim_start(s) == s);
    assert(s.last() == t.last());
    assert(trim(s) == s);
    lemma_split_none(s, 1);
    lemma_find_absent(s, '/');
    assert(commas_as_points(s) =~= s);
    assert(decimal_token(s) == signed_number(s));
    assert(s.drop_first() =~= t);
}

/// `t` with a `-` in front where `negative`.
pub open spec fn signed_text(t: Seq<char>, negative: bool) -> Seq<char> {
    if negative {
        seq!['-'] + t
    } else {
        t
    }
}

/// A fraction of two plain decimals, each with an optional `-`, is the
/// quotient of their values; a zero denominator is refused as such.
pub proof fn law_fraction_divides(a: Seq<char>, neg_a: bool, b: Seq<char>, neg_b: bool)
    requires
        is_plain_decimal(a),
        is_plain_decimal(b),
        dimension_value(a) is Ok,
        dimension_value(b) is Ok,
    ensures
        ({
            let va = dimension_value(a)->Ok_0;
            let vb = dimension_value(b)->Ok_0;
            let x = signed_text(a, neg_a) + seq!['/'] + signed_text(b, neg_b);
            if vb.0 == 0 {
                dimension_value(x) == Err::<(int, nat), DimensionError>(
                    DimensionError::ZeroDenominator,
                )
            } else {
                dimension_value(x) matches Ok(v) && v.0 * (va.1 * vb.0) == (if neg_a != neg_b {
                    -va.0
                } else {
                    va.0
                }) * vb.1 * v.1
            }
        }),
{
    lemma_plain_decimal_value(a);
    lemma_plain_decimal_value(b);
    lemma_fraction_plain_value(a, neg_a, b, neg_b);
    let ua = unsigned_number(a)->Some_0;
    let ub = unsigned_number(b)->Some_0;
    if ub.0 != 0 {
        let pa = pow10(ua.1);
        let pb = pow10(ub.1);
        let sgn_a: int = if neg_a != neg_b {
            -(ua.0 as int)
        } else {
            ua.0 as int
        };
        let m = pb * ua.0;
        let sgn_m: int = if neg_a != neg_b {
            -(m as int)
        } else {
            m as int
        };
        assert(sgn_m == pb * sgn_a) by (nonlinear_arith)
            requires
                m == pb * ua.0,
                sgn_a == if neg_a != neg_b {
                    -(ua.0 as int)
                } else {
                    ua.0 as int
                },
                sgn_m == if neg_a != neg_b {
                    -(m as int)
                } else {
                    m as int
                },
        ;
        assert(sgn_m * (pa * ub.0) == sgn_a * pb * (pa * ub.0)) by (nonlinear_arith)
            requires
                sgn_m == pb * sgn_a,
        ;
    }
}

proof fn lemma_fraction_plain_value(a: Seq<char>, neg_a: bool, b: Seq<char>, neg_b: bool)
    requires
        is_plain_decimal(a),
        is_plain_decimal(b),
        unsigned_number(a) is Some,
        unsigned_number(b) is Some,
    ensures
        ({
            let x = signed_text(a, neg_a) + seq!['/'] + signed_text(b, neg_b);
            let ua = unsigned_number(a)->Some_0;
            let ub = unsigned_number(b)->Some_0;
            dimension_value(x) == if ub.0 == 0 {
                Err::<(int, nat), DimensionError>(DimensionError::ZeroDenominator)
            } else {
                Ok(quotient((neg_a, ua.0, ua.1), (neg_b, ub.0, ub.1)))
            }
        }),
{
    lemma_plain_token(a, neg_a);
    lemma_plain_token(b, neg_b);
    lemma_fraction_text(signed_text(a, neg_a), signed_text(b, neg_b));
}

/// A mixed numeral of a plain decimal whole part (with an optional `-`) and
/// a fraction of two plain decimals is the sum of the whole part and the
/// fraction, negated where the whole part carries the `-`.
pub proof fn law_mixed_numeral_adds(w: Seq<char>, neg_w: bool, a: Seq<char>, b: Seq<char>)
    requires
        is_plain_decimal(w),
        is_plain_decimal(a),
        is_plain_decimal(b),
        dimension_value(w) is Ok,
        dimension_value(a) is Ok,
        dimension_value(b) is Ok,
        dimension_value(b)->Ok_0.0 > 0,
    ensures
        ({
            let vw = dimension_value(w)->Ok_0;
            let va = dimension_value(a)->Ok_0;
            let vb = dimension_value(b)->Ok_0;
            let x = signed_text(w, neg_w) + seq![' '] + a + seq!['/'] + b;
            // vw + va / vb, over the common denominator vw.1 * va.1 * vb.0
            let sum = vw.0 * va.1 * vb.0 + va.0 * vb.1 * vw.1;
            dimension_value(x) matches Ok(v) && v.0 * (vw.1 * va.1 * vb.0) == (if neg_w {
                -sum
            } else {
                sum
            }) * v.1
        }),
{
    lemma_plain_decimal_value(w);
    lemma_plain_decimal_value(a);
    lemma_plain_decimal_value(b);
    lemma_mixed_plain_value(w, neg_w, a, b);
    let uw = unsigned_number(w)->Some_0;
    let ua = unsigned_number(a)->Some_0;
    let ub = unsigned_number(b)->Some_0;
    let qw = pow10(uw.1);
    let qa = pow10(ua.1);
    let qb = pow10(ub.1);
    let mag = uw.0 * (qa * ub.0) + (qb * ua.0) * qw;
    let sum = uw.0 * qa * ub.0 + ua.0 * qb * qw;
    assert(sum == mag) by (nonlinear_arith)
        requires
            mag == uw.0 * (qa * ub.0) + (qb * ua.0) * qw,
            sum == uw.0 * qa * ub.0 + ua.0 * qb * qw,
    ;
    assert(qw * (qa * ub.0) == qw * qa * ub.0) by (nonlinear_arith);
}

proof fn lemma_mixed_plain_value(w: Seq<char>, neg_w: bool, a: Seq<char>, b: Seq<char>)
    requires
        is_plain_decimal(w),
        is_plain_decimal(a),
        is_plain_decimal(b),
        unsigned_number(w) is Some,
        unsigned_number(a) is Some,
        unsigned_number(b) is Some,
        unsigned_number(b)->Some_0.0 > 0,
    ensures
        ({
            let x = signed_text(w, neg_w) + seq![' '] + a + seq!['/'] + b;
            let uw = unsigned_number(w)->Some_0;
            let ua = unsigned_number(a)->Some_0;
            let ub = unsigned_number(b)->Some_0;
            dimension_value(x) == Ok::<(int, nat), DimensionError>(
                mixed_value((neg_w, uw.0, uw.1), quotient((false, ua.0, ua.1), (false, ub.0, ub.1))),
            )
        }),
{
    let sw = signed_text(w, neg_w);
    let f = a + seq!['/'] + b;
    let x = sw + seq![' '] + f;
    lemma_plain_token(w, neg_w);
    lemma_plain_token(a, false);
    lemma_plain_token(b, false);
    lemma_fraction_text(a, b);
    assert(x =~= sw + seq![' '] + a + seq!['/'] + b);
    assert(x[0] == sw[0]);
    assert(x.last() == b.last());
    assert(!is_ws(x.last()));
    assert(trim_start(x) == x);
    assert(trim(x) == x);
    let k = sw.len() as int;
    assert(x[k] == ' ');
    assert(x[k + 1 + a.len()] == '/');
    assert(slash_after(x, k));
    assert forall|j: int| 1 <= j < k implies !is_separator(#[trigger] x[j]) by {
        assert(x[j] == sw[j]);
    }
    lemma_split_reaches(x, 1, k);
    assert(x.take(k) =~= sw);
    assert(x.skip(k + 1) =~= f);
}

/// The characters and the tokens of a plain decimal with an optional `-`.
proof fn lemma_plain_token(t: Seq<char>, neg: bool)
    requires
        is_plain_decimal(t),
        unsigned_number(t) is Some,
    ensures
        ({
            let s = signed_text(t, neg);
            &&& s.len() > 0
            &&& forall|j: int| 0 <= j < s.len() ==> !is_ws(#[trigger] s[j]) && s[j] != '/' && s[j]
                != ','
            &&& forall|j: int| 1 <= j < s.len() ==> !is_separator(#[trigger] s[j])
            &&& forall|j: int| 0 <= j < t.len() ==> !is_separator(#[trigger] t[j])
            &&& trim(s) == s
            &&& commas_as_points(s) == s
            &&& decimal_token(s) == whole_token(s)
            &&& decimal_token(s) == Some(
                (neg, unsigned_number(t)->Some_0.0, unsigned_number(t)->Some_0.1),
            )
        }),
{
    let s = signed_text(t, neg);
    let j = choose|j: int| 0 <= j < t.len() && is_digit(#[trigger] t[j]);
    assert forall|i: int| 0 <= i < t.len() implies !is_ws(t[i]) && !is_separator(t[i]) && t[i]
        != '/' && t[i] != ',' by {
        lemma_digit_char_class(t[i]);
    }
    if neg {
        assert forall|i: int| 0 <= i < s.len() implies !is_ws(#[trigger] s[i]) && s[i] != '/'
            && s[i] != ',' by {
            if i > 0 {
                assert(s[i] == t[i - 1]);
            }
        }
        assert forall|i: int| 1 <= i < s.len() implies !is_separator(#[trigger] s[i]) by {
            assert(s[i] == t[i - 1]);
        }
        assert(s.last() == t.last());
        assert(s.drop_first() =~= t);
    }
    assert(trim_start(s) == s);
    assert(trim(s) == s);
    assert(commas_as_points(s) =~= s);
    lemma_plain_decimal_value(t);
    if !neg {
        assert(!(t[0] == '+' || t[0] == '-'));
    }
}

/// A fraction text made of two such tokens: not a mixed numeral, split at
/// its only `/`.
proof fn lemma_fraction_text(sa: Seq<char>, sb: Seq<char>)
    requires
        sa.len() > 0,
        sb.len() > 0,
        forall|j: int| 0 <= j < sa.len() ==> !is_ws(#[trigger] sa[j]) && sa[j] != '/',
        forall|j: int| 0 <= j < sb.len() ==> !is_ws(#[trigger] sb[j]) && sb[j] != '/',
        forall|j: int| 1 <= j < sa.len() ==> !is_separator(#[trigger] sa[j]),
    ensures
        ({
            let x = sa + seq!['/'] + sb;
            &&& trim(x) == x
            &&& mixed_split(x) is None
            &&& contains(x, '/')
            &&& find(x, '/') == sa.len()
            &&& x.take(sa.len() as int) == sa
            &&& x.skip(sa.len() + 1 as int) == sb
        }),
{
    let x = sa + seq!['/'] + sb;
    let k = sa.len() as int;
    assert(x[0] == sa[0]);
    assert(x.last() == sb.last());
    assert(trim_start(x) == x);
    assert(trim(x) == x);
    assert(x[k] == '/');
    assert forall|j: int| 0 <= j < k implies x[j] != '/' by {
        assert(x[j] == sa[j]);
    }
    lemma_find_first(x, '/', k);
    assert forall|j: int| k < j < x.len() implies x[j] != '/' by {
        assert(x[j] == sb[j - k - 1]);
    }
    assert forall|j: int| 1 <= j < x.len() && is_separator(x[j]) implies !slash_after(x, j) by {
        if j < k {
            assert(x[j] == sa[j]);
        }
    }
    lemma_no_split_without_slash_after(x, 1);
    assert(x.take(k) =~= sa);
    assert(x.skip(k + 1) =~= sb);
}

proof fn lemma_no_split_without_slash_after(t: Seq<char>, i: int)
    requires
        i >= 0,
        forall|j: int| i <= j < t.len() && is_separator(t[j]) ==> !slash_after(t, j),
    ensures
        split_from(t, i) is None,
    decreases t.len() - i,
{
    if i < t.len() {
        lemma_no_split_without_slash_after(t, i + 1);
    }
}

/// In a mixed numeral, a space and a dash between the whole part and the
/// fraction read alike. The whole part holds neither, and the text neither
/// starts nor ends with whitespace.
pub proof fn law_space_or_dash_in_mixed_numerals(whole: Seq<char>, fraction: Seq<char>)
    requires
        whole.len() > 0,
        forall|j: int| 0 <= j < whole.len() ==> !is_separator(#[trigger] whole[j]),
        !is_ws(whole[0]),
        contains(fraction, '/'),
    ensures
        dimension_milli(whole + seq![' '] + fraction) == dimension_milli(
            whole + seq!['-'] + fraction,
        ),
        positive_dimension_milli(whole + seq![' '] + fraction) == positive_dimension_milli(
            whole + seq!['-'] + fraction,
        ),
{
    // trailing whitespace of the fraction is trimmed with the whole text
    let fr = trim_end(fraction);
    let k = find(fraction, '/');
    lemma_find_bounds(fraction, '/');
    lemma_trim_end_shape(fraction);
    assert(!is_ws(fraction[k as int]));
    assert(k < fr.len());
    assert(fr[k as int] == '/');
    lemma_find_bounds(fr, '/');
    assert(find(fr, '/') <= k);
    lemma_trim_mixed(whole, ' ', fraction);
    lemma_trim_mixed(whole, '-', fraction);
    lemma_mixed_at(whole, ' ', fr);
    lemma_mixed_at(whole, '-', fr);
}

/// Trimming a mixed numeral trims only the end of its fraction text.
proof fn lemma_trim_mixed(whole: Seq<char>, sep: char, fraction: Seq<char>)
    requires
        whole.len() > 0,
        !is_ws(whole[0]),
        trim_end(fraction).len() > 0,
    ensures
        trim(whole + seq![sep] + fraction) == trim(whole + seq![sep] + trim_end(fraction)),
{
    let head = whole + seq![sep];
    let t = head + fraction;
    let u = head + trim_end(fraction);
    assert(t[0] == whole[0]);
    assert(u[0] == whole[0]);
    assert(trim_start(t) == t);
    assert(trim_start(u) == u);
    lemma_trim_end_after(head, fraction);
    lemma_trim_end_shape(fraction);
    assert(u.last() == trim_end(fraction).last());
    assert(trim_end(u) == u);
}

/// Trimming the end of `x + y` trims the end of `y` where some of `y` stays.
proof fn lemma_trim_end_after(x: Seq<char>, y: Seq<char>)
    requires
        trim_end(y).len() > 0,
    ensures
        trim_end(x + y) == x + trim_end(y),
    decreases y.len(),
{
    if y.len() > 0 && is_ws(y.last()) {
        assert((x + y).drop_last() =~= x + y.drop_last());
        assert((x + y).last() == y.last());
        lemma_trim_end_after(x, y.drop_last());
    } else {
        assert(y.len() > 0);
        assert((x + y).last() == y.last());
    }
}

proof fn lemma_mixed_at(whole: Seq<char>, sep: char, fraction: Seq<char>)
    requires
        is_separator(sep),
        whole.len() > 0,
        forall|j: int| 0 <= j < whole.len() ==> !is_separator(#[trigger] whole[j]),
        !is_ws(whole[0]),
        fraction.len() > 0,
        !is_ws(fraction.last()),
        find(fraction, '/') < fraction.len(),
        fraction[find(fraction, '/') as int] == '/',
    ensures
        ({
            let t = whole + seq![sep] + fraction;
            &&& trim(t) == t
            &&& mixed_split(t) == Some(whole.len() as int)
            &&& t.take(whole.len() as int) == whole
            &&& t.skip(whole.len() + 1 as int) == fraction
        }),
{
    let t = whole + seq![sep] + fraction;
    let k = whole.len() as int;
    assert(t[0] == whole[0]);
    assert(t.last() == fraction.last());
    assert(trim_start(t) == t);
    assert(trim(t) == t);
    let p = k + 1 + find(fraction, '/');
    assert(t[p] == '/');
    assert(slash_after(t, k));
    lemma_split_reaches(t, 1, k);
    assert(t.take(k) =~= whole);
    assert(t.skip(k + 1) =~= fraction);
}

proof fn lemma_split_reaches(t: Seq<char>, i: int, k: int)
    requires
        0 <= i <= k < t.len(),
        forall|j: int| i <= j < k ==> !is_separator(#[trigger] t[j]),
        is_separator(t[k]),
        slash_after(t, k),
    ensures
        split_from(t, i) == Some(k),
    decreases k - i,
{
    if i < k {
        lemma_split_reaches(t, i + 1, k);
    }
}

/// Every character of `s` is whitespace.
pub open spec fn all_ws(s: Seq<char>) -> bool {
    forall|i: int| 0 <= i < s.len() ==> is_ws(s[i])
}

/// Whitespace around a dimension text changes nothing.
pub proof fn law_surrounding_whitespace_ignored(before: Seq<char>, text: Seq<char>, after: Seq<char>)
    requires
        all_ws(before),
        all_ws(after),
    ensures
        dimension_milli(before + text + after) == dimension_milli(text),
        positive_dimension_milli(before + text + after) == positive_dimension_milli(text),
{
    lemma_trim_around(before, text, after);
}

/// Without a fraction, `,` and `.` are the same decimal point.
pub proof fn law_comma_is_decimal_point(text: Seq<char>)
    requires
        !contains(text, '/'),
    ensures
        dimension_milli(commas_as_points(text)) == dimension_milli(text),
        positive_dimension_milli(commas_as_points(text)) == positive_dimension_milli(text),
{
    let c = commas_as_points(text);
    let t = trim(text);
    lemma_find_bounds(text, '/');
    lemma_trim_keeps_absent(text, '/');
    lemma_commas_keep_absent(text);
    lemma_trim_commas(text);
    lemma_trim_keeps_absent(c, '/');
    assert(trim(c) == commas_as_points(t));
    let tc = commas_as_points(t);
    lemma_no_slash_no_split(t, 1);
    lemma_no_slash_no_split(tc, 1);
    lemma_find_absent(t, '/');
    lemma_find_absent(tc, '/');
    lemma_trim_idempotent(text);
    lemma_trim_commas(t);
    assert(trim(tc) == commas_as_points(trim(t)));
    assert(commas_as_points(tc) =~= tc);
    assert(decimal_token(tc) == decimal_token(t));
}

// ---------------------------------------------------------------------------
proof fn lemma_trim_start_ws_prefix(a: Seq<char>, s: Seq<char>)
    requires
        all_ws(a),
    ensures
        trim_start(a + s) == trim_start(s),
    decreases a.len(),
{
    if a.len() > 0 {
        assert((a + s).drop_first() =~= a.drop_first() + s);
        lemma_trim_start_ws_prefix(a.drop_first(), s);
    } else {
        assert(a + s =~= s);
    }
}

proof fn lemma_trim_start_ws_suffix(t: Seq<char>, b: Seq<char>)
    requires
        all_ws(b),
    ensures
        trim_start(t + b) == if trim_start(t).len() == 0 {
            Seq::<char>::empty()
        } else {
            trim_start(t) + b
        },
    decreases t.len(),
{
    if t.len() == 0 {
        assert(t + b =~= b);
        lemma_trim_start_all_ws(b);
    } else if is_ws(t[0]) {
        assert((t + b).drop_first() =~= t.drop_first() + b);
        lemma_trim_start_ws_suffix(t.drop_first(), b);
    }
}

proof fn lemma_trim_start_all_ws(b: Seq<char>)
    requires
        all_ws(b),
    ensures
        trim_start(b) == Seq::<char>::empty(),
    decreases b.len(),
{
    if b.len() > 0 {
        lemma_trim_start_all_ws(b.drop_first());
    } else {
        assert(b =~= Seq::<char>::empty());
    }
}

proof fn lemma_trim_end_ws_suffix(x: Seq<char>, b: Seq<char>)
    requires
        all_ws(b),
    ensures
        trim_end(x + b) == trim_end(x),
    decreases b.len(),
{
    if b.len() > 0 {
        assert((x + b).drop_last() =~= x + b.drop_last());
        assert((x + b).last() == b.last());
        lemma_trim_end_ws_suffix(x, b.drop_last());
    } else {
        assert(x + b =~= x);
    }
}

proof fn lemma_trim_around(a: Seq<char>, t: Seq<char>, b: Seq<char>)
    requires
        all_ws(a),
        all_ws(b),
    ensures
        trim(a + t + b) == trim(t),
{
    assert(a + t + b =~= a + (t + b));
    lemma_trim_start_ws_prefix(a, t + b);
    lemma_trim_start_ws_suffix(t, b);
    if trim_start(t).len() == 0 {
        assert(trim_start(t) =~= Seq::<char>::empty());
    } else {
        lemma_trim_end_ws_suffix(trim_start(t), b);
    }
}

/// `trim_start` leaves nothing or a non-whitespace first character.
proof fn lemma_trim_start_shape(s: Seq<char>)
    ensures
        trim_start(s).len() > 0 ==> !is_ws(trim_start(s)[0]),
        trim_start(s).len() <= s.len(),
        trim_start(s) == s.skip(s.len() - trim_start(s).len()),
    decreases s.len(),
{
    if s.len() > 0 && is_ws(s[0]) {
        lemma_trim_start_shape(s.drop_first());
        assert(s.drop_first().skip(s.drop_first().len() - trim_start(s).len()) =~= s.skip(
            s.len() - trim_start(s).len(),
        ));
    } else {
        assert(s.skip(0) =~= s);
    }
}

/// `trim_end` leaves nothing or a non-whitespace last character, and keeps
/// a prefix.
proof fn lemma_trim_end_shape(s: Seq<char>)
    ensures
        trim_end(s).len() > 0 ==> !is_ws(trim_end(s).last()),
        trim_end(s).len() <= s.len(),
        trim_end(s) == s.take(trim_end(s).len() as int),
        forall|j: int| trim_end(s).len() <= j < s.len() ==> is_ws(s[j]),
    decreases s.len(),
{
    if s.len() > 0 && is_ws(s.last()) {
        lemma_trim_end_shape(s.drop_last());
        assert(s.drop_last().take(trim_end(s).len() as int) =~= s.take(trim_end(s).len() as int));
        assert forall|j: int| trim_end(s).len() <= j < s.len() implies is_ws(s[j]) by {
            if j < s.len() - 1 {
                assert(s[j] == s.drop_last()[j]);
            }
        }
    } else {
        assert(s.take(s.len() as int) =~= s);
    }
}

proof fn lemma_trim_idempotent(s: Seq<char>)
    ensures
        trim(trim(s)) == trim(s),
{
    let a = trim_start(s);
    let t = trim_end(a);
    lemma_trim_start_shape(s);
    lemma_trim_end_shape(a);
    if t.len() > 0 {
        assert(t[0] == a[0]);
        assert(trim_start(t) == t);
        assert(trim_end(t) == t);
    } else {
        assert(trim_start(t) == t);
        assert(trim_end(t) == t);
    }
}

proof fn lemma_trim_keeps_absent(s: Seq<char>, c: char)
    requires
        forall|j: int| 0 <= j < s.len() ==> s[j] != c,
    ensures
        forall|j: int| 0 <= j < trim(s).len() ==> trim(s)[j] != c,
{
    let a = trim_start(s);
    lemma_trim_start_shape(s);
    lemma_trim_end_shape(a);
    assert forall|j: int| 0 <= j < trim(s).len() implies trim(s)[j] != c by {
        assert(trim(s)[j] == a[j]);
        assert(a[j] == s[j + s.len() - a.len()]);
    }
}

proof fn lemma_commas_keep_absent(s: Seq<char>)
    requires
        forall|j: int| 0 <= j < s.len() ==> s[j] != '/',
    ensures
        forall|j: int|
            0 <= j < commas_as_points(s).len() ==> commas_as_points(s)[j] != '/',
{
}

proof fn lemma_trim_commas(s: Seq<char>)
    ensures
        trim(commas_as_points(s)) == commas_as_points(trim(s)),
{
    lemma_trim_start_commas(s);
    lemma_trim_end_commas(trim_start(s));
}

proof fn lemma_trim_start_commas(s: Seq<char>)
    ensures
        trim_start(commas_as_points(s)) == commas_as_points(trim_start(s)),
    decreases s.len(),
{
    let c = commas_as_points(s);
    if s.len() > 0 {
        assert(c.drop_first() =~= commas_as_points(s.drop_first()));
        lemma_trim_start_commas(s.drop_first());
    } else {
        assert(c =~= s);
    }
}

proof fn lemma_trim_end_commas(s: Seq<char>)
    ensures
        trim_end(commas_as_points(s)) == commas_as_points(trim_end(s)),
    decreases s.len(),
{
    let c = commas_as_points(s);
    if s.len() > 0 {
        assert(c.drop_last() =~= commas_as_points(s.drop_last()));
        lemma_trim_end_commas(s.drop_last());
    } else {
        assert(c =~= s);
    }
}

proof fn lemma_no_slash_no_split(t: Seq<char>, i: int)
    requires
        i >= 0,
        forall|j: int| 0 <= j < t.len() ==> t[j] != '/',
    ensures
        split_from(t, i) is None,
    decreases t.len() - i,
{
    if i < t.len() {
        lemma_no_slash_no_split(t, i + 1);
    }
}

// ---------------------------------------------------------------------------
proof fn lemma_value_denominator_positive(text: Seq<char>)
    ensures
        dimension_value(text) matches Ok(v) ==> v.1 > 0,
{
    let t = trim(text);
    if t.len() > 0 {
        match mixed_split(t) {
            Some(i) => {
                lemma_fraction_denominator_positive(t.skip(i + 1));
                if let Some(w) = whole_token(t.take(i)) {
                    lemma_pow10_pos(w.2);
                    if let Ok(f) = fraction_value(t.skip(i + 1)) {
                        let wq = pow10(w.2);
                        let fq = f.1;
                        assert(wq * fq > 0) by (nonlinear_arith)
                            requires
                                wq >= 1,
                                fq > 0,
                        ;
                    }
                }
            },
            None => {
                lemma_fraction_denominator_positive(t);
                if let Some(n) = decimal_token(t) {
                    lemma_pow10_pos(n.2);
                }
            },
        }
    }
}

proof fn lemma_fraction_denominator_positive(s: Seq<char>)
    ensures
        fraction_value(s) matches Ok(v) ==> v.1 > 0,
{
    let k = find(s, '/');
    if k < s.len() {
        if let Some(a) = decimal_token(s.take(k as int)) {
            if let Some(b) = decimal_token(s.skip(k + 1 as int)) {
                lemma_pow10_pos(a.2);
                let p = pow10(a.2);
                let d = b.1;
                if d != 0 {
                    assert(p * d > 0) by (nonlinear_arith)
                        requires
                            p >= 1,
                            d > 0,
                    ;
                }
            }
        }
    }
}

/// The same fraction with numerator and denominator times ten rounds alike.
proof fn lemma_round_scaled(n: nat, q: nat)
    requires
        q > 0,
    ensures
        round_half_up(10 * n, 10 * q) == round_half_up(n, q),
{
    let d = n / q;
    let r = n % q;
    vstd::arithmetic::div_mod::lemma_fundamental_div_mod(n as int, q as int);
    assert(10 * n == d * (10 * q) + 10 * r) by (nonlinear_arith)
        requires
            n == d * q + r,
    ;
    crate::dim::digits::lemma_round_from_divmod(10 * n, 10 * q, d, 10 * r);
    crate::dim::digits::lemma_round_from_divmod(n, q, d, r);
}

/// An exact multiple rounds to itself.
proof fn lemma_round_exact(m: nat, q: nat)
    requires
        q > 0,
    ensures
        round_half_up(m * q, q) == m,
{
    vstd::arithmetic::div_mod::lemma_fundamental_div_mod_converse((m * q) as int, q as int, m as int, 0);
}

proof fn lemma_digit_char_class(c: char)
    requires
        is_digit(c) || c == '.',
    ensures
        !is_ws(c),
        !is_separator(c),
        c != '/',
        c != ',',
        c != '+',
        c != '-',
{
}

proof fn lemma_digit_char(d: nat)
    requires
        d < 10,
    ensures
        is_digit(digit_char(d)),
        digit_of(digit_char(d)) == d,
{
}

/// The decimal text of `n` is digits spelling `n`.
pub proof fn lemma_decimal_text(n: nat)
    ensures
        decimal_text(n).len() > 0,
        all_digits(decimal_text(n)),
        digits_value(decimal_text(n)) == n,
    decreases n,
{
    if n < 10 {
        lemma_digit_char(n);
        assert(seq![digit_char(n)].drop_last() =~= Seq::<char>::empty());
        assert(digits_value(Seq::<char>::empty()) == 0);
        assert(seq![digit_char(n)].last() == digit_char(n));
    } else {
        lemma_decimal_text(n / 10);
        lemma_digit_char(n % 10);
        let t = decimal_text(n);
        assert(t.drop_last() =~= decimal_text(n / 10));
        assert(t.last() == digit_char(n % 10));
        assert forall|j: int| 0 <= j < t.len() implies is_digit(t[j]) by {
            if j < t.len() - 1 {
                assert(t[j] == decimal_text(n / 10)[j]);
            }
        }
    }
}

/// Digits after digits: the first part counts `10^len` times.
pub proof fn lemma_digits_value_append(a: Seq<char>, b: Seq<char>)
    ensures
        digits_value(a + b) == digits_value(a) * pow10(b.len()) + digits_value(b),
    decreases b.len(),
{
    if b.len() == 0 {
        assert(a + b =~= a);
        assert(digits_value(a) * pow10(0) == digits_value(a)) by (nonlinear_arith)
            requires
                pow10(0) == 1,
        ;
    } else {
        let b1 = b.drop_last();
        lemma_digits_value_append(a, b1);
        assert((a + b).drop_last() =~= a + b1);
        assert((a + b).last() == b.last());
        let va = digits_value(a);
        let p = pow10(b1.len());
        assert(pow10(b.len()) == 10 * p);
        assert((va * p + digits_value(b1)) * 10 + digit_of(b.last()) == va * (10 * p) + (
        digits_value(b1) * 10 + digit_of(b.last()))) by (nonlinear_arith);
    }
}

/// The trimmed three digits of a nonzero milli part: not empty, digits,
/// and `1000 * value == frac * 10^len`.
proof fn lemma_fraction_digits(frac: nat)
    requires
        0 < frac < 1000,
    ensures
        ({
            let fs = without_trailing_zeros(three_digits(frac));
            &&& 1 <= fs.len() <= 3
            &&& all_digits(fs)
            &&& 1000 * digits_value(fs) == frac * pow10(fs.len())
        }),
{
    let a = frac / 100;
    let b = (frac / 10) % 10;
    let c = frac % 10;
    let ca = digit_char(a);
    let cb = digit_char(b);
    let cc = digit_char(c);
    let t = three_digits(frac);
    let t2 = seq![ca, cb];
    let t1 = seq![ca];
    lemma_digit_char(a);
    lemma_digit_char(b);
    lemma_digit_char(c);
    crate::dim::lemma_digit_char_zero(a);
    crate::dim::lemma_digit_char_zero(b);
    crate::dim::lemma_digit_char_zero(c);
    assert(frac == 100 * a + 10 * b + c);
    assert(t =~= seq![ca, cb, cc]);
    assert(t.drop_last() =~= t2);
    assert(t.last() == cc);
    assert(t2.drop_last() =~= t1);
    assert(t2.last() == cb);
    assert(t1.drop_last() =~= Seq::<char>::empty());
    assert(t1.last() == ca);
    assert(digits_value(Seq::<char>::empty()) == 0);
    assert(digits_value(t1) == a);
    assert(digits_value(t2) == a * 10 + b);
    assert(digits_value(t) == (a * 10 + b) * 10 + c);
    assert(pow10(0) == 1);
    assert(pow10(1) == 10);
    assert(pow10(2) == 100);
    assert(pow10(3) == 1000);
    if c != 0 {
        assert(without_trailing_zeros(t) == t);
    } else if b != 0 {
        assert(without_trailing_zeros(t) == without_trailing_zeros(t2));
        assert(without_trailing_zeros(t2) == t2);
    } else {
        assert(without_trailing_zeros(t) == without_trailing_zeros(t2));
        assert(without_trailing_zeros(t2) == without_trailing_zeros(t1));
        assert(a != 0);
        assert(without_trailing_zeros(t1) == t1);
    }
    assert(all_digits(t1));
    assert(all_digits(t2));
    assert(all_digits(t));
}

proof fn lemma_split_none(t: Seq<char>, i: int)
    requires
        i >= 0,
        forall|j: int| i <= j < t.len() ==> !is_separator(t[j]),
    ensures
        split_from(t, i) is None,
    decreases t.len() - i,
{
    if i < t.len() {
        lemma_split_none(t, i + 1);
    }
}

proof fn lemma_find_absent(s: Seq<char>, c: char)
    requires
        forall|j: int| 0 <= j < s.len() ==> s[j] != c,
    ensures
        find(s, c) == s.len(),
{
    lemma_find_bounds(s, c);
}

proof fn lemma_find_first(s: Seq<char>, c: char, k: int)
    requires
        0 <= k < s.len(),
        s[k] == c,
        forall|j: int| 0 <= j < k ==> s[j] != c,
    ensures
        find(s, c) == k,
{
    lemma_find_bounds(s, c);
}

} // verus!
