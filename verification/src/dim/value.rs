//! The exact value that a dimension text denotes, as a fraction, and the
//! milli-units it rounds to.

use vstd::prelude::*;

use crate::dim::digits::{
    add_scaled, digits_ok, divide_rounded, is_zero, lemma_pow10_pos, multiply, pow10,
    power_of_ten, round_half_up, shift, val,
};
use crate::dim::notation::{
    contains, decimal_token, find, find_char, copy_range, lemma_find_bounds, mixed_split,
    read_decimal, read_whole, split_mixed, token_ratio, trim, trimmed, whole_token,
};

verus! {

/// Why a dimension text was refused.
#[derive(Clone, Copy, Debug, PartialEq, Eq, Structural)]
pub enum DimensionError {
    /// Not a number in any accepted notation, or a negative one.
    NotANumber,
    /// A fraction whose denominator is zero.
    ZeroDenominator,
    /// At or above the largest dimension.
    TooLarge,
    /// Zero where a positive dimension is needed.
    NotPositive,
}

/// Milli-units per user unit.
pub const MILLI_PER_UNIT: u32 = 1000;

/// The largest dimension in milli-units (= 100,000 user units); dimensions
/// must stay below it.
pub const MAX_DIMENSION_MILLI: u32 = 100_000 * MILLI_PER_UNIT;

/// `a / b` for two tokens, `b` not zero, as numerator and denominator.
pub open spec fn quotient(a: (bool, nat, nat), b: (bool, nat, nat)) -> (int, nat) {
    let magnitude = pow10(b.2) * a.1;
    (
        if a.0 != b.0 {
            -(magnitude as int)
        } else {
            magnitude as int
        },
        pow10(a.2) * b.1,
    )
}

/// A fraction `a/b`: split at the first `/`, each side a decimal token.
pub open spec fn fraction_value(s: Seq<char>) -> Result<(int, nat), DimensionError> {
    let k = find(s, '/');
    if k >= s.len() {
        Err(DimensionError::NotANumber)
    } else {
        match decimal_token(s.take(k as int)) {
            None => Err(DimensionError::NotANumber),
            Some(a) => match decimal_token(s.skip(k + 1 as int)) {
                None => Err(DimensionError::NotANumber),
                Some(b) => if b.1 == 0 {
                    Err(DimensionError::ZeroDenominator)
                } else {
                    Ok(quotient(a, b))
                },
            },
        }
    }
}

/// A whole-part token `w` and a fraction `f` (not negative) together: the
/// magnitudes add, and a `-` on the whole part makes the sum negative, as in
/// `-3 1/4` for -3.25 and `-0 1/2` for -1/2.
pub open spec fn mixed_value(w: (bool, nat, nat), f: (int, nat)) -> (int, nat) {
    let magnitude = w.1 * f.1 + f.0 * pow10(w.2);
    (
        if w.0 {
            -magnitude
        } else {
            magnitude
        },
        pow10(w.2) * f.1,
    )
}

/// The exact value of a dimension text, as numerator and denominator.
///
/// The text is trimmed; then it is a mixed numeral where a space or dash
/// (not first) has a `/` after it, else a fraction where it holds a `/`,
/// else a decimal.
pub open spec fn dimension_value(text: Seq<char>) -> Result<(int, nat), DimensionError> {
    let t = trim(text);
    if t.len() == 0 {
        Err(DimensionError::NotANumber)
    } else {
        match mixed_split(t) {
            Some(i) => match whole_token(t.take(i)) {
                None => Err(DimensionError::NotANumber),
                Some(w) => match fraction_value(t.skip(i + 1)) {
                    Err(e) => Err(e),
                    Ok(f) => if f.0 < 0 {
                        Err(DimensionError::NotANumber)
                    } else {
                        Ok(mixed_value(w, f))
                    },
                },
            },
            None => if contains(t, '/') {
                fraction_value(t)
            } else {
                match decimal_token(t) {
                    None => Err(DimensionError::NotANumber),
                    Some(n) => Ok(token_ratio(n)),
                }
            },
        }
    }
}

/// A dimension text in milli-units, zero allowed: the exact value times
/// 1000, rounded to the nearest integer with halves rounded up.
pub open spec fn dimension_milli(text: Seq<char>) -> Result<u32, DimensionError> {
    match dimension_value(text) {
        Err(e) => Err(e),
        Ok(v) => if v.0 < 0 {
            Err(DimensionError::NotANumber)
        } else {
            let m = round_half_up((1000 * v.0) as nat, v.1);
            if m >= MAX_DIMENSION_MILLI {
                Err(DimensionError::TooLarge)
            } else {
                Ok(m as u32)
            }
        },
    }
}

/// A dimension text in milli-units, zero refused.
pub open spec fn positive_dimension_milli(text: Seq<char>) -> Result<u32, DimensionError> {
    match dimension_milli(text) {
        Ok(m) => if m == 0 {
            Err(DimensionError::NotPositive)
        } else {
            Ok(m)
        },
        Err(e) => Err(e),
    }
}

/// An exact fraction: a sign, a numerator and a denominator, held as digits.
pub struct Ratio {
    pub negative: bool,
    pub num: Vec<u8>,
    pub den: Vec<u8>,
}

impl Ratio {
    /// This fraction is `r`.
    pub open spec fn is(&self, r: (int, nat)) -> bool {
        &&& digits_ok(self.num@)
        &&& digits_ok(self.den@)
        &&& r.1 == val(self.den@)
        &&& r.1 > 0
        &&& r.0 == if self.negative {
            -(val(self.num@) as int)
        } else {
            val(self.num@) as int
        }
    }
}

/// Reads a fraction `a/b`.
fn read_fraction(t: &Vec<char>) -> (res: Result<Ratio, DimensionError>)
    requires
        t.len() <= isize::MAX,
    ensures
        match (res, fraction_value(t@)) {
            (Ok(r), Ok(s)) => r.is(s) && r.num.len() <= t.len() && r.den.len() <= t.len(),
            (Err(e), Err(se)) => e == se,
            _ => false,
        },
{
    proof {
        lemma_find_bounds(t@, '/');
    }
    let k = find_char(t, '/');
    if k >= t.len() {
        return Err(DimensionError::NotANumber);
    }
    let left = copy_range(t, 0, k);
    let right = copy_range(t, k + 1, t.len());
    assert(left@ =~= t@.take(k as int));
    assert(right@ =~= t@.skip(k + 1 as int));
    let a = match read_decimal(&left) {
        Some(a) => a,
        None => {
            return Err(DimensionError::NotANumber);
        },
    };
    let b = match read_decimal(&right) {
        Some(b) => b,
        None => {
            return Err(DimensionError::NotANumber);
        },
    };
    if is_zero(&b.digits) {
        return Err(DimensionError::ZeroDenominator);
    }
    let num = shift(&a.digits, b.scale);
    let den = shift(&b.digits, a.scale);
    proof {
        lemma_pow10_pos(a.scale as nat);
        let p = pow10(a.scale as nat);
        let vb = val(b.digits@);
        assert(p * vb > 0) by (nonlinear_arith)
            requires
                p >= 1,
                vb > 0,
        ;
    }
    Ok(Ratio { negative: a.negative != b.negative, num, den })
}

/// A token as a fraction over a power of ten.
fn token_as_ratio(n: crate::dim::notation::Number, Ghost(s): Ghost<(bool, nat, nat)>) -> (res:
    Ratio)
    requires
        n.is(s),
        n.scale < usize::MAX,
    ensures
        res.is(token_ratio(s)),
        res.num.len() == n.digits.len(),
        res.den.len() == n.scale + 1,
{
    let den = power_of_ten(n.scale);
    proof {
        lemma_pow10_pos(n.scale as nat);
    }
    Ratio { negative: n.negative, num: n.digits, den }
}

/// Reads a mixed numeral split at `i`.
fn read_mixed(t: &Vec<char>, i: usize) -> (res: Result<Ratio, DimensionError>)
    requires
        t.len() <= isize::MAX,
        0 < i < t.len(),
    ensures
        match (res, whole_token(t@.take(i as int))) {
            (Ok(r), Some(w)) => match fraction_value(t@.skip(i + 1)) {
                Ok(f) => f.0 >= 0 && r.is(mixed_value(w, f)) && r.num.len() <= t.len()
                    + 1 && r.den.len() <= t.len(),
                Err(_) => false,
            },
            (Err(e), Some(w)) => match fraction_value(t@.skip(i + 1)) {
                Ok(f) => f.0 < 0 && e == DimensionError::NotANumber,
                Err(fe) => e == fe,
            },
            (Err(e), None) => e == DimensionError::NotANumber,
            (Ok(_), None) => false,
        },
{
    let left = copy_range(t, 0, i);
    let right = copy_range(t, i + 1, t.len());
    assert(left@ =~= t@.take(i as int));
    assert(right@ =~= t@.skip(i + 1 as int));
    let w = match read_whole(&left) {
        Some(w) => w,
        None => {
            return Err(DimensionError::NotANumber);
        },
    };
    let f = match read_fraction(&right) {
        Ok(f) => f,
        Err(e) => {
            return Err(e);
        },
    };
    if f.negative && !is_zero(&f.num) {
        return Err(DimensionError::NotANumber);
    }
    let ghost ws = match whole_token(t@.take(i as int)) {
        Some(v) => v,
        None => (false, 0, 0),
    };
    let ghost fs = match fraction_value(t@.skip(i + 1)) {
        Ok(v) => v,
        Err(_) => (0, 1),
    };
    let ghost wv = val(w.digits@);
    let ghost fp = val(f.num@);
    let ghost fq = val(f.den@);
    let ghost wq = pow10(w.scale as nat);
    let prod = multiply(&w.digits, &f.den);
    let moved = shift(&f.num, w.scale);
    let num = add_scaled(&prod, &moved, 1);
    let den = shift(&f.den, w.scale);
    proof {
        assert(w.is(ws));
        assert(f.is(fs));
        assert(fs.0 == fp);
        lemma_pow10_pos(w.scale as nat);
        assert(val(num@) == wv * fq + fp * wq) by (nonlinear_arith)
            requires
                val(num@) == val(prod@) + 1 * val(moved@),
                val(prod@) == wv * fq,
                val(moved@) == wq * fp,
        ;
        assert(wq * fq > 0) by (nonlinear_arith)
            requires
                wq >= 1,
                fq > 0,
        ;
    }
    Ok(Ratio { negative: w.negative, num, den })
}

/// Reads the exact value of a dimension text.
pub fn read_value(text: &Vec<char>) -> (res: Result<Ratio, DimensionError>)
    requires
        text.len() <= isize::MAX,
    ensures
        match (res, dimension_value(text@)) {
            (Ok(r), Ok(s)) => r.is(s) && r.num.len() <= text.len() + 1 && r.den.len()
                <= text.len() + 1,
            (Err(e), Err(se)) => e == se,
            _ => false,
        },
{
    let t = trimmed(text);
    proof {
        crate::dim::notation::lemma_trim_len(text@);
    }
    if t.len() == 0 {
        return Err(DimensionError::NotANumber);
    }
    match split_mixed(&t) {
        Some(i) => read_mixed(&t, i),
        None => {
            proof {
                lemma_find_bounds(t@, '/');
            }
            if find_char(&t, '/') < t.len() {
                read_fraction(&t)
            } else {
                match read_decimal(&t) {
                    Some(n) => {
                        let ghost s = match decimal_token(t@) {
                            Some(v) => v,
                            None => (false, 0, 0),
                        };
                        Ok(token_as_ratio(n, Ghost(s)))
                    },
                    None => Err(DimensionError::NotANumber),
                }
            }
        },
    }
}

/// A dimension text in milli-units, zero allowed.
pub fn read_milli(text: &Vec<char>) -> (res: Result<u32, DimensionError>)
    requires
        text.len() <= isize::MAX,
    ensures
        res == dimension_milli(text@),
{
    let r = match read_value(text) {
        Ok(r) => r,
        Err(e) => {
            return Err(e);
        },
    };
    let ghost s = match dimension_value(text@) {
        Ok(v) => v,
        Err(_) => (0, 1),
    };
    assert(r.is(s));
    if r.negative && !is_zero(&r.num) {
        return Err(DimensionError::NotANumber);
    }
    let n = shift(&r.num, 3);
    proof {
        assert(pow10(0) == 1);
        assert(pow10(1) == 10);
        assert(pow10(2) == 100);
        assert(pow10(3) == 1000);
        assert(s.0 == val(r.num@));
    }
    let m = divide_rounded(&n, &r.den, MAX_DIMENSION_MILLI as u64);
    if m >= MAX_DIMENSION_MILLI as u64 {
        Err(DimensionError::TooLarge)
    } else {
        Ok(m as u32)
    }
}

} // verus!
