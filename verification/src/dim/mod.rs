//! Dimension scaling boundary.
//!
//! All dimensional `u32` fields in the domain types are stored as integer
//! **milli-units**: `1` internal unit equals `1 / MILLI_PER_UNIT` of a user unit
//! (`CutSettings::unit`). User-facing edges translate between this scaled
//! integer and human decimal/fraction notation through the functions here.
//! Dimension text is evaluated exactly, then rounded to the nearest milli-unit.

pub mod digits;
pub mod laws;
pub mod notation;
pub mod value;

use vstd::prelude::*;

pub use crate::dim::value::{DimensionError, MAX_DIMENSION_MILLI, MILLI_PER_UNIT};

use crate::dim::value::{dimension_milli, positive_dimension_milli, read_milli};

verus! {

/// The character of the decimal digit `d`.
pub open spec fn digit_char(d: nat) -> char {
    (d + 48) as char
}

pub proof fn lemma_digit_char_zero(d: nat)
    requires
        d < 10,
    ensures
        (digit_char(d) == '0') == (d == 0),
{
    assert('0' as u32 == 48);
    assert(digit_char(d) as u32 == d + 48);
}

/// `n` in decimal notation, without leading zeros.
pub open spec fn decimal_text(n: nat) -> Seq<char>
    decreases n,
{
    if n < 10 {
        seq![digit_char(n)]
    } else {
        decimal_text(n / 10) + seq![digit_char(n % 10)]
    }
}

/// The three digits of `f < 1000`, leading zeros included.
pub open spec fn three_digits(f: nat) -> Seq<char> {
    seq![digit_char(f / 100), digit_char((f / 10) % 10), digit_char(f % 10)]
}

/// `s` without its trailing `0` characters.
pub open spec fn without_trailing_zeros(s: Seq<char>) -> Seq<char>
    decreases s.len(),
{
    if s.len() > 0 && s.last() == '0' {
        without_trailing_zeros(s.drop_last())
    } else {
        s
    }
}

/// Milli-units as a user-facing decimal: the whole units, then, where the
/// milli part is not zero, a point and up to three digits with trailing zeros
/// trimmed.
pub open spec fn dimension_text(milli: u32) -> Seq<char> {
    let whole = milli / MILLI_PER_UNIT;
    let frac = milli % MILLI_PER_UNIT;
    if frac == 0 {
        decimal_text(whole as nat)
    } else {
        decimal_text(whole as nat) + seq!['.'] + without_trailing_zeros(three_digits(frac as nat))
    }
}

/// The message shown for each refusal.
pub open spec fn error_text(e: DimensionError) -> Seq<char> {
    match e {
        DimensionError::NotANumber => "muss eine positive Zahl sein (Dezimal- oder Bruchwert, z. B. 12,5 oder 1/2)"@,
        DimensionError::ZeroDenominator => "Bruch mit Nenner 0 ist ungültig"@,
        DimensionError::TooLarge => "Wert ist zu groß (Maximum "@ + decimal_text(
            (MAX_DIMENSION_MILLI / MILLI_PER_UNIT) as nat,
        ) + " pro Einheit)"@,
        DimensionError::NotPositive => "muss größer als 0 sein"@,
    }
}

/// A parse outcome with each refusal replaced by its message.
pub open spec fn shown(r: Result<u32, DimensionError>) -> Result<u32, Seq<char>> {
    match r {
        Ok(m) => Ok(m),
        Err(e) => Err(error_text(e)),
    }
}

/// A returned result, its message taken by its characters.
pub open spec fn result_view(r: Result<u32, String>) -> Result<u32, Seq<char>> {
    match r {
        Ok(m) => Ok(m),
        Err(s) => Err(s@),
    }
}

/// The one-character text of the digit `d`.
fn digit_str(d: u32) -> (res: &'static str)
    requires
        d < 10,
    ensures
        res@ == seq![digit_char(d as nat)],
{
    if d == 0 {
        proof {
            reveal_strlit("0");
        }
        assert("0"@ =~= seq!['0']);
        "0"
    } else if d == 1 {
        proof {
            reveal_strlit("1");
        }
        assert("1"@ =~= seq!['1']);
        "1"
    } else if d == 2 {
        proof {
            reveal_strlit("2");
        }
        assert("2"@ =~= seq!['2']);
        "2"
    } else if d == 3 {
        proof {
            reveal_strlit("3");
        }
        assert("3"@ =~= seq!['3']);
        "3"
    } else if d == 4 {
        proof {
            reveal_strlit("4");
        }
        assert("4"@ =~= seq!['4']);
        "4"
    } else if d == 5 {
        proof {
            reveal_strlit("5");
        }
        assert("5"@ =~= seq!['5']);
        "5"
    } else if d == 6 {
        proof {
            reveal_strlit("6");
        }
        assert("6"@ =~= seq!['6']);
        "6"
    } else if d == 7 {
        proof {
            reveal_strlit("7");
        }
        assert("7"@ =~= seq!['7']);
        "7"
    } else if d == 8 {
        proof {
            reveal_strlit("8");
        }
        assert("8"@ =~= seq!['8']);
        "8"
    } else {
        proof {
            reveal_strlit("9");
        }
        assert("9"@ =~= seq!['9']);
        "9"
    }
}

/// `n` in decimal notation.
pub fn decimal_string(n: u32) -> (res: String)
    ensures
        res@ == decimal_text(n as nat),
    decreases n,
{
    if n < 10 {
        String::from_str(digit_str(n))
    } else {
        let mut s = decimal_string(n / 10);
        s.append(digit_str(n % 10));
        s
    }
}

/// Format milli-units as a user-facing decimal string with up to 3 fractional digits,
/// trailing zeros trimmed (`12500` → `"12.5"`, `12000` → `"12"`, `125` → `"0.125"`).
pub fn format_dimension(milli: u32) -> (res: String)
    ensures
        res@ == dimension_text(milli),
{
    let whole = milli / MILLI_PER_UNIT;
    let frac = milli % MILLI_PER_UNIT;
    let mut text = decimal_string(whole);
    if frac == 0 {
        return text;
    }
    let a = frac / 100;
    let b = (frac / 10) % 10;
    let c = frac % 10;
    let ghost digits = three_digits(frac as nat);
    proof {
        assert(digits.last() == digit_char(c as nat));
        assert(digits.drop_last() =~= seq![digit_char(a as nat), digit_char(b as nat)]);
        assert(digits.drop_last().drop_last() =~= seq![digit_char(a as nat)]);
        assert(seq![digit_char(a as nat)].drop_last() =~= Seq::<char>::empty());
        assert(a > 0 || b > 0 || c > 0);
    }
    text.append(".");
    text.append(digit_str(a));
    proof {
        reveal_strlit(".");
        assert("."@ =~= seq!['.']);
    }
    if b != 0 || c != 0 {
        text.append(digit_str(b));
        if c != 0 {
            text.append(digit_str(c));
        }
    }
    proof {
        lemma_digit_char_zero(a as nat);
        lemma_digit_char_zero(b as nat);
        lemma_digit_char_zero(c as nat);
        if c != 0 {
            assert(without_trailing_zeros(digits) == digits);
        } else if b != 0 {
            assert(without_trailing_zeros(digits) == without_trailing_zeros(digits.drop_last()));
            assert(without_trailing_zeros(digits.drop_last()) == digits.drop_last());
        } else {
            assert(without_trailing_zeros(digits) == without_trailing_zeros(digits.drop_last()));
            assert(without_trailing_zeros(digits.drop_last()) == without_trailing_zeros(
                digits.drop_last().drop_last(),
            ));
            assert(without_trailing_zeros(digits.drop_last().drop_last())
                == digits.drop_last().drop_last());
        }
        assert(text@ =~= dimension_text(milli));
    }
    text
}

impl DimensionError {
    /// The message shown for this refusal.
    pub fn message(&self) -> (res: String)
        ensures
            res@ == error_text(*self),
    {
        match self {
            DimensionError::NotANumber => format_error_message(),
            DimensionError::ZeroDenominator => String::from_str("Bruch mit Nenner 0 ist ungültig"),
            DimensionError::TooLarge => {
                let mut s = String::from_str("Wert ist zu groß (Maximum ");
                s.append(decimal_string(MAX_DIMENSION_MILLI / MILLI_PER_UNIT).as_str());
                s.append(" pro Einheit)");
                s
            },
            DimensionError::NotPositive => positive_error_message(),
        }
    }
}

fn format_error_message() -> (res: String)
    ensures
        res@ == error_text(DimensionError::NotANumber),
{
    String::from_str("muss eine positive Zahl sein (Dezimal- oder Bruchwert, z. B. 12,5 oder 1/2)")
}

fn positive_error_message() -> (res: String)
    ensures
        res@ == error_text(DimensionError::NotPositive),
{
    String::from_str("muss größer als 0 sein")
}

/// The characters of `text`, one per element.
fn chars_of(text: &str) -> (res: Vec<char>)
    ensures
        res@ == text@,
{
    let mut res: Vec<char> = Vec::new();
    for c in it: text.chars()
        invariant
            res@ == it.seq().take(it.index() as int),
            it.seq() == text@,
    {
        res.push(c);
    }
    res
}

/// Parse a positive user-entered dimension into milli-units.
///
/// Accepts:
/// - decimals with `.` or `,`: `"100"`, `"100.5"`, `"0.125"`, `"100,5"`
/// - proper fractions: `"1/2"`, `"3/8"`
/// - mixed numerals with space or dash: `"3 1/4"`, `"3-1/4"`
///
/// Rejects: empty input, non-numeric tokens, negative values, zero, denominator zero,
/// values at or above `MAX_DIMENSION_MILLI`.
///
/// Result is rounded to the nearest milli-unit, halves up; sub-1/1000 fractions
/// (e.g. 1/64 ≈ 0.0156) round to 3 decimal places.
pub fn parse_dimension(text: &str) -> (res: Result<u32, String>)
    requires
        text@.len() <= isize::MAX,
    ensures
        result_view(res) == shown(positive_dimension_milli(text@)),
{
    let milli = parse_dimension_allowing_zero(text)?;
    if milli == 0 {
        return Err(positive_error_message());
    }
    Ok(milli)
}

/// Same as [`parse_dimension`] but allows zero. Useful for kerf or linear-kerf inputs
/// where zero is a meaningful value (no kerf / disabled linear kerf).
pub fn parse_dimension_allowing_zero(text: &str) -> (res: Result<u32, String>)
    requires
        text@.len() <= isize::MAX,
    ensures
        result_view(res) == shown(dimension_milli(text@)),
{
    let chars = chars_of(text);
    match read_milli(&chars) {
        Ok(m) => Ok(m),
        Err(e) => Err(e.message()),
    }
}

} // verus!
