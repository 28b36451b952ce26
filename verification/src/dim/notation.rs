//! The written form of a dimension: whitespace, number tokens and the
//! separators of fractions and mixed numerals, as sequences of characters.

use vstd::prelude::*;

use crate::dim::digits::{digits_ok, lemma_val_push, pow10, val};

verus! {

/// Unicode `White_Space`, the characters that `str::trim` removes.
pub open spec fn is_ws(c: char) -> bool {
    let u = c as u32;
    ||| 9 <= u <= 13
    ||| u == 32
    ||| u == 0x85
    ||| u == 0xA0
    ||| u == 0x1680
    ||| 0x2000 <= u <= 0x200A
    ||| u == 0x2028
    ||| u == 0x2029
    ||| u == 0x202F
    ||| u == 0x205F
    ||| u == 0x3000
}

/// `s` without leading whitespace.
pub open spec fn trim_start(s: Seq<char>) -> Seq<char>
    decreases s.len(),
{
    if s.len() > 0 && is_ws(s[0]) {
        trim_start(s.drop_first())
    } else {
        s
    }
}

/// `s` without trailing whitespace.
pub open spec fn trim_end(s: Seq<char>) -> Seq<char>
    decreases s.len(),
{
    if s.len() > 0 && is_ws(s.last()) {
        trim_end(s.drop_last())
    } else {
        s
    }
}

/// `s` without whitespace at either end.
pub open spec fn trim(s: Seq<char>) -> Seq<char> {
    trim_end(trim_start(s))
}

pub open spec fn is_digit(c: char) -> bool {
    48 <= c as u32 <= 57
}

pub open spec fn digit_of(c: char) -> nat {
    (c as u32 - 48) as nat
}

pub open spec fn all_digits(s: Seq<char>) -> bool {
    forall|i: int| 0 <= i < s.len() ==> is_digit(s[i])
}

/// The number that the decimal digits `s` spell, most significant first.
pub open spec fn digits_value(s: Seq<char>) -> nat
    decreases s.len(),
{
    if s.len() == 0 {
        0
    } else {
        digits_value(s.drop_last()) * 10 + digit_of(s.last())
    }
}

/// The index of the first `c` in `s`, or the length of `s` where there is none.
pub open spec fn find(s: Seq<char>, c: char) -> nat
    decreases s.len(),
{
    if s.len() == 0 {
        0
    } else if s[0] == c {
        0
    } else {
        1 + find(s.drop_first(), c)
    }
}

pub open spec fn contains(s: Seq<char>, c: char) -> bool {
    find(s, c) < s.len()
}

/// Digits with at most one decimal point, and at least one digit:
/// `12`, `12.5`, `12.`, `.5`. The result is the digits read as one number,
/// and the count of digits after the point.
pub open spec fn unsigned_number(s: Seq<char>) -> Option<(nat, nat)> {
    let k = find(s, '.');
    let whole = s.take(k as int);
    let frac = if k < s.len() {
        s.skip(k + 1 as int)
    } else {
        Seq::empty()
    };
    if all_digits(whole) && all_digits(frac) && whole.len() + frac.len() > 0 {
        Some((digits_value(whole + frac), frac.len()))
    } else {
        None
    }
}

/// An unsigned number with an optional `+` or `-` in front. The result says
/// whether the sign was `-`, then what `unsigned_number` gives.
pub open spec fn signed_number(s: Seq<char>) -> Option<(bool, nat, nat)> {
    if s.len() > 0 && (s[0] == '+' || s[0] == '-') {
        match unsigned_number(s.drop_first()) {
            Some((d, k)) => Some((s[0] == '-', d, k)),
            None => None,
        }
    } else {
        match unsigned_number(s) {
            Some((d, k)) => Some((false, d, k)),
            None => None,
        }
    }
}

/// `s` with each `,` read as `.`.
pub open spec fn commas_as_points(s: Seq<char>) -> Seq<char> {
    s.map_values(|c: char| if c == ',' { '.' } else { c })
}

/// A decimal token: trimmed, with `,` or `.` as the decimal point.
pub open spec fn decimal_token(s: Seq<char>) -> Option<(bool, nat, nat)> {
    signed_number(commas_as_points(trim(s)))
}

/// The whole part of a mixed numeral: trimmed, with `.` as the only point.
pub open spec fn whole_token(s: Seq<char>) -> Option<(bool, nat, nat)> {
    signed_number(trim(s))
}

/// The number a token stands for, as a numerator and a denominator.
pub open spec fn token_ratio(n: (bool, nat, nat)) -> (int, nat) {
    (
        if n.0 {
            -(n.1 as int)
        } else {
            n.1 as int
        },
        pow10(n.2),
    )
}

pub open spec fn is_separator(c: char) -> bool {
    c == ' ' || c == '-'
}

/// Some `/` stands after position `i`.
pub open spec fn slash_after(t: Seq<char>, i: int) -> bool {
    exists|j: int| i < j < t.len() && t[j] == '/'
}

/// The first position from `i` on of a space or dash with a `/` after it.
pub open spec fn split_from(t: Seq<char>, i: int) -> Option<int>
    decreases t.len() - i,
{
    if i < 0 || i >= t.len() {
        None
    } else if is_separator(t[i]) && slash_after(t, i) {
        Some(i)
    } else {
        split_from(t, i + 1)
    }
}

/// Where a mixed numeral such as `3 1/4` or `3-1/4` splits into its whole
/// part and its fraction: the first space or dash after the first character
/// that has a `/` somewhere after it.
pub open spec fn mixed_split(t: Seq<char>) -> Option<int> {
    split_from(t, 1)
}

// ---------------------------------------------------------------------------
// Lemmas
pub proof fn lemma_find_bounds(s: Seq<char>, c: char)
    ensures
        find(s, c) <= s.len(),
        forall|j: int| 0 <= j < find(s, c) ==> s[j] != c,
        find(s, c) < s.len() ==> s[find(s, c) as int] == c,
    decreases s.len(),
{
    if s.len() > 0 && s[0] != c {
        lemma_find_bounds(s.drop_first(), c);
        assert forall|j: int| 0 <= j < find(s, c) implies s[j] != c by {
            if j > 0 {
                assert(s[j] == s.drop_first()[j - 1]);
            }
        }
    }
}

/// A first digit placed in front counts `10^len` times.
pub proof fn lemma_digits_value_cons(c: char, s: Seq<char>)
    ensures
        digits_value(seq![c] + s) == digit_of(c) * pow10(s.len()) + digits_value(s),
    decreases s.len(),
{
    let t = seq![c] + s;
    if s.len() == 0 {
        assert(t.drop_last() =~= Seq::<char>::empty());
        assert(t.last() == c);
        assert(digits_value(t.drop_last()) == 0);
        assert(digit_of(c) * pow10(0) == digit_of(c)) by (nonlinear_arith)
            requires
                pow10(0) == 1,
        ;
    } else {
        assert(t.drop_last() =~= seq![c] + s.drop_last());
        assert(t.last() == s.last());
        lemma_digits_value_cons(c, s.drop_last());
        let p = pow10((s.len() - 1) as nat);
        assert(pow10(s.len()) == 10 * p);
        let dc = digit_of(c);
        let rest = digits_value(s.drop_last());
        assert((dc * p + rest) * 10 + digit_of(s.last()) == dc * (10 * p) + (rest * 10 + digit_of(
            s.last(),
        ))) by (nonlinear_arith);
    }
}

pub proof fn lemma_trim_start_skip(s: Seq<char>, i: int)
    requires
        0 <= i <= s.len(),
        forall|j: int| 0 <= j < i ==> is_ws(s[j]),
    ensures
        trim_start(s) == trim_start(s.skip(i)),
    decreases i,
{
    if i > 0 {
        assert(s.skip(1) =~= s.drop_first());
        lemma_trim_start_skip(s.drop_first(), i - 1);
        assert(s.drop_first().skip(i - 1) =~= s.skip(i));
    } else {
        assert(s.skip(0) =~= s);
    }
}

pub proof fn lemma_trim_end_take(s: Seq<char>, i: int)
    requires
        0 <= i <= s.len(),
        forall|j: int| i <= j < s.len() ==> is_ws(s[j]),
    ensures
        trim_end(s) == trim_end(s.take(i)),
    decreases s.len() - i,
{
    if i < s.len() {
        lemma_trim_end_take(s.drop_last(), i);
        assert(s.drop_last().take(i) =~= s.take(i));
    } else {
        assert(s.take(i) =~= s);
    }
}

// ---------------------------------------------------------------------------
// Executable counterparts
pub fn char_is_ws(c: char) -> (res: bool)
    ensures
        res == is_ws(c),
{
    let u = c as u32;
    (9 <= u && u <= 13) || u == 32 || u == 0x85 || u == 0xA0 || u == 0x1680 || (0x2000 <= u && u
        <= 0x200A) || u == 0x2028 || u == 0x2029 || u == 0x202F || u == 0x205F || u == 0x3000
}

/// The characters `t[lo..hi]`.
pub fn copy_range(t: &Vec<char>, lo: usize, hi: usize) -> (res: Vec<char>)
    requires
        lo <= hi <= t.len(),
    ensures
        res@ == t@.subrange(lo as int, hi as int),
{
    let mut res: Vec<char> = Vec::new();
    let mut i = lo;
    while i < hi
        invariant
            lo <= i <= hi,
            hi <= t.len(),
            res@ == t@.subrange(lo as int, i as int),
        decreases hi - i,
    {
        res.push(t[i]);
        i = i + 1;
        assert(res@ =~= t@.subrange(lo as int, i as int));
    }
    res
}

/// `t` without whitespace at either end.
pub fn trimmed(t: &Vec<char>) -> (res: Vec<char>)
    ensures
        res@ == trim(t@),
{
    let mut lo: usize = 0;
    while lo < t.len() && char_is_ws(t[lo])
        invariant
            lo <= t.len(),
            forall|j: int| 0 <= j < lo ==> is_ws(t@[j]),
        decreases t.len() - lo,
    {
        lo = lo + 1;
    }
    proof {
        lemma_trim_start_skip(t@, lo as int);
        if lo < t.len() {
            assert(t@.skip(lo as int)[0] == t@[lo as int]);
        }
    }
    let ghost rest = t@.skip(lo as int);
    assert(trim_start(t@) == rest);
    let mut hi: usize = t.len();
    while hi > lo && char_is_ws(t[hi - 1])
        invariant
            lo <= hi <= t.len(),
            rest == t@.skip(lo as int),
            forall|j: int| hi <= j < t.len() ==> is_ws(t@[j]),
        decreases hi,
    {
        hi = hi - 1;
    }
    proof {
        let h = hi - lo;
        assert forall|j: int| h <= j < rest.len() implies is_ws(rest[j]) by {
            assert(rest[j] == t@[j + lo]);
        }
        lemma_trim_end_take(rest, h);
        let kept = rest.take(h);
        assert(kept =~= t@.subrange(lo as int, hi as int));
        if h > 0 {
            assert(kept.last() == t@[hi - 1]);
        }
    }
    copy_range(t, lo, hi)
}

/// The index of the first `c` in `t`, or its length.
pub fn find_char(t: &Vec<char>, c: char) -> (res: usize)
    ensures
        res == find(t@, c),
{
    proof {
        lemma_find_bounds(t@, c);
    }
    let mut i: usize = 0;
    while i < t.len()
        invariant
            i <= t.len(),
            forall|j: int| 0 <= j < i ==> t@[j] != c,
            find(t@, c) <= t.len(),
            forall|j: int| 0 <= j < find(t@, c) ==> t@[j] != c,
            find(t@, c) < t.len() ==> t@[find(t@, c) as int] == c,
        decreases t.len() - i,
    {
        if t[i] == c {
            return i;
        }
        i = i + 1;
    }
    i
}

/// `t` with each `,` replaced by `.`.
pub fn commas_to_points(t: &Vec<char>) -> (res: Vec<char>)
    ensures
        res@ == commas_as_points(t@),
{
    let mut res: Vec<char> = Vec::new();
    let mut i: usize = 0;
    while i < t.len()
        invariant
            i <= t.len(),
            res@ == commas_as_points(t@.take(i as int)),
        decreases t.len() - i,
    {
        let c = t[i];
        res.push(
            if c == ',' {
                '.'
            } else {
                c
            },
        );
        i = i + 1;
        assert(res@ =~= commas_as_points(t@.take(i as int)));
    }
    assert(t@.take(t.len() as int) =~= t@);
    res
}

pub fn char_is_digit(c: char) -> (res: bool)
    ensures
        res == is_digit(c),
{
    let u = c as u32;
    48 <= u && u <= 57
}

/// Whether `t[lo..hi]` holds only digits.
pub fn range_all_digits(t: &Vec<char>, lo: usize, hi: usize) -> (res: bool)
    requires
        lo <= hi <= t.len(),
    ensures
        res == all_digits(t@.subrange(lo as int, hi as int)),
{
    let mut i = lo;
    while i < hi
        invariant
            lo <= i <= hi,
            hi <= t.len(),
            forall|j: int| lo <= j < i ==> is_digit(t@[j]),
        decreases hi - i,
    {
        if !char_is_digit(t[i]) {
            assert(t@.subrange(lo as int, hi as int)[i - lo] == t@[i as int]);
            return false;
        }
        i = i + 1;
    }
    assert forall|j: int| 0 <= j < hi - lo implies is_digit(
        t@.subrange(lo as int, hi as int)[j],
    ) by {
        assert(t@.subrange(lo as int, hi as int)[j] == t@[j + lo]);
    }
    true
}

/// The digits `w` as a number held least significant digit first.
pub fn digits_number(w: &Vec<char>) -> (res: Vec<u8>)
    requires
        all_digits(w@),
    ensures
        digits_ok(res@),
        val(res@) == digits_value(w@),
        res.len() == w.len(),
{
    let mut res: Vec<u8> = Vec::new();
    let mut j: usize = w.len();
    assert(w@.skip(w.len() as int) =~= Seq::<char>::empty());
    while j > 0
        invariant
            j <= w.len(),
            all_digits(w@),
            digits_ok(res@),
            res.len() == w.len() - j,
            val(res@) == digits_value(w@.skip(j as int)),
        decreases j,
    {
        let c = w[j - 1];
        assert(is_digit(c));
        let d: u8 = (c as u32 - 48) as u8;
        proof {
            assert(w@.skip(j - 1) =~= seq![c] + w@.skip(j as int));
            lemma_digits_value_cons(c, w@.skip(j as int));
            lemma_val_push(res@, d);
        }
        res.push(d);
        j = j - 1;
    }
    assert(w@.skip(0) =~= w@);
    res
}

/// A number token held exactly: the sign, the digits without the point
/// (least significant first) and how many of them stand after the point.
pub struct Number {
    pub negative: bool,
    pub digits: Vec<u8>,
    pub scale: usize,
}

impl Number {
    /// This number is the token value `n`.
    pub open spec fn is(&self, n: (bool, nat, nat)) -> bool {
        &&& self.negative == n.0
        &&& digits_ok(self.digits@)
        &&& val(self.digits@) == n.1
        &&& self.scale == n.2
    }
}

/// Reads `t` as an unsigned number.
pub fn read_unsigned(t: &Vec<char>) -> (res: Option<(Vec<u8>, usize)>)
    ensures
        match (res, unsigned_number(t@)) {
            (Some((d, k)), Some((sd, sk))) => digits_ok(d@) && val(d@) == sd && k == sk
                && d.len() <= t.len() && k <= t.len(),
            (None, None) => true,
            _ => false,
        },
{
    let k = find_char(t, '.');
    proof {
        lemma_find_bounds(t@, '.');
    }
    let has_point = k < t.len();
    let frac_start: usize = if has_point {
        k + 1
    } else {
        t.len()
    };
    let ghost whole = t@.take(k as int);
    let ghost frac = if has_point {
        t@.skip(k + 1 as int)
    } else {
        Seq::<char>::empty()
    };
    assert(whole =~= t@.subrange(0, k as int));
    assert(frac =~= t@.subrange(frac_start as int, t.len() as int));
    if !range_all_digits(t, 0, k) || !range_all_digits(t, frac_start, t.len()) {
        return None;
    }
    let frac_len = t.len() - frac_start;
    if k + frac_len == 0 {
        return None;
    }
    let mut w = copy_range(t, 0, k);
    let rest = copy_range(t, frac_start, t.len());
    let mut i: usize = 0;
    while i < rest.len()
        invariant
            i <= rest.len(),
            w@ == whole + rest@.take(i as int),
            whole == t@.subrange(0, k as int),
            rest@ == frac,
            whole.len() == k,
            k + rest.len() <= t.len(),
        decreases rest.len() - i,
    {
        w.push(rest[i]);
        i = i + 1;
        assert(w@ =~= whole + rest@.take(i as int));
    }
    assert(rest@.take(rest.len() as int) =~= rest@);
    assert(all_digits(w@)) by {
        assert forall|j: int| 0 <= j < w@.len() implies is_digit(w@[j]) by {
            if j < k {
                assert(w@[j] == whole[j]);
            } else {
                assert(w@[j] == frac[j - k]);
            }
        }
    }
    let digits = digits_number(&w);
    Some((digits, frac_len))
}

/// Reads `t` as a signed number.
pub fn read_signed(t: &Vec<char>) -> (res: Option<Number>)
    ensures
        match (res, signed_number(t@)) {
            (Some(n), Some(s)) => n.is(s) && n.digits.len() <= t.len() && n.scale <= t.len(),
            (None, None) => true,
            _ => false,
        },
{
    if t.len() > 0 && (t[0] == '+' || t[0] == '-') {
        let negative = t[0] == '-';
        let body = copy_range(t, 1, t.len());
        assert(body@ =~= t@.drop_first());
        match read_unsigned(&body) {
            Some((digits, scale)) => Some(Number { negative, digits, scale }),
            None => None,
        }
    } else {
        match read_unsigned(t) {
            Some((digits, scale)) => Some(Number { negative: false, digits, scale }),
            None => None,
        }
    }
}

/// Reads `t` as a decimal token.
pub fn read_decimal(t: &Vec<char>) -> (res: Option<Number>)
    ensures
        match (res, decimal_token(t@)) {
            (Some(n), Some(s)) => n.is(s) && n.digits.len() <= t.len() && n.scale <= t.len(),
            (None, None) => true,
            _ => false,
        },
{
    let s = trimmed(t);
    let s = commas_to_points(&s);
    proof {
        lemma_trim_len(t@);
    }
    read_signed(&s)
}

/// Reads `t` as the whole part of a mixed numeral.
pub fn read_whole(t: &Vec<char>) -> (res: Option<Number>)
    ensures
        match (res, whole_token(t@)) {
            (Some(n), Some(s)) => n.is(s) && n.digits.len() <= t.len() && n.scale <= t.len(),
            (None, None) => true,
            _ => false,
        },
{
    let s = trimmed(t);
    proof {
        lemma_trim_len(t@);
    }
    read_signed(&s)
}

pub proof fn lemma_trim_len(s: Seq<char>)
    ensures
        trim(s).len() <= s.len(),
{
    lemma_trim_start_len(s);
    lemma_trim_end_len(trim_start(s));
}

proof fn lemma_trim_start_len(s: Seq<char>)
    ensures
        trim_start(s).len() <= s.len(),
    decreases s.len(),
{
    if s.len() > 0 && is_ws(s[0]) {
        lemma_trim_start_len(s.drop_first());
    }
}

proof fn lemma_trim_end_len(s: Seq<char>)
    ensures
        trim_end(s).len() <= s.len(),
    decreases s.len(),
{
    if s.len() > 0 && is_ws(s.last()) {
        lemma_trim_end_len(s.drop_last());
    }
}

/// The position of the last `/` in `t`, if any.
pub fn last_slash(t: &Vec<char>) -> (res: Option<usize>)
    ensures
        match res {
            Some(p) => p < t.len() && t@[p as int] == '/' && forall|j: int|
                p < j < t.len() ==> t@[j] != '/',
            None => forall|j: int| 0 <= j < t.len() ==> t@[j] != '/',
        },
{
    let mut i: usize = t.len();
    while i > 0
        invariant
            i <= t.len(),
            forall|j: int| i <= j < t.len() ==> t@[j] != '/',
        decreases i,
    {
        if t[i - 1] == '/' {
            return Some(i - 1);
        }
        i = i - 1;
    }
    None
}

/// Where `t` splits as a mixed numeral.
pub fn split_mixed(t: &Vec<char>) -> (res: Option<usize>)
    ensures
        match (res, mixed_split(t@)) {
            (Some(i), Some(si)) => i == si && 0 < i < t.len(),
            (None, None) => true,
            _ => false,
        },
{
    let last = last_slash(t);
    let mut i: usize = 1;
    if t.len() == 0 {
        return None;
    }
    while i < t.len()
        invariant
            1 <= i <= t.len(),
            split_from(t@, 1) == split_from(t@, i as int),
            match last {
                Some(p) => p < t.len() && t@[p as int] == '/' && forall|j: int|
                    p < j < t.len() ==> t@[j] != '/',
                None => forall|j: int| 0 <= j < t.len() ==> t@[j] != '/',
            },
        decreases t.len() - i,
    {
        let c = t[i];
        let after = match last {
            Some(p) => i < p,
            None => false,
        };
        assert(after == slash_after(t@, i as int)) by {
            match last {
                Some(p) => {
                    if i < p {
                        assert(t@[p as int] == '/');
                    }
                },
                None => {},
            }
        }
        if (c == ' ' || c == '-') && after {
            return Some(i);
        }
        i = i + 1;
    }
    None
}

} // verus!
