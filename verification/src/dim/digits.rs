//! Unbounded natural numbers held as decimal digits, least significant first.
//!
//! Dimension text may carry any number of digits, so exact arithmetic on the
//! numbers it denotes needs more room than a machine word. These numbers only
//! ever get added, multiplied, shifted by powers of ten, compared and divided
//! once, so a plain digit vector is enough.

use vstd::prelude::*;

verus! {

/// `10^n`.
pub open spec fn pow10(n: nat) -> nat
    decreases n,
{
    if n == 0 {
        1
    } else {
        10 * pow10((n - 1) as nat)
    }
}

/// The digit at position `i`, or 0 past either end.
pub open spec fn dig(s: Seq<u8>, i: int) -> nat {
    if 0 <= i < s.len() {
        s[i] as nat
    } else {
        0
    }
}

/// The value of the `i` least significant digits of `s`.
pub open spec fn val_upto(s: Seq<u8>, i: nat) -> nat
    decreases i,
{
    if i == 0 {
        0
    } else {
        val_upto(s, (i - 1) as nat) + dig(s, i - 1) * pow10((i - 1) as nat)
    }
}

/// The number that the digits `s` (least significant first) stand for.
pub open spec fn val(s: Seq<u8>) -> nat {
    val_upto(s, s.len())
}

/// Every element of `s` is a decimal digit.
pub open spec fn digits_ok(s: Seq<u8>) -> bool {
    forall|i: int| 0 <= i < s.len() ==> s[i] < 10
}

/// `n` rounded to the nearest multiple of `m`, halves rounded up, counted in
/// multiples of `m`.
pub open spec fn round_half_up(n: nat, m: nat) -> nat
    recommends
        m > 0,
{
    n / m + if 2 * (n % m) >= m {
        1nat
    } else {
        0nat
    }
}

pub proof fn lemma_pow10_pos(n: nat)
    ensures
        pow10(n) >= 1,
    decreases n,
{
    if n > 0 {
        lemma_pow10_pos((n - 1) as nat);
    }
}

pub proof fn lemma_pow10_add(a: nat, b: nat)
    ensures
        pow10(a + b) == pow10(a) * pow10(b),
    decreases a,
{
    if a > 0 {
        lemma_pow10_add((a - 1) as nat, b);
        assert(pow10(a) == 10 * pow10((a - 1) as nat));
        assert(pow10(a + b) == 10 * pow10(((a - 1) as nat + b) as nat));
        assert(10 * (pow10((a - 1) as nat) * pow10(b)) == (10 * pow10((a - 1) as nat)) * pow10(b))
            by (nonlinear_arith);
    } else {
        assert(pow10(a) * pow10(b) == pow10(b)) by (nonlinear_arith)
            requires
                pow10(a) == 1,
        ;
    }
}

pub proof fn lemma_pow10_mono(a: nat, b: nat)
    requires
        a <= b,
    ensures
        pow10(a) <= pow10(b),
    decreases b,
{
    if a < b {
        lemma_pow10_mono(a, (b - 1) as nat);
    }
}

/// Digits below 10 bound the value by the next power of ten.
pub proof fn lemma_val_upto_bound(s: Seq<u8>, i: nat)
    requires
        digits_ok(s),
    ensures
        val_upto(s, i) < pow10(i),
    decreases i,
{
    if i > 0 {
        let j = (i - 1) as nat;
        lemma_val_upto_bound(s, j);
        let p = pow10(j);
        let d = dig(s, j as int);
        assert(d <= 9);
        assert(d * p <= 9 * p) by (nonlinear_arith)
            requires
                d <= 9,
        ;
    }
}

pub proof fn lemma_val_bound(s: Seq<u8>)
    requires
        digits_ok(s),
    ensures
        val(s) < pow10(s.len()),
{
    lemma_val_upto_bound(s, s.len());
}

/// Positions at or past the end add nothing.
pub proof fn lemma_val_upto_beyond(s: Seq<u8>, i: nat)
    requires
        i >= s.len(),
    ensures
        val_upto(s, i) == val(s),
    decreases i,
{
    if i > s.len() {
        lemma_val_upto_beyond(s, (i - 1) as nat);
        lemma_zero_times(dig(s, i - 1), pow10((i - 1) as nat));
    }
}

/// The value up to `i` depends on the digits below `i` alone.
pub proof fn lemma_val_upto_agree(s: Seq<u8>, t: Seq<u8>, i: nat)
    requires
        forall|j: int| 0 <= j < i ==> dig(s, j) == dig(t, j),
    ensures
        val_upto(s, i) == val_upto(t, i),
    decreases i,
{
    if i > 0 {
        lemma_val_upto_agree(s, t, (i - 1) as nat);
    }
}

/// A digit placed in front becomes the least significant one.
pub proof fn lemma_val_upto_cons(d: u8, s: Seq<u8>, i: nat)
    ensures
        val_upto(seq![d] + s, i + 1) == d + 10 * val_upto(s, i),
    decreases i,
{
    let t = seq![d] + s;
    if i == 0 {
        assert(dig(t, 0) == d);
        assert(pow10(0) == 1);
        assert(val_upto(t, 1) == val_upto(t, 0) + dig(t, 0) * pow10(0));
        assert(dig(t, 0) * pow10(0) == dig(t, 0)) by (nonlinear_arith)
            requires
                pow10(0) == 1,
        ;
    } else {
        let j = (i - 1) as nat;
        lemma_val_upto_cons(d, s, j);
        assert(dig(t, i as int) == dig(s, j as int));
        let a = val_upto(s, j);
        let b = dig(s, j as int);
        let p = pow10(j);
        assert(pow10(i) == 10 * p);
        assert(d + 10 * a + b * (10 * p) == d + 10 * (a + b * p)) by (nonlinear_arith);
    }
}

pub proof fn lemma_val_cons(d: u8, s: Seq<u8>)
    ensures
        val(seq![d] + s) == d + 10 * val(s),
{
    lemma_val_upto_cons(d, s, s.len());
    assert((seq![d] + s).len() == s.len() + 1);
}

/// A digit pushed at the end becomes the most significant one.
pub proof fn lemma_val_push(s: Seq<u8>, d: u8)
    ensures
        val(s.push(d)) == val(s) + d * pow10(s.len()),
{
    let t = s.push(d);
    lemma_val_upto_agree(s, t, s.len());
    assert(dig(t, s.len() as int) == d);
}

/// Zero digits at the most significant end change nothing.
pub proof fn lemma_val_push_zero(s: Seq<u8>)
    ensures
        val(s.push(0)) == val(s),
{
    lemma_val_push(s, 0);
}

/// `k` zero digits in front multiply by `10^k`.
pub proof fn lemma_val_shift(k: nat, s: Seq<u8>)
    ensures
        val(Seq::new(k, |i: int| 0u8) + s) == pow10(k) * val(s),
    decreases k,
{
    if k > 0 {
        let z = Seq::new(k, |i: int| 0u8);
        let z1 = Seq::new((k - 1) as nat, |i: int| 0u8);
        assert(z + s =~= seq![0u8] + (z1 + s));
        lemma_val_shift((k - 1) as nat, s);
        lemma_val_cons(0, z1 + s);
        assert(pow10(k) == 10 * pow10((k - 1) as nat));
        assert(10 * (pow10((k - 1) as nat) * val(s)) == (10 * pow10((k - 1) as nat)) * val(s))
            by (nonlinear_arith);
    } else {
        assert(Seq::new(k, |i: int| 0u8) + s =~= s);
        assert(pow10(k) * val(s) == val(s)) by (nonlinear_arith)
            requires
                pow10(k) == 1,
        ;
    }
}

/// Some nonzero digit makes the value nonzero.
pub proof fn lemma_val_upto_ge_digit(s: Seq<u8>, i: nat, j: int)
    requires
        0 <= j < i,
    ensures
        val_upto(s, i) >= dig(s, j) * pow10(j as nat),
    decreases i,
{
    if j < i - 1 {
        lemma_val_upto_ge_digit(s, (i - 1) as nat, j);
    }
}

pub proof fn lemma_val_zero_iff(s: Seq<u8>)
    ensures
        val(s) == 0 <==> (forall|j: int| 0 <= j < s.len() ==> s[j] == 0),
{
    if forall|j: int| 0 <= j < s.len() ==> s[j] == 0 {
        lemma_all_zero(s, s.len());
    } else {
        let j = choose|j: int| 0 <= j < s.len() && s[j] != 0;
        lemma_val_upto_ge_digit(s, s.len(), j);
        lemma_pow10_pos(j as nat);
        assert(dig(s, j) * pow10(j as nat) >= 1) by (nonlinear_arith)
            requires
                dig(s, j) >= 1,
                pow10(j as nat) >= 1,
        ;
    }
}

proof fn lemma_all_zero(s: Seq<u8>, i: nat)
    requires
        forall|j: int| 0 <= j < s.len() ==> s[j] == 0,
    ensures
        val_upto(s, i) == 0,
    decreases i,
{
    if i > 0 {
        lemma_all_zero(s, (i - 1) as nat);
        assert(dig(s, i - 1) == 0);
        lemma_zero_times(dig(s, i - 1), pow10((i - 1) as nat));
    }
}

proof fn lemma_zero_times(a: nat, b: nat)
    requires
        a == 0,
    ensures
        a * b == 0,
{
}

/// `round_half_up` from a quotient and remainder found some other way.
pub proof fn lemma_round_from_divmod(n: nat, m: nat, q: nat, r: nat)
    requires
        m > 0,
        r < m,
        n == q * m + r,
    ensures
        round_half_up(n, m) == q + if 2 * r >= m {
            1nat
        } else {
            0nat
        },
{
    vstd::arithmetic::div_mod::lemma_fundamental_div_mod_converse(n as int, m as int, q as int, r as int);
}

/// The digits of `a`, `k` places further up.
pub fn shift(a: &Vec<u8>, k: usize) -> (res: Vec<u8>)
    requires
        digits_ok(a@),
        a.len() + k <= usize::MAX,
    ensures
        digits_ok(res@),
        val(res@) == pow10(k as nat) * val(a@),
        res.len() == a.len() + k,
{
    let mut res: Vec<u8> = Vec::new();
    let mut i: usize = 0;
    while i < k
        invariant
            i <= k,
            res@ == Seq::new(i as nat, |j: int| 0u8),
        decreases k - i,
    {
        res.push(0);
        i = i + 1;
        assert(res@ =~= Seq::new(i as nat, |j: int| 0u8));
    }
    let ghost zeros = res@;
    let mut j: usize = 0;
    while j < a.len()
        invariant
            j <= a.len(),
            zeros == Seq::new(k as nat, |j: int| 0u8),
            res@ == zeros + a@.take(j as int),
        decreases a.len() - j,
    {
        res.push(a[j]);
        j = j + 1;
        assert(res@ =~= zeros + a@.take(j as int));
    }
    assert(a@.take(a.len() as int) =~= a@);
    proof {
        lemma_val_shift(k as nat, a@);
    }
    res
}

/// `10^k`.
pub fn power_of_ten(k: usize) -> (res: Vec<u8>)
    requires
        k < usize::MAX,
    ensures
        digits_ok(res@),
        val(res@) == pow10(k as nat),
        res.len() == k + 1,
{
    let one: Vec<u8> = vec![1u8];
    proof {
        lemma_val_push(Seq::<u8>::empty(), 1);
        assert(one@ =~= Seq::<u8>::empty().push(1));
    }
    shift(&one, k)
}

/// Whether the value is zero.
pub fn is_zero(a: &Vec<u8>) -> (res: bool)
    ensures
        res == (val(a@) == 0),
{
    let mut i: usize = 0;
    while i < a.len()
        invariant
            i <= a.len(),
            forall|j: int| 0 <= j < i ==> a@[j] == 0,
        decreases a.len() - i,
    {
        if a[i] != 0 {
            proof {
                lemma_val_zero_iff(a@);
                assert(a@[i as int] != 0);
            }
            return false;
        }
        i = i + 1;
    }
    proof {
        lemma_val_zero_iff(a@);
    }
    true
}

/// `acc + d * b`.
pub fn add_scaled(acc: &Vec<u8>, b: &Vec<u8>, d: u8) -> (res: Vec<u8>)
    requires
        digits_ok(acc@),
        digits_ok(b@),
        d < 10,
        acc.len() < usize::MAX,
        b.len() < usize::MAX,
    ensures
        digits_ok(res@),
        val(res@) == val(acc@) + d * val(b@),
        res.len() <= if acc.len() >= b.len() {
            acc.len()
        } else {
            b.len()
        } + 1,
{
    let n: usize = if acc.len() >= b.len() {
        acc.len()
    } else {
        b.len()
    };
    let mut res: Vec<u8> = Vec::new();
    let mut carry: u32 = 0;
    let mut i: usize = 0;
    assert(d * val_upto(b@, 0) == 0) by (nonlinear_arith)
        requires
            val_upto(b@, 0) == 0,
    ;
    assert(carry * pow10(0) == 0) by (nonlinear_arith)
        requires
            carry == 0,
    ;
    while i < n
        invariant
            i <= n,
            n == if acc.len() >= b.len() {
                acc.len()
            } else {
                b.len()
            },
            res.len() == i,
            digits_ok(res@),
            digits_ok(acc@),
            digits_ok(b@),
            d < 10,
            carry < 10,
            val(res@) + carry * pow10(i as nat) == val_upto(acc@, i as nat) + d * val_upto(
                b@,
                i as nat,
            ),
        decreases n - i,
    {
        let x: u32 = if i < acc.len() {
            acc[i] as u32
        } else {
            0
        };
        let y: u32 = if i < b.len() {
            b[i] as u32
        } else {
            0
        };
        assert((d as u32) * y <= 81) by (nonlinear_arith)
            requires
                d < 10,
                y < 10,
        ;
        let c: u32 = x + (d as u32) * y + carry;
        let low: u8 = (c % 10) as u8;
        let high: u32 = c / 10;
        proof {
            assert(x == dig(acc@, i as int));
            assert(y == dig(b@, i as int));
            assert((d as u32) * y <= 81) by (nonlinear_arith)
                requires
                    d < 10,
                    y < 10,
            ;
            let p = pow10(i as nat);
            let vr = val(res@);
            let va = val_upto(acc@, i as nat);
            let vb = val_upto(b@, i as nat);
            lemma_val_push(res@, low);
            assert(pow10((i + 1) as nat) == 10 * p);
            assert(c == 10 * high + low);
            assert(vr + carry * p == va + d * vb);
            assert(vr + low * p + high * (10 * p) == va + x * p + d * (vb + y * p))
                by (nonlinear_arith)
                requires
                    vr + carry * p == va + d * vb,
                    c == 10 * high + low,
                    c == x + d * y + carry,
            ;
        }
        res.push(low);
        carry = high;
        i = i + 1;
    }
    proof {
        lemma_val_upto_beyond(acc@, n as nat);
        lemma_val_upto_beyond(b@, n as nat);
    }
    if carry > 0 {
        proof {
            lemma_val_push(res@, carry as u8);
        }
        res.push(carry as u8);
    }
    res
}

/// `a * b`.
pub fn multiply(a: &Vec<u8>, b: &Vec<u8>) -> (res: Vec<u8>)
    requires
        digits_ok(a@),
        digits_ok(b@),
        a.len() + b.len() + 1 < usize::MAX,
    ensures
        digits_ok(res@),
        val(res@) == val(a@) * val(b@),
        res.len() <= a.len() + b.len() + 1,
{
    let mut acc: Vec<u8> = Vec::new();
    let mut j: usize = 0;
    while j < b.len()
        invariant
            j <= b.len(),
            digits_ok(a@),
            digits_ok(b@),
            digits_ok(acc@),
            a.len() + b.len() + 1 < usize::MAX,
            acc.len() <= a.len() + j + 1,
            val(acc@) == val(a@) * val_upto(b@, j as nat),
        decreases b.len() - j,
    {
        let shifted = shift(a, j);
        let d = b[j];
        let ghost before = val(acc@);
        acc = add_scaled(&acc, &shifted, d);
        proof {
            let va = val(a@);
            let vb = val_upto(b@, j as nat);
            let p = pow10(j as nat);
            assert(d == dig(b@, j as int));
            assert(va * vb + d * (p * va) == va * (vb + d * p)) by (nonlinear_arith);
        }
        j = j + 1;
    }
    proof {
        lemma_val_upto_beyond(b@, b.len() as nat);
    }
    acc
}

/// Compares `a` with `b` and, where `a >= b`, subtracts.
pub fn compare_subtract(a: &Vec<u8>, b: &Vec<u8>) -> (res: (Vec<u8>, bool))
    requires
        digits_ok(a@),
        digits_ok(b@),
    ensures
        res.1 == (val(a@) >= val(b@)),
        digits_ok(res.0@),
        res.1 ==> val(res.0@) == val(a@) - val(b@),
        res.0.len() == if a.len() >= b.len() {
            a.len()
        } else {
            b.len()
        },
{
    let n: usize = if a.len() >= b.len() {
        a.len()
    } else {
        b.len()
    };
    let mut res: Vec<u8> = Vec::new();
    let mut borrow: u8 = 0;
    let mut i: usize = 0;
    assert(borrow * pow10(0) == 0) by (nonlinear_arith)
        requires
            borrow == 0,
    ;
    while i < n
        invariant
            i <= n,
            n == if a.len() >= b.len() {
                a.len()
            } else {
                b.len()
            },
            res.len() == i,
            digits_ok(res@),
            digits_ok(a@),
            digits_ok(b@),
            borrow <= 1,
            val(res@) - borrow * pow10(i as nat) == val_upto(a@, i as nat) - val_upto(
                b@,
                i as nat,
            ),
        decreases n - i,
    {
        let x: u8 = if i < a.len() {
            a[i]
        } else {
            0
        };
        let y: u8 = if i < b.len() {
            b[i]
        } else {
            0
        };
        let low: u8;
        let next: u8;
        if x >= y + borrow {
            low = x - y - borrow;
            next = 0;
        } else {
            low = 10 + x - y - borrow;
            next = 1;
        }
        proof {
            assert(x == dig(a@, i as int));
            assert(y == dig(b@, i as int));
            let p = pow10(i as nat);
            let vr = val(res@);
            lemma_val_push(res@, low);
            assert(pow10((i + 1) as nat) == 10 * p);
            assert(low as int == x - y - borrow + 10 * next);
            assert((vr + low * p) - next * (10 * p) == (vr - borrow * p) + x * p - y * p)
                by (nonlinear_arith)
                requires
                    low as int == x - y - borrow + 10 * next,
            ;
        }
        res.push(low);
        borrow = next;
        i = i + 1;
    }
    proof {
        lemma_val_upto_beyond(a@, n as nat);
        lemma_val_upto_beyond(b@, n as nat);
        lemma_val_bound(res@);
    }
    (res, borrow == 0)
}

/// Removes zero digits from the most significant end.
pub fn normalize(a: &mut Vec<u8>)
    requires
        digits_ok(old(a)@),
    ensures
        digits_ok(final(a)@),
        val(final(a)@) == val(old(a)@),
        final(a).len() <= old(a).len(),
        final(a).len() == 0 || final(a)@[final(a).len() - 1] != 0,
{
    while a.len() > 0 && a[a.len() - 1] == 0
        invariant
            digits_ok(a@),
            val(a@) == val(old(a)@),
            a.len() <= old(a).len(),
        decreases a.len(),
    {
        let ghost before = a@;
        a.pop();
        proof {
            assert(before =~= a@.push(0));
            lemma_val_push_zero(a@);
        }
    }
}

/// `n / m` rounded half up, or `limit` where that is `limit` or more.
pub fn divide_rounded(n: &Vec<u8>, m: &Vec<u8>, limit: u64) -> (res: u64)
    requires
        digits_ok(n@),
        digits_ok(m@),
        val(m@) > 0,
        limit <= 1_000_000_000,
        m.len() + 2 < usize::MAX,
    ensures
        res == if round_half_up(val(n@), val(m@)) >= limit {
            limit as nat
        } else {
            round_half_up(val(n@), val(m@))
        },
{
    let ghost mv = val(m@);
    let mut r: Vec<u8> = Vec::new();
    let mut q: u64 = 0;
    let ghost mut qt: nat = 0;
    let mut i: usize = n.len();
    assert(n@.skip(n.len() as int) =~= Seq::<u8>::empty());
    while i > 0
        invariant
            i <= n.len(),
            digits_ok(n@),
            digits_ok(m@),
            digits_ok(r@),
            mv == val(m@),
            mv > 0,
            limit <= 1_000_000_000,
            m.len() + 2 < usize::MAX,
            r.len() <= m.len(),
            val(n@.skip(i as int)) == qt * mv + val(r@),
            val(r@) < mv,
            q == if qt >= limit {
                limit as nat
            } else {
                qt
            },
        decreases i,
    {
        let d = n[i - 1];
        let ghost r_before = val(r@);
        let ghost r_seq = r@;
        r.insert(0, d);
        proof {
            assert(n@.skip(i - 1) =~= seq![d] + n@.skip(i as int));
            lemma_val_cons(d, n@.skip(i as int));
            lemma_val_cons(d, r_seq);
            assert(r@ =~= seq![d] + r_seq);
            assert(val(r@) == d + 10 * r_before);
            assert(val(r@) < 10 * mv) by (nonlinear_arith)
                requires
                    val(r@) == d + 10 * r_before,
                    d < 10,
                    r_before < mv,
                    r_before + 1 <= mv,
            ;
        }
        let ghost r0 = val(r@);
        let mut k: u64 = 0;
        loop
            invariant
                digits_ok(r@),
                digits_ok(m@),
                mv == val(m@),
                mv > 0,
                r0 == k * mv + val(r@),
                r0 < 10 * mv,
                r.len() <= m.len() + 1,
            ensures
                val(r@) < mv,
                r0 == k * mv + val(r@),
                k < 10,
                digits_ok(r@),
                r.len() <= m.len() + 1,
            decreases val(r@),
        {
            let (diff, ok) = compare_subtract(&r, m);
            if !ok {
                proof {
                    assert(k < 10) by (nonlinear_arith)
                        requires
                            r0 == k * mv + val(r@),
                            r0 < 10 * mv,
                            mv > 0,
                    ;
                }
                break;
            }
            proof {
                assert(k + 1 < 10) by (nonlinear_arith)
                    requires
                        r0 == k * mv + val(r@),
                        val(r@) >= mv,
                        r0 < 10 * mv,
                        mv > 0,
                ;
                assert(r0 == (k + 1) * mv + val(diff@)) by (nonlinear_arith)
                    requires
                        r0 == k * mv + val(r@),
                        val(diff@) == val(r@) - mv,
                ;
            }
            r = diff;
            normalize(&mut r);
            k = k + 1;
        }
        normalize(&mut r);
        proof {
            if r.len() > m.len() {
                let top = (r.len() - 1) as int;
                lemma_val_upto_ge_digit(r@, r.len() as nat, top);
                lemma_val_bound(m@);
                lemma_pow10_mono(m.len() as nat, top as nat);
                assert(dig(r@, top) * pow10(top as nat) >= pow10(top as nat)) by (nonlinear_arith)
                    requires
                        dig(r@, top) >= 1,
                ;
            }
            assert(val(n@.skip(i - 1)) == (10 * qt + k) * mv + val(r@)) by (nonlinear_arith)
                requires
                    val(n@.skip(i - 1)) == d + 10 * val(n@.skip(i as int)),
                    val(n@.skip(i as int)) == qt * mv + r_before,
                    r0 == d + 10 * r_before,
                    r0 == k * mv + val(r@),
            ;
        }
        let ghost qt_next: nat = (10 * qt + k) as nat;
        if q >= limit {
            proof {
                assert(qt_next >= limit) by (nonlinear_arith)
                    requires
                        qt >= limit,
                        qt_next == 10 * qt + k,
                ;
            }
        } else {
            let v = q * 10 + k;
            q = if v >= limit {
                limit
            } else {
                v
            };
        }
        proof {
            qt = qt_next;
        }
        i = i - 1;
    }
    assert(n@.skip(0) =~= n@);
    proof {
        lemma_round_from_divmod(val(n@), mv, qt, val(r@));
    }
    let twice = add_scaled(&r, &r, 1);
    let (_, up) = compare_subtract(&twice, m);
    if q >= limit {
        limit
    } else {
        let v = q + if up {
            1u64
        } else {
            0u64
        };
        if v >= limit {
            limit
        } else {
            v
        }
    }
}

} // verus!
