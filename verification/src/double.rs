//! IEEE 754 binary64 arithmetic on plain integers.
//!
//! Quotas arrive as binary64 numbers, and what the meter shows depends on how
//! every sum, product and quotient of them is rounded. `Double` holds the 64
//! bits of such a number; each operation is proved to return the binary64
//! number nearest to the exact result, ties going to the even significand.

use vstd::arithmetic::power2::{
    lemma2_to64, lemma2_to64_rest, lemma_pow2_adds, lemma_pow2_pos, lemma_pow2_strictly_increases,
    lemma_pow2_unfold, pow2,
};
use crate::text::{decimal, digit, digit_char, push_decimal, push_shifted};
use vstd::prelude::*;

verus! {

/// What a `Double` stands for. `Fin` is `mant * 2^(exp - 1074)`, negated when
/// `neg` is set.
pub enum Value {
    Nan,
    Inf { neg: bool },
    Fin { neg: bool, mant: nat, exp: nat },
}

/// A binary64 number, held as its bits.
#[derive(Clone, Copy, Debug, PartialEq, Eq, Structural)]
pub struct Double {
    pub bits: u64,
}

/// The parts of a finite number while it is being worked on.
#[derive(Clone, Copy)]
struct Parts {
    neg: bool,
    mant: u64,
    exp: u32,
}

const P52: u64 = 0x10_0000_0000_0000;

const P53: u64 = 0x20_0000_0000_0000;

const P54: u128 = 0x40_0000_0000_0000;

const P63: u64 = 0x8000_0000_0000_0000;

/// The exponent of the largest finite numbers.
const MAX_EXP: u32 = 2045;

/// The exponent at which a significand counts whole units.
const UNIT_EXP: u32 = 1074;

/// How far below the smallest positive number an exact result is followed.
const SUB: u32 = 2200;

impl View for Double {
    type V = Value;

    open spec fn view(&self) -> Value {
        let biased = (self.bits / 0x10_0000_0000_0000) % 2048;
        let frac = (self.bits % 0x10_0000_0000_0000) as nat;
        let neg = self.bits >= 0x8000_0000_0000_0000;
        if biased == 2047 {
            if frac == 0 {
                Value::Inf { neg }
            } else {
                Value::Nan
            }
        } else if biased == 0 {
            Value::Fin { neg, mant: frac, exp: 0 }
        } else {
            Value::Fin { neg, mant: frac + 0x10_0000_0000_0000, exp: (biased - 1) as nat }
        }
    }
}

/// The significand and exponent a finite number is written with.
pub open spec fn canonical(mant: nat, exp: nat) -> bool {
    &&& mant < 0x20_0000_0000_0000
    &&& exp <= 2045
    &&& mant >= 0x10_0000_0000_0000 || exp == 0
}

/// `num / den` rounded to a natural number, ties to even.
pub open spec fn nearest(num: nat, den: nat) -> nat {
    let q = num / den;
    let r = num % den;
    if 2 * r > den || (2 * r == den && q % 2 == 1) {
        q + 1
    } else {
        q
    }
}

/// The least exponent at which `num / den` fits in 53 bits.
pub open spec fn scale(num: nat, den: nat) -> nat
    decreases num - den,
{
    if den == 0 || num < 0x20_0000_0000_0000 * den {
        0
    } else {
        1 + scale(num, 2 * den)
    }
}

/// The number nearest to `num / den` steps of `2^-1074`, ties to even, with the
/// given sign; infinite when that lies beyond the largest finite number.
pub open spec fn rounded(neg: bool, num: nat, den: nat) -> Value {
    let k = scale(num, den);
    let m = nearest(num, pow2(k) * den);
    let (mant, exp) = if m == 0x20_0000_0000_0000 {
        (0x10_0000_0000_0000nat, k + 1)
    } else {
        (m, k)
    };
    if exp > 2045 {
        Value::Inf { neg }
    } else {
        Value::Fin { neg, mant, exp }
    }
}

proof fn lemma_scale(num: nat, den: nat, k: nat)
    requires
        den > 0,
        num < 0x20_0000_0000_0000 * (pow2(k) * den),
        k == 0 || 0x10_0000_0000_0000 * (pow2(k) * den) <= num,
    ensures
        scale(num, den) == k,
    decreases k,
{
    lemma2_to64();
    if k > 0 {
        lemma_pow2_unfold(k);
        lemma_pow2_pos((k - 1) as nat);
        let p = pow2((k - 1) as nat);
        assert(pow2(k) * den == p * (2 * den)) by (nonlinear_arith)
            requires
                pow2(k) == 2 * p,
        ;
        assert(p * (2 * den) >= 2 * den) by (nonlinear_arith)
            requires
                p >= 1,
        ;
        if k == 1 {
            assert(p * (2 * den) == 2 * den) by (nonlinear_arith)
                requires
                    p == 1,
            ;
        }
        lemma_scale(num, 2 * den, (k - 1) as nat);
    } else {
        assert(pow2(k) * den == den) by (nonlinear_arith)
            requires
                pow2(k) == 1,
        ;
    }
}

/// `nearest` read off the quotient `n` of twice the dividend.
proof fn lemma_nearest(num: nat, d: nat, n: nat, sticky: bool)
    requires
        d > 0,
        n * d <= 2 * num < (n + 1) * d,
        sticky <==> n * d != 2 * num,
    ensures
        nearest(num, d) == n / 2 + (if n % 2 == 1 && (sticky || (n / 2) % 2 == 1) {
            1nat
        } else {
            0nat
        }),
{
    let h = n / 2;
    let b = n % 2;
    let r = num - h * d;
    assert(n * d == 2 * (h * d) + b * d) by (nonlinear_arith)
        requires
            n == 2 * h + b,
    ;
    assert((n + 1) * d == n * d + d) by (nonlinear_arith);
    assert(b * d == if b == 1 { d } else { 0 }) by (nonlinear_arith)
        requires
            b == 0 || b == 1,
    ;
    vstd::arithmetic::div_mod::lemma_fundamental_div_mod_converse(
        num as int,
        d as int,
        h as int,
        r as int,
    );
}

impl Double {
    /// The number with the given bits.
    pub fn from_bits(bits: u64) -> (r: Double)
        ensures
            r.bits == bits,
    {
        Double { bits }
    }

    /// The parts of a finite number; `None` for the others.
    fn parts(self) -> (r: Option<Parts>)
        ensures
            match r {
                Some(p) => self@ == (Value::Fin {
                    neg: p.neg,
                    mant: p.mant as nat,
                    exp: p.exp as nat,
                }) && canonical(p.mant as nat, p.exp as nat),
                None => !(self@ is Fin),
            },
    {
        let biased = (self.bits / P52) % 2048;
        let frac = self.bits % P52;
        let neg = self.bits >= P63;
        if biased == 2047 {
            None
        } else if biased == 0 {
            Some(Parts { neg, mant: frac, exp: 0 })
        } else {
            Some(Parts { neg, mant: frac + P52, exp: (biased - 1) as u32 })
        }
    }

    fn from_parts(neg: bool, mant: u64, exp: u32) -> (r: Double)
        requires
            canonical(mant as nat, exp as nat),
        ensures
            r@ == (Value::Fin { neg, mant: mant as nat, exp: exp as nat }),
    {
        let sign: u64 = if neg { P63 } else { 0 };
        let (biased, frac): (u64, u64) = if mant >= P52 {
            (exp as u64 + 1, mant - P52)
        } else {
            (0, mant)
        };
        Double { bits: sign + biased * P52 + frac }
    }

    pub fn nan() -> (r: Double)
        ensures
            r@ is Nan,
    {
        Double { bits: 0x7FF8_0000_0000_0000 }
    }

    pub fn infinity(neg: bool) -> (r: Double)
        ensures
            r@ == (Value::Inf { neg }),
    {
        let sign: u64 = if neg { P63 } else { 0 };
        Double { bits: sign + 0x7FF0_0000_0000_0000 }
    }
}

proof fn lemma_cancel(n: nat, q: nat, d: nat, num: nat, s: nat)
    requires
        s > 0,
        2 * q == d * s,
        n * q <= num * s < (n + 1) * q,
    ensures
        n * d <= 2 * num < (n + 1) * d,
        n * q == num * s <==> n * d == 2 * num,
{
    assert(2 * (n * q) == (n * d) * s && 2 * ((n + 1) * q) == ((n + 1) * d) * s && 2 * (num * s)
        == (2 * num) * s) by (nonlinear_arith)
        requires
            2 * q == d * s,
    ;
    let a = n * d;
    let b = (n + 1) * d;
    let c = 2 * num;
    assert(a <= c) by (nonlinear_arith)
        requires
            a * s <= c * s,
            s > 0,
    ;
    assert(c < b) by (nonlinear_arith)
        requires
            c * s < b * s,
            s > 0,
    ;
    assert(a * s == c * s ==> a == c) by (nonlinear_arith)
        requires
            s > 0,
    ;
}

proof fn lemma_shift_bound(n: nat, d: nat, n0: u128)
    requires
        n * pow2(d) <= n0,
    ensures
        n > 0 ==> d < 128,
        (n / 2) * pow2(d + 1) <= n0,
{
    lemma_pow2_unfold(d + 1);
    lemma_pow2_pos(d);
    let p = pow2(d);
    assert((n / 2) * (2 * p) <= n * p) by (nonlinear_arith);
    if n > 0 && d >= 128 {
        assert(n * p >= p) by (nonlinear_arith)
            requires
                n >= 1,
        ;
        lemma2_to64();
        lemma_pow2_adds(64, 64);
        if d > 128 {
            lemma_pow2_strictly_increases(128, d);
        }
    }
}

/// Rounds the exact result `num / den`, known as `n0` whole steps of
/// `2^(ee0 - SUB)`, and a rest when `sticky0`.
fn pack(
    neg: bool,
    n0: u128,
    ee0: u32,
    sticky0: bool,
    Ghost(num): Ghost<nat>,
    Ghost(den): Ghost<nat>,
) -> (r: Double)
    requires
        den > 0,
        n0 * (pow2(ee0 as nat) * den) <= num * pow2(SUB as nat) < (n0 + 1) * (pow2(ee0 as nat)
            * den),
        sticky0 <==> n0 * (pow2(ee0 as nat) * den) != num * pow2(SUB as nat),
        sticky0 ==> n0 >= P54,
        ee0 <= 10000,
    ensures
        r@ == rounded(neg, num, den),
{
    let ghost x = num * pow2(SUB as nat);
    proof {
        lemma2_to64();
        assert(n0 * pow2(0) == n0) by (nonlinear_arith)
            requires
                pow2(0) == 1,
        ;
    }
    let mut n: u128 = n0;
    let mut ee: u32 = ee0;
    let mut sticky: bool = sticky0;
    while n >= P54 || ee < SUB - 1
        invariant
            den > 0,
            n * (pow2(ee as nat) * den) <= x < (n + 1) * (pow2(ee as nat) * den),
            sticky <==> n * (pow2(ee as nat) * den) != x,
            sticky ==> n >= P53 || ee <= SUB - 1,
            ee0 <= 10000,
            ee >= ee0,
            n * pow2((ee - ee0) as nat) <= n0,
            ee <= SUB - 1 || ee <= ee0 + 128,
        decreases n, SUB - ee,
    {
        proof {
            lemma_shift_bound(n as nat, (ee - ee0) as nat, n0);
            lemma_pow2_unfold((ee + 1) as nat);
            let q = pow2(ee as nat) * den;
            let h = (n / 2) as int;
            let b = (n % 2) as int;
            assert(pow2((ee + 1) as nat) * den == 2 * q) by (nonlinear_arith)
                requires
                    pow2((ee + 1) as nat) == 2 * pow2(ee as nat),
                    q == pow2(ee as nat) * den,
            ;
            assert(n * q == h * (2 * q) + b * q) by (nonlinear_arith)
                requires
                    n == 2 * h + b,
            ;
            assert((n + 1) * q == n * q + q && (h + 1) * (2 * q) == h * (2 * q) + 2 * q) by (nonlinear_arith);
            assert(b * q == if b == 1 { q as int } else { 0 }) by (nonlinear_arith)
                requires
                    b == 0 || b == 1,
            ;
            lemma_pow2_pos(ee as nat);
            assert(q > 0) by (nonlinear_arith)
                requires
                    q == pow2(ee as nat) * den,
                    pow2(ee as nat) > 0,
                    den > 0,
            ;
        }
        sticky = sticky || n % 2 == 1;
        n = n / 2;
        ee = ee + 1;
    }
    while n < P53 as u128 && ee > SUB - 1
        invariant
            den > 0,
            n < P54,
            ee >= SUB - 1,
            n * (pow2(ee as nat) * den) <= x < (n + 1) * (pow2(ee as nat) * den),
            sticky <==> n * (pow2(ee as nat) * den) != x,
            sticky ==> n >= P53 || ee <= SUB - 1,
            ee <= 10128,
        decreases ee,
    {
        proof {
            lemma_pow2_unfold(ee as nat);
            let q = pow2((ee - 1) as nat) * den;
            lemma_pow2_pos((ee - 1) as nat);
            assert(pow2(ee as nat) * den == 2 * q) by (nonlinear_arith)
                requires
                    pow2(ee as nat) == 2 * pow2((ee - 1) as nat),
                    q == pow2((ee - 1) as nat) * den,
            ;
            assert(n * (2 * q) == (2 * n) * q && (2 * n + 1) * q == (2 * n) * q + q) by (nonlinear_arith);
            assert(q > 0) by (nonlinear_arith)
                requires
                    q == pow2((ee - 1) as nat) * den,
                    pow2((ee - 1) as nat) > 0,
                    den > 0,
            ;
        }
        n = n * 2;
        ee = ee - 1;
    }
    let k: u32 = ee + 1 - SUB;
    let half: u64 = (n / 2) as u64;
    let up = n % 2 == 1 && (sticky || half % 2 == 1);
    let m: u64 = if up { half + 1 } else { half };
    proof {
        let q = pow2(ee as nat) * den;
        let s = pow2(SUB as nat);
        let d = pow2(k as nat) * den;
        lemma_pow2_pos(k as nat);
        lemma_pow2_pos(SUB as nat);
        lemma_pow2_adds(k as nat, SUB as nat);
        lemma_pow2_unfold((ee + 1) as nat);
        assert(2 * q == d * s) by (nonlinear_arith)
            requires
                q == pow2(ee as nat) * den,
                d == pow2(k as nat) * den,
                pow2(k as nat) * s == 2 * pow2(ee as nat),
        ;
        assert(d > 0) by (nonlinear_arith)
            requires
                d == pow2(k as nat) * den,
                pow2(k as nat) > 0,
                den > 0,
        ;
        lemma_cancel(n as nat, q, d, num, s);
        lemma_nearest(num, d, n as nat, sticky);
        assert((n + 1) * d <= 0x40_0000_0000_0000 * d) by (nonlinear_arith)
            requires
                n + 1 <= 0x40_0000_0000_0000,
        ;
        if k > 0 {
            assert(n * d >= 0x20_0000_0000_0000 * d) by (nonlinear_arith)
                requires
                    n >= 0x20_0000_0000_0000,
            ;
        }
        lemma_scale(num, den, k as nat);
    }
    let (mant, exp): (u64, u32) = if m == P53 {
        (P52, k + 1)
    } else {
        (m, k)
    };
    if exp > MAX_EXP {
        Double::infinity(neg)
    } else {
        Double::from_parts(neg, mant, exp)
    }
}

/// The product, rounded once.
pub open spec fn times(a: Value, b: Value) -> Value {
    match (a, b) {
        (Value::Fin { neg: n1, mant: m1, exp: e1 }, Value::Fin { neg: n2, mant: m2, exp: e2 }) => rounded(
            n1 != n2,
            (m1 * m2) * pow2(e1 + e2),
            pow2(1074),
        ),
        (Value::Inf { neg: n1 }, Value::Inf { neg: n2 }) => Value::Inf { neg: n1 != n2 },
        (Value::Inf { neg: n1 }, Value::Fin { neg: n2, mant, .. }) => if mant == 0 {
            Value::Nan
        } else {
            Value::Inf { neg: n1 != n2 }
        },
        (Value::Fin { neg: n1, mant, .. }, Value::Inf { neg: n2 }) => if mant == 0 {
            Value::Nan
        } else {
            Value::Inf { neg: n1 != n2 }
        },
        _ => Value::Nan,
    }
}

/// The quotient, rounded once.
pub open spec fn over(a: Value, b: Value) -> Value {
    match (a, b) {
        (Value::Fin { neg: n1, mant: m1, exp: e1 }, Value::Fin { neg: n2, mant: m2, exp: e2 }) => {
            if m2 > 0 {
                rounded(n1 != n2, m1 * pow2(e1 + 1074), m2 * pow2(e2))
            } else if m1 > 0 {
                Value::Inf { neg: n1 != n2 }
            } else {
                Value::Nan
            }
        },
        (Value::Inf { neg: n1 }, Value::Fin { neg: n2, .. }) => Value::Inf { neg: n1 != n2 },
        (Value::Fin { neg: n1, .. }, Value::Inf { neg: n2 }) => Value::Fin {
            neg: n1 != n2,
            mant: 0,
            exp: 0,
        },
        _ => Value::Nan,
    }
}

/// The number nearest to `num / den`.
pub open spec fn ratio_value(num: nat, den: nat) -> Value {
    rounded(false, num * pow2(1074), den)
}

/// The sign of a value that is not a NaN.
pub open spec fn negative(v: Value) -> bool {
    match v {
        Value::Nan => false,
        Value::Inf { neg } => neg,
        Value::Fin { neg, .. } => neg,
    }
}

proof fn lemma_doublings(m1: nat, d: nat, m: nat)
    requires
        m1 > 0,
        m == m1 * pow2(d),
    ensures
        m < 0x8000_0000_0000_0000 ==> d < 63,
        2 * m == m1 * pow2(d + 1),
{
    lemma_pow2_unfold(d + 1);
    let p = pow2(d);
    assert(m1 * p >= p && m1 * (2 * p) == 2 * (m1 * p)) by (nonlinear_arith)
        requires
            m1 >= 1,
    ;
    if d >= 63 {
        lemma2_to64_rest();
        if d > 63 {
            lemma_pow2_strictly_increases(63, d);
        }
    }
}

proof fn lemma_quotient(num: nat, m: nat, e: nat, m2: nat, e2: nat, ee: nat, n: nat)
    requires
        num * pow2(64) == m * pow2(e),
        m2 > 0,
        ee + 128 + e2 == e + SUB,
        n == (m * pow2(64)) / m2,
    ensures
        ({
            let q = pow2(ee) * (m2 * pow2(e2));
            let x = num * pow2(SUB as nat);
            &&& n * q <= x < (n + 1) * q
            &&& n * q == x <==> (m * pow2(64)) % m2 == 0
        }),
{
    let w = m * pow2(64);
    let t = pow2(ee + e2);
    lemma_pow2_pos(ee + e2);
    lemma_pow2_adds(ee, e2);
    lemma_pow2_adds(64, (SUB - 64) as nat);
    lemma_pow2_adds(e, (SUB - 64) as nat);
    lemma_pow2_adds(64, ee + e2);
    let q = pow2(ee) * (m2 * pow2(e2));
    let x = num * pow2(SUB as nat);
    let z = pow2((SUB - 64) as nat);
    assert(q == m2 * t) by (nonlinear_arith)
        requires
            q == pow2(ee) * (m2 * pow2(e2)),
            t == pow2(ee) * pow2(e2),
    ;
    assert(x == w * t) by (nonlinear_arith)
        requires
            x == num * (pow2(64) * z),
            num * pow2(64) == m * pow2(e),
            w == m * pow2(64),
            pow2(64) * t == pow2(e) * z,
    ;
    vstd::arithmetic::div_mod::lemma_fundamental_div_mod(w as int, m2 as int);
    let r = w % m2;
    assert(n * q == w * t - r * t && (n + 1) * q == w * t - r * t + m2 * t) by (nonlinear_arith)
        requires
            w == m2 * n + r,
            q == m2 * t,
    ;
    assert(0 <= r * t < m2 * t && (r * t == 0 <==> r == 0)) by (nonlinear_arith)
        requires
            0 <= r < m2,
            t > 0,
    ;
}

/// `(m1 * 2^e1) / (m2 * 2^e2)` smallest steps, rounded.
fn quotient(neg: bool, m1: u64, e1: u32, m2: u64, e2: u32) -> (r: Double)
    requires
        m2 > 0,
        e1 <= 4000,
        e2 <= 2045,
    ensures
        r@ == rounded(neg, m1 as nat * pow2(e1 as nat), m2 as nat * pow2(e2 as nat)),
{
    let ghost num = m1 as nat * pow2(e1 as nat);
    let ghost den = m2 as nat * pow2(e2 as nat);
    proof {
        lemma2_to64();
        lemma_pow2_pos(e2 as nat);
        assert(den > 0) by (nonlinear_arith)
            requires
                den == m2 as nat * pow2(e2 as nat),
                m2 > 0,
                pow2(e2 as nat) > 0,
        ;
        lemma_pow2_adds(e1 as nat, 64);
        assert(num * pow2(64) == m1 * (pow2(e1 as nat) * pow2(64))) by (nonlinear_arith)
            requires
                num == m1 as nat * pow2(e1 as nat),
        ;
    }
    if m1 == 0 {
        proof {
            assert(num == 0) by (nonlinear_arith)
                requires
                    num == m1 as nat * pow2(e1 as nat),
                    m1 == 0,
            ;
            assert(num * pow2(SUB as nat) == 0 && 0 * (pow2(0) * den) == 0 && 1 * (pow2(0) * den) == den) by (nonlinear_arith)
                requires
                    num == 0,
                    pow2(0) == 1,
            ;
        }
        return pack(neg, 0, 0, false, Ghost(num), Ghost(den));
    }
    proof {
        assert(m1 as nat * pow2(0) == m1) by (nonlinear_arith)
            requires
                pow2(0) == 1,
        ;
    }
    let mut m: u64 = m1;
    let mut e: u32 = e1 + 64;
    while m < P63
        invariant
            0 < m,
            e1 + 1 <= e <= e1 + 64,
            e1 <= 4000,
            num * pow2(64) == m as nat * pow2(e as nat),
            m1 as nat * pow2((e1 + 64 - e) as nat) == m,
            m1 > 0,
        decreases e,
    {
        proof {
            lemma_doublings(m1 as nat, (e1 + 64 - e) as nat, m as nat);
            lemma_pow2_unfold(e as nat);
            assert(m as nat * (2 * pow2((e - 1) as nat)) == (2 * m as nat) * pow2((e - 1) as nat)) by (nonlinear_arith);
        }
        m = m * 2;
        e = e - 1;
    }
    let w: u128 = m as u128 * 0x1_0000_0000_0000_0000;
    let n: u128 = w / (m2 as u128);
    let sticky = w % (m2 as u128) != 0;
    let ee: u32 = e + SUB - 128 - e2;
    proof {
        lemma_quotient(num, m as nat, e as nat, m2 as nat, e2 as nat, ee as nat, n as nat);
        assert(n >= 0x4000_0000_0000_0000) by {
            vstd::arithmetic::div_mod::lemma_div_is_ordered_by_denominator(
                w as int,
                m2 as int,
                0x1_0000_0000_0000_0000,
            );
        }
    }
    pack(neg, n, ee, sticky, Ghost(num), Ghost(den))
}

impl Double {
    /// The number nearest to `num / den`, ties to even.
    pub fn ratio(num: u64, den: u64) -> (r: Double)
        requires
            den > 0,
        ensures
            r@ == ratio_value(num as nat, den as nat),
    {
        proof {
            lemma2_to64();
        }
        quotient(false, num, UNIT_EXP, den, 0)
    }

    /// The number nearest to `n`: what `n as f64` gives.
    pub fn from_u64(n: u64) -> (r: Double)
        ensures
            r@ == ratio_value(n as nat, 1),
    {
        Double::ratio(n, 1)
    }

    pub fn is_nan(self) -> (r: bool)
        ensures
            r == (self@ is Nan),
    {
        (self.bits / P52) % 2048 == 2047 && self.bits % P52 != 0
    }

    pub fn is_finite(self) -> (r: bool)
        ensures
            r == (self@ is Fin),
    {
        (self.bits / P52) % 2048 != 2047
    }

    /// Whether the sign bit is set.
    fn sign(self) -> (r: bool)
        ensures
            !(self@ is Nan) ==> r == negative(self@),
    {
        self.bits >= P63
    }

    /// `self * other`, rounded.
    pub fn mul(self, other: Double) -> (r: Double)
        ensures
            r@ == times(self@, other@),
    {
        let neg = self.sign() != other.sign();
        match (self.parts(), other.parts()) {
            (Some(a), Some(b)) => {
                assert(a.mant * b.mant <= 0x20_0000_0000_0000 * 0x20_0000_0000_0000) by (nonlinear_arith)
                    requires
                        a.mant < 0x20_0000_0000_0000,
                        b.mant < 0x20_0000_0000_0000,
                ;
                let n: u128 = a.mant as u128 * b.mant as u128;
                let ee: u32 = a.exp + b.exp + (SUB - UNIT_EXP);
                let ghost m = a.mant as nat * b.mant as nat;
                let ghost num = m * pow2((a.exp + b.exp) as nat);
                let ghost den = pow2(1074);
                proof {
                    assert(n == m && n < 0x20_0000_0000_0000 * 0x20_0000_0000_0000) by (nonlinear_arith)
                        requires
                            n == a.mant as u128 * b.mant as u128,
                            m == a.mant as nat * b.mant as nat,
                            a.mant < 0x20_0000_0000_0000,
                            b.mant < 0x20_0000_0000_0000,
                    ;
                    lemma_pow2_pos(1074);
                    lemma_pow2_pos((a.exp + b.exp + SUB) as nat);
                    lemma_pow2_adds(ee as nat, 1074);
                    lemma_pow2_adds((a.exp + b.exp) as nat, SUB as nat);
                    let z = pow2((a.exp + b.exp + SUB) as nat);
                    assert(num * pow2(SUB as nat) == m * z) by (nonlinear_arith)
                        requires
                            num == m * pow2((a.exp + b.exp) as nat),
                            z == pow2((a.exp + b.exp) as nat) * pow2(SUB as nat),
                    ;
                    assert((n + 1) * z == m * z + z) by (nonlinear_arith)
                        requires
                            n == m,
                    ;
                }
                pack(neg, n, ee, false, Ghost(num), Ghost(den))
            },
            (Some(a), None) => if other.is_nan() || a.mant == 0 {
                Double::nan()
            } else {
                Double::infinity(neg)
            },
            (None, Some(b)) => if self.is_nan() || b.mant == 0 {
                Double::nan()
            } else {
                Double::infinity(neg)
            },
            (None, None) => if self.is_nan() || other.is_nan() {
                Double::nan()
            } else {
                Double::infinity(neg)
            },
        }
    }

    /// `self / other`, rounded.
    pub fn div(self, other: Double) -> (r: Double)
        ensures
            r@ == over(self@, other@),
    {
        let neg = self.sign() != other.sign();
        match (self.parts(), other.parts()) {
            (Some(a), Some(b)) => {
                if b.mant > 0 {
                    quotient(neg, a.mant, a.exp + UNIT_EXP, b.mant, b.exp)
                } else if a.mant > 0 {
                    Double::infinity(neg)
                } else {
                    Double::nan()
                }
            },
            (Some(_), None) => if other.is_nan() {
                Double::nan()
            } else {
                Double::from_parts(neg, 0, 0)
            },
            (None, Some(_)) => if self.is_nan() {
                Double::nan()
            } else {
                Double::infinity(neg)
            },
            (None, None) => Double::nan(),
        }
    }
}

/// The signed number of smallest steps in a finite number.
pub open spec fn steps(neg: bool, mant: nat, exp: nat) -> int {
    if neg {
        -(mant * pow2(exp))
    } else {
        (mant * pow2(exp)) as int
    }
}

/// The sum, rounded once. An exact zero is positive unless both terms are
/// negative.
pub open spec fn plus(a: Value, b: Value) -> Value {
    match (a, b) {
        (Value::Fin { neg: n1, mant: m1, exp: e1 }, Value::Fin { neg: n2, mant: m2, exp: e2 }) => {
            let s = steps(n1, m1, e1) + steps(n2, m2, e2);
            if s == 0 {
                Value::Fin { neg: n1 && n2, mant: 0, exp: 0 }
            } else if s < 0 {
                rounded(true, (-s) as nat, 1)
            } else {
                rounded(false, s as nat, 1)
            }
        },
        (Value::Inf { neg: n1 }, Value::Inf { neg: n2 }) => if n1 == n2 {
            a
        } else {
            Value::Nan
        },
        (Value::Inf { .. }, Value::Fin { .. }) => a,
        (Value::Fin { .. }, Value::Inf { .. }) => b,
        _ => Value::Nan,
    }
}

/// The same magnitude under the other sign.
pub open spec fn negated(v: Value) -> Value {
    match v {
        Value::Nan => Value::Nan,
        Value::Inf { neg } => Value::Inf { neg: !neg },
        Value::Fin { neg, mant, exp } => Value::Fin { neg: !neg, mant, exp },
    }
}

/// The difference, rounded once.
pub open spec fn minus(a: Value, b: Value) -> Value {
    plus(a, negated(b))
}

/// `a < b`; false when either is a NaN.
pub open spec fn less(a: Value, b: Value) -> bool {
    match (a, b) {
        (Value::Fin { neg: n1, mant: m1, exp: e1 }, Value::Fin { neg: n2, mant: m2, exp: e2 }) => steps(
            n1,
            m1,
            e1,
        ) < steps(n2, m2, e2),
        (Value::Inf { neg: n1 }, Value::Inf { neg: n2 }) => n1 && !n2,
        (Value::Inf { neg: n1 }, Value::Fin { .. }) => n1,
        (Value::Fin { .. }, Value::Inf { neg: n2 }) => !n2,
        _ => false,
    }
}

/// `a <= b`; false when either is a NaN.
pub open spec fn at_most(a: Value, b: Value) -> bool {
    !(a is Nan) && !(b is Nan) && !less(b, a)
}

/// The larger of two values, and the other one when one is a NaN.
pub open spec fn larger(a: Value, b: Value) -> Value {
    if a is Nan || less(a, b) {
        b
    } else {
        a
    }
}

/// Canonical magnitudes are ordered by exponent, then significand.
proof fn lemma_order(m1: nat, e1: nat, m2: nat, e2: nat)
    requires
        canonical(m1, e1),
        canonical(m2, e2),
    ensures
        m1 * pow2(e1) < m2 * pow2(e2) <==> (e1 < e2 || (e1 == e2 && m1 < m2)),
        m1 * pow2(e1) == m2 * pow2(e2) <==> (e1 == e2 && m1 == m2),
{
    if e1 < e2 {
        lemma_order_strict(m1, e1, m2, e2);
    } else if e2 < e1 {
        lemma_order_strict(m2, e2, m1, e1);
    } else {
        lemma_pow2_pos(e1);
        let p = pow2(e1);
        assert((m1 * p < m2 * p <==> m1 < m2) && (m1 * p == m2 * p <==> m1 == m2)) by (nonlinear_arith)
            requires
                p > 0,
        ;
    }
}

proof fn lemma_order_strict(m1: nat, e1: nat, m2: nat, e2: nat)
    requires
        canonical(m1, e1),
        canonical(m2, e2),
        e1 < e2,
    ensures
        m1 * pow2(e1) < m2 * pow2(e2),
{
    let d = (e2 - e1 - 1) as nat;
    lemma_pow2_adds(e1, d + 1);
    lemma_pow2_unfold(d + 1);
    lemma_pow2_pos(d);
    lemma_pow2_pos(e1);
    let p = pow2(e1);
    let c = pow2(d);
    assert(m1 * p < m2 * (p * (2 * c))) by (nonlinear_arith)
        requires
            m1 < 0x20_0000_0000_0000,
            m2 >= 0x10_0000_0000_0000,
            p > 0,
            c >= 1,
    ;
}

impl Double {
    /// `-self`.
    pub fn negate(self) -> (r: Double)
        ensures
            r@ == negated(self@),
    {
        if self.bits >= P63 {
            Double { bits: self.bits - P63 }
        } else {
            Double { bits: self.bits + P63 }
        }
    }

    /// `self < other`.
    pub fn lt(self, other: Double) -> (r: bool)
        ensures
            r == less(self@, other@),
    {
        match (self.parts(), other.parts()) {
            (Some(a), Some(b)) => {
                proof {
                    lemma_order(a.mant as nat, a.exp as nat, b.mant as nat, b.exp as nat);
                    lemma_order(b.mant as nat, b.exp as nat, a.mant as nat, a.exp as nat);
                    lemma_pow2_pos(a.exp as nat);
                    lemma_pow2_pos(b.exp as nat);
                    lemma_zero_product(a.mant as nat, pow2(a.exp as nat));
                    lemma_zero_product(b.mant as nat, pow2(b.exp as nat));
                }
                if a.neg != b.neg {
                    a.neg && (a.mant > 0 || b.mant > 0)
                } else if a.neg {
                    b.exp < a.exp || (b.exp == a.exp && b.mant < a.mant)
                } else {
                    a.exp < b.exp || (a.exp == b.exp && a.mant < b.mant)
                }
            },
            (Some(_), None) => !other.is_nan() && !other.sign(),
            (None, Some(_)) => !self.is_nan() && self.sign(),
            (None, None) => !self.is_nan() && !other.is_nan() && self.sign() && !other.sign(),
        }
    }

    /// `self <= other`.
    pub fn le(self, other: Double) -> (r: bool)
        ensures
            r == at_most(self@, other@),
    {
        !self.is_nan() && !other.is_nan() && !other.lt(self)
    }

    /// `self >= other`.
    pub fn ge(self, other: Double) -> (r: bool)
        ensures
            r == at_most(other@, self@),
    {
        other.le(self)
    }

    /// The larger number; the other one when one is a NaN.
    pub fn max(self, other: Double) -> (r: Double)
        ensures
            r@ == larger(self@, other@),
            r == self || r == other,
    {
        if self.is_nan() || self.lt(other) {
            other
        } else {
            self
        }
    }
}

proof fn lemma_lift(n: nat, e: nat, num: nat)
    requires
        n * pow2(e) <= num < (n + 1) * pow2(e),
    ensures
        ({
            let q = pow2(e + SUB as nat) * 1;
            let x = num * pow2(SUB as nat);
            &&& n * q <= x < (n + 1) * q
            &&& n * q == x <==> n * pow2(e) == num
        }),
{
    lemma_pow2_adds(e, SUB as nat);
    lemma_pow2_pos(SUB as nat);
    let s = pow2(SUB as nat);
    let p = pow2(e);
    let a = n * p;
    let b = (n + 1) * p;
    assert(n * (p * s) == a * s && (n + 1) * (p * s) == b * s) by (nonlinear_arith)
        requires
            a == n * p,
            b == (n + 1) * p,
    ;
    assert(a * s <= num * s < b * s && (a * s == num * s <==> a == num)) by (nonlinear_arith)
        requires
            a <= num < b,
            s > 0,
    ;
}

/// Rounds `n * 2^e` smallest steps.
fn pack_steps(neg: bool, n: u128, e: u32) -> (r: Double)
    requires
        e <= 4000,
    ensures
        r@ == rounded(neg, n as nat * pow2(e as nat), 1),
{
    proof {
        lemma_pow2_pos(e as nat);
        assert((n + 1) * pow2(e as nat) == n * pow2(e as nat) + pow2(e as nat)) by (nonlinear_arith);
        lemma_lift(n as nat, e as nat, n as nat * pow2(e as nat));
    }
    pack(neg, n, e + SUB, false, Ghost(n as nat * pow2(e as nat)), Ghost(1))
}

/// `m * 2^d`.
fn shift_up(m: u64, d: u32) -> (r: u128)
    requires
        m < P53,
        d <= 64,
    ensures
        r == m as nat * pow2(d as nat),
        r < 0x20_0000_0000_0000 * 0x1_0000_0000_0000_0000,
        m >= P52 && d == 64 ==> r >= 0x10_0000_0000_0000 * 0x1_0000_0000_0000_0000,
{
    let mut r: u128 = m as u128;
    let mut i: u32 = 0;
    proof {
        lemma2_to64();
        assert(m as nat * pow2(0) == m) by (nonlinear_arith)
            requires
                pow2(0) == 1,
        ;
    }
    while i < d
        invariant
            i <= d <= 64,
            m < P53,
            r == m as nat * pow2(i as nat),
            r <= m as nat * pow2(64),
            pow2(64) == 0x1_0000_0000_0000_0000,
        decreases d - i,
    {
        proof {
            lemma_pow2_unfold((i + 1) as nat);
            lemma_pow2_le((i + 1) as nat, 64);
            let p = pow2(i as nat);
            assert(m as nat * (2 * p) == 2 * (m as nat * p)) by (nonlinear_arith);
            assert(m as nat * pow2((i + 1) as nat) <= m as nat * pow2(64)) by (nonlinear_arith)
                requires
                    pow2((i + 1) as nat) <= pow2(64),
            ;
        }
        r = r * 2;
        i = i + 1;
    }
    r
}

proof fn lemma_pow2_le(a: nat, b: nat)
    requires
        a <= b,
    ensures
        pow2(a) <= pow2(b),
{
    if a < b {
        lemma_pow2_strictly_increases(a, b);
    }
}

/// `m * 2^e` counted in steps of `2^to`, and whether a rest is left.
fn shift_down(m: u64, e: u32, to: u32) -> (r: (u64, bool))
    requires
        e <= to <= 4000,
    ensures
        r.0 <= m,
        r.0 as nat * pow2(to as nat) <= m as nat * pow2(e as nat) < (r.0 as nat + 1) * pow2(
            to as nat,
        ),
        r.1 <==> r.0 as nat * pow2(to as nat) != m as nat * pow2(e as nat),
{
    let ghost x = m as nat * pow2(e as nat);
    let mut l: u64 = m;
    let mut le: u32 = e;
    let mut rest = false;
    proof {
        lemma_pow2_pos(e as nat);
        assert((m as nat + 1) * pow2(e as nat) == x + pow2(e as nat)) by (nonlinear_arith)
            requires
                x == m as nat * pow2(e as nat),
        ;
    }
    while le < to
        invariant
            e <= le <= to <= 4000,
            l <= m,
            l as nat * pow2(le as nat) <= x < (l as nat + 1) * pow2(le as nat),
            rest <==> l as nat * pow2(le as nat) != x,
        decreases to - le,
    {
        proof {
            lemma_pow2_unfold((le + 1) as nat);
            lemma_pow2_pos(le as nat);
            let q = pow2(le as nat);
            let h = (l / 2) as nat;
            let b = (l % 2) as nat;
            assert(l as nat * q == h * (2 * q) + b * q) by (nonlinear_arith)
                requires
                    l as nat == 2 * h + b,
            ;
            assert((l as nat + 1) * q == l as nat * q + q && (h + 1) * (2 * q) == h * (2 * q) + 2 * q) by (nonlinear_arith);
            assert(b * q == if b == 1 { q } else { 0 }) by (nonlinear_arith)
                requires
                    b == 0 || b == 1,
            ;
        }
        rest = rest || l % 2 == 1;
        l = l / 2;
        le = le + 1;
    }
    (l, rest)
}

/// The sum of two finite numbers, the first with the larger exponent.
fn add_parts(hi: Parts, lo: Parts) -> (r: Double)
    requires
        canonical(hi.mant as nat, hi.exp as nat),
        canonical(lo.mant as nat, lo.exp as nat),
        hi.exp >= lo.exp,
    ensures
        r@ == plus(
            Value::Fin { neg: hi.neg, mant: hi.mant as nat, exp: hi.exp as nat },
            Value::Fin { neg: lo.neg, mant: lo.mant as nat, exp: lo.exp as nat },
        ),
{
    let d: u32 = hi.exp - lo.exp;
    let ghost uh = hi.mant as nat * pow2(hi.exp as nat);
    let ghost ul = lo.mant as nat * pow2(lo.exp as nat);
    if d <= 64 {
        let h: u128 = shift_up(hi.mant, d);
        let l: u128 = lo.mant as u128;
        let ghost p = pow2(lo.exp as nat);
        proof {
            lemma_pow2_adds(d as nat, lo.exp as nat);
            lemma_pow2_pos(lo.exp as nat);
            assert(uh == h as nat * p) by (nonlinear_arith)
                requires
                    uh == hi.mant as nat * (pow2(d as nat) * p),
                    h == hi.mant as nat * pow2(d as nat),
            ;
            lemma_combine(h as nat, l as nat, p);
        }
        if hi.neg == lo.neg {
            if h + l == 0 {
                Double::from_parts(hi.neg, 0, 0)
            } else {
                pack_steps(hi.neg, h + l, lo.exp)
            }
        } else if h == l {
            Double::from_parts(false, 0, 0)
        } else if h > l {
            pack_steps(hi.neg, h - l, lo.exp)
        } else {
            pack_steps(lo.neg, l - h, lo.exp)
        }
    } else {
        let h: u128 = shift_up(hi.mant, 64);
        let e: u32 = hi.exp - 64;
        let (l, rest) = shift_down(lo.mant, lo.exp, e);
        let ghost p = pow2(e as nat);
        proof {
            lemma_pow2_adds(64, e as nat);
            lemma_pow2_pos(e as nat);
            assert(uh == h as nat * p) by (nonlinear_arith)
                requires
                    uh == hi.mant as nat * (pow2(64) * p),
                    h == hi.mant as nat * pow2(64),
            ;
            lemma_combine(h as nat, l as nat, p);
            lemma_combine(h as nat, l as nat + 1, p);
        }
        if hi.neg == lo.neg {
            let n: u128 = h + l as u128;
            proof {
                lemma_lift(n as nat, e as nat, uh + ul);
            }
            pack(hi.neg, n, e + SUB, rest, Ghost(uh + ul), Ghost(1))
        } else {
            let n: u128 = if rest {
                h - l as u128 - 1
            } else {
                h - l as u128
            };
            proof {
                lemma_combine(n as nat, 1, p);
                lemma_lift(n as nat, e as nat, (uh - ul) as nat);
                assert(uh > ul);
            }
            pack(hi.neg, n, e + SUB, rest, Ghost((uh - ul) as nat), Ghost(1))
        }
    }
}

proof fn lemma_combine(h: nat, l: nat, p: nat)
    requires
        p > 0,
    ensures
        (h + l) * p == h * p + l * p,
        (h + l + 1) * p == h * p + l * p + p,
        h >= l ==> (h - l) * p == h * p - l * p,
        h <= l ==> (l - h) * p == l * p - h * p,
        h > l ==> h * p > l * p,
        h < l ==> h * p < l * p,
        h + l > 0 ==> h * p + l * p > 0,
{
    assert((h + l) * p == h * p + l * p && (h + l + 1) * p == h * p + l * p + p && (h - l) * p == h * p - l * p && (l - h) * p == l * p - h * p) by (nonlinear_arith);
    assert((h > l ==> h * p > l * p) && (h < l ==> h * p < l * p) && (h + l > 0 ==> h * p + l * p > 0)) by (nonlinear_arith)
        requires
            p > 0,
    ;
}

impl Double {
    /// `self + other`, rounded.
    pub fn add(self, other: Double) -> (r: Double)
        ensures
            r@ == plus(self@, other@),
    {
        match (self.parts(), other.parts()) {
            (Some(a), Some(b)) => if a.exp >= b.exp {
                add_parts(a, b)
            } else {
                add_parts(b, a)
            },
            (Some(_), None) => if other.is_nan() {
                Double::nan()
            } else {
                Double::infinity(other.sign())
            },
            (None, Some(_)) => if self.is_nan() {
                Double::nan()
            } else {
                Double::infinity(self.sign())
            },
            (None, None) => if self.is_nan() || other.is_nan() || self.sign() != other.sign() {
                Double::nan()
            } else {
                Double::infinity(self.sign())
            },
        }
    }

    /// `self - other`, rounded.
    pub fn sub(self, other: Double) -> (r: Double)
        ensures
            r@ == minus(self@, other@),
    {
        self.add(other.negate())
    }
}

/// Half a unit or more rounds away from zero.
pub open spec fn half_away(v: Value) -> Value {
    match v {
        Value::Fin { neg, mant, exp } => {
            let i = (2 * (mant * pow2(exp)) + pow2(1074)) / (2 * pow2(1074));
            rounded(neg, i * pow2(1074), 1)
        },
        _ => v,
    }
}

/// The whole units in a finite number, its sign aside.
pub open spec fn whole(mant: nat, exp: nat) -> nat {
    (mant * pow2(exp)) / pow2(1074)
}

/// The integer that a number is cut off to, held between `lo` and `hi`; zero
/// for a NaN.
pub open spec fn cut(v: Value, lo: int, hi: int) -> int {
    match v {
        Value::Nan => 0,
        Value::Inf { neg } => if neg {
            lo
        } else {
            hi
        },
        Value::Fin { neg, mant, exp } => {
            let i = if neg {
                -whole(mant, exp)
            } else {
                whole(mant, exp) as int
            };
            if i < lo {
                lo
            } else if i > hi {
                hi
            } else {
                i
            }
        },
    }
}

/// The whole units in `p`; some number of 100 bits or more when there are so
/// many.
fn whole_units(p: Parts) -> (r: u128)
    requires
        canonical(p.mant as nat, p.exp as nat),
    ensures
        r == whole(p.mant as nat, p.exp as nat) || (r >= 0x1_0000_0000_0000_0000_0000_0000
            && whole(p.mant as nat, p.exp as nat) >= 0x1_0000_0000_0000_0000_0000_0000),
{
    let ghost u = p.mant as nat * pow2(p.exp as nat);
    let ghost d = pow2(1074);
    proof {
        lemma_pow2_pos(1074);
    }
    if p.exp <= UNIT_EXP {
        let (w, _) = shift_down(p.mant, p.exp, UNIT_EXP);
        proof {
            let r = u - w * d;
            assert((w as nat + 1) * d == w * d + d) by (nonlinear_arith);
            vstd::arithmetic::div_mod::lemma_fundamental_div_mod_converse(
                u as int,
                d as int,
                w as int,
                r,
            );
        }
        w as u128
    } else {
        let s: u32 = p.exp - UNIT_EXP;
        proof {
            lemma_pow2_adds(s as nat, 1074);
            let w = p.mant as nat * pow2(s as nat);
            assert(u == w * d) by (nonlinear_arith)
                requires
                    u == p.mant as nat * (pow2(s as nat) * d),
                    w == p.mant as nat * pow2(s as nat),
            ;
            vstd::arithmetic::div_mod::lemma_fundamental_div_mod_converse(
                u as int,
                d as int,
                w as int,
                0,
            );
        }
        if s <= 64 {
            shift_up(p.mant, s)
        } else {
            proof {
                lemma2_to64();
                lemma_pow2_strictly_increases(64, s as nat);
                assert(p.mant as nat * pow2(s as nat) >= 0x10_0000_0000_0000
                    * 0x1_0000_0000_0000_0000) by (nonlinear_arith)
                    requires
                        p.mant >= 0x10_0000_0000_0000,
                        pow2(s as nat) >= 0x1_0000_0000_0000_0000,
                ;
            }
            0x1_0000_0000_0000_0000_0000_0000
        }
    }
}

impl Double {
    /// Rounded to an integer, halves away from zero.
    pub fn round(self) -> (r: Double)
        ensures
            r@ == half_away(self@),
    {
        match self.parts() {
            Some(p) => {
                let ghost u = p.mant as nat * pow2(p.exp as nat);
                let ghost d = pow2(1074);
                proof {
                    lemma_pow2_pos(1074);
                    lemma_pow2_unfold(1074);
                }
                if p.exp >= UNIT_EXP {
                    proof {
                        let s = (p.exp - 1074) as nat;
                        lemma_pow2_adds(s, 1074);
                        let w = p.mant as nat * pow2(s);
                        assert(u == w * d) by (nonlinear_arith)
                            requires
                                u == p.mant as nat * (pow2(s) * d),
                                w == p.mant as nat * pow2(s),
                        ;
                        assert(w * (2 * d) == 2 * (w * d)) by (nonlinear_arith);
                        vstd::arithmetic::div_mod::lemma_fundamental_div_mod_converse(
                            (2 * u + d) as int,
                            (2 * d) as int,
                            w as int,
                            d as int,
                        );
                    }
                    pack_steps(p.neg, p.mant as u128, p.exp)
                } else {
                    let (h, _) = shift_down(p.mant, p.exp, UNIT_EXP - 1);
                    let i: u64 = (h + 1) / 2;
                    proof {
                        let c = pow2(1073);
                        let b = (h as nat + 1) % 2;
                        assert((h as nat + 1) * c == h * c + c && i * (2 * d) == (2 * i as nat) * (2 * c) && (2 * i as nat) * (2 * c) == (h as nat + 1 - b) * (2 * c) && (h as nat + 1 - b) * (2 * c) == 2 * (h * c) + 2 * c - b * (2 * c)) by (nonlinear_arith)
                            requires
                                d == 2 * c,
                                2 * i as nat == h as nat + 1 - b,
                        ;
                        assert(b * (2 * c) == if b == 1 { 2 * c } else { 0 }) by (nonlinear_arith)
                            requires
                                b == 0 || b == 1,
                        ;
                        let r = 2 * u + d - i * (2 * d);
                        vstd::arithmetic::div_mod::lemma_fundamental_div_mod_converse(
                            (2 * u + d) as int,
                            (2 * d) as int,
                            i as int,
                            r,
                        );
                    }
                    pack_steps(p.neg, i as u128, UNIT_EXP)
                }
            },
            None => if self.is_nan() {
                self
            } else {
                Double::infinity(self.sign())
            },
        }
    }

    /// Cut off to an integer: what `self as i64` gives.
    pub fn to_i64(self) -> (r: i64)
        ensures
            r == cut(self@, i64::MIN as int, i64::MAX as int),
    {
        match self.parts() {
            Some(p) => {
                let w: u128 = whole_units(p);
                if p.neg {
                    if w >= 0x8000_0000_0000_0000 {
                        i64::MIN
                    } else {
                        -(w as i64)
                    }
                } else if w > 0x7FFF_FFFF_FFFF_FFFF {
                    i64::MAX
                } else {
                    w as i64
                }
            },
            None => if self.is_nan() {
                0
            } else if self.sign() {
                i64::MIN
            } else {
                i64::MAX
            },
        }
    }

    /// Cut off to an integer: what `self as u64` gives.
    pub fn to_u64(self) -> (r: u64)
        ensures
            r == cut(self@, 0, u64::MAX as int),
    {
        match self.parts() {
            Some(p) => {
                let w: u128 = whole_units(p);
                if p.neg {
                    0
                } else if w > 0xFFFF_FFFF_FFFF_FFFF {
                    u64::MAX
                } else {
                    w as u64
                }
            },
            None => if self.is_nan() || self.sign() {
                0
            } else {
                u64::MAX
            },
        }
    }
}

/// No number given as a ratio lies below zero, nor is it a NaN.
pub proof fn zero_is_least(num: nat, den: nat)
    requires
        den > 0,
    ensures
        !less(ratio_value(num, den), ratio_value(0, 1)),
        !(ratio_value(num, den) is Nan),
        !(ratio_value(0, 1) is Nan),
{
    lemma2_to64();
    assert(0 * pow2(1074) == 0) by (nonlinear_arith);
    assert(pow2(0) * 1 == 1) by (nonlinear_arith)
        requires
            pow2(0) == 1,
    ;
    assert(ratio_value(0, 1) == (Value::Fin { neg: false, mant: 0, exp: 0 }));
    if let Value::Fin { neg, mant, exp } = ratio_value(num, den) {
        assert(mant * pow2(exp) >= 0) by (nonlinear_arith);
        assert(0 * pow2(0) == 0) by (nonlinear_arith);
    }
}

/// The number nearest to `n`.
pub open spec fn int_value(n: int) -> Value {
    if n < 0 {
        negated(ratio_value((-n) as nat, 1))
    } else {
        ratio_value(n as nat, 1)
    }
}

/// `v`, held between `lo` and `hi`; a NaN stays one.
pub open spec fn clamped(v: Value, lo: Value, hi: Value) -> Value {
    if less(v, lo) {
        lo
    } else if less(hi, v) {
        hi
    } else {
        v
    }
}

impl Double {
    /// The number nearest to `n`: what `n as f64` gives.
    pub fn from_i64(n: i64) -> (r: Double)
        ensures
            r@ == int_value(n as int),
    {
        if n < 0 {
            let m: u64 = if n == i64::MIN {
                P63
            } else {
                (-n) as u64
            };
            Double::from_u64(m).negate()
        } else {
            Double::from_u64(n as u64)
        }
    }

    /// `self`, held between `lo` and `hi`; a NaN stays one.
    pub fn clamp(self, lo: Double, hi: Double) -> (r: Double)
        ensures
            r@ == clamped(self@, lo@, hi@),
    {
        if self.lt(lo) {
            lo
        } else if hi.lt(self) {
            hi
        } else {
            self
        }
    }

    /// Cut off to an integer: what `self as u32` gives.
    pub fn to_u32(self) -> (r: u32)
        ensures
            r == cut(self@, 0, u32::MAX as int),
    {
        let n: u64 = self.to_u64();
        if n > 0xFFFF_FFFF {
            u32::MAX
        } else {
            n as u32
        }
    }
}

/// A number with no decimals, halves to even: what `{:.0}` gives.
pub open spec fn fixed0(v: Value) -> Seq<char> {
    match v {
        Value::Nan => seq!['N', 'a', 'N'],
        Value::Inf { neg } => sign_text(neg) + seq!['i', 'n', 'f'],
        Value::Fin { neg, mant, exp } => sign_text(neg) + decimal(
            nearest(mant * pow2(exp), pow2(1074)),
        ),
    }
}

/// A number with one decimal, halves to even: what `{:.1}` gives.
pub open spec fn fixed1(v: Value) -> Seq<char> {
    match v {
        Value::Nan => seq!['N', 'a', 'N'],
        Value::Inf { neg } => sign_text(neg) + seq!['i', 'n', 'f'],
        Value::Fin { neg, mant, exp } => {
            let tenths = nearest(10 * (mant * pow2(exp)), pow2(1074));
            sign_text(neg) + decimal(tenths / 10) + seq!['.', digit(tenths)]
        },
    }
}

pub open spec fn sign_text(neg: bool) -> Seq<char> {
    if neg {
        seq!['-']
    } else {
        seq![]
    }
}

/// `m * 2^e` smallest steps in whole units, halves to even.
fn nearest_units(m: u64, e: u32) -> (r: u64)
    requires
        e < UNIT_EXP,
        m < u64::MAX,
    ensures
        r == nearest(m as nat * pow2(e as nat), pow2(1074)),
{
    let (h, rest) = shift_down(m, e, UNIT_EXP - 1);
    proof {
        let d = pow2(1074);
        let c = pow2(1073);
        lemma_pow2_unfold(1074);
        lemma_pow2_pos(1074);
        assert(h as nat * d == 2 * (h as nat * c) && (h as nat + 1) * d == 2 * ((h as nat + 1) * c)) by (nonlinear_arith)
            requires
                d == 2 * c,
        ;
        lemma_nearest(m as nat * pow2(e as nat), d, h as nat, rest);
    }
    if h % 2 == 1 && (rest || (h / 2) % 2 == 1) {
        h / 2 + 1
    } else {
        h / 2
    }
}

proof fn lemma_nearest_exact(w: nat, d: nat)
    requires
        d > 0,
    ensures
        nearest(w * d, d) == w,
{
    vstd::arithmetic::div_mod::lemma_fundamental_div_mod_converse(
        (w * d) as int,
        d as int,
        w as int,
        0,
    );
}

impl Double {
    /// Appends the number with no decimals, as `{:.0}` does.
    pub fn push_fixed0(self, out: &mut String)
        ensures
            final(out)@ == old(out)@ + fixed0(self@),
    {
        match self.parts() {
            Some(p) => {
                if p.neg {
                    out.push('-');
                }
                if p.exp >= UNIT_EXP {
                    proof {
                        lemma_whole_number(p.mant as nat, p.exp as nat);
                        lemma_pow2_pos(1074);
                        lemma_nearest_exact(
                            p.mant as nat * pow2((p.exp - 1074) as nat),
                            pow2(1074),
                        );
                    }
                    push_shifted(out, p.mant, p.exp - UNIT_EXP);
                } else {
                    push_decimal(out, nearest_units(p.mant, p.exp));
                }
                assert(out@ =~= old(out)@ + fixed0(self@));
            },
            None => self.push_special(out),
        }
    }

    /// Appends the number with one decimal, as `{:.1}` does.
    pub fn push_fixed1(self, out: &mut String)
        ensures
            final(out)@ == old(out)@ + fixed1(self@),
    {
        match self.parts() {
            Some(p) => {
                if p.neg {
                    out.push('-');
                }
                let ghost u = p.mant as nat * pow2(p.exp as nat);
                if p.exp >= UNIT_EXP {
                    proof {
                        let d = pow2(1074);
                        let w = p.mant as nat * pow2((p.exp - 1074) as nat);
                        lemma_whole_number(p.mant as nat, p.exp as nat);
                        lemma_pow2_pos(1074);
                        assert(10 * (w * d) == (10 * w) * d) by (nonlinear_arith);
                        lemma_nearest_exact(10 * w, d);
                    }
                    push_shifted(out, p.mant, p.exp - UNIT_EXP);
                    out.push('.');
                    out.push('0');
                } else {
                    proof {
                        assert(10 * u == (10 * p.mant as nat) * pow2(p.exp as nat)) by (nonlinear_arith)
                            requires
                                u == p.mant as nat * pow2(p.exp as nat),
                        ;
                    }
                    let t: u64 = nearest_units(10 * p.mant, p.exp);
                    push_decimal(out, t / 10);
                    out.push('.');
                    out.push(digit_char((t % 10) as u8));
                }
                assert(out@ =~= old(out)@ + fixed1(self@));
            },
            None => self.push_special(out),
        }
    }

    fn push_special(self, out: &mut String)
        requires
            !(self@ is Fin),
        ensures
            final(out)@ == old(out)@ + fixed0(self@),
            final(out)@ == old(out)@ + fixed1(self@),
    {
        if self.is_nan() {
            out.push('N');
            out.push('a');
            out.push('N');
        } else {
            if self.sign() {
                out.push('-');
            }
            out.push('i');
            out.push('n');
            out.push('f');
        }
        assert(out@ =~= old(out)@ + fixed0(self@));
    }
}

proof fn lemma_whole_number(mant: nat, exp: nat)
    requires
        exp >= 1074,
    ensures
        mant * pow2(exp) == (mant * pow2((exp - 1074) as nat)) * pow2(1074),
{
    let s = (exp - 1074) as nat;
    lemma_pow2_adds(s, 1074);
    let a = pow2(s);
    let b = pow2(1074);
    assert(mant * (a * b) == (mant * a) * b) by (nonlinear_arith);
}

proof fn lemma_zero_product(a: nat, p: nat)
    requires
        p > 0,
    ensures
        a * p == 0 <==> a == 0,
{
    assert(a * p == 0 <==> a == 0) by (nonlinear_arith)
        requires
            p > 0,
    ;
}

proof fn lemma_scale_bounds(num: nat, den: nat)
    requires
        den > 0,
    ensures
        num < 0x20_0000_0000_0000 * (pow2(scale(num, den)) * den),
        scale(num, den) == 0 || 0x10_0000_0000_0000 * (pow2(scale(num, den)) * den) <= num,
    decreases num - den,
{
    lemma2_to64();
    let k = scale(num, den);
    if num < 0x20_0000_0000_0000 * den {
        assert(pow2(0) * den == den) by (nonlinear_arith)
            requires
                pow2(0) == 1,
        ;
    } else {
        let j = scale(num, 2 * den);
        lemma_scale_bounds(num, 2 * den);
        lemma_pow2_unfold(k);
        assert(pow2(k) * den == pow2(j) * (2 * den)) by (nonlinear_arith)
            requires
                pow2(k) == 2 * pow2(j),
        ;
        if j == 0 {
            assert(pow2(0) * (2 * den) == 2 * den) by (nonlinear_arith)
                requires
                    pow2(0) == 1,
            ;
        }
    }
}

proof fn lemma_quotients(n1: nat, d1: nat, n2: nat, d2: nat, q1: nat, r1: nat, q2: nat, r2: nat)
    requires
        n1 == q1 * d1 + r1,
        n2 == q2 * d2 + r2,
        r1 < d1,
        r2 < d2,
        n1 * d2 <= n2 * d1,
    ensures
        q1 <= q2,
        q1 == q2 ==> r1 * d2 <= r2 * d1,
{
    assert(n1 * d2 == q1 * (d1 * d2) + r1 * d2) by (nonlinear_arith)
        requires
            n1 == q1 * d1 + r1,
    ;
    assert(n2 * d1 == q2 * (d1 * d2) + r2 * d1) by (nonlinear_arith)
        requires
            n2 == q2 * d2 + r2,
    ;
    assert(r2 * d1 < d1 * d2) by (nonlinear_arith)
        requires
            r2 < d2,
            d1 > 0,
    ;
    if q1 > q2 {
        let dd = d1 * d2;
        assert(q1 * dd >= q2 * dd + dd) by (nonlinear_arith)
            requires
                q1 >= q2 + 1,
                dd >= 0,
        ;
        assert(r1 * d2 >= 0) by (nonlinear_arith);
    }
}

/// A larger quotient is not rounded to a smaller number.
proof fn lemma_nearest_grows(n1: nat, d1: nat, n2: nat, d2: nat)
    requires
        d1 > 0,
        d2 > 0,
        n1 * d2 <= n2 * d1,
    ensures
        nearest(n1, d1) <= nearest(n2, d2),
{
    let (q1, r1) = (n1 / d1, n1 % d1);
    let (q2, r2) = (n2 / d2, n2 % d2);
    assert(n1 == q1 * d1 + r1 && r1 < d1) by {
        vstd::arithmetic::div_mod::lemma_fundamental_div_mod(n1 as int, d1 as int);
        vstd::arithmetic::mul::lemma_mul_is_commutative(q1 as int, d1 as int);
    }
    assert(n2 == q2 * d2 + r2 && r2 < d2) by {
        vstd::arithmetic::div_mod::lemma_fundamental_div_mod(n2 as int, d2 as int);
        vstd::arithmetic::mul::lemma_mul_is_commutative(q2 as int, d2 as int);
    }
    lemma_quotients(n1, d1, n2, d2, q1, r1, q2, r2);
    if q1 == q2 {
        assert(2 * r1 > d1 ==> 2 * r2 > d2) by (nonlinear_arith)
            requires
                r1 * d2 <= r2 * d1,
                d1 > 0,
                d2 > 0,
        ;
        assert(2 * r1 == d1 ==> 2 * r2 >= d2) by (nonlinear_arith)
            requires
                r1 * d2 <= r2 * d1,
                d1 > 0,
                d2 > 0,
        ;
    }
}

/// A quotient of at least `m` is rounded to at least `m`, and one below `m` to
/// at most `m`.
proof fn lemma_nearest_bounds(num: nat, d: nat, m: nat)
    requires
        d > 0,
    ensures
        m * d <= num ==> nearest(num, d) >= m,
        num < m * d ==> nearest(num, d) <= m,
{
    let (q, r) = (num / d, num % d);
    assert(num == q * d + r && r < d) by {
        vstd::arithmetic::div_mod::lemma_fundamental_div_mod(num as int, d as int);
        vstd::arithmetic::mul::lemma_mul_is_commutative(q as int, d as int);
    }
    assert(m * d <= num ==> q >= m) by (nonlinear_arith)
        requires
            num == q * d + r,
            r < d,
    ;
    assert(num < m * d ==> q < m) by (nonlinear_arith)
        requires
            num == q * d + r,
            r < d,
    ;
}

proof fn lemma_scale_grows(n1: nat, d1: nat, n2: nat, d2: nat)
    requires
        d1 > 0,
        d2 > 0,
        n1 * d2 <= n2 * d1,
    ensures
        scale(n1, d1) <= scale(n2, d2),
{
    let k1 = scale(n1, d1);
    let k2 = scale(n2, d2);
    lemma_scale_bounds(n1, d1);
    lemma_scale_bounds(n2, d2);
    if k1 > k2 {
        let gap = (k1 - k2 - 1) as nat;
        lemma_pow2_adds(k2, gap + 1);
        lemma_pow2_unfold(gap + 1);
        lemma_pow2_pos(gap);
        lemma_pow2_pos(k2);
        let (p1, p2, g) = (pow2(k1), pow2(k2), pow2(gap));
        assert(p1 >= 2 * p2) by (nonlinear_arith)
            requires
                p1 == p2 * (2 * g),
                g >= 1,
        ;
        assert(false) by (nonlinear_arith)
            requires
                0x10_0000_0000_0000 * (p1 * d1) <= n1,
                n2 < 0x20_0000_0000_0000 * (p2 * d2),
                n1 * d2 <= n2 * d1,
                p1 >= 2 * p2,
                d1 > 0,
                d2 > 0,
        {
            let a = d1 * d2;
            assert(n1 * d2 >= 0x10_0000_0000_0000 * (p1 * a));
            assert(n2 * d1 < 0x20_0000_0000_0000 * (p2 * a));
            assert(p1 * a >= 2 * p2 * a);
        }
    }
}

/// The steps of the number that `num / den` is rounded to, were there no largest
/// number.
spec fn rounded_steps(num: nat, den: nat) -> nat {
    let k = scale(num, den);
    nearest(num, pow2(k) * den) * pow2(k)
}

proof fn lemma_rounded_steps(neg: bool, num: nat, den: nat)
    requires
        den > 0,
    ensures
        match rounded(neg, num, den) {
            Value::Fin { neg: n, mant, exp } => n == neg && mant * pow2(exp) == rounded_steps(
                num,
                den,
            ),
            Value::Inf { neg: n } => n == neg,
            Value::Nan => false,
        },
        nearest(num, pow2(scale(num, den)) * den) <= 0x20_0000_0000_0000,
{
    let k = scale(num, den);
    lemma_scale_bounds(num, den);
    lemma_pow2_pos(k);
    lemma_pow2_unfold(k + 1);
    let p = pow2(k);
    assert(p * den > 0) by (nonlinear_arith)
        requires
            p > 0,
            den > 0,
    ;
    lemma_nearest_bounds(num, p * den, 0x20_0000_0000_0000);
}

/// A larger quotient is not rounded to a smaller number.
pub proof fn rounding_keeps_order(n1: nat, d1: nat, n2: nat, d2: nat)
    requires
        d1 > 0,
        d2 > 0,
        n1 * d2 <= n2 * d1,
    ensures
        !less(rounded(false, n2, d2), rounded(false, n1, d1)),
{
    let k1 = scale(n1, d1);
    let k2 = scale(n2, d2);
    let m1 = nearest(n1, pow2(k1) * d1);
    let m2 = nearest(n2, pow2(k2) * d2);
    lemma_scale_grows(n1, d1, n2, d2);
    lemma_scale_bounds(n2, d2);
    lemma_rounded_steps(false, n1, d1);
    lemma_rounded_steps(false, n2, d2);
    lemma_pow2_pos(k1);
    lemma_pow2_pos(k2);
    let (p1, p2) = (pow2(k1), pow2(k2));
    assert(p1 * d1 > 0 && p2 * d2 > 0) by (nonlinear_arith)
        requires
            p1 > 0,
            p2 > 0,
            d1 > 0,
            d2 > 0,
    ;
    if k1 == k2 {
        assert(n1 * (p1 * d2) <= n2 * (p1 * d1)) by (nonlinear_arith)
            requires
                n1 * d2 <= n2 * d1,
        ;
        lemma_nearest_grows(n1, p1 * d1, n2, p2 * d2);
        assert(m1 * p1 <= m2 * p1) by (nonlinear_arith)
            requires
                m1 <= m2,
        ;
    } else {
        lemma_nearest_bounds(n2, p2 * d2, 0x10_0000_0000_0000);
        let gap = (k2 - k1 - 1) as nat;
        lemma_pow2_adds(k1, gap + 1);
        lemma_pow2_unfold(gap + 1);
        lemma_pow2_pos(gap);
        let g = pow2(gap);
        assert(m1 * p1 <= m2 * p2) by (nonlinear_arith)
            requires
                m1 <= 0x20_0000_0000_0000,
                m2 >= 0x10_0000_0000_0000,
                p2 == p1 * (2 * g),
                g >= 1,
                p1 > 0,
        {
            assert(p2 >= 2 * p1);
            assert(m1 * p1 <= 0x20_0000_0000_0000 * p1);
            assert(m2 * p2 >= 0x10_0000_0000_0000 * p2);
        }
    }
}

/// A number is rounded to itself.
pub proof fn rounding_keeps_numbers(neg: bool, mant: nat, exp: nat)
    requires
        canonical(mant, exp),
    ensures
        rounded(neg, mant * pow2(exp), 1) == (Value::Fin { neg, mant, exp }),
{
    let p = pow2(exp);
    let num = mant * p;
    lemma_pow2_pos(exp);
    assert(p * 1 == p) by (nonlinear_arith);
    assert(num < 0x20_0000_0000_0000 * p) by (nonlinear_arith)
        requires
            num == mant * p,
            mant < 0x20_0000_0000_0000,
            p > 0,
    ;
    assert(mant >= 0x10_0000_0000_0000 ==> 0x10_0000_0000_0000 * p <= num) by (nonlinear_arith)
        requires
            num == mant * p,
            p > 0,
    ;
    lemma_scale(num, 1, exp);
    vstd::arithmetic::div_mod::lemma_fundamental_div_mod_converse(
        num as int,
        p as int,
        mant as int,
        0,
    );
}

proof fn lemma_normalized(mant: nat, exp: nat) -> (r: (nat, nat))
    requires
        mant < 0x20_0000_0000_0000,
        exp <= 2045,
    ensures
        canonical(r.0, r.1),
        r.0 * pow2(r.1) == mant * pow2(exp),
    decreases exp,
{
    if mant >= 0x10_0000_0000_0000 || exp == 0 {
        (mant, exp)
    } else {
        lemma_pow2_unfold(exp);
        let p = pow2((exp - 1) as nat);
        assert((2 * mant) * p == mant * pow2(exp)) by (nonlinear_arith)
            requires
                pow2(exp) == 2 * p,
        ;
        lemma_normalized(2 * mant, (exp - 1) as nat)
    }
}

/// A whole number of at most 53 bits is held exactly, and cut off to itself.
pub proof fn whole_numbers_are_exact(n: nat)
    requires
        n < 0x20_0000_0000_0000,
    ensures
        match ratio_value(n, 1) {
            Value::Fin { neg, mant, exp } => !neg && mant * pow2(exp) == n * pow2(1074),
            _ => false,
        },
        cut(ratio_value(n, 1), 0, u64::MAX as int) == n,
        fixed0(ratio_value(n, 1)) == decimal(n),
{
    let (mant, exp) = lemma_normalized(n, 1074);
    rounding_keeps_numbers(false, mant, exp);
    lemma_pow2_pos(1074);
    let p = pow2(1074);
    vstd::arithmetic::div_mod::lemma_fundamental_div_mod_converse(
        (n * p) as int,
        p as int,
        n as int,
        0,
    );
    assert(fixed0(ratio_value(n, 1)) =~= decimal(n));
}

proof fn lemma_common_factor(neg: bool, num: nat, den: nat, c: nat)
    requires
        den > 0,
        c > 0,
    ensures
        rounded(neg, num * c, den * c) == rounded(neg, num, den),
{
    let k = scale(num, den);
    let d = pow2(k) * den;
    lemma_scale_bounds(num, den);
    lemma_pow2_pos(k);
    assert(d > 0) by (nonlinear_arith)
        requires
            d == pow2(k) * den,
            pow2(k) > 0,
            den > 0,
    ;
    assert(pow2(k) * (den * c) == d * c) by (nonlinear_arith)
        requires
            d == pow2(k) * den,
    ;
    assert(num * c < 0x20_0000_0000_0000 * (d * c)) by (nonlinear_arith)
        requires
            num < 0x20_0000_0000_0000 * d,
            c > 0,
    ;
    assert(0x10_0000_0000_0000 * d <= num ==> 0x10_0000_0000_0000 * (d * c) <= num * c)
        by (nonlinear_arith)
        requires
            c > 0,
    ;
    assert(den * c > 0) by (nonlinear_arith)
        requires
            den > 0,
            c > 0,
    ;
    lemma_scale(num * c, den * c, k);
    let (q, r) = (num / d, num % d);
    vstd::arithmetic::div_mod::lemma_fundamental_div_mod(num as int, d as int);
    assert(num * c == q * (d * c) + r * c) by (nonlinear_arith)
        requires
            num == d * q + r,
    ;
    assert(0 <= r * c < d * c) by (nonlinear_arith)
        requires
            0 <= r < d,
            c > 0,
    ;
    vstd::arithmetic::div_mod::lemma_fundamental_div_mod_converse(
        (num * c) as int,
        (d * c) as int,
        q as int,
        (r * c) as int,
    );
    assert((2 * (r * c) > d * c <==> 2 * r > d) && (2 * (r * c) == d * c <==> 2 * r == d))
        by (nonlinear_arith)
        requires
            c > 0,
    ;
}

/// The product of whole numbers is exact as long as it has at most 53 bits.
pub proof fn whole_products_are_exact(a: nat, b: nat)
    requires
        a < 0x20_0000_0000_0000,
        b < 0x20_0000_0000_0000,
    ensures
        times(ratio_value(a, 1), ratio_value(b, 1)) == ratio_value(a * b, 1),
{
    whole_numbers_are_exact(a);
    whole_numbers_are_exact(b);
    let p = pow2(1074);
    lemma_pow2_pos(1074);
    if let Value::Fin { mant: m1, exp: e1, .. } = ratio_value(a, 1) {
        if let Value::Fin { mant: m2, exp: e2, .. } = ratio_value(b, 1) {
            lemma_pow2_adds(e1, e2);
            let (p1, p2) = (pow2(e1), pow2(e2));
            assert((m1 * m2) * (p1 * p2) == (m1 * p1) * (m2 * p2)) by (nonlinear_arith);
            assert((a * p) * (b * p) == ((a * b) * p) * p) by (nonlinear_arith);
            assert(1 * p == p) by (nonlinear_arith);
            lemma_common_factor(false, (a * b) * p, 1, p);
        }
    }
}

/// A whole number is rounded to itself.
pub proof fn whole_numbers_stay_whole(n: nat)
    requires
        n < 0x20_0000_0000_0000,
    ensures
        half_away(ratio_value(n, 1)) == ratio_value(n, 1),
{
    whole_numbers_are_exact(n);
    lemma_pow2_pos(1074);
    let p = pow2(1074);
    assert(2 * (n * p) + p == n * (2 * p) + p) by (nonlinear_arith);
    vstd::arithmetic::div_mod::lemma_fundamental_div_mod_converse(
        (2 * (n * p) + p) as int,
        (2 * p) as int,
        n as int,
        p as int,
    );
}

/// A fraction whose denominator is a power of two is exact as long as its
/// numerator has at most 53 bits.
pub proof fn dyadic_fractions_are_exact(n: nat, k: nat)
    requires
        n < 0x20_0000_0000_0000,
        k <= 1074,
    ensures
        match ratio_value(n, pow2(k)) {
            Value::Fin { neg, mant, exp } => !neg && mant * pow2(exp) == n * pow2(
                (1074 - k) as nat,
            ),
            _ => false,
        },
{
    let rest = (1074 - k) as nat;
    let (mant, exp) = lemma_normalized(n, rest);
    rounding_keeps_numbers(false, mant, exp);
    lemma_pow2_adds(rest, k);
    lemma_pow2_pos(k);
    assert(n * pow2(1074) == (n * pow2(rest)) * pow2(k)) by (nonlinear_arith)
        requires
            pow2(1074) == pow2(rest) * pow2(k),
    ;
    assert(1 * pow2(k) == pow2(k)) by (nonlinear_arith);
    lemma_common_factor(false, n * pow2(rest), 1, pow2(k));
}

/// What is at most a whole number of 53 bits is rounded to a finite number that
/// is at most that.
proof fn lemma_rounded_below(neg: bool, num: nat, den: nat, n: nat)
    requires
        den > 0,
        n < 0x20_0000_0000_0000,
        num <= (n * pow2(1074)) * den,
    ensures
        match rounded(neg, num, den) {
            Value::Fin { neg: s, mant, exp } => s == neg && mant * pow2(exp) <= n * pow2(1074),
            _ => false,
        },
{
    whole_numbers_are_exact(n);
    assert(num * 1 == num) by (nonlinear_arith);
    rounding_keeps_order(num, den, n * pow2(1074), 1);
    lemma_rounded_steps(false, num, den);
    lemma_rounded_steps(neg, num, den);
}

/// The difference of two numbers is above zero exactly when the first is the
/// larger one.
pub proof fn differences_tell_the_order(a: Value, b: Value)
    requires
        a is Fin,
        b is Fin,
    ensures
        at_most(minus(a, b), ratio_value(0, 1)) <==> at_most(a, b),
{
    whole_numbers_are_exact(0);
    lemma2_to64();
    assert(0 * pow2(1074) == 0) by (nonlinear_arith);
    if let Value::Fin { neg: n1, mant: m1, exp: e1 } = a {
        if let Value::Fin { neg: n2, mant: m2, exp: e2 } = b {
            let s = steps(n1, m1, e1) + steps(!n2, m2, e2);
            assert(0 * pow2(0) == 0) by (nonlinear_arith);
            if s < 0 {
                lemma_rounded_steps(true, (-s) as nat, 1);
                if let Value::Fin { neg, mant, exp } = rounded(true, (-s) as nat, 1) {
                    assert(mant * pow2(exp) >= 0) by (nonlinear_arith);
                }
            } else if s > 0 {
                assert(1 * pow2(0) == 1) by (nonlinear_arith)
                    requires
                        pow2(0) == 1,
                ;
                rounding_keeps_numbers(false, 1, 0);
                rounding_keeps_order(1, 1, s as nat, 1);
                lemma_rounded_steps(false, s as nat, 1);
            }
        }
    }
}

/// The finite numbers are written with a canonical significand and exponent.
pub proof fn doubles_are_canonical(d: Double)
    ensures
        d@ matches Value::Fin { mant, exp, .. } ==> canonical(mant, exp),
{
}

/// Half of a positive number is not above it.
pub proof fn halving_adds_nothing(d: Double)
    requires
        less(ratio_value(0, 1), d@),
    ensures
        !less(d@, times(d@, ratio_value(1, 2))),
{
    whole_numbers_are_exact(0);
    assert(0 * pow2(1074) == 0) by (nonlinear_arith);
    lemma2_to64();
    dyadic_fractions_are_exact(1, 1);
    doubles_are_canonical(d);
    lemma_pow2_unfold(1074);
    lemma_pow2_pos(1073);
    lemma_pow2_pos(1074);
    if let Value::Fin { neg, mant: m, exp: e } = d@ {
        if let Value::Fin { mant: h, exp: f, .. } = ratio_value(1, 2) {
            lemma_pow2_adds(e, f);
            let (p, q, r) = (pow2(e), pow2(f), pow2(1073));
            assert(!neg) by {
                assert(m * p >= 0) by (nonlinear_arith);
            }
            assert((m * h) * (p * q) == (m * p) * (h * q)) by (nonlinear_arith);
            let n = m * p;
            assert(n * r <= n * pow2(1074)) by (nonlinear_arith)
                requires
                    pow2(1074) == 2 * r,
            ;
            assert(1 * r == r) by (nonlinear_arith);
            assert((n * r) * 1 == n * r) by (nonlinear_arith);
            rounding_keeps_numbers(false, m, e);
            rounding_keeps_order((m * h) * pow2(e + f), pow2(1074), n, 1);
        }
    } else {
        if let Value::Fin { mant: h, exp: f, .. } = ratio_value(1, 2) {
            assert(h > 0) by {
                if h == 0 {
                    assert(0 * pow2(f) == 0) by (nonlinear_arith);
                    assert(1 * pow2(1073) == pow2(1073)) by (nonlinear_arith);
                }
            }
        }
    }
}

/// Whether `v` lies between zero and a hundred.
pub open spec fn up_to_a_hundred(v: Value) -> bool {
    v is Fin && at_most(ratio_value(0, 1), v) && at_most(v, ratio_value(100, 1))
}

/// More than half a minute: from 31 seconds on, 33/64 of a minute or more.
pub proof fn half_a_minute_is_thirty_seconds(seconds: int)
    requires
        seconds >= 31,
    ensures
        at_most(ratio_value(33, 64), over(int_value(seconds), ratio_value(60, 1))),
        less(ratio_value(1, 2), ratio_value(33, 64)),
{
    let p = pow2(1074);
    let u = pow2(1068);
    lemma2_to64();
    lemma_pow2_pos(1068);
    lemma_pow2_pos(1074);
    dyadic_fractions_are_exact(1, 1);
    dyadic_fractions_are_exact(33, 6);
    lemma_pow2_adds(1068, 5);
    lemma_pow2_adds(1068, 6);
    whole_numbers_are_exact(31);
    whole_numbers_are_exact(60);
    assert(1 * pow2(1073) == 32 * u && 33 * u > 32 * u) by (nonlinear_arith)
        requires
            pow2(1073) == u * 32,
            u > 0,
    ;
    let n = seconds as nat;
    assert((31 * p) * 1 <= (n * p) * 1) by (nonlinear_arith)
        requires
            n >= 31,
    ;
    rounding_keeps_order(31 * p, 1, n * p, 1);
    lemma_rounded_steps(false, n * p, 1);
    if let Value::Fin { mant: m1, exp: e1, .. } = int_value(seconds) {
        if let Value::Fin { mant: m2, exp: e2, .. } = ratio_value(60, 1) {
            assert(m2 > 0) by {
                if m2 == 0 {
                    assert(0 * pow2(e2) == 0) by (nonlinear_arith);
                    assert(60 * p > 0) by (nonlinear_arith)
                        requires
                            p > 0,
                    ;
                }
            }
            lemma_pow2_adds(e1, 1074);
            let x = m1 * pow2(e1);
            assert(m1 * (pow2(e1) * p) == x * p) by (nonlinear_arith)
                requires
                    x == m1 * pow2(e1),
            ;
            assert((33 * p) * (60 * p) <= (x * p) * 64) by (nonlinear_arith)
                requires
                    x >= 31 * p,
                    p > 0,
            ;
            assert(60 * p > 0) by (nonlinear_arith)
                requires
                    p > 0,
            ;
            rounding_keeps_order(33 * p, 64, x * p, 60 * p);
            lemma_rounded_steps(false, x * p, 60 * p);
        }
    }
}

/// What a quota rises by, divided by more than half a minute, is a finite
/// number, and not above zero where the quota does not rise.
pub proof fn climbs_are_finite(a: Value, b: Value, minutes: Value)
    requires
        up_to_a_hundred(a),
        up_to_a_hundred(b),
        at_most(ratio_value(33, 64), minutes),
    ensures
        over(minus(b, a), minutes) is Fin,
        at_most(b, a) ==> at_most(over(minus(b, a), minutes), ratio_value(0, 1)),
{
    let p = pow2(1074);
    let u = pow2(1068);
    lemma2_to64();
    lemma_pow2_pos(1068);
    lemma_pow2_pos(1074);
    lemma_pow2_adds(1068, 6);
    dyadic_fractions_are_exact(33, 6);
    whole_numbers_are_exact(0);
    whole_numbers_are_exact(100);
    assert(0 * p == 0 && 0 * pow2(0) == 0) by (nonlinear_arith);
    let rise = minus(b, a);
    if let Value::Fin { neg: n1, mant: m1, exp: e1 } = b {
        if let Value::Fin { neg: n2, mant: m2, exp: e2 } = a {
            let s = steps(n1, m1, e1) + steps(!n2, m2, e2);
            let size = (if s < 0 { -s } else { s }) as nat;
            assert((100 * p) * 1 == 100 * p) by (nonlinear_arith);
            lemma_rounded_below(s < 0, size, 1, 100);
            assert(rise matches Value::Fin { neg, mant, exp } && mant * pow2(exp) <= 100 * p && (
            s < 0 ==> neg) && (s == 0 ==> mant == 0)) by {
                assert(100 * p >= 0) by (nonlinear_arith)
                    requires
                        p > 0,
                ;
            }
        }
    }
    if let Value::Fin { neg: n1, mant: m1, exp: e1 } = rise {
        if let Value::Fin { neg: n2, mant: m2, exp: e2 } = minutes {
            let y = m2 * pow2(e2);
            assert(!n2 && y >= 33 * u) by {
                assert(m2 * pow2(e2) >= 0) by (nonlinear_arith);
                assert(33 * u > 0) by (nonlinear_arith)
                    requires
                        u > 0,
                ;
            }
            assert(y > 0) by (nonlinear_arith)
                requires
                    y >= 33 * u,
                    u > 0,
            ;
            assert(m2 > 0) by {
                if m2 == 0 {
                    assert(0 * pow2(e2) == 0) by (nonlinear_arith);
                }
            }
            lemma_pow2_adds(e1, 1074);
            let x = m1 * pow2(e1);
            assert(m1 * (pow2(e1) * p) == x * p) by (nonlinear_arith)
                requires
                    x == m1 * pow2(e1),
            ;
            assert(x * p <= (200 * p) * y) by (nonlinear_arith)
                requires
                    x <= 100 * p,
                    p == u * 64,
                    y >= 33 * u,
                    u > 0,
            {
                assert(200 * y >= 6600 * u);
                assert(x <= 6400 * u);
                assert(x * p <= (200 * y) * p);
            }
            lemma_rounded_below(n1 != n2, x * p, y, 200);
            if at_most(b, a) {
                lemma_rounded_steps(n1 != n2, x * p, y);
                if m1 == 0 {
                    assert(x == 0 && 0 * p == 0) by (nonlinear_arith)
                        requires
                            x == m1 * pow2(e1),
                            m1 == 0,
                    ;
                    assert(0nat <= (0 * p) * y) by (nonlinear_arith);
                    lemma_rounded_below(n1 != n2, x * p, y, 0);
                }
            }
        }
    }
}

/// A number that is not negative.
pub open spec fn is_amount(v: Value) -> bool {
    !(v is Nan) && !negative(v)
}

/// A larger whole number stands for no smaller amount.
pub proof fn whole_numbers_grow(a: nat, b: nat)
    requires
        a <= b,
    ensures
        is_amount(ratio_value(a, 1)),
        is_amount(ratio_value(b, 1)),
        at_most(ratio_value(a, 1), ratio_value(b, 1)),
{
    let p = pow2(1074);
    assert((a * p) * 1 <= (b * p) * 1) by (nonlinear_arith)
        requires
            a <= b,
    ;
    rounding_keeps_order(a * p, 1, b * p, 1);
}

/// A whole number of 64 bits is finite, and positive unless it is zero.
pub proof fn counts_are_finite(n: nat)
    requires
        n <= u64::MAX,
    ensures
        ratio_value(n, 1) matches Value::Fin { neg, mant, .. } && !neg && (n > 0 ==> mant > 0),
{
    let p = pow2(1074);
    lemma2_to64();
    lemma2_to64_rest();
    lemma_pow2_pos(1074);
    lemma_pow2_adds(52, 1086);
    lemma_pow2_adds(64, 1074);
    let top = pow2(1138);
    rounding_keeps_numbers(false, 0x10_0000_0000_0000, 1086);
    assert((n * p) * 1 <= top * 1) by (nonlinear_arith)
        requires
            n <= 0x1_0000_0000_0000_0000,
            top == 0x1_0000_0000_0000_0000 * p,
    ;
    rounding_keeps_order(n * p, 1, top, 1);
    if n > 0 {
        whole_numbers_are_exact(1);
        whole_numbers_grow(1, n);
        if let Value::Fin { mant, exp, .. } = ratio_value(n, 1) {
            if mant == 0 {
                assert(0 * pow2(exp) == 0 && 1 * p == p) by (nonlinear_arith);
            }
        }
    }
}

/// Larger amounts come to no smaller sum.
pub proof fn sums_grow(a1: Value, a2: Value, b1: Value, b2: Value)
    requires
        is_amount(a1),
        is_amount(a2),
        is_amount(b1),
        is_amount(b2),
        at_most(a1, a2),
        at_most(b1, b2),
    ensures
        is_amount(plus(a1, b1)),
        is_amount(plus(a2, b2)),
        at_most(plus(a1, b1), plus(a2, b2)),
{
    lemma2_to64();
    assert(0 * pow2(0) == 0) by (nonlinear_arith);
    if let Value::Fin { neg: n1, mant: m1, exp: e1 } = a1 {
        if let Value::Fin { neg: n2, mant: m2, exp: e2 } = b1 {
            assert(m1 * pow2(e1) >= 0 && m2 * pow2(e2) >= 0) by (nonlinear_arith);
            let s = (steps(n1, m1, e1) + steps(n2, m2, e2)) as nat;
            lemma_rounded_steps(false, s, 1);
            if let Value::Fin { neg: n3, mant: m3, exp: e3 } = a2 {
                if let Value::Fin { neg: n4, mant: m4, exp: e4 } = b2 {
                    let t = (steps(n3, m3, e3) + steps(n4, m4, e4)) as nat;
                    assert(s * 1 == s && t * 1 == t) by (nonlinear_arith);
                    rounding_keeps_order(s, 1, t, 1);
                    lemma_rounded_steps(false, t, 1);
                    if let Value::Fin { mant, exp, .. } = rounded(false, t, 1) {
                        assert(mant * pow2(exp) >= 0) by (nonlinear_arith);
                    }
                }
            }
        }
    }
}

/// A larger amount times the same positive number is no smaller.
pub proof fn products_grow(a1: Value, a2: Value, c: Value)
    requires
        is_amount(a1),
        is_amount(a2),
        at_most(a1, a2),
        c matches Value::Fin { neg, mant, .. } && !neg && mant > 0,
    ensures
        is_amount(times(a1, c)),
        is_amount(times(a2, c)),
        at_most(times(a1, c), times(a2, c)),
{
    lemma_pow2_pos(1074);
    if let Value::Fin { mant: m, exp: e, .. } = c {
        if let Value::Fin { mant: m1, exp: e1, .. } = a1 {
            if let Value::Fin { mant: m2, exp: e2, .. } = a2 {
                lemma_pow2_adds(e1, e);
                lemma_pow2_adds(e2, e);
                let (p, p1, p2) = (pow2(e), pow2(e1), pow2(e2));
                let (x1, x2, y) = (m1 * p1, m2 * p2, m * p);
                assert((m1 * m) * (p1 * p) == x1 * y && (m2 * m) * (p2 * p) == x2 * y)
                    by (nonlinear_arith)
                    requires
                        x1 == m1 * p1,
                        x2 == m2 * p2,
                        y == m * p,
                ;
                let q = pow2(1074);
                assert((x1 * y) * q <= (x2 * y) * q) by (nonlinear_arith)
                    requires
                        x1 <= x2,
                {
                    assert(x1 * y <= x2 * y);
                }
                rounding_keeps_order(x1 * y, q, x2 * y, q);
            }
        }
    }
}

/// A larger amount is rounded to no smaller whole number.
pub proof fn wholes_grow(a: Value, b: Value)
    requires
        is_amount(a),
        is_amount(b),
        at_most(a, b),
    ensures
        is_amount(half_away(a)),
        is_amount(half_away(b)),
        at_most(half_away(a), half_away(b)),
{
    let p = pow2(1074);
    lemma_pow2_pos(1074);
    if let Value::Fin { mant: m1, exp: e1, .. } = a {
        let i = (2 * (m1 * pow2(e1)) + p) / (2 * p);
        lemma_rounded_steps(false, i * p, 1);
        if let Value::Fin { mant: m2, exp: e2, .. } = b {
            let j = (2 * (m2 * pow2(e2)) + p) / (2 * p);
            vstd::arithmetic::div_mod::lemma_div_is_ordered(
                (2 * (m1 * pow2(e1)) + p) as int,
                (2 * (m2 * pow2(e2)) + p) as int,
                (2 * p) as int,
            );
            assert((i * p) * 1 <= (j * p) * 1) by (nonlinear_arith)
                requires
                    i <= j,
            ;
            rounding_keeps_order(i * p, 1, j * p, 1);
        }
    }
}

/// A larger amount is cut off to no smaller integer.
pub proof fn cuts_grow(a: Value, b: Value, hi: int)
    requires
        is_amount(a),
        is_amount(b),
        at_most(a, b),
        hi >= 0,
    ensures
        0 <= cut(a, 0, hi) <= cut(b, 0, hi) <= hi,
{
    let p = pow2(1074);
    lemma_pow2_pos(1074);
    if let Value::Fin { mant: m1, exp: e1, .. } = a {
        vstd::arithmetic::div_mod::lemma_div_pos_is_pos((m1 * pow2(e1)) as int, p as int);
        if let Value::Fin { mant: m2, exp: e2, .. } = b {
            vstd::arithmetic::div_mod::lemma_div_is_ordered(
                (m1 * pow2(e1)) as int,
                (m2 * pow2(e2)) as int,
                p as int,
            );
        }
    }
}

/// Zero, of either sign, times a finite number is cut off to zero.
pub proof fn zero_stays_zero(v: Value, c: Value, hi: int)
    requires
        v matches Value::Fin { mant, .. } && mant == 0,
        c is Fin,
        hi >= 0,
    ensures
        cut(half_away(times(v, c)), 0, hi) == 0,
{
    let p = pow2(1074);
    lemma_pow2_pos(1074);
    if let Value::Fin { neg: n1, mant: m1, exp: e1 } = v {
        if let Value::Fin { neg: n2, mant: m2, exp: e2 } = c {
            assert((m1 * m2) * pow2(e1 + e2) == 0 && (0 * p) * p == 0 && 0 * p == 0 && (0 * p) * 1
                == 0) by (nonlinear_arith)
                requires
                    m1 == 0,
            ;
            lemma_rounded_below(n1 != n2, 0, p, 0);
            vstd::arithmetic::div_mod::lemma_fundamental_div_mod_converse(
                p as int,
                (2 * p) as int,
                0,
                p as int,
            );
            lemma_rounded_below(n1 != n2, 0, 1, 0);
            vstd::arithmetic::div_mod::lemma_fundamental_div_mod_converse(0, p as int, 0, 0);
        }
    }
}

/// A finite number from 1/128 up to `n`.
pub open spec fn is_moderate(v: Value, n: nat) -> bool {
    v matches Value::Fin { neg, mant, exp } && !neg && mant > 0 && pow2(1074) <= (mant * pow2(exp))
        * 128 && mant * pow2(exp) <= n * pow2(1074)
}

/// Fractions of moderate size, and their products with numbers from one on, are
/// moderate.
pub proof fn moderate_numbers(num: nat, den: nat, factor: nat, base: nat)
    requires
        0 < den <= 100,
        0 < num <= 10_000,
        0 < base <= factor <= 10_000,
        base <= 100,
    ensures
        is_moderate(ratio_value(num, den), num),
        is_moderate(times(ratio_value(num, den), ratio_value(factor, base)), num * factor),
{
    let p = pow2(1074);
    lemma_pow2_pos(1074);
    lemma_moderate(num, den);
    lemma_moderate(factor, base);
    whole_numbers_are_exact(1);
    assert((1 * p) * base <= (factor * p) * 1) by (nonlinear_arith)
        requires
            base <= factor,
    ;
    rounding_keeps_order(1 * p, 1, factor * p, base);
    if let Value::Fin { mant: m1, exp: e1, .. } = ratio_value(num, den) {
        if let Value::Fin { mant: m2, exp: e2, .. } = ratio_value(factor, base) {
            lemma_pow2_adds(e1, e2);
            let (x, y) = (m1 * pow2(e1), m2 * pow2(e2));
            assert((m1 * m2) * (pow2(e1) * pow2(e2)) == x * y) by (nonlinear_arith)
                requires
                    x == m1 * pow2(e1),
                    y == m2 * pow2(e2),
            ;
            assert(p * p <= (x * y) * 128) by (nonlinear_arith)
                requires
                    p <= x * 128,
                    y >= 1 * p,
                    p > 0,
            {
                assert(p * p <= (x * 128) * p);
                assert((x * 128) * p <= (x * 128) * y);
            }
            assert(x * y <= ((num * factor) * p) * p) by (nonlinear_arith)
                requires
                    x <= num * p,
                    y <= factor * p,
            {
                assert(x * y <= (num * p) * (factor * p));
            }
            assert(num * factor <= 100_000_000) by (nonlinear_arith)
                requires
                    num <= 10_000,
                    factor <= 10_000,
            ;
            lemma_rounded_moderate(x * y, p, num * factor);
        }
    }
}

/// The quotient of whole numbers, the second at most a hundred times the first,
/// is moderate.
pub proof fn moderate_quotients(a: nat, b: nat)
    requires
        0 < a <= 10_000,
        0 < b <= 10_000,
        b <= 100 * a,
    ensures
        is_moderate(over(ratio_value(a, 1), ratio_value(b, 1)), a),
{
    let p = pow2(1074);
    lemma_pow2_pos(1074);
    whole_numbers_are_exact(a);
    whole_numbers_are_exact(b);
    counts_are_finite(b);
    if let Value::Fin { mant: m1, exp: e1, .. } = ratio_value(a, 1) {
        lemma_pow2_adds(e1, 1074);
        assert(m1 * (pow2(e1) * p) == (a * p) * p) by (nonlinear_arith)
            requires
                m1 * pow2(e1) == a * p,
        ;
        assert(b * p > 0) by (nonlinear_arith)
            requires
                b > 0,
                p > 0,
        ;
        assert(p * (b * p) <= ((a * p) * p) * 128) by (nonlinear_arith)
            requires
                b <= 100 * a,
                p > 0,
        {
            assert(b * (p * p) <= (100 * a) * (p * p));
        }
        assert((a * p) * p <= (a * p) * (b * p)) by (nonlinear_arith)
            requires
                b >= 1,
                p > 0,
        ;
        lemma_rounded_moderate((a * p) * p, b * p, a);
    }
}

proof fn lemma_rounded_moderate(num: nat, den: nat, n: nat)
    requires
        den > 0,
        n < 0x20_0000_0000_0000,
        pow2(1074) * den <= num * 128,
        num <= (n * pow2(1074)) * den,
    ensures
        is_moderate(rounded(false, num, den), n),
{
    let p = pow2(1074);
    lemma_pow2_pos(1067);
    lemma2_to64();
    lemma_pow2_adds(1067, 7);
    lemma_rounded_below(false, num, den, n);
    dyadic_fractions_are_exact(1, 7);
    assert(1 * p == p && 1 * pow2(1067) == pow2(1067)) by (nonlinear_arith);
    rounding_keeps_order(p, 128, num, den);
    if let Value::Fin { mant, exp, .. } = rounded(false, num, den) {
        if mant == 0 {
            assert(0 * pow2(exp) == 0) by (nonlinear_arith);
        }
    }
}

proof fn lemma_moderate(num: nat, den: nat)
    requires
        0 < den <= 100,
        0 < num <= 10_000,
    ensures
        is_moderate(ratio_value(num, den), num),
{
    let p = pow2(1074);
    lemma_pow2_pos(1074);
    assert(p * den <= (num * p) * 128) by (nonlinear_arith)
        requires
            den <= 100,
            num >= 1,
            p > 0,
    ;
    assert(num * p <= (num * p) * den) by (nonlinear_arith)
        requires
            den >= 1,
    ;
    lemma_rounded_moderate(num * p, den, num);
}

/// A positive number divided by itself is one.
pub proof fn quotient_with_itself(v: Value)
    requires
        v matches Value::Fin { neg, mant, .. } && !neg && mant > 0,
    ensures
        over(v, v) == ratio_value(1, 1),
{
    if let Value::Fin { mant, exp, .. } = v {
        let p = pow2(1074);
        let x = mant * pow2(exp);
        lemma_pow2_pos(exp);
        lemma_pow2_adds(exp, 1074);
        assert(x > 0) by (nonlinear_arith)
            requires
                x == mant * pow2(exp),
                mant > 0,
                pow2(exp) > 0,
        ;
        assert(mant * (pow2(exp) * p) == (1 * p) * x && 1 * x == x) by (nonlinear_arith)
            requires
                x == mant * pow2(exp),
        ;
        lemma_common_factor(false, 1 * p, 1, x);
    }
}

/// A larger amount divided by the same positive number is no smaller.
pub proof fn quotients_grow(a1: Value, a2: Value, c: Value)
    requires
        is_amount(a1),
        is_amount(a2),
        at_most(a1, a2),
        c matches Value::Fin { neg, mant, .. } && !neg && mant > 0,
    ensures
        is_amount(over(a1, c)),
        is_amount(over(a2, c)),
        at_most(over(a1, c), over(a2, c)),
{
    if let Value::Fin { mant: m, exp: e, .. } = c {
        let d = m * pow2(e);
        lemma_pow2_pos(e);
        assert(d > 0) by (nonlinear_arith)
            requires
                d == m * pow2(e),
                m > 0,
                pow2(e) > 0,
        ;
        if let Value::Fin { mant: m1, exp: e1, .. } = a1 {
            if let Value::Fin { mant: m2, exp: e2, .. } = a2 {
                let p = pow2(1074);
                lemma_pow2_adds(e1, 1074);
                lemma_pow2_adds(e2, 1074);
                let (x1, x2) = (m1 * pow2(e1), m2 * pow2(e2));
                assert(m1 * (pow2(e1) * p) == x1 * p && m2 * (pow2(e2) * p) == x2 * p)
                    by (nonlinear_arith)
                    requires
                        x1 == m1 * pow2(e1),
                        x2 == m2 * pow2(e2),
                ;
                assert((x1 * p) * d <= (x2 * p) * d) by (nonlinear_arith)
                    requires
                        x1 <= x2,
                {
                    assert(x1 * p <= x2 * p);
                }
                rounding_keeps_order(x1 * p, d, x2 * p, d);
            }
        }
    }
}

/// Zero divided by a positive number is zero.
pub proof fn zero_over(c: Value)
    requires
        c matches Value::Fin { neg, mant, .. } && !neg && mant > 0,
    ensures
        over(ratio_value(0, 1), c) matches Value::Fin { neg, mant, .. } && !neg && mant == 0,
{
    whole_numbers_are_exact(0);
    if let Value::Fin { mant: m, exp: e, .. } = c {
        let d = m * pow2(e);
        lemma_pow2_pos(e);
        assert(d > 0) by (nonlinear_arith)
            requires
                d == m * pow2(e),
                m > 0,
                pow2(e) > 0,
        ;
        if let Value::Fin { mant, exp, .. } = ratio_value(0, 1) {
            lemma_pow2_pos(exp);
            assert(mant == 0) by (nonlinear_arith)
                requires
                    mant * pow2(exp) == 0 * pow2(1074),
                    pow2(exp) > 0,
            ;
            assert(0 * pow2(exp + 1074) == 0 && (0 * pow2(1074)) * d == 0) by (nonlinear_arith);
            lemma_rounded_below(false, 0, d, 0);
            if let Value::Fin { mant: r, exp: x, .. } = over(ratio_value(0, 1), c) {
                lemma_pow2_pos(x);
                assert(r == 0) by (nonlinear_arith)
                    requires
                        r * pow2(x) <= 0 * pow2(1074),
                        pow2(x) > 0,
                ;
            }
        }
    }
}

/// How many steps of `2^-1074` a finite number has, below zero for a negative
/// one.
pub open spec fn steps_of(v: Value) -> int {
    match v {
        Value::Fin { neg, mant, exp } => steps(neg, mant, exp),
        _ => 0,
    }
}

/// A finite number above zero.
pub open spec fn is_positive(v: Value) -> bool {
    v matches Value::Fin { neg, mant, .. } && !neg && mant > 0
}

/// `a` differs from `b` by at most one part in `parts` of `b`.
pub open spec fn is_close(a: int, b: int, parts: int) -> bool {
    -b <= (a - b) * parts <= b
}

/// A quotient is rounded to the natural number that is nearest to it, and to the
/// even one of two that are equally near.
pub proof fn the_nearest_is_taken(num: nat, den: nat)
    requires
        den > 0,
    ensures
        2 * num <= 2 * (nearest(num, den) * den) + den,
        2 * (nearest(num, den) * den) <= 2 * num + den,
        2 * num == 2 * (nearest(num, den) * den) + den ==> nearest(num, den) % 2 == 0,
        2 * (nearest(num, den) * den) == 2 * num + den ==> nearest(num, den) % 2 == 0,
{
    let (q, r) = (num / den, num % den);
    vstd::arithmetic::div_mod::lemma_fundamental_div_mod(num as int, den as int);
    assert(num == q * den + r && (q + 1) * den == q * den + den) by (nonlinear_arith)
        requires
            num == den * q + r,
    ;
}

/// A number above the smallest ones is rounded by at most one part in `2^53`.
pub proof fn rounding_changes_little(num: nat, den: nat)
    requires
        den > 0,
        0x10_0000_0000_0000 * den <= num || den == 1,
        rounded(false, num, den) is Fin,
    ensures
        is_close(steps_of(rounded(false, num, den)) * den, num as int, 0x20_0000_0000_0000),
        steps_of(rounded(false, num, den)) >= 0,
{
    let k = scale(num, den);
    let p = pow2(k);
    let d = p * den;
    let m = nearest(num, d);
    lemma_scale_bounds(num, den);
    lemma_rounded_steps(false, num, den);
    lemma_pow2_pos(k);
    lemma2_to64();
    assert(d > 0) by (nonlinear_arith)
        requires
            d == p * den,
            p > 0,
            den > 0,
    ;
    the_nearest_is_taken(num, d);
    let s = steps_of(rounded(false, num, den));
    assert(s == m * p);
    assert(s >= 0) by (nonlinear_arith)
        requires
            s == m * p,
    ;
    assert(s * den == m * d) by (nonlinear_arith)
        requires
            s == m * p,
            d == p * den,
    ;
    if k == 0 {
        assert(d == den) by (nonlinear_arith)
            requires
                d == p * den,
                p == 1,
        ;
        if den == 1 {
            vstd::arithmetic::div_mod::lemma_fundamental_div_mod_converse(
                num as int,
                1,
                num as int,
                0,
            );
            assert(m * d == num) by (nonlinear_arith)
                requires
                    m == num,
                    d == 1,
            ;
        }
    }
}

/// How a quotient is had from the steps of its terms.
proof fn lemma_over_steps(a: Value, b: Value)
    requires
        a matches Value::Fin { neg, .. } && !neg,
        is_positive(b),
    ensures
        steps_of(a) >= 0,
        steps_of(b) > 0,
        over(a, b) == rounded(false, steps_of(a) as nat * pow2(1074), steps_of(b) as nat),
{
    if let Value::Fin { mant: m1, exp: e1, .. } = a {
        if let Value::Fin { mant: m2, exp: e2, .. } = b {
            lemma_pow2_pos(e2);
            lemma_pow2_adds(e1, 1074);
            let (p, q) = (pow2(e1), pow2(1074));
            assert(m1 * (p * q) == (m1 * p) * q && m1 * p >= 0) by (nonlinear_arith);
            assert(m2 * pow2(e2) > 0) by (nonlinear_arith)
                requires
                    m2 > 0,
                    pow2(e2) > 0,
            ;
        }
    }
}

/// How a product is had from the steps of its terms.
proof fn lemma_times_steps(a: Value, b: Value)
    requires
        a matches Value::Fin { neg, .. } && !neg,
        b matches Value::Fin { neg, .. } && !neg,
    ensures
        steps_of(a) >= 0,
        steps_of(b) >= 0,
        times(a, b) == rounded(false, steps_of(a) as nat * steps_of(b) as nat, pow2(1074)),
{
    if let Value::Fin { mant: m1, exp: e1, .. } = a {
        if let Value::Fin { mant: m2, exp: e2, .. } = b {
            lemma_pow2_adds(e1, e2);
            let (p, q) = (pow2(e1), pow2(e2));
            assert((m1 * m2) * (p * q) == (m1 * p) * (m2 * q) && m1 * p >= 0 && m2 * q >= 0)
                by (nonlinear_arith);
        }
    }
}

/// A number is positive exactly when it has steps above zero.
pub proof fn positive_numbers_have_steps(v: Value)
    ensures
        is_positive(v) <==> steps_of(v) > 0,
{
    if let Value::Fin { mant, exp, .. } = v {
        lemma_pow2_pos(exp);
        lemma_zero_product(mant, pow2(exp));
        assert(mant * pow2(exp) >= 0) by (nonlinear_arith);
    }
}

/// How many steps of `2^-1074` a finite number has, its sign aside.
pub open spec fn magnitude(v: Value) -> int {
    if steps_of(v) < 0 {
        -steps_of(v)
    } else {
        steps_of(v)
    }
}

/// A number is rounded to the whole number that it is nearest to, one that lies
/// halfway to the one that is further from zero.
pub proof fn the_nearest_whole_number(v: Value, n: nat, lo: int, hi: int)
    requires
        v is Fin,
        n < 0x20_0000_0000_0000,
        (2 * n - 1) * pow2(1074) <= 2 * magnitude(v) < (2 * n + 1) * pow2(1074),
        lo <= n <= hi,
        steps_of(v) < 0 ==> lo <= -n,
    ensures
        half_away(v) is Fin,
        steps_of(v) >= 0 ==> steps_of(half_away(v)) == n * pow2(1074),
        steps_of(v) < 0 ==> steps_of(half_away(v)) == -(n * pow2(1074)),
        steps_of(v) >= 0 ==> cut(half_away(v), lo, hi) == n,
        steps_of(v) < 0 ==> cut(half_away(v), lo, hi) == -n,
        !negative(v) ==> half_away(v) == ratio_value(n, 1),
{
    let p = pow2(1074);
    lemma_pow2_pos(1074);
    if let Value::Fin { neg, mant, exp } = v {
        let x = mant * pow2(exp);
        assert(x >= 0) by (nonlinear_arith)
            requires
                x == mant * pow2(exp),
        ;
        let r = 2 * x + p - n * (2 * p);
        assert((2 * n - 1) * p == n * (2 * p) - p && (2 * n + 1) * p == n * (2 * p) + p)
            by (nonlinear_arith);
        vstd::arithmetic::div_mod::lemma_fundamental_div_mod_converse(
            (2 * x + p) as int,
            (2 * p) as int,
            n as int,
            r as int,
        );
        let (m, e) = lemma_normalized(n, 1074);
        rounding_keeps_numbers(neg, m, e);
        vstd::arithmetic::div_mod::lemma_fundamental_div_mod_converse(
            (n * p) as int,
            p as int,
            n as int,
            0,
        );
        if neg && x == 0 {
            assert(n == 0) by (nonlinear_arith)
                requires
                    (2 * n - 1) * p <= 0,
                    p > 0,
            ;
            assert(0 * p == 0) by (nonlinear_arith);
        }
    }
}

/// A quotient of at most `n` is finite and close to the exact one, unless it is
/// among the smallest numbers.
pub proof fn quotients_are_close(a: Value, b: Value, n: nat)
    requires
        a matches Value::Fin { neg, .. } && !neg,
        is_positive(b),
        0x10_0000_0000_0000 * steps_of(b) <= steps_of(a) * pow2(1074),
        steps_of(a) <= n * steps_of(b),
        n < 0x20_0000_0000_0000,
    ensures
        over(a, b) matches Value::Fin { neg, .. } && !neg,
        is_close(
            steps_of(over(a, b)) * steps_of(b),
            steps_of(a) * pow2(1074),
            0x20_0000_0000_0000,
        ),
{
    let p = pow2(1074);
    lemma_over_steps(a, b);
    let (x, y) = (steps_of(a) as nat, steps_of(b) as nat);
    assert(x * p <= (n * p) * y) by (nonlinear_arith)
        requires
            x <= n * y,
    ;
    lemma_rounded_below(false, x * p, y, n);
    rounding_changes_little(x * p, y);
}

/// A difference that is not below zero, and at most `n`, is finite and close to
/// the exact one.
pub proof fn differences_are_close(a: Value, b: Value, n: nat)
    requires
        a is Fin,
        b is Fin,
        0 <= steps_of(a) - steps_of(b) <= n * pow2(1074),
        n < 0x20_0000_0000_0000,
    ensures
        minus(a, b) is Fin,
        is_close(steps_of(minus(a, b)), steps_of(a) - steps_of(b), 0x20_0000_0000_0000),
        steps_of(a) > steps_of(b) ==> (minus(a, b) matches Value::Fin { neg, .. } && !neg),
{
    let d = (steps_of(a) - steps_of(b)) as nat;
    if let Value::Fin { neg: n1, mant: m1, exp: e1 } = a {
        if let Value::Fin { neg: n2, mant: m2, exp: e2 } = b {
            assert(steps(n1, m1, e1) + steps(!n2, m2, e2) == d);
            if d == 0 {
                assert(0 * pow2(0) == 0) by (nonlinear_arith);
            } else {
                assert((n * pow2(1074)) * 1 == n * pow2(1074)) by (nonlinear_arith);
                lemma_rounded_below(false, d, 1, n);
                rounding_changes_little(d, 1);
            }
        }
    }
}

/// A product of at most `n` is finite and close to the exact one, unless it is
/// among the smallest numbers.
pub proof fn products_are_close(a: Value, b: Value, n: nat)
    requires
        a matches Value::Fin { neg, .. } && !neg,
        b matches Value::Fin { neg, .. } && !neg,
        0x10_0000_0000_0000 * pow2(1074) <= steps_of(a) * steps_of(b),
        steps_of(a) * steps_of(b) <= (n * pow2(1074)) * pow2(1074),
        n < 0x20_0000_0000_0000,
    ensures
        times(a, b) matches Value::Fin { neg, .. } && !neg,
        is_close(
            steps_of(times(a, b)) * pow2(1074),
            steps_of(a) * steps_of(b),
            0x20_0000_0000_0000,
        ),
{
    let p = pow2(1074);
    lemma_pow2_pos(1074);
    lemma_times_steps(a, b);
    let (x, y) = (steps_of(a) as nat, steps_of(b) as nat);
    lemma_rounded_below(false, x * y, p, n);
    rounding_changes_little(x * y, p);
}

/// Less divided by more is not more.
pub proof fn quotients_shrink(a1: Value, b1: Value, a2: Value, b2: Value)
    requires
        a1 matches Value::Fin { neg, .. } && !neg,
        a2 matches Value::Fin { neg, .. } && !neg,
        is_positive(b1),
        is_positive(b2),
        at_most(a2, a1),
        at_most(b1, b2),
    ensures
        at_most(over(a2, b2), over(a1, b1)),
{
    let p = pow2(1074);
    lemma_over_steps(a1, b1);
    lemma_over_steps(a2, b2);
    let (x1, y1) = (steps_of(a1) as nat, steps_of(b1) as nat);
    let (x2, y2) = (steps_of(a2) as nat, steps_of(b2) as nat);
    assert((x2 * p) * y1 <= (x1 * p) * y2) by (nonlinear_arith)
        requires
            x2 <= x1,
            y1 <= y2,
    {
        assert(x2 * y1 <= x1 * y2);
        assert((x2 * y1) * p <= (x1 * y2) * p);
    }
    rounding_keeps_order(x2 * p, y2, x1 * p, y1);
    lemma_rounded_steps(false, x2 * p, y2);
    lemma_rounded_steps(false, x1 * p, y1);
}

/// The more is taken away, the less is left.
pub proof fn differences_shrink(a: Value, b1: Value, b2: Value)
    requires
        a is Fin,
        b1 is Fin,
        b2 is Fin,
        at_most(b1, b2),
        at_most(b2, a),
    ensures
        at_most(minus(a, b2), minus(a, b1)),
{
    let d1 = (steps_of(a) - steps_of(b1)) as nat;
    let d2 = (steps_of(a) - steps_of(b2)) as nat;
    assert(d2 * 1 <= d1 * 1);
    rounding_keeps_order(d2, 1, d1, 1);
    lemma_rounded_steps(false, d1, 1);
    lemma_rounded_steps(false, d2, 1);
    assert(0 * pow2(0) == 0) by (nonlinear_arith);
    if let Value::Fin { mant, exp, .. } = rounded(false, d1, 1) {
        assert(mant * pow2(exp) >= 0) by (nonlinear_arith);
    }
}

/// A number below one is below it by at least one part in `2^53`.
pub proof fn the_gap_below_one(d: Double)
    requires
        less(d@, ratio_value(1, 1)),
        d@ is Fin,
    ensures
        pow2(1074) - steps_of(d@) >= pow2(1021),
        pow2(1074) == 0x20_0000_0000_0000 * pow2(1021),
        steps_of(ratio_value(1, 1)) == pow2(1074),
{
    let p = pow2(1021);
    whole_numbers_are_exact(1);
    lemma2_to64();
    lemma2_to64_rest();
    lemma_pow2_pos(1021);
    lemma_pow2_adds(53, 1021);
    assert(1 * pow2(1074) == pow2(1074)) by (nonlinear_arith);
    doubles_are_canonical(d);
    if let Value::Fin { neg, mant, exp } = d@ {
        let q = pow2(exp);
        lemma_pow2_pos(exp);
        assert(mant * q >= 0) by (nonlinear_arith);
        if exp <= 1021 {
            if exp < 1021 {
                lemma_pow2_strictly_increases(exp, 1021);
            }
            assert(mant * q <= 0x1F_FFFF_FFFF_FFFF * p) by (nonlinear_arith)
                requires
                    mant <= 0x1F_FFFF_FFFF_FFFF,
                    q <= p,
            ;
        } else {
            lemma_pow2_unfold(1022);
            if exp > 1022 {
                lemma_pow2_strictly_increases(1022, exp);
            }
            assert(mant * q >= 0x10_0000_0000_0000 * (2 * p)) by (nonlinear_arith)
                requires
                    mant >= 0x10_0000_0000_0000,
                    q >= 2 * p,
            ;
        }
    }
}

/// The quotient of a whole number and one that divides it is exact.
pub proof fn whole_quotients_are_exact(a: nat, b: nat)
    requires
        a * b < 0x20_0000_0000_0000,
        0 < b < 0x20_0000_0000_0000,
    ensures
        over(ratio_value(a * b, 1), ratio_value(b, 1)) == ratio_value(a, 1),
{
    let p = pow2(1074);
    lemma_pow2_pos(1074);
    whole_numbers_are_exact(a * b);
    whole_numbers_are_exact(b);
    assert(b * p > 0) by (nonlinear_arith)
        requires
            b > 0,
            p > 0,
    ;
    positive_numbers_have_steps(ratio_value(b, 1));
    lemma_over_steps(ratio_value(a * b, 1), ratio_value(b, 1));
    assert(((a * b) * p) * p == (a * p) * (b * p) && 1 * (b * p) == b * p) by (nonlinear_arith);
    lemma_common_factor(false, a * p, 1, b * p);
}

/// A negative number is divided as its magnitude is.
pub proof fn quotients_of_negatives(a: Value, b: Value)
    requires
        a is Fin,
        is_positive(b),
    ensures
        over(negated(a), b) == negated(over(a, b)),
        steps_of(over(negated(a), b)) == -steps_of(over(a, b)),
{
}

/// Whatever its size, a number is rounded by at most one part in `2^53` of it or
/// half the smallest step.
proof fn lemma_rounding_changes_little(num: nat, den: nat)
    requires
        den > 0,
        rounded(false, num, den) is Fin,
    ensures
        -(num + 0x10_0000_0000_0000 * den) <= (steps_of(rounded(false, num, den)) * den - num)
            * 0x20_0000_0000_0000 <= num + 0x10_0000_0000_0000 * den,
{
    let k = scale(num, den);
    if k > 0 || 0x10_0000_0000_0000 * den <= num {
        lemma_scale_bounds(num, den);
        lemma_pow2_pos(k);
        assert(pow2(k) * den >= den) by (nonlinear_arith)
            requires
                pow2(k) >= 1,
                den > 0,
        ;
        rounding_changes_little(num, den);
    } else {
        lemma2_to64();
        lemma_rounded_steps(false, num, den);
        assert(pow2(0) * den == den) by (nonlinear_arith)
            requires
                pow2(0) == 1,
        ;
        let m = nearest(num, den);
        assert(m * pow2(0) == m) by (nonlinear_arith)
            requires
                pow2(0) == 1,
        ;
        the_nearest_is_taken(num, den);
    }
}

/// A number times a whole number is close to the exact product.
pub proof fn multiples_are_close(v: Value, k: nat, n: nat)
    requires
        v matches Value::Fin { neg, .. } && !neg,
        k < 0x20_0000_0000_0000,
        k * steps_of(v) <= n * pow2(1074),
        n < 0x20_0000_0000_0000,
    ensures
        times(v, ratio_value(k, 1)) matches Value::Fin { neg, .. } && !neg,
        -(k * steps_of(v) + 0x10_0000_0000_0000) <= (steps_of(times(v, ratio_value(k, 1))) - k
            * steps_of(v)) * 0x20_0000_0000_0000 <= k * steps_of(v) + 0x10_0000_0000_0000,
{
    let p = pow2(1074);
    lemma_pow2_pos(1074);
    whole_numbers_are_exact(k);
    lemma_times_steps(v, ratio_value(k, 1));
    let x = steps_of(v) as nat;
    let y = k * x;
    assert(x * (k * p) == y * p && 1 * p == p) by (nonlinear_arith)
        requires
            y == k * x,
    ;
    lemma_common_factor(false, y, 1, p);
    assert((n * p) * 1 == n * p) by (nonlinear_arith);
    lemma_rounded_below(false, y, 1, n);
    lemma_rounding_changes_little(y, 1);
}

/// Numbers of the same size come to the same whole number when they are
/// multiplied and rounded, zero of either sign among them.
pub proof fn equal_numbers_round_alike(a: Value, b: Value, c: Value, lo: int, hi: int)
    requires
        a is Fin,
        b is Fin,
        c is Fin,
        steps_of(a) == steps_of(b),
        lo <= 0 <= hi,
    ensures
        cut(half_away(times(a, c)), lo, hi) == cut(half_away(times(b, c)), lo, hi),
{
    lemma2_to64();
    if let Value::Fin { neg: n1, mant: m1, exp: e1 } = a {
        if let Value::Fin { neg: n2, mant: m2, exp: e2 } = b {
            if let Value::Fin { neg: n3, mant: m3, exp: e3 } = c {
                let (p1, p2, p3) = (pow2(e1), pow2(e2), pow2(e3));
                lemma_pow2_adds(e1, e3);
                lemma_pow2_adds(e2, e3);
                lemma_pow2_pos(e1);
                lemma_pow2_pos(e2);
                assert(m1 * p1 >= 0 && m2 * p2 >= 0) by (nonlinear_arith);
                assert((m1 * m3) * (p1 * p3) == (m1 * p1) * (m3 * p3) && (m2 * m3) * (p2 * p3) == (m2
                    * p2) * (m3 * p3)) by (nonlinear_arith);
                if n1 != n2 {
                    assert(m1 * p1 == 0 && m2 * p2 == 0);
                    lemma_zero_rounds_to_zero(a, c, lo, hi);
                    lemma_zero_rounds_to_zero(b, c, lo, hi);
                }
            }
        }
    }
}

proof fn lemma_zero_rounds_to_zero(v: Value, c: Value, lo: int, hi: int)
    requires
        v is Fin,
        steps_of(v) == 0,
        c is Fin,
        lo <= 0 <= hi,
    ensures
        cut(half_away(times(v, c)), lo, hi) == 0,
{
    if let Value::Fin { mant, exp, .. } = v {
        lemma_pow2_pos(exp);
        lemma_zero_product(mant, pow2(exp));
        let p = pow2(1074);
        lemma_pow2_pos(1074);
        if let Value::Fin { neg: n2, mant: m2, exp: e2 } = c {
            assert((mant * m2) * pow2(exp + e2) == 0 && (0 * p) * p == 0 && 0 * p == 0 && (0 * p)
                * 1 == 0) by (nonlinear_arith)
                requires
                    mant == 0,
            ;
            lemma_rounded_below(negative(v) != n2, 0, p, 0);
            vstd::arithmetic::div_mod::lemma_fundamental_div_mod_converse(
                p as int,
                (2 * p) as int,
                0,
                p as int,
            );
            lemma_rounded_below(negative(v) != n2, 0, 1, 0);
            vstd::arithmetic::div_mod::lemma_fundamental_div_mod_converse(0, p as int, 0, 0);
        }
    }
}

/// The whole number that an amount is rounded to lies within a half of it.
pub proof fn amounts_round_within_a_half(v: Value, k: nat, hi: int)
    requires
        v matches Value::Fin { neg, .. } && !neg,
        steps_of(v) <= k * pow2(1074),
        k < 0x1F_FFFF_FFFF_FFFF,
        k < hi,
    ensures
        ({
            let n = cut(half_away(v), 0, hi);
            0 <= n && (2 * n - 1) * pow2(1074) <= 2 * steps_of(v) < (2 * n + 1) * pow2(1074)
        }),
{
    let p = pow2(1074) as int;
    lemma_pow2_pos(1074);
    let x = steps_of(v);
    positive_numbers_have_steps(v);
    assert(x >= 0) by {
        if let Value::Fin { mant, exp, .. } = v {
            assert(mant * pow2(exp) >= 0) by (nonlinear_arith);
        }
    }
    let n = (2 * x + p) / (2 * p);
    let r = (2 * x + p) % (2 * p);
    vstd::arithmetic::div_mod::lemma_fundamental_div_mod(2 * x + p, 2 * p);
    assert(n >= 0 && n <= k + 1 && (2 * n - 1) * p <= 2 * x < (2 * n + 1) * p) by (nonlinear_arith)
        requires
            2 * x + p == (2 * p) * n + r,
            0 <= r < 2 * p,
            0 <= x <= k * p,
            p > 0,
    ;
    the_nearest_whole_number(v, n as nat, 0, hi);
}

/// The order of the factors makes no difference.
pub proof fn products_commute(a: Value, b: Value)
    requires
        a is Fin,
        b is Fin,
    ensures
        times(a, b) == times(b, a),
{
    if let Value::Fin { mant: m1, exp: e1, .. } = a {
        if let Value::Fin { mant: m2, exp: e2, .. } = b {
            assert(m1 * m2 == m2 * m1) by (nonlinear_arith);
        }
    }
}

/// A sum of amounts of at most `n` is finite and close to the exact one.
pub proof fn sums_are_close(a: Value, b: Value, n: nat)
    requires
        a matches Value::Fin { neg, .. } && !neg,
        b matches Value::Fin { neg, .. } && !neg,
        steps_of(a) + steps_of(b) <= n * pow2(1074),
        n < 0x20_0000_0000_0000,
    ensures
        plus(a, b) matches Value::Fin { neg, .. } && !neg,
        is_close(steps_of(plus(a, b)), steps_of(a) + steps_of(b), 0x20_0000_0000_0000),
        steps_of(a) >= 0,
        steps_of(b) >= 0,
{
    if let Value::Fin { mant: m1, exp: e1, .. } = a {
        if let Value::Fin { mant: m2, exp: e2, .. } = b {
            assert(m1 * pow2(e1) >= 0 && m2 * pow2(e2) >= 0) by (nonlinear_arith);
            let s = (steps_of(a) + steps_of(b)) as nat;
            if s == 0 {
                assert(0 * pow2(0) == 0) by (nonlinear_arith);
            } else {
                assert((n * pow2(1074)) * 1 == n * pow2(1074)) by (nonlinear_arith);
                lemma_rounded_below(false, s, 1, n);
                rounding_changes_little(s, 1);
            }
        }
    }
}

/// A fraction is close to the exact one.
pub proof fn fractions_are_close(num: nat, den: nat)
    requires
        0 < num < 0x20_0000_0000_0000,
        0 < den < 0x20_0000_0000_0000,
    ensures
        is_positive(ratio_value(num, den)),
        is_close(steps_of(ratio_value(num, den)) * den, (num * pow2(1074)) as int, 0x20_0000_0000_0000),
{
    let p = pow2(1074);
    lemma_pow2_pos(954);
    lemma_pow2_adds(60, 60);
    lemma_pow2_adds(120, 954);
    lemma2_to64();
    lemma2_to64_rest();
    assert(0x10_0000_0000_0000 * den <= num * p && num * p <= (num * p) * den) by (nonlinear_arith)
        requires
            num >= 1,
            1 <= den < 0x20_0000_0000_0000,
            p == (0x1000_0000_0000_0000 * 0x1000_0000_0000_0000) * pow2(954),
            pow2(954) >= 1,
    {
        assert(p >= 0x1000_0000_0000_0000 * 0x1000_0000_0000_0000);
        assert(num * p >= p);
    }
    lemma_rounded_below(false, num * p, den, num);
    rounding_changes_little(num * p, den);
    let s = steps_of(ratio_value(num, den));
    assert(s > 0) by (nonlinear_arith)
        requires
            -(num * p) <= (s * den - num * p) * 0x20_0000_0000_0000,
            num > 0,
            p > 0,
            den > 0,
    {
        assert(num * p > 0);
        assert(s * den > 0);
    }
    positive_numbers_have_steps(ratio_value(num, den));
}

/// There are more than `2^128` steps from zero to one.
pub proof fn one_has_many_steps()
    ensures
        pow2(1074) >= 0x1_0000_0000_0000_0000 * 0x1_0000_0000_0000_0000,
{
    lemma2_to64();
    lemma2_to64_rest();
    lemma_pow2_adds(64, 64);
    lemma_pow2_strictly_increases(128, 1074);
}

pub(crate) proof fn lemma_three_roundings(w: int, y: int, z: int, t: int)
    requires
        is_close(y, w, 0x20_0000_0000_0000),
        is_close(y, z, 0x20_0000_0000_0000),
        is_close(z, t, 0x20_0000_0000_0000),
        0 <= w,
        0 <= z,
        0 <= t,
    ensures
        is_close(w, t, 0x4_0000_0000_0000),
{
}

pub(crate) proof fn lemma_scaled_close(a: int, b: int, c: int, n: int)
    requires
        is_close(a, b, n),
        c >= 0,
    ensures
        is_close(a * c, b * c, n),
{
    assert(-(b * c) <= (a * c - b * c) * n <= b * c) by (nonlinear_arith)
        requires
            -b <= (a - b) * n <= b,
            c >= 0,
    {
        assert((a * c - b * c) * n == ((a - b) * n) * c);
        assert(-(b * c) == (-b) * c);
    }
}

pub(crate) proof fn lemma_unscaled_close(a: int, b: int, c: int, n: int)
    requires
        is_close(a * c, b * c, n),
        c > 0,
    ensures
        is_close(a, b, n),
{
    assert(-b <= (a - b) * n <= b) by (nonlinear_arith)
        requires
            -(b * c) <= (a * c - b * c) * n <= b * c,
            c > 0,
    {
        assert((a * c - b * c) * n == ((a - b) * n) * c);
        assert(-(b * c) == (-b) * c);
    }
}

/// The quotient of two whole numbers is the number nearest to their ratio.
pub proof fn whole_numbers_divide(a: nat, b: nat)
    requires
        a < 0x20_0000_0000_0000,
        0 < b < 0x20_0000_0000_0000,
    ensures
        over(ratio_value(a, 1), ratio_value(b, 1)) == ratio_value(a, b),
{
    let p = pow2(1074);
    lemma_pow2_pos(1074);
    whole_numbers_are_exact(a);
    whole_numbers_are_exact(b);
    assert(b * p > 0) by (nonlinear_arith)
        requires
            b > 0,
            p > 0,
    ;
    positive_numbers_have_steps(ratio_value(b, 1));
    lemma_over_steps(ratio_value(a, 1), ratio_value(b, 1));
    lemma_common_factor(false, a * p, b, p);
}

/// A number times a whole number is rounded to the whole number that is nearest
/// to the product, as far as rounding leaves no doubt which that is.
pub proof fn multiples_round_to_the_nearest(v: Value, k: nat, n: nat, lo: int, hi: int)
    requires
        v matches Value::Fin { neg, .. } && !neg,
        0 < k <= 1000,
        n <= 1_000_000_000,
        lo <= n <= hi,
        ((2 * n - 1) * 0x10_0000 + 1) * pow2(1074) <= 2 * (k * steps_of(v)) * 0x10_0000 <= ((2 * n
            + 1) * 0x10_0000 - 1) * pow2(1074),
    ensures
        half_away(times(v, ratio_value(k, 1))) == ratio_value(n, 1),
        cut(half_away(times(v, ratio_value(k, 1))), lo, hi) == n,
{
    let p = pow2(1074) as int;
    one_has_many_steps();
    let x = k * steps_of(v);
    let t = n * p;
    assert(((2 * n - 1) * 0x10_0000 + 1) * p == 2 * t * 0x10_0000 - 0xF_FFFF * p && ((2 * n + 1)
        * 0x10_0000 - 1) * p == 2 * t * 0x10_0000 + 0xF_FFFF * p && (2 * n - 1) * p == 2 * t - p && (
    2 * n + 1) * p == 2 * t + p && t <= 1_000_000_000 * p) by (nonlinear_arith)
        requires
            t == n * p,
            0 <= n <= 1_000_000_000,
            p > 0,
    ;
    multiples_are_close(v, k, 1_000_000_001);
    let product = times(v, ratio_value(k, 1));
    if let Value::Fin { mant, exp, .. } = product {
        assert(mant * pow2(exp) >= 0) by (nonlinear_arith);
    }
    the_nearest_whole_number(product, n, lo, hi);
}

/// A number times a hundred is shown with the decimal that is nearest to it, as
/// far as rounding leaves no doubt which that is.
pub proof fn percentages_with_a_decimal(v: Value, tenths: nat)
    requires
        v matches Value::Fin { neg, .. } && !neg,
        tenths <= 1_000_000_000,
        ((2 * tenths - 1) * 0x10_0000 + 1) * pow2(1074) <= 2000 * steps_of(v) * 0x10_0000 <= ((2
            * tenths + 1) * 0x10_0000 - 1) * pow2(1074),
    ensures
        fixed1(times(v, ratio_value(100, 1))) == decimal(tenths / 10) + seq!['.', digit(tenths)],
{
    let p = pow2(1074) as int;
    one_has_many_steps();
    let x = 100 * steps_of(v);
    let t = tenths * p;
    assert(((2 * tenths - 1) * 0x10_0000 + 1) * p == 2 * t * 0x10_0000 - 0xF_FFFF * p && ((2 * tenths
        + 1) * 0x10_0000 - 1) * p == 2 * t * 0x10_0000 + 0xF_FFFF * p && t <= 1_000_000_000 * p)
        by (nonlinear_arith)
        requires
            t == tenths * p,
            0 <= tenths <= 1_000_000_000,
            p > 0,
    ;
    multiples_are_close(v, 100, 1_000_000_001);
    let y = times(v, ratio_value(100, 1));
    lemma_tenths(y, tenths);
}

/// The decimal that a number is nearest to is the one that it is shown with.
proof fn lemma_tenths(v: Value, tenths: nat)
    requires
        v matches Value::Fin { neg, .. } && !neg,
        2 * (tenths * pow2(1074)) - pow2(1074) < 20 * steps_of(v) < 2 * (tenths * pow2(1074)) + pow2(
            1074,
        ),
    ensures
        fixed1(v) == decimal(tenths / 10) + seq!['.', digit(tenths)],
{
    let p = pow2(1074);
    lemma_pow2_pos(1074);
    if let Value::Fin { mant, exp, .. } = v {
        lemma_nearest_is(10 * (mant * pow2(exp)), p, tenths);
        assert(fixed1(v) =~= decimal(tenths / 10) + seq!['.', digit(tenths)]);
    }
}

proof fn lemma_nearest_is(num: nat, den: nat, n: nat)
    requires
        den > 0,
        2 * (n * den) - den < 2 * num < 2 * (n * den) + den,
    ensures
        nearest(num, den) == n,
{
    the_nearest_is_taken(num, den);
    let k = nearest(num, den);
    assert(k == n) by (nonlinear_arith)
        requires
            2 * (n * den) - den < 2 * num < 2 * (n * den) + den,
            2 * num <= 2 * (k * den) + den,
            2 * (k * den) <= 2 * num + den,
            den > 0,
    {
        assert((k - n) * den < den);
        assert((n - k) * den < den);
    }
}

/// The quotient of a whole number and a unit is shown with the decimal, or the
/// whole number, that is nearest to it.
pub proof fn quotients_are_shown_rounded(n: nat, unit: nat, told: nat)
    requires
        0 < n < 100_000_000_000_000,
        0 < unit <= 1_000_000_000,
    ensures
        2 * (told * unit) - unit < 20 * n < 2 * (told * unit) + unit ==> fixed1(
            over(ratio_value(n, 1), ratio_value(unit, 1)),
        ) == decimal(told / 10) + seq!['.', digit(told)],
        2 * (told * unit) - unit < 2 * n < 2 * (told * unit) + unit ==> fixed0(
            over(ratio_value(n, 1), ratio_value(unit, 1)),
        ) == decimal(told),
{
    let p = pow2(1074) as int;
    one_has_many_steps();
    whole_numbers_divide(n, unit);
    fractions_are_close(n, unit);
    let v = ratio_value(n, unit);
    let s = steps_of(v);
    let (a, b, t) = (s * unit, n * p, told * p);
    let m = told * unit;
    assert(b <= 100_000_000_000_000 * p && t * unit == m * p) by (nonlinear_arith)
        requires
            b == n * p,
            t == told * p,
            m == told * unit,
            n < 100_000_000_000_000,
            p > 0,
    ;
    if 2 * m - unit < 20 * n < 2 * m + unit {
        assert((2 * m - unit + 1) * p <= 20 * b && 20 * b <= (2 * m + unit - 1) * p)
            by (nonlinear_arith)
            requires
                2 * m - unit + 1 <= 20 * n <= 2 * m + unit - 1,
                b == n * p,
                p > 0,
        ;
        lemma_told(s, unit as int, t, 20, p, b, m as int);
        lemma_tenths(v, told);
    }
    if 2 * m - unit < 2 * n < 2 * m + unit {
        assert((2 * m - unit + 1) * p <= 2 * b && 2 * b <= (2 * m + unit - 1) * p)
            by (nonlinear_arith)
            requires
                2 * m - unit + 1 <= 2 * n <= 2 * m + unit - 1,
                b == n * p,
                p > 0,
        ;
        lemma_told(s, unit as int, t, 2, p, b, m as int);
        if let Value::Fin { mant, exp, .. } = v {
            lemma_nearest_is(mant * pow2(exp), pow2(1074), told);
            assert(fixed0(v) =~= decimal(told));
        }
    }
}

proof fn lemma_told(s: int, unit: int, t: int, k: int, p: int, b: int, m: int)
    requires
        k == 20 || k == 2,
        unit > 0,
        p > 0,
        0 <= b <= 100_000_000_000_000 * p,
        t * unit == m * p,
        -b <= (s * unit - b) * 0x20_0000_0000_0000 <= b,
        (2 * m - unit + 1) * p <= k * b <= (2 * m + unit - 1) * p,
    ensures
        2 * t - p < k * s < 2 * t + p,
{
    let a = s * unit;
    assert((2 * m - unit + 1) * p == 2 * (m * p) - unit * p + p && (2 * m + unit - 1) * p == 2 * (m
        * p) + unit * p - p) by (nonlinear_arith);
    let (e, f) = (m * p, unit * p);
    assert(2 * e - f < k * a < 2 * e + f) by {
        if k == 20 {
            assert(2 * e - f < 20 * a < 2 * e + f);
        } else {
            assert(2 * e - f < 2 * a < 2 * e + f);
        }
    }
    assert(2 * t - p < k * s < 2 * t + p) by (nonlinear_arith)
        requires
            2 * e - f < k * a < 2 * e + f,
            a == s * unit,
            e == t * unit,
            f == unit * p,
            unit > 0,
    {
        assert(k * a == (k * s) * unit);
        assert(2 * e - f == (2 * t - p) * unit);
        assert(2 * e + f == (2 * t + p) * unit);
    }
}

/// A common factor of both terms makes no difference to a ratio.
pub proof fn ratios_in_lower_terms(num: nat, den: nat, factor: nat)
    requires
        den > 0,
        factor > 0,
    ensures
        ratio_value(num * factor, den * factor) == ratio_value(num, den),
{
    let p = pow2(1074);
    assert((num * factor) * p == (num * p) * factor) by (nonlinear_arith);
    lemma_common_factor(false, num * p, den, factor);
}

} // verus!
