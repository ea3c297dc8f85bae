//! Exact decimal amounts.
//!
//! An [`Amount`] is a fixed-point decimal `mantissa * 10^(-scale)` with at
//! most [`MAX_SCALE`] fractional digits.  Its mathematical value is measured
//! in *units* of `10^(-MAX_SCALE)`; a well-formed amount keeps that unit
//! count within `i128`, so addition, subtraction and comparison are exact —
//! no rounding ever happens.  Trailing zeros are trimmed only by
//! [`Amount::normalize`], which callers invoke when producing output.

use vstd::prelude::*;

verus! {

use vstd::arithmetic::mul::lemma_mul_is_associative;
use vstd::arithmetic::mul::lemma_mul_inequality;
use vstd::arithmetic::mul::lemma_mul_unary_negation;
use vstd::arithmetic::div_mod::lemma_fundamental_div_mod;
use vstd::arithmetic::div_mod::lemma_div_is_ordered;
use vstd::arithmetic::div_mod::lemma_div_multiples_vanish;
use vstd::arithmetic::div_mod::lemma_div_pos_is_pos;
use vstd::arithmetic::div_mod::lemma_mod_bound;

/// Greatest number of fractional digits an amount may carry.
pub const MAX_SCALE: u32 = 18;

/// Bound on an amount's value measured in units of `10^(-MAX_SCALE)`.
pub const UNITS_LIMIT: i128 = i128::MAX;

/// An exact decimal number `mantissa * 10^(-scale)`.
#[derive(Clone, Copy, PartialEq, Eq, Structural, Debug, Hash)]
pub struct Amount {
    pub mantissa: i128,
    pub scale: u32,
}

/// `10^e` as a mathematical integer.
pub open spec fn pow10(e: nat) -> int
    decreases e,
{
    if e == 0 {
        1
    } else {
        10 * pow10((e - 1) as nat)
    }
}

/// Whether a value in units of `10^(-MAX_SCALE)` is representable.
pub open spec fn in_units_range(u: int) -> bool {
    -(UNITS_LIMIT as int) <= u && u <= UNITS_LIMIT as int
}

proof fn lemma_pow10_pos(e: nat)
    ensures
        pow10(e) >= 1,
    decreases e,
{
    if e > 0 {
        lemma_pow10_pos((e - 1) as nat);
    }
}

proof fn lemma_pow10_adds(a: nat, b: nat)
    ensures
        pow10(a + b) == pow10(a) * pow10(b),
    decreases a,
{
    if a == 0 {
        assert(pow10(b) == 1 * pow10(b));
    } else {
        lemma_pow10_adds((a - 1) as nat, b);
        lemma_mul_is_associative(10, pow10((a - 1) as nat), pow10(b));
        assert(pow10((a - 1) as nat + b) == pow10((a - 1) as nat) * pow10(b));
        assert(pow10(a + b) == 10 * pow10((a + b - 1) as nat));
    }
}

proof fn lemma_pow10_max_scale()
    ensures
        pow10(MAX_SCALE as nat) == 1000000000000000000,
{
    reveal_with_fuel(pow10, 20);
}

proof fn lemma_pow10_le(e: nat)
    requires
        e <= MAX_SCALE,
    ensures
        1 <= pow10(e) <= 1000000000000000000,
{
    lemma_pow10_pos(e);
    lemma_pow10_adds(e, (MAX_SCALE - e) as nat);
    lemma_pow10_pos((MAX_SCALE - e) as nat);
    lemma_pow10_max_scale();
    assert(pow10(e) <= pow10(e) * pow10((MAX_SCALE - e) as nat)) by (nonlinear_arith)
        requires
            pow10(e) >= 1,
            pow10((MAX_SCALE - e) as nat) >= 1,
    ;
}

/// A factor `p >= 1` can only grow a product's magnitude.
proof fn lemma_shrink(x: int, p: int, c: int)
    requires
        p >= 1,
        c >= 0,
        -c <= x * p,
        x * p <= c,
    ensures
        -c <= x && x <= c,
{
    assert(-c <= x && x <= c) by (nonlinear_arith)
        requires
            p >= 1,
            c >= 0,
            -c <= x * p,
            x * p <= c,
    ;
}

/// Comparing with a floor quotient is the same as comparing the product.
proof fn lemma_le_div_iff(m: int, p: int, c: int)
    requires
        p >= 1,
        c >= 0,
    ensures
        m <= c / p <==> m * p <= c,
{
    if m <= c / p {
        lemma_mul_inequality(m, c / p, p);
        lemma_fundamental_div_mod(c, p);
        lemma_mod_bound(c, p);
        assert((c / p) * p == p * (c / p));
    }
    if m * p <= c {
        lemma_div_is_ordered(m * p, c, p);
        lemma_div_multiples_vanish(m, p);
        assert(p * m == m * p);
    }
}

fn pow10_exec(e: u32) -> (r: i128)
    requires
        e <= MAX_SCALE,
    ensures
        r == pow10(e as nat),
        r >= 1,
    decreases e,
{
    if e == 0 {
        1
    } else {
        let p = pow10_exec(e - 1);
        proof {
            lemma_pow10_le(e as nat);
        }
        10 * p
    }
}

impl Amount {
    /// The value in units of `10^(-MAX_SCALE)`, the finest representable scale.
    pub open spec fn units(self) -> int {
        self.mantissa * pow10((MAX_SCALE - self.scale) as nat)
    }

    pub open spec fn wf(self) -> bool {
        self.scale <= MAX_SCALE && in_units_range(self.units())
    }

    /// A canonical representation: no trailing zero can be trimmed.
    pub open spec fn is_normal(self) -> bool {
        self.scale == 0 || self.mantissa % 10 != 0
    }

    pub fn zero() -> (r: Amount)
        ensures
            r.wf(),
            r.units() == 0,
            r.mantissa == 0,
            r.scale == 0,
    {
        Amount { mantissa: 0, scale: 0 }
    }

    pub fn mantissa(&self) -> (r: i128)
        ensures
            r == self.mantissa,
    {
        self.mantissa
    }

    pub fn scale(&self) -> (r: u32)
        ensures
            r == self.scale,
    {
        self.scale
    }

    /// Builds an amount, refusing a scale beyond [`MAX_SCALE`] or a value
    /// whose unit count does not fit `i128`.
    pub fn new(mantissa: i128, scale: u32) -> (r: Option<Amount>)
        ensures
            r == (if (Amount { mantissa, scale }).wf() {
                Some(Amount { mantissa, scale })
            } else {
                None::<Amount>
            }),
    {
        if scale > MAX_SCALE {
            return None;
        }
        let p = pow10_exec(MAX_SCALE - scale);
        let lim: i128 = UNITS_LIMIT / p;
        proof {
            lemma_le_div_iff(mantissa as int, p as int, UNITS_LIMIT as int);
            lemma_le_div_iff(-(mantissa as int), p as int, UNITS_LIMIT as int);
            lemma_mul_unary_negation(mantissa as int, p as int);
            lemma_div_pos_is_pos(UNITS_LIMIT as int, p as int);
        }
        if -lim <= mantissa && mantissa <= lim {
            Some(Amount { mantissa, scale })
        } else {
            None
        }
    }

    /// The same value with the opposite sign.
    pub fn neg(self) -> (r: Amount)
        requires
            self.wf(),
        ensures
            r.wf(),
            r.units() == -self.units(),
            r.scale == self.scale,
    {
        proof {
            lemma_pow10_pos((MAX_SCALE - self.scale) as nat);
            lemma_shrink(self.mantissa as int, pow10((MAX_SCALE - self.scale) as nat),
                UNITS_LIMIT as int);
            lemma_mul_unary_negation(self.mantissa as int,
                pow10((MAX_SCALE - self.scale) as nat));
        }
        Amount { mantissa: -self.mantissa, scale: self.scale }
    }

    /// Exact addition; `None` exactly when the sum's unit count leaves `i128`.
    pub fn checked_add(self, other: Amount) -> (r: Option<Amount>)
        requires
            self.wf(),
            other.wf(),
        ensures
            match r {
                Some(c) => c.wf() && c.units() == self.units() + other.units() && c.scale == (
                if self.scale >= other.scale {
                    self.scale
                } else {
                    other.scale
                }),
                None => !in_units_range(self.units() + other.units()),
            },
            r is Some <==> in_units_range(self.units() + other.units()),
    {
        let s: u32 = if self.scale >= other.scale {
            self.scale
        } else {
            other.scale
        };
        let q1 = pow10_exec(s - self.scale);
        let q2 = pow10_exec(s - other.scale);
        proof {
            lemma_pow10_adds((s - self.scale) as nat, (MAX_SCALE - s) as nat);
            lemma_pow10_adds((s - other.scale) as nat, (MAX_SCALE - s) as nat);
            lemma_pow10_pos((MAX_SCALE - s) as nat);
            lemma_mul_is_associative(self.mantissa as int, q1 as int,
                pow10((MAX_SCALE - s) as nat));
            lemma_mul_is_associative(other.mantissa as int, q2 as int,
                pow10((MAX_SCALE - s) as nat));
            lemma_shrink(self.mantissa * q1, pow10((MAX_SCALE - s) as nat), UNITS_LIMIT as int);
            lemma_shrink(other.mantissa * q2, pow10((MAX_SCALE - s) as nat), UNITS_LIMIT as int);
        }
        let ma: i128 = self.mantissa * q1;
        let mb: i128 = other.mantissa * q2;
        let ghost p: int = pow10((MAX_SCALE - s) as nat);
        proof {
            assert((ma + mb) * p == ma * p + mb * p) by (nonlinear_arith);
            assert(ma * p == self.units());
            assert(mb * p == other.units());
        }
        let sum_ok: bool = if mb >= 0 {
            ma <= i128::MAX - mb
        } else {
            ma >= i128::MIN - mb
        };
        if !sum_ok {
            proof {
                assert(!in_units_range((ma + mb) * p)) by (nonlinear_arith)
                    requires
                        p >= 1,
                        ma + mb > UNITS_LIMIT || ma + mb < -(UNITS_LIMIT as int),
                ;
            }
            return None;
        }
        let m: i128 = ma + mb;
        let pe = pow10_exec(MAX_SCALE - s);
        let lim: i128 = UNITS_LIMIT / pe;
        proof {
            lemma_le_div_iff(m as int, p, UNITS_LIMIT as int);
            lemma_le_div_iff(-(m as int), p, UNITS_LIMIT as int);
            lemma_mul_unary_negation(m as int, p);
            lemma_div_pos_is_pos(UNITS_LIMIT as int, p);
        }
        if -lim <= m && m <= lim {
            Some(Amount { mantissa: m, scale: s })
        } else {
            None
        }
    }

    /// Exact subtraction; `None` exactly when the difference leaves `i128`.
    pub fn checked_sub(self, other: Amount) -> (r: Option<Amount>)
        requires
            self.wf(),
            other.wf(),
        ensures
            match r {
                Some(c) => c.wf() && c.units() == self.units() - other.units(),
                None => !in_units_range(self.units() - other.units()),
            },
            r is Some <==> in_units_range(self.units() - other.units()),
    {
        self.checked_add(other.neg())
    }

    /// Exact value comparison across representations.
    pub fn ge(self, other: Amount) -> (r: bool)
        requires
            self.wf(),
            other.wf(),
        ensures
            r == (self.units() >= other.units()),
    {
        let s: u32 = if self.scale >= other.scale {
            self.scale
        } else {
            other.scale
        };
        let q1 = pow10_exec(s - self.scale);
        let q2 = pow10_exec(s - other.scale);
        proof {
            lemma_pow10_adds((s - self.scale) as nat, (MAX_SCALE - s) as nat);
            lemma_pow10_adds((s - other.scale) as nat, (MAX_SCALE - s) as nat);
            lemma_pow10_pos((MAX_SCALE - s) as nat);
            lemma_mul_is_associative(self.mantissa as int, q1 as int,
                pow10((MAX_SCALE - s) as nat));
            lemma_mul_is_associative(other.mantissa as int, q2 as int,
                pow10((MAX_SCALE - s) as nat));
            lemma_shrink(self.mantissa * q1, pow10((MAX_SCALE - s) as nat), UNITS_LIMIT as int);
            lemma_shrink(other.mantissa * q2, pow10((MAX_SCALE - s) as nat), UNITS_LIMIT as int);
        }
        let ma: i128 = self.mantissa * q1;
        let mb: i128 = other.mantissa * q2;
        proof {
            let p: int = pow10((MAX_SCALE - s) as nat);
            assert((ma >= mb) == (ma * p >= mb * p)) by (nonlinear_arith)
                requires
                    p >= 1,
            ;
            assert(ma * p == self.units());
            assert(mb * p == other.units());
        }
        ma >= mb
    }

    /// Whether two amounts denote the same value, whatever their scales.
    pub fn eq_value(self, other: Amount) -> (r: bool)
        requires
            self.wf(),
            other.wf(),
        ensures
            r == (self.units() == other.units()),
    {
        self.ge(other) && other.ge(self)
    }

    /// The canonical representation of the same value: trailing zeros are
    /// trimmed, so no shorter mantissa denotes it.
    pub fn normalize(self) -> (r: Amount)
        requires
            self.wf(),
        ensures
            r.wf(),
            r.units() == self.units(),
            r.is_normal(),
    {
        proof {
            lemma_pow10_pos((MAX_SCALE - self.scale) as nat);
            lemma_shrink(self.mantissa as int, pow10((MAX_SCALE - self.scale) as nat),
                UNITS_LIMIT as int);
        }
        let neg: bool = self.mantissa < 0;
        let mut m: i128 = if neg {
            -self.mantissa
        } else {
            self.mantissa
        };
        let mut s: u32 = self.scale;
        proof {
            if neg {
                lemma_mul_unary_negation(self.mantissa as int, pow10((MAX_SCALE - s) as nat));
            }
        }
        while s > 0 && m % 10 == 0
            invariant
                s <= MAX_SCALE,
                m >= 0,
                self.wf(),
                neg == (self.mantissa < 0),
                m * pow10((MAX_SCALE - s) as nat) == (if neg {
                    -self.units()
                } else {
                    self.units()
                }),
            decreases s,
        {
            proof {
                lemma_fundamental_div_mod(m as int, 10);
                lemma_div_pos_is_pos(m as int, 10);
                assert(pow10((MAX_SCALE - (s - 1)) as nat) == 10 * pow10(
                    (MAX_SCALE - s) as nat));
                lemma_mul_is_associative(m as int / 10, 10, pow10((MAX_SCALE - s) as nat));
                assert((m as int / 10) * 10 == 10 * (m as int / 10));
                assert((m as int / 10) * (10 * pow10((MAX_SCALE - s) as nat)) == ((m as int / 10)
                    * 10) * pow10((MAX_SCALE - s) as nat));
            }
            m = m / 10;
            s = s - 1;
        }
        proof {
            lemma_pow10_pos((MAX_SCALE - s) as nat);
            lemma_shrink(m as int, pow10((MAX_SCALE - s) as nat), UNITS_LIMIT as int);
            if neg {
                lemma_mul_unary_negation(m as int, pow10((MAX_SCALE - s) as nat));
            }
        }
        let mr: i128 = if neg {
            -m
        } else {
            m
        };
        Amount { mantissa: mr, scale: s }
    }
}

/// Two well-formed canonical amounts with the same value are identical:
/// normalizing pins down one representation per value.
pub proof fn lemma_normal_unique(a: Amount, b: Amount)
    requires
        a.wf(),
        b.wf(),
        a.is_normal(),
        b.is_normal(),
        a.units() == b.units(),
    ensures
        a == b,
{
    if a.scale == b.scale {
        lemma_pow10_pos((MAX_SCALE - a.scale) as nat);
        assert(a.mantissa == b.mantissa) by (nonlinear_arith)
            requires
                a.mantissa * pow10((MAX_SCALE - a.scale) as nat) == b.mantissa * pow10(
                    (MAX_SCALE - a.scale) as nat),
                pow10((MAX_SCALE - a.scale) as nat) >= 1,
        ;
    } else if a.scale < b.scale {
        lemma_normal_unique_ordered(a, b);
        assert(a.scale < 0);
    } else {
        lemma_normal_unique_ordered(b, a);
        assert(b.scale < 0);
    }
}

proof fn lemma_normal_unique_ordered(a: Amount, b: Amount)
    requires
        a.wf(),
        b.wf(),
        a.is_normal(),
        b.is_normal(),
        a.units() == b.units(),
        a.scale < b.scale,
    ensures
        b.scale == 0,
{
    // At the smaller scale the mantissa carries extra factors of ten, so the
    // larger-scale mantissa must itself end in zero — impossible for a
    // canonical nonzero mantissa, and a zero mantissa forces scale zero.
    let k: nat = (b.scale - a.scale) as nat;
    let pb: int = pow10((MAX_SCALE - b.scale) as nat);
    lemma_pow10_adds(k, (MAX_SCALE - b.scale) as nat);
    lemma_pow10_pos((MAX_SCALE - b.scale) as nat);
    lemma_pow10_pos((k - 1) as nat);
    assert(pow10((MAX_SCALE - a.scale) as nat) == pow10(k) * pb);
    lemma_mul_is_associative(a.mantissa as int, pow10(k), pb);
    // a.mantissa * pow10(k) * pb == b.mantissa * pb  ==>  cancel pb
    assert(a.mantissa * pow10(k) == b.mantissa as int) by (nonlinear_arith)
        requires
            (a.mantissa * pow10(k)) * pb == b.mantissa * pb,
            pb >= 1,
    ;
    assert(pow10(k) == 10 * pow10((k - 1) as nat));
    lemma_mul_is_associative(a.mantissa as int, 10, pow10((k - 1) as nat));
    assert(a.mantissa * (10 * pow10((k - 1) as nat)) == (a.mantissa * 10) * pow10(
        (k - 1) as nat));
    let w: int = a.mantissa * pow10((k - 1) as nat);
    lemma_mul_is_associative(10, a.mantissa as int, pow10((k - 1) as nat));
    assert((a.mantissa * 10) * pow10((k - 1) as nat) == 10 * w);
    assert(b.mantissa as int == 10 * w);
    assert(b.mantissa % 10 == 0) by (nonlinear_arith)
        requires
            b.mantissa as int == 10 * w,
    ;
    // b canonical and divisible by ten forces b.scale == 0, contradicting
    // a.scale < b.scale.
    assert(b.scale == 0);
}

} // verus!
