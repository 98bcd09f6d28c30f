//! Runtime values: 64-bit integers and exact rational numbers.
//!
//! A `Rat` stores an exact (not necessarily reduced) fraction `num / den`
//! in two `i64` fields. A zero denominator encodes the three special
//! values that division by zero and range exhaustion produce: `num == 1`
//! is positive infinity, `num == -1` negative infinity and `num == 0` the
//! undefined value. Arithmetic is exact whenever the raw fraction of the
//! result fits the representation; a result that does not fit collapses
//! to the undefined value.
use vstd::prelude::*;

verus! {

/// An exact fraction, or one of the three special values (see the module
/// doc comment) when `den == 0`.
#[derive(Clone, Copy, PartialEq, Eq, Structural, Debug)]
pub struct Rat {
    pub num: i64,
    pub den: i64,
}

/// What the evaluator produces: an integer, or a rational once division
/// or a fractional literal is involved.
#[derive(Clone, Copy, PartialEq, Eq, Structural, Debug)]
pub enum Value {
    Integer(i64),
    Float(Rat),
}

impl Rat {
    /// Well-formed fractions have a positive denominator; the special
    /// values carry their class in `num`.
    pub open spec fn wf(self) -> bool {
        self.den >= 0 && (self.den == 0 ==> -1 <= self.num <= 1)
    }

    pub open spec fn is_finite(self) -> bool {
        self.den >= 1
    }

    pub open spec fn is_nan(self) -> bool {
        self.den == 0 && self.num == 0
    }

    pub open spec fn is_inf(self) -> bool {
        self.den == 0 && self.num != 0
    }

    /// The sign of a finite or infinite value: -1, 0 or 1.
    pub open spec fn sign(self) -> int {
        if self.num > 0 {
            1
        } else if self.num < 0 {
            -1
        } else {
            0
        }
    }
}

pub open spec fn rat_nan() -> Rat {
    Rat { num: 0, den: 0 }
}

pub open spec fn rat_inf(sign: int) -> Rat {
    if sign >= 0 {
        Rat { num: 1, den: 0 }
    } else {
        Rat { num: (-1) as i64, den: 0 }
    }
}

pub open spec fn rat_of_i64(i: i64) -> Rat {
    Rat { num: i, den: 1 }
}

/// Builds the fraction `n / d` (`d != 0`), normalising the sign into the
/// numerator; when either component leaves the `i64` range the result is
/// the undefined value.
pub open spec fn spec_mk_rat(n: int, d: int) -> Rat {
    let nn = if d < 0 {
        -n
    } else {
        n
    };
    let dd = if d < 0 {
        -d
    } else {
        d
    };
    if i64::MIN <= nn <= i64::MAX && dd <= i64::MAX {
        Rat { num: nn as i64, den: dd as i64 }
    } else {
        rat_nan()
    }
}

/// Exact rational addition, with the conventional rules for the special
/// values: opposite infinities and any undefined operand are undefined.
pub open spec fn spec_rat_add(a: Rat, b: Rat) -> Rat {
    if a.is_nan() || b.is_nan() {
        rat_nan()
    } else if a.is_inf() && b.is_inf() {
        if a.sign() == b.sign() {
            a
        } else {
            rat_nan()
        }
    } else if a.is_inf() {
        a
    } else if b.is_inf() {
        b
    } else {
        spec_mk_rat(a.num * b.den + b.num * a.den, a.den * b.den)
    }
}

/// Exact rational subtraction; mirrors `spec_rat_add`.
pub open spec fn spec_rat_sub(a: Rat, b: Rat) -> Rat {
    if a.is_nan() || b.is_nan() {
        rat_nan()
    } else if a.is_inf() && b.is_inf() {
        if a.sign() == b.sign() {
            rat_nan()
        } else {
            a
        }
    } else if a.is_inf() {
        a
    } else if b.is_inf() {
        rat_inf(-b.sign())
    } else {
        spec_mk_rat(a.num * b.den - b.num * a.den, a.den * b.den)
    }
}

/// Exact rational multiplication; an infinity times zero is undefined.
pub open spec fn spec_rat_mul(a: Rat, b: Rat) -> Rat {
    if a.is_nan() || b.is_nan() {
        rat_nan()
    } else if a.is_inf() || b.is_inf() {
        if a.sign() == 0 || b.sign() == 0 {
            rat_nan()
        } else if a.sign() == b.sign() {
            rat_inf(1)
        } else {
            rat_inf(-1)
        }
    } else {
        spec_mk_rat(a.num * b.num, a.den * b.den)
    }
}

/// Exact rational division. A nonzero value divided by zero is the
/// infinity of its sign; zero by zero is undefined; dividing by an
/// infinity yields zero.
pub open spec fn spec_rat_div(a: Rat, b: Rat) -> Rat {
    if a.is_nan() || b.is_nan() {
        rat_nan()
    } else if a.is_inf() && b.is_inf() {
        rat_nan()
    } else if a.is_inf() {
        if b.sign() < 0 {
            rat_inf(-a.sign())
        } else {
            rat_inf(a.sign())
        }
    } else if b.is_inf() {
        Rat { num: 0, den: 1 }
    } else if b.num == 0 {
        if a.num == 0 {
            rat_nan()
        } else {
            rat_inf(a.sign())
        }
    } else {
        spec_mk_rat(a.num * b.den, a.den * b.num)
    }
}

/// Negation; the one `i64` value without a negation collapses to the
/// undefined value.
pub open spec fn spec_rat_neg(a: Rat) -> Rat {
    if a.num == i64::MIN {
        rat_nan()
    } else {
        Rat { num: (-a.num) as i64, den: a.den }
    }
}

/// Bounds on the products inside the exact-fraction formulas: with both
/// factors in the `i64` range nothing leaves `i128`, and with one factor
/// a positive denominator two such products still add up inside `i128`.
proof fn lemma_prod_bound(x: int, y: int)
    requires
        i64::MIN <= x <= i64::MAX,
        i64::MIN <= y <= i64::MAX,
    ensures
        -0x40000000000000000000000000000000 <= x * y <= 0x40000000000000000000000000000000,
{
    assert(-0x40000000000000000000000000000000 <= x * y <= 0x40000000000000000000000000000000)
        by (nonlinear_arith)
        requires
            -0x8000000000000000 <= x <= 0x7fffffffffffffff,
            -0x8000000000000000 <= y <= 0x7fffffffffffffff,
    ;
}

proof fn lemma_prod_den_bound(x: int, y: int)
    requires
        i64::MIN <= x <= i64::MAX,
        0 <= y <= i64::MAX,
    ensures
        -0x3fffffffffffffff8000000000000000 <= x * y <= 0x3fffffffffffffff8000000000000000,
{
    assert(-0x3fffffffffffffff8000000000000000 <= x * y <= 0x3fffffffffffffff8000000000000000)
        by (nonlinear_arith)
        requires
            -0x8000000000000000 <= x <= 0x7fffffffffffffff,
            0 <= y <= 0x7fffffffffffffff,
    ;
}

impl Rat {
    /// The fraction `n / d` for `d != 0`, squeezed back into `i64` fields.
    fn mk(n: i128, d: i128) -> (r: Rat)
        requires
            d != 0,
            n != i128::MIN,
            d != i128::MIN,
        ensures
            r == spec_mk_rat(n as int, d as int),
            r.wf(),
    {
        let (nn, dd): (i128, i128) = if d < 0 { (-n, -d) } else { (n, d) };
        if i64::MIN as i128 <= nn && nn <= i64::MAX as i128 && dd <= i64::MAX as i128 {
            Rat { num: nn as i64, den: dd as i64 }
        } else {
            Rat { num: 0, den: 0 }
        }
    }

    /// Exact addition (see `spec_rat_add`).
    pub fn add(self, rhs: Rat) -> (r: Rat)
        requires
            self.wf(),
            rhs.wf(),
        ensures
            r == spec_rat_add(self, rhs),
            r.wf(),
    {
        if self.den == 0 || rhs.den == 0 {
            if self.den == 0 && self.num == 0 || rhs.den == 0 && rhs.num == 0 {
                Rat { num: 0, den: 0 }
            } else if self.den == 0 && rhs.den == 0 {
                if self.num == rhs.num {
                    self
                } else {
                    Rat { num: 0, den: 0 }
                }
            } else if self.den == 0 {
                self
            } else {
                rhs
            }
        } else {
            proof {
                lemma_prod_den_bound(self.num as int, rhs.den as int);
                lemma_prod_den_bound(rhs.num as int, self.den as int);
                lemma_prod_den_bound(self.den as int, rhs.den as int);
            }
            let n: i128 = self.num as i128 * rhs.den as i128 + rhs.num as i128 * self.den as i128;
            let d: i128 = self.den as i128 * rhs.den as i128;
            proof {
                assert(d > 0) by (nonlinear_arith)
                    requires
                        self.den >= 1 && rhs.den >= 1 && d == self.den as int * rhs.den as int,
                ;
            }
            Rat::mk(n, d)
        }
    }

    /// Exact subtraction (see `spec_rat_sub`).
    pub fn sub(self, rhs: Rat) -> (r: Rat)
        requires
            self.wf(),
            rhs.wf(),
        ensures
            r == spec_rat_sub(self, rhs),
            r.wf(),
    {
        if self.den == 0 || rhs.den == 0 {
            if self.den == 0 && self.num == 0 || rhs.den == 0 && rhs.num == 0 {
                Rat { num: 0, den: 0 }
            } else if self.den == 0 && rhs.den == 0 {
                if self.num == rhs.num {
                    Rat { num: 0, den: 0 }
                } else {
                    self
                }
            } else if self.den == 0 {
                self
            } else {
                if rhs.num > 0 {
                    Rat { num: -1, den: 0 }
                } else {
                    Rat { num: 1, den: 0 }
                }
            }
        } else {
            proof {
                lemma_prod_den_bound(self.num as int, rhs.den as int);
                lemma_prod_den_bound(rhs.num as int, self.den as int);
                lemma_prod_den_bound(self.den as int, rhs.den as int);
            }
            let n: i128 = self.num as i128 * rhs.den as i128 - rhs.num as i128 * self.den as i128;
            let d: i128 = self.den as i128 * rhs.den as i128;
            proof {
                assert(d > 0) by (nonlinear_arith)
                    requires
                        self.den >= 1 && rhs.den >= 1 && d == self.den as int * rhs.den as int,
                ;
            }
            Rat::mk(n, d)
        }
    }

    /// Exact multiplication (see `spec_rat_mul`).
    pub fn mul(self, rhs: Rat) -> (r: Rat)
        requires
            self.wf(),
            rhs.wf(),
        ensures
            r == spec_rat_mul(self, rhs),
            r.wf(),
    {
        if self.den == 0 || rhs.den == 0 {
            if self.den == 0 && self.num == 0 || rhs.den == 0 && rhs.num == 0 {
                Rat { num: 0, den: 0 }
            } else if self.num == 0 || rhs.num == 0 {
                Rat { num: 0, den: 0 }
            } else if (self.num > 0) == (rhs.num > 0) {
                Rat { num: 1, den: 0 }
            } else {
                Rat { num: -1, den: 0 }
            }
        } else {
            proof {
                lemma_prod_bound(self.num as int, rhs.num as int);
                lemma_prod_den_bound(self.den as int, rhs.den as int);
            }
            let n: i128 = self.num as i128 * rhs.num as i128;
            let d: i128 = self.den as i128 * rhs.den as i128;
            proof {
                assert(d > 0) by (nonlinear_arith)
                    requires
                        self.den >= 1 && rhs.den >= 1 && d == self.den as int * rhs.den as int,
                ;
            }
            Rat::mk(n, d)
        }
    }

    /// Exact division (see `spec_rat_div`).
    pub fn div(self, rhs: Rat) -> (r: Rat)
        requires
            self.wf(),
            rhs.wf(),
        ensures
            r == spec_rat_div(self, rhs),
            r.wf(),
    {
        if self.den == 0 || rhs.den == 0 {
            if self.den == 0 && self.num == 0 || rhs.den == 0 && rhs.num == 0 {
                Rat { num: 0, den: 0 }
            } else if self.den == 0 && rhs.den == 0 {
                Rat { num: 0, den: 0 }
            } else if self.den == 0 {
                let s: i64 = if rhs.num < 0 { -self.num } else { self.num };
                Rat { num: s, den: 0 }
            } else {
                Rat { num: 0, den: 1 }
            }
        } else if rhs.num == 0 {
            if self.num == 0 {
                Rat { num: 0, den: 0 }
            } else if self.num > 0 {
                Rat { num: 1, den: 0 }
            } else {
                Rat { num: -1, den: 0 }
            }
        } else {
            proof {
                lemma_prod_den_bound(self.num as int, rhs.den as int);
                lemma_prod_den_bound(rhs.num as int, self.den as int);
            }
            let n: i128 = self.num as i128 * rhs.den as i128;
            let d: i128 = self.den as i128 * rhs.num as i128;
            proof {
                assert(d != 0) by (nonlinear_arith)
                    requires
                        self.den >= 1 && rhs.num != 0 && d == self.den as int * rhs.num as int,
                ;
            }
            Rat::mk(n, d)
        }
    }

    /// Negation (see `spec_rat_neg`).
    pub fn neg(self) -> (r: Rat)
        requires
            self.wf(),
        ensures
            r == spec_rat_neg(self),
            r.wf(),
    {
        if self.num == i64::MIN {
            Rat { num: 0, den: 0 }
        } else {
            Rat { num: -self.num, den: self.den }
        }
    }
}

impl Value {
    /// Every value the evaluator builds keeps its rational part well
    /// formed.
    pub open spec fn wf(self) -> bool {
        match self {
            Value::Integer(_) => true,
            Value::Float(r) => r.wf(),
        }
    }
}

} // verus!
