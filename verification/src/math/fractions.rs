//! Exact fractions with a signed 32-bit numerator and an unsigned 32-bit
//! denominator.
//!
//! A fraction goes wherever a ratio must not be rounded: multiplying and
//! dividing fractions is exact, or refused where the result does not fit.

use crate::math::divisors::{
    gcd, gcd_of, is_gcd, is_lcm, lcm, lcm_of, lemma_gcd_of_quotients, lemma_lcm_of,
};
use vstd::prelude::*;

verus! {

/// Why an operation on fractions was refused.
#[derive(Clone, Copy, Debug, PartialEq, Eq, Structural)]
pub enum FractionError {
    /// The fraction would have the denominator zero.
    InvalidFraction,
    /// The result has a numerator or a denominator that 32 bits cannot hold.
    ArithmeticOverflow,
}

/// A number represented as a fraction. Its denominator is never zero.
#[derive(Clone, Copy, Debug, PartialEq, Eq, Structural)]
pub struct Frac32 {
    numerator: i32,
    denominator: u32,
}

/// What a `Frac32` stands for: a numerator over a denominator.
pub struct Ratio {
    pub num: int,
    pub den: int,
}

impl Ratio {
    /// A `Frac32` can hold this ratio.
    pub open spec fn fits(self) -> bool {
        i32::MIN <= self.num <= i32::MAX && 0 < self.den <= u32::MAX
    }

    /// The two ratios are the same number.
    pub open spec fn same(self, other: Ratio) -> bool {
        self.num * other.den == other.num * self.den
    }

    /// The product, numerator by numerator and denominator by denominator.
    pub open spec fn times(self, other: Ratio) -> Ratio {
        Ratio { num: self.num * other.num, den: self.den * other.den }
    }

    /// The quotient: the product with `other` turned upside down, the sign
    /// kept in the numerator. Meant for an `other` that is not zero.
    pub open spec fn over(self, other: Ratio) -> Ratio {
        if other.num < 0 {
            Ratio { num: -(self.num * other.den), den: self.den * (-other.num) }
        } else {
            Ratio { num: self.num * other.den, den: self.den * other.num }
        }
    }

    /// The size of the numerator.
    pub open spec fn magnitude(self) -> nat {
        if self.num < 0 {
            (-self.num) as nat
        } else {
            self.num as nat
        }
    }

    /// The greatest common divisor of numerator and denominator.
    pub open spec fn common(self) -> nat {
        gcd_of(self.magnitude(), self.den as nat)
    }
}

impl View for Frac32 {
    type V = Ratio;

    closed spec fn view(&self) -> Ratio {
        Ratio { num: self.numerator as int, den: self.denominator as int }
    }
}

impl Frac32 {
    #[verifier::type_invariant]
    spec fn well_formed(self) -> bool {
        self.denominator != 0
    }

    /// Makes the fraction `numerator / denominator`, or fails with
    /// `InvalidFraction` where the denominator is zero.
    pub fn from_ratio(numerator: i32, denominator: u32) -> (r: Result<Frac32, FractionError>)
        ensures
            match r {
                Ok(f) => denominator != 0 && f@ == (Ratio {
                    num: numerator as int,
                    den: denominator as int,
                }),
                Err(e) => denominator == 0 && e == FractionError::InvalidFraction,
            },
    {
        if denominator == 0 {
            Err(FractionError::InvalidFraction)
        } else {
            Ok(Frac32 { numerator, denominator })
        }
    }

    /// The numerator.
    pub fn numerator(&self) -> (r: i32)
        ensures
            r == self@.num,
    {
        self.numerator
    }

    /// The denominator, which is positive.
    pub fn denominator(&self) -> (r: u32)
        ensures
            r == self@.den,
            r > 0,
    {
        proof {
            use_type_invariant(self);
        }
        self.denominator
    }

    /// Returns the greatest common divisor of the two denominators.
    pub fn gcd(&self, num: Frac32) -> (r: u32)
        ensures
            is_gcd(r as nat, self@.den as nat, num@.den as nat),
            r == gcd_of(self@.den as nat, num@.den as nat),
            r > 0,
    {
        proof {
            use_type_invariant(self);
        }
        gcd(self.denominator, num.denominator)
    }

    /// Returns the least common multiple of the two denominators, or fails
    /// with `ArithmeticOverflow` where it exceeds `u32::MAX`.
    pub fn lcm(&self, num: Frac32) -> (r: Result<u32, FractionError>)
        ensures
            is_lcm(lcm_of(self@.den as nat, num@.den as nat), self@.den as nat, num@.den as nat),
            r == (if lcm_of(self@.den as nat, num@.den as nat) <= u32::MAX {
                Ok::<u32, FractionError>(lcm_of(self@.den as nat, num@.den as nat) as u32)
            } else {
                Err(FractionError::ArithmeticOverflow)
            }),
    {
        proof {
            use_type_invariant(self);
            use_type_invariant(&num);
            lemma_lcm_of(self.denominator as nat, num.denominator as nat);
        }
        match lcm(self.denominator, num.denominator) {
            Some(l) => Ok(l),
            None => Err(FractionError::ArithmeticOverflow),
        }
    }

    /// Multiplies this fraction by `num`, exactly and without simplifying.
    /// Fails with `ArithmeticOverflow`, and leaves the fraction as it was,
    /// where the product does not fit.
    pub fn mul(&mut self, num: Frac32) -> (r: Result<(), FractionError>)
        ensures
            r == (if old(self)@.times(num@).fits() {
                Ok::<(), FractionError>(())
            } else {
                Err(FractionError::ArithmeticOverflow)
            }),
            final(self)@ == (if r is Ok {
                old(self)@.times(num@)
            } else {
                old(self)@
            }),
    {
        proof {
            use_type_invariant(&*self);
            use_type_invariant(&num);
            assert(self.denominator * num.denominator > 0) by (nonlinear_arith)
                requires
                    self.denominator > 0,
                    num.denominator > 0,
            ;
        }
        let n = self.numerator.checked_mul(num.numerator);
        let d = self.denominator.checked_mul(num.denominator);
        match (n, d) {
            (Some(numerator), Some(denominator)) => {
                *self = Frac32 { numerator, denominator };
                Ok(())
            },
            _ => Err(FractionError::ArithmeticOverflow),
        }
    }

    /// Divides this fraction by `num`, exactly and without simplifying.
    /// Fails with `InvalidFraction` where `num` is zero, else with
    /// `ArithmeticOverflow` where the quotient does not fit; the fraction
    /// is then left as it was.
    pub fn div(&mut self, num: Frac32) -> (r: Result<(), FractionError>)
        ensures
            r == (if num@.num == 0 {
                Err::<(), FractionError>(FractionError::InvalidFraction)
            } else if old(self)@.over(num@).fits() {
                Ok(())
            } else {
                Err(FractionError::ArithmeticOverflow)
            }),
            final(self)@ == (if r is Ok {
                old(self)@.over(num@)
            } else {
                old(self)@
            }),
    {
        proof {
            use_type_invariant(&*self);
            use_type_invariant(&num);
        }
        if num.numerator == 0 {
            return Err(FractionError::InvalidFraction);
        }
        let an = self.numerator as i64;
        let ad = self.denominator as u64;
        let bn = num.numerator as i64;
        let bd = num.denominator as i64;
        let size: u64 = if bn < 0 {
            (-bn) as u64
        } else {
            bn as u64
        };
        assert(-0x7fff_ffff_ffff_ffff <= an * bd <= 0x7fff_ffff_ffff_ffff) by (nonlinear_arith)
            requires
                -0x8000_0000 <= an <= 0x7fff_ffff,
                0 <= bd <= 0xffff_ffff,
        ;
        assert(0 < ad * size <= 0x7fff_ffff_ffff_ffff) by (nonlinear_arith)
            requires
                0 < ad <= 0xffff_ffff,
                0 < size <= 0x8000_0000,
        ;
        let cross: i64 = an * bd;
        let top: i64 = if bn < 0 {
            -cross
        } else {
            cross
        };
        let bottom: u64 = ad * size;
        if top < i32::MIN as i64 || top > i32::MAX as i64 || bottom > u32::MAX as u64 {
            return Err(FractionError::ArithmeticOverflow);
        }
        *self = Frac32 { numerator: top as i32, denominator: bottom as u32 };
        Ok(())
    }

    /// Tells whether the two fractions are the same number, simplified or
    /// not.
    pub fn same_value(&self, other: &Frac32) -> (r: bool)
        ensures
            r == self@.same(other@),
    {
        let an = self.numerator as i64;
        let ad = self.denominator as i64;
        let bn = other.numerator as i64;
        let bd = other.denominator as i64;
        assert(-0x7fff_ffff_ffff_ffff <= an * bd <= 0x7fff_ffff_ffff_ffff) by (nonlinear_arith)
            requires
                -0x8000_0000 <= an <= 0x7fff_ffff,
                0 <= bd <= 0xffff_ffff,
        ;
        assert(-0x7fff_ffff_ffff_ffff <= bn * ad <= 0x7fff_ffff_ffff_ffff) by (nonlinear_arith)
            requires
                -0x8000_0000 <= bn <= 0x7fff_ffff,
                0 <= ad <= 0xffff_ffff,
        ;
        an * bd == bn * ad
    }

    /// Brings the fraction to lowest terms: divides numerator and
    /// denominator by their greatest common divisor. The number stays the
    /// same.
    pub fn simplify(&mut self)
        ensures
            final(self)@.num * old(self)@.common() == old(self)@.num,
            final(self)@.den * old(self)@.common() == old(self)@.den,
            final(self)@.common() == 1,
            final(self)@.same(old(self)@),
    {
        proof {
            use_type_invariant(&*self);
        }
        let negative = self.numerator < 0;
        let size: u32 = if negative {
            (-(self.numerator as i64)) as u32
        } else {
            self.numerator as u32
        };
        let g = gcd(size, self.denominator);
        proof {
            lemma_gcd_of_quotients(size as nat, self.denominator as nat);
        }
        let top = size / g;
        let bottom = self.denominator / g;
        assert(top <= size && bottom > 0) by (nonlinear_arith)
            requires
                top * g == size,
                bottom * g == self.denominator,
                g > 0,
                self.denominator > 0,
                top >= 0,
                bottom >= 0,
        ;
        let numerator: i32 = if negative {
            (-(top as i64)) as i32
        } else {
            top as i32
        };
        let ghost before = self@;
        *self = Frac32 { numerator, denominator: bottom };
        proof {
            let c = before.common();
            assert(c == g);
            assert(self@.magnitude() == top);
            assert(self@.num * c == before.num) by (nonlinear_arith)
                requires
                    top * c == before.magnitude(),
                    self@.num == (if before.num < 0 {
                        -top
                    } else {
                        top as int
                    }),
                    before.magnitude() == (if before.num < 0 {
                        -before.num
                    } else {
                        before.num
                    }),
            ;
            assert(self@.same(before)) by (nonlinear_arith)
                requires
                    self@.num * c == before.num,
                    self@.den * c == before.den,
            ;
        }
    }
}

/// A fraction is determined by its numerator and denominator.
pub proof fn lemma_view_determines(a: Frac32, b: Frac32)
    requires
        a@ == b@,
    ensures
        a == b,
{
}

/// Being the same number is an equivalence of ratios, as long as no
/// denominator is zero.
pub proof fn lemma_same_is_equivalence(a: Ratio, b: Ratio, c: Ratio)
    requires
        b.den != 0,
    ensures
        a.same(a),
        a.same(b) == b.same(a),
        a.same(b) && b.same(c) ==> a.same(c),
{
    if a.same(b) && b.same(c) {
        assert(a.num * c.den == c.num * a.den) by (nonlinear_arith)
            requires
                a.num * b.den == b.num * a.den,
                b.num * c.den == c.num * b.den,
                b.den != 0,
        ;
    }
}

/// The product of two ratios is the same number whichever forms the two
/// are in.
pub proof fn lemma_times_respects_same(a: Ratio, a2: Ratio, b: Ratio, b2: Ratio)
    requires
        a.same(a2),
        b.same(b2),
    ensures
        a.times(b).same(a2.times(b2)),
{
    assert((a.num * b.num) * (a2.den * b2.den) == (a2.num * b2.num) * (a.den * b.den))
        by (nonlinear_arith)
        requires
            a.num * a2.den == a2.num * a.den,
            b.num * b2.den == b2.num * b.den,
    ;
}

/// Dividing a product by one of its factors gives the other factor back,
/// as a number.
pub proof fn lemma_over_undoes_times(a: Ratio, b: Ratio)
    ensures
        a.times(b).over(b).same(a),
{
    let p = a.times(b);
    if b.num < 0 {
        assert((-(p.num * b.den)) * a.den == a.num * (p.den * (-b.num))) by (nonlinear_arith)
            requires
                p.num == a.num * b.num,
                p.den == a.den * b.den,
        ;
    } else {
        assert((p.num * b.den) * a.den == a.num * (p.den * b.num)) by (nonlinear_arith)
            requires
                p.num == a.num * b.num,
                p.den == a.den * b.den,
        ;
    }
}

} // verus!
