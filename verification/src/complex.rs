//! Complex numbers with fixed-point components.
use vstd::prelude::*;
use crate::fixed::{SCALE, div_floor, floor_sqrt, is_floor_sqrt};

verus! {

/// A point of the complex plane: real part, then imaginary part, each counted in
/// steps of `1 / SCALE`.
#[derive(Clone, Copy, PartialEq, Eq, Debug, Structural)]
pub struct Complex(pub i64, pub i64);

impl View for Complex {
    type V = (int, int);

    open spec fn view(&self) -> (int, int) {
        (self.0 as int, self.1 as int)
    }
}

/// Both components can be stored in a `Complex`.
pub open spec fn fits(p: (int, int)) -> bool {
    &&& i64::MIN <= p.0 <= i64::MAX
    &&& i64::MIN <= p.1 <= i64::MAX
}

/// Component-wise sum.
pub open spec fn sum(a: (int, int), b: (int, int)) -> (int, int) {
    (a.0 + b.0, a.1 + b.1)
}

/// Complex product, each component rounded down to a whole step.
pub open spec fn product(a: (int, int), b: (int, int)) -> (int, int) {
    ((a.0 * b.0 - a.1 * b.1) / (SCALE as int), (a.0 * b.1 + a.1 * b.0) / (SCALE as int))
}

/// Square of the modulus, in squared steps.
pub open spec fn norm_sqr(p: (int, int)) -> int {
    p.0 * p.0 + p.1 * p.1
}

/// The product of two 64-bit values stays within 127 bits.
pub proof fn lemma_product_bound(x: int, y: int)
    requires
        i64::MIN <= x <= i64::MAX,
        i64::MIN <= y <= i64::MAX,
    ensures
        -0x4000_0000_0000_0000_0000_0000_0000_0000 + 0x8000_0000_0000_0000 <= x * y
            <= 0x4000_0000_0000_0000_0000_0000_0000_0000,
{
    assert(-0x4000_0000_0000_0000_0000_0000_0000_0000 + 0x8000_0000_0000_0000 <= x * y
        <= 0x4000_0000_0000_0000_0000_0000_0000_0000) by (nonlinear_arith)
        requires
            -0x8000_0000_0000_0000 <= x <= 0x7fff_ffff_ffff_ffff,
            -0x8000_0000_0000_0000 <= y <= 0x7fff_ffff_ffff_ffff,
    ;
}

fn wide_mul(x: i64, y: i64) -> (p: i128)
    ensures
        p == x * y,
        -0x4000_0000_0000_0000_0000_0000_0000_0000 + 0x8000_0000_0000_0000 <= p
            <= 0x4000_0000_0000_0000_0000_0000_0000_0000,
{
    proof {
        lemma_product_bound(x as int, y as int);
    }
    (x as i128) * (y as i128)
}

impl Complex {
    /// The modulus, rounded down to a whole step.
    pub fn abs(self) -> (r: u64)
        ensures
            is_floor_sqrt(norm_sqr(self@), r as int),
    {
        let a: i128 = wide_mul(self.0, self.0);
        let b: i128 = wide_mul(self.1, self.1);
        assert(a >= 0 && b >= 0) by (nonlinear_arith)
            requires
                a == self.0 * self.0,
                b == self.1 * self.1,
        ;
        floor_sqrt(a as u128 + b as u128)
    }
}

impl core::ops::Add for Complex {
    type Output = Complex;

    /// Component-wise sum.
    fn add(self, rhs: Complex) -> (r: Complex) {
        Complex(self.0 + rhs.0, self.1 + rhs.1)
    }
}

/// What `+` means on `Complex`: the sum, wherever it can be stored.
impl vstd::std_specs::ops::AddSpecImpl for Complex {
    open spec fn obeys_add_spec() -> bool {
        true
    }

    open spec fn add_req(self, rhs: Complex) -> bool {
        fits(sum(self@, rhs@))
    }

    open spec fn add_spec(self, rhs: Complex) -> Complex {
        Complex(sum(self@, rhs@).0 as i64, sum(self@, rhs@).1 as i64)
    }
}

impl core::ops::Mul for Complex {
    type Output = Complex;

    /// Fixed-point complex product.
    fn mul(self, rhs: Complex) -> (r: Complex) {
        let ac: i128 = wide_mul(self.0, rhs.0);
        let bd: i128 = wide_mul(self.1, rhs.1);
        let ad: i128 = wide_mul(self.0, rhs.1);
        let bc: i128 = wide_mul(self.1, rhs.0);
        let ghost cross: int = ad + bc;
        assert(i128::MIN <= cross <= i128::MAX) by {
            // the quotient fits 64 bits, so the dividend is far inside 128 bits
            assert(cross == (SCALE as int) * (cross / (SCALE as int)) + cross % (SCALE as int))
                by (nonlinear_arith)
                requires
                    SCALE == 1_000_000_000,
            ;
            assert((SCALE as int) * (cross / (SCALE as int)) <= (SCALE as int) * i64::MAX
                && (SCALE as int) * (cross / (SCALE as int)) >= (SCALE as int) * i64::MIN)
                by (nonlinear_arith)
                requires
                    SCALE == 1_000_000_000,
                    i64::MIN <= cross / (SCALE as int) <= i64::MAX,
            ;
        }
        let re: i128 = div_floor(ac - bd, SCALE as i128);
        let im: i128 = div_floor(ad + bc, SCALE as i128);
        Complex(re as i64, im as i64)
    }
}

/// What `*` means on `Complex`: the fixed-point product, wherever it can be
/// stored.
impl vstd::std_specs::ops::MulSpecImpl for Complex {
    open spec fn obeys_mul_spec() -> bool {
        true
    }

    open spec fn mul_req(self, rhs: Complex) -> bool {
        fits(product(self@, rhs@))
    }

    open spec fn mul_spec(self, rhs: Complex) -> Complex {
        Complex(product(self@, rhs@).0 as i64, product(self@, rhs@).1 as i64)
    }
}

} // verus!
