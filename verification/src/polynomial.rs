//! Per-element physical curves.
//!
//! Density, cohesion and adhesion of a material are polynomials in the
//! tile's saturation, evaluated in fixed point by Horner's rule with
//! clamping at every step.

use vstd::prelude::*;

use crate::rng::next_below;
use crate::scalar::{add_fp, in_bounds, mul_fp, spec_add, spec_mul, tdiv, SCALE};

verus! {

/// Coefficients are clamped into `[-5, 5]` (in whole units).
pub const COEFF_BOUND: i64 = 5 * SCALE;

/// Horner evaluation over the coefficient sequence, lowest degree first:
/// `eval(c, x) = clamp(c[0] + x * eval(c[1..], x))`.
pub open spec fn spec_eval(coeffs: Seq<i64>, x: int) -> int
    decreases coeffs.len(),
{
    if coeffs.len() == 0 {
        0
    } else {
        spec_add(coeffs[0] as int, spec_mul(spec_eval(coeffs.drop_first(), x), x))
    }
}

/// A polynomial curve with clamped coefficients, lowest degree first.
#[derive(Debug, Clone)]
pub struct Polynomial {
    coeffs: Vec<i64>,
}

impl Polynomial {
    /// All coefficients lie within `[-COEFF_BOUND, COEFF_BOUND]`.
    pub closed spec fn wf(self) -> bool {
        forall|i: int|
            0 <= i < self.coeffs@.len() ==> -COEFF_BOUND <= #[trigger] self.coeffs@[i]
                <= COEFF_BOUND
    }

    pub closed spec fn spec_coeffs(self) -> Seq<i64> {
        self.coeffs@
    }

    /// Build a curve, clamping every coefficient into range.
    pub fn new(coeffs: Vec<i64>) -> (r: Polynomial)
        ensures
            r.wf(),
            r.spec_coeffs().len() == coeffs@.len(),
            forall|i: int|
                0 <= i < coeffs@.len() ==> r.spec_coeffs()[i] == crate::scalar::spec_clamp_to(
                    coeffs@[i] as int,
                    COEFF_BOUND as int,
                ),
    {
        let mut clamped: Vec<i64> = Vec::new();
        let mut i: usize = 0;
        while i < coeffs.len()
            invariant
                i <= coeffs@.len(),
                clamped@.len() == i,
                forall|k: int|
                    0 <= k < i ==> clamped@[k] == crate::scalar::spec_clamp_to(
                        coeffs@[k] as int,
                        COEFF_BOUND as int,
                    ),
                forall|k: int|
                    0 <= k < i ==> -COEFF_BOUND <= #[trigger] clamped@[k] <= COEFF_BOUND,
            decreases coeffs@.len() - i,
        {
            let c = coeffs[i];
            let c = if c < -COEFF_BOUND {
                -COEFF_BOUND
            } else if c > COEFF_BOUND {
                COEFF_BOUND
            } else {
                c
            };
            clamped.push(c);
            i += 1;
        }
        Polynomial { coeffs: clamped }
    }

    /// The clamped coefficients, lowest degree first.
    pub fn coeffs(&self) -> (r: &Vec<i64>)
        ensures
            r@ == self.spec_coeffs(),
    {
        &self.coeffs
    }

    /// Evaluate the curve at `x` by clamped fixed-point Horner steps.
    pub fn eval(&self, x: i64) -> (r: i64)
        requires
            self.wf(),
            in_bounds(x as int),
        ensures
            r == spec_eval(self.spec_coeffs(), x as int),
            in_bounds(r as int),
    {
        let mut acc: i64 = 0;
        let mut i: usize = self.coeffs.len();
        while i > 0
            invariant
                self.wf(),
                in_bounds(x as int),
                i <= self.coeffs@.len(),
                in_bounds(acc as int),
                acc == spec_eval(self.spec_coeffs().skip(i as int), x as int),
            decreases i,
        {
            i -= 1;
            let c = self.coeffs[i];
            proof {
                assert(in_bounds(c as int));
                assert(self.coeffs@.skip(i as int).drop_first() =~= self.coeffs@.skip(
                    i as int + 1,
                ));
                assert(self.coeffs@.skip(i as int)[0] == self.coeffs@[i as int]);
            }
            acc = add_fp(c, mul_fp(acc, x));
        }
        proof {
            assert(self.coeffs@.skip(0) =~= self.coeffs@);
        }
        acc
    }
}

impl Polynomial {
    /// A random curve with four coefficients.
    pub fn gen(rng: &mut rand::rngs::ThreadRng) -> (r: Polynomial)
        ensures
            r.wf(),
    {
        let mut raw: Vec<i64> = Vec::new();
        let mut i: usize = 0;
        while i < 4
            decreases 4 - i,
        {
            raw.push(random_coeff(rng));
            i += 1;
        }
        Polynomial::new(raw)
    }

    /// Blend two curves: the result's degree lies between the parents'
    /// and each coefficient is taken from either parent or their mean.
    pub fn crossover(&self, other: &Polynomial, rng: &mut rand::rngs::ThreadRng) -> (r:
        Polynomial)
        requires
            self.wf(),
            other.wf(),
        ensures
            r.wf(),
    {
        let amount_a = self.coeffs.len();
        let amount_b = other.coeffs.len();
        let lo = if amount_a < amount_b {
            amount_a
        } else {
            amount_b
        };
        let hi = if amount_a < amount_b {
            amount_b
        } else {
            amount_a
        };
        let len: usize = if hi == lo {
            lo
        } else {
            let extra = next_below(rng, (hi - lo) as u64) as usize;
            let bump = next_below(rng, 2) as usize;
            lo + extra + bump
        };
        let mut raw: Vec<i64> = Vec::new();
        let mut i: usize = 0;
        while i < len
            invariant
                self.wf(),
                other.wf(),
                len <= self.coeffs@.len() || len <= other.coeffs@.len(),
                i <= len,
            decreases len - i,
        {
            let a = if i < self.coeffs.len() {
                Some(self.coeffs[i])
            } else {
                None
            };
            let b = if i < other.coeffs.len() {
                Some(other.coeffs[i])
            } else {
                None
            };
            let c = match (a, b) {
                (Some(a), Some(b)) => {
                    let pick = next_below(rng, 3);
                    if pick == 0 {
                        a
                    } else if pick == 1 {
                        b
                    } else {
                        tdiv(a + b, 2)
                    }
                },
                (Some(a), None) => a,
                (None, Some(b)) => b,
                (None, None) => 0,
            };
            raw.push(c);
            i += 1;
        }
        Polynomial::new(raw)
    }

    /// Jitter every coefficient by up to `rate` (in scaled units), and
    /// sometimes grow or shrink the curve by one degree.
    pub fn mutate(&self, rate: i64, rng: &mut rand::rngs::ThreadRng) -> (r: Polynomial)
        requires
            self.wf(),
            0 <= rate <= SCALE,
        ensures
            r.wf(),
    {
        let mut raw: Vec<i64> = Vec::new();
        let mut i: usize = 0;
        while i < self.coeffs.len()
            invariant
                self.wf(),
                0 <= rate <= SCALE,
                i <= self.coeffs@.len(),
            decreases self.coeffs@.len() - i,
        {
            proof {
                assert(-COEFF_BOUND <= self.coeffs@[i as int] <= COEFF_BOUND);
            }
            let jitter = next_below(rng, (2 * rate + 1) as u64) as i64 - rate;
            raw.push(self.coeffs[i] + jitter);
            i += 1;
        }
        if next_below(rng, SCALE as u64 + 1) < rate as u64 {
            raw.push(random_coeff(rng));
        } else if raw.len() > 0 && next_below(rng, SCALE as u64 + 1) < rate as u64 {
            let _ = raw.pop();
        }
        Polynomial::new(raw)
    }
}

/// A uniformly random coefficient within the clamped range.
fn random_coeff(rng: &mut rand::rngs::ThreadRng) -> (r: i64)
    ensures
        -COEFF_BOUND <= r <= COEFF_BOUND,
{
    next_below(rng, (2 * COEFF_BOUND + 1) as u64) as i64 - COEFF_BOUND
}

} // verus!
