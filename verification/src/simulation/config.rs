//! Simulation parameters.
//!
//! A `Config` is an immutable-per-tick bundle: per-element physical
//! curves, phase-transition thresholds, the diffusion rate, and the
//! per-direction weights the scorer applies to a destination's eight
//! neighbors.  All values are fixed-point scalars; constructors clamp
//! them into their documented ranges, so invalid values cannot be built.

use vstd::prelude::*;

use crate::polynomial::{Polynomial, COEFF_BOUND};
use crate::rng::next_below;
use crate::scalar::{tdiv, SCALE};

verus! {

/// Weights and thresholds live in the same clamped range as curve
/// coefficients.
pub open spec fn weight_ok(w: i64) -> bool {
    -COEFF_BOUND <= w <= COEFF_BOUND
}

/// A saturation-like scalar lies in `[0, SCALE]` (that is, `[0, 1]`).
pub open spec fn unit_ok(s: i64) -> bool {
    0 <= s <= SCALE
}

/// The physical curves of one element.
#[derive(Debug, Clone)]
pub struct ElementConfig {
    pub adhesion: Polynomial,
    pub cohesion: Polynomial,
    pub density: Polynomial,
}

impl ElementConfig {
    pub open spec fn wf(&self) -> bool {
        &&& self.adhesion.wf()
        &&& self.cohesion.wf()
        &&& self.density.wf()
    }

    /// Random curves for one element.
    pub fn gen(rng: &mut rand::rngs::ThreadRng) -> (r: ElementConfig)
        ensures
            r.wf(),
    {
        ElementConfig {
            adhesion: Polynomial::gen(rng),
            cohesion: Polynomial::gen(rng),
            density: Polynomial::gen(rng),
        }
    }

    /// Blend two elements' curves.
    pub fn crossover(&self, other: &ElementConfig, rng: &mut rand::rngs::ThreadRng) -> (r:
        ElementConfig)
        requires
            self.wf(),
            other.wf(),
        ensures
            r.wf(),
    {
        ElementConfig {
            adhesion: self.adhesion.crossover(&other.adhesion, rng),
            cohesion: self.cohesion.crossover(&other.cohesion, rng),
            density: self.density.crossover(&other.density, rng),
        }
    }

    /// Jitter one element's curves.
    pub fn mutate(&self, rate: i64, rng: &mut rand::rngs::ThreadRng) -> (r: ElementConfig)
        requires
            self.wf(),
            0 <= rate <= SCALE,
        ensures
            r.wf(),
    {
        ElementConfig {
            adhesion: self.adhesion.mutate(rate, rng),
            cohesion: self.cohesion.mutate(rate, rng),
            density: self.density.mutate(rate, rng),
        }
    }
}

/// A uniformly random saturation-like scalar.
fn gen_unit(rng: &mut rand::rngs::ThreadRng) -> (r: i64)
    ensures
        unit_ok(r),
{
    next_below(rng, SCALE as u64 + 1) as i64
}

/// A uniformly random weight.
fn gen_weight(rng: &mut rand::rngs::ThreadRng) -> (r: i64)
    ensures
        weight_ok(r),
{
    next_below(rng, (2 * COEFF_BOUND + 1) as u64) as i64 - COEFF_BOUND
}

/// One parent's value, the other's, or their mean, at random.
fn cross_scalar(a: i64, b: i64, rng: &mut rand::rngs::ThreadRng) -> (r: i64)
    requires
        -COEFF_BOUND <= a <= COEFF_BOUND,
        -COEFF_BOUND <= b <= COEFF_BOUND,
    ensures
        a <= r <= b || b <= r <= a,
{
    let pick = next_below(rng, 3);
    if pick == 0 {
        a
    } else if pick == 1 {
        b
    } else {
        tdiv(a + b, 2)
    }
}

/// Jitter a saturation-like scalar, clamped back into `[0, 1]`.
fn mutate_unit(a: i64, rate: i64, rng: &mut rand::rngs::ThreadRng) -> (r: i64)
    requires
        unit_ok(a),
        0 <= rate <= SCALE,
    ensures
        unit_ok(r),
{
    let jitter = next_below(rng, (2 * rate + 1) as u64) as i64 - rate;
    let v = a + jitter;
    if v < 0 {
        0
    } else if v > SCALE {
        SCALE
    } else {
        v
    }
}

/// Jitter a weight, clamped back into its range.
fn mutate_weight(a: i64, rate: i64, rng: &mut rand::rngs::ThreadRng) -> (r: i64)
    requires
        weight_ok(a),
        0 <= rate <= SCALE,
    ensures
        weight_ok(r),
{
    let jitter = next_below(rng, (2 * rate + 1) as u64) as i64 - rate;
    let v = a + jitter;
    if v < -COEFF_BOUND {
        -COEFF_BOUND
    } else if v > COEFF_BOUND {
        COEFF_BOUND
    } else {
        v
    }
}

/// Eight random weights.
fn gen_weights(rng: &mut rand::rngs::ThreadRng) -> (r: [i64; 8])
    ensures
        forall|i: int| 0 <= i < 8 ==> weight_ok(#[trigger] r@[i]),
{
    [
        gen_weight(rng),
        gen_weight(rng),
        gen_weight(rng),
        gen_weight(rng),
        gen_weight(rng),
        gen_weight(rng),
        gen_weight(rng),
        gen_weight(rng),
    ]
}

/// The full per-tick parameter bundle.
#[derive(Debug, Clone)]
pub struct Config {
    pub air: ElementConfig,
    pub soil: ElementConfig,
    pub water: ElementConfig,
    /// Air becomes Water once saturation reaches this threshold.
    pub air_to_water_saturation_threshold: i64,
    /// Fraction of the gap to the window average closed per tick.
    pub saturation_diffusion_rate: i64,
    /// Water becomes Air once saturation falls below this threshold.
    pub water_to_air_saturation_threshold: i64,
    /// Above this saturation, soil moves as a liquid rather than a solid.
    pub soil_liquid_saturation_threshold: i64,
    /// Per-direction weights for the attraction term, in the scorer's
    /// neighbor order (row-major around the destination, center skipped).
    pub neighbor_attraction_weights: [i64; 8],
    /// Per-direction weights for the density-difference term.
    pub neighbor_density_weights: [i64; 8],
    pub attraction_score_weight: i64,
    pub density_score_weight: i64,
}

impl Config {
    pub open spec fn wf(&self) -> bool {
        &&& self.air.wf()
        &&& self.soil.wf()
        &&& self.water.wf()
        &&& unit_ok(self.air_to_water_saturation_threshold)
        &&& unit_ok(self.saturation_diffusion_rate)
        &&& unit_ok(self.water_to_air_saturation_threshold)
        &&& unit_ok(self.soil_liquid_saturation_threshold)
        &&& forall|i: int| 0 <= i < 8 ==> weight_ok(#[trigger] self.neighbor_attraction_weights@[i])
        &&& forall|i: int| 0 <= i < 8 ==> weight_ok(#[trigger] self.neighbor_density_weights@[i])
        &&& weight_ok(self.attraction_score_weight)
        &&& weight_ok(self.density_score_weight)
    }

    /// A fully random, well-formed parameter bundle.
    pub fn gen(rng: &mut rand::rngs::ThreadRng) -> (r: Config)
        ensures
            r.wf(),
    {
        Config {
            air: ElementConfig::gen(rng),
            soil: ElementConfig::gen(rng),
            water: ElementConfig::gen(rng),
            air_to_water_saturation_threshold: gen_unit(rng),
            saturation_diffusion_rate: gen_unit(rng),
            water_to_air_saturation_threshold: gen_unit(rng),
            soil_liquid_saturation_threshold: gen_unit(rng),
            neighbor_attraction_weights: gen_weights(rng),
            neighbor_density_weights: gen_weights(rng),
            attraction_score_weight: gen_weight(rng),
            density_score_weight: gen_weight(rng),
        }
    }

    /// Blend two configs field by field; every range invariant of the
    /// fields is preserved.
    pub fn crossover(&self, other: &Config, rng: &mut rand::rngs::ThreadRng) -> (r: Config)
        requires
            self.wf(),
            other.wf(),
        ensures
            r.wf(),
    {
        let naw = cross_weights(
            &self.neighbor_attraction_weights,
            &other.neighbor_attraction_weights,
            rng,
        );
        let ndw = cross_weights(
            &self.neighbor_density_weights,
            &other.neighbor_density_weights,
            rng,
        );
        Config {
            air: self.air.crossover(&other.air, rng),
            soil: self.soil.crossover(&other.soil, rng),
            water: self.water.crossover(&other.water, rng),
            air_to_water_saturation_threshold: cross_scalar(
                self.air_to_water_saturation_threshold,
                other.air_to_water_saturation_threshold,
                rng,
            ),
            saturation_diffusion_rate: cross_scalar(
                self.saturation_diffusion_rate,
                other.saturation_diffusion_rate,
                rng,
            ),
            water_to_air_saturation_threshold: cross_scalar(
                self.water_to_air_saturation_threshold,
                other.water_to_air_saturation_threshold,
                rng,
            ),
            soil_liquid_saturation_threshold: cross_scalar(
                self.soil_liquid_saturation_threshold,
                other.soil_liquid_saturation_threshold,
                rng,
            ),
            neighbor_attraction_weights: naw,
            neighbor_density_weights: ndw,
            attraction_score_weight: cross_scalar(
                self.attraction_score_weight,
                other.attraction_score_weight,
                rng,
            ),
            density_score_weight: cross_scalar(
                self.density_score_weight,
                other.density_score_weight,
                rng,
            ),
        }
    }

    /// Jitter every field by up to `rate`; every range invariant of the
    /// fields is preserved.
    pub fn mutate(&self, rate: i64, rng: &mut rand::rngs::ThreadRng) -> (r: Config)
        requires
            self.wf(),
            0 <= rate <= SCALE,
        ensures
            r.wf(),
    {
        let naw = mutate_weights(&self.neighbor_attraction_weights, rate, rng);
        let ndw = mutate_weights(&self.neighbor_density_weights, rate, rng);
        Config {
            air: self.air.mutate(rate, rng),
            soil: self.soil.mutate(rate, rng),
            water: self.water.mutate(rate, rng),
            air_to_water_saturation_threshold: mutate_unit(
                self.air_to_water_saturation_threshold,
                rate,
                rng,
            ),
            saturation_diffusion_rate: mutate_unit(self.saturation_diffusion_rate, rate, rng),
            water_to_air_saturation_threshold: mutate_unit(
                self.water_to_air_saturation_threshold,
                rate,
                rng,
            ),
            soil_liquid_saturation_threshold: mutate_unit(
                self.soil_liquid_saturation_threshold,
                rate,
                rng,
            ),
            neighbor_attraction_weights: naw,
            neighbor_density_weights: ndw,
            attraction_score_weight: mutate_weight(self.attraction_score_weight, rate, rng),
            density_score_weight: mutate_weight(self.density_score_weight, rate, rng),
        }
    }
}

/// Blend two weight tables entrywise.
fn cross_weights(a: &[i64; 8], b: &[i64; 8], rng: &mut rand::rngs::ThreadRng) -> (r: [i64; 8])
    requires
        forall|i: int| 0 <= i < 8 ==> weight_ok(#[trigger] a@[i]),
        forall|i: int| 0 <= i < 8 ==> weight_ok(#[trigger] b@[i]),
    ensures
        forall|i: int| 0 <= i < 8 ==> weight_ok(#[trigger] r@[i]),
{
    [
        cross_scalar(a[0], b[0], rng),
        cross_scalar(a[1], b[1], rng),
        cross_scalar(a[2], b[2], rng),
        cross_scalar(a[3], b[3], rng),
        cross_scalar(a[4], b[4], rng),
        cross_scalar(a[5], b[5], rng),
        cross_scalar(a[6], b[6], rng),
        cross_scalar(a[7], b[7], rng),
    ]
}

/// Jitter a weight table entrywise.
fn mutate_weights(a: &[i64; 8], rate: i64, rng: &mut rand::rngs::ThreadRng) -> (r: [i64; 8])
    requires
        forall|i: int| 0 <= i < 8 ==> weight_ok(#[trigger] a@[i]),
        0 <= rate <= SCALE,
    ensures
        forall|i: int| 0 <= i < 8 ==> weight_ok(#[trigger] r@[i]),
{
    [
        mutate_weight(a[0], rate, rng),
        mutate_weight(a[1], rate, rng),
        mutate_weight(a[2], rate, rng),
        mutate_weight(a[3], rate, rng),
        mutate_weight(a[4], rate, rng),
        mutate_weight(a[5], rate, rng),
        mutate_weight(a[6], rate, rng),
        mutate_weight(a[7], rate, rng),
    ]
}

impl Default for Config {
    /// The hand-tuned baseline: the documented default curves and
    /// thresholds, uniform attraction weights, and density weights that
    /// favor dense material settling downward.
    fn default() -> (r: Config)
        ensures
            r.wf(),
            r.air_to_water_saturation_threshold == 900,
            r.saturation_diffusion_rate == 10,
            r.water_to_air_saturation_threshold == 500,
            r.soil_liquid_saturation_threshold == 900,
            r.air.density.spec_coeffs() == seq![100i64, -990i64],
            r.air.cohesion.spec_coeffs() == seq![100i64, 400i64],
            r.air.adhesion.spec_coeffs() == seq![100i64, 50i64],
            r.soil.density.spec_coeffs() == seq![1000i64, -100i64],
            r.soil.cohesion.spec_coeffs() == seq![0i64, 3250i64, -2500i64],
            r.soil.adhesion.spec_coeffs() == seq![0i64, 3250i64, -2500i64],
            r.water.density.spec_coeffs() == seq![500i64, 100i64],
            r.water.cohesion.spec_coeffs() == seq![500i64],
            r.water.adhesion.spec_coeffs() == seq![750i64],
            r.neighbor_attraction_weights@ == seq![
                100i64,
                100i64,
                100i64,
                100i64,
                100i64,
                100i64,
                100i64,
                100i64,
            ],
            r.neighbor_density_weights@ == seq![
                -500i64,
                -500i64,
                -500i64,
                0i64,
                0i64,
                500i64,
                500i64,
                500i64,
            ],
            r.attraction_score_weight == 1000,
            r.density_score_weight == 1000,
    {
        let air = ElementConfig {
            adhesion: Polynomial::new(vec![100, 50]),
            cohesion: Polynomial::new(vec![100, 400]),
            density: Polynomial::new(vec![100, -990]),
        };
        let soil = ElementConfig {
            adhesion: Polynomial::new(vec![0, 3250, -2500]),
            cohesion: Polynomial::new(vec![0, 3250, -2500]),
            density: Polynomial::new(vec![1000, -100]),
        };
        let water = ElementConfig {
            adhesion: Polynomial::new(vec![750]),
            cohesion: Polynomial::new(vec![500]),
            density: Polynomial::new(vec![500, 100]),
        };
        let r = Config {
            air,
            soil,
            water,
            air_to_water_saturation_threshold: 900,
            saturation_diffusion_rate: 10,
            water_to_air_saturation_threshold: 500,
            soil_liquid_saturation_threshold: 900,
            neighbor_attraction_weights: [100, 100, 100, 100, 100, 100, 100, 100],
            neighbor_density_weights: [-500, -500, -500, 0, 0, 500, 500, 500],
            attraction_score_weight: 1000,
            density_score_weight: 1000,
        };
        proof {
            assert(r.air.adhesion.spec_coeffs() =~= seq![100i64, 50i64]);
            assert(r.air.cohesion.spec_coeffs() =~= seq![100i64, 400i64]);
            assert(r.air.density.spec_coeffs() =~= seq![100i64, -990i64]);
            assert(r.soil.adhesion.spec_coeffs() =~= seq![0i64, 3250i64, -2500i64]);
            assert(r.soil.cohesion.spec_coeffs() =~= seq![0i64, 3250i64, -2500i64]);
            assert(r.soil.density.spec_coeffs() =~= seq![1000i64, -100i64]);
            assert(r.water.adhesion.spec_coeffs() =~= seq![750i64]);
            assert(r.water.cohesion.spec_coeffs() =~= seq![500i64]);
            assert(r.water.density.spec_coeffs() =~= seq![500i64, 100i64]);
            assert(r.neighbor_attraction_weights@ =~= seq![
                100i64,
                100i64,
                100i64,
                100i64,
                100i64,
                100i64,
                100i64,
                100i64,
            ]);
            assert(r.neighbor_density_weights@ =~= seq![
                -500i64,
                -500i64,
                -500i64,
                0i64,
                0i64,
                500i64,
                500i64,
                500i64,
            ]);
        }
        r
    }
}

} // verus!
