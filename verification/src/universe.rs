//! The simulation state: the ensemble of point masses.
//!
//! Mass, position and velocity live in parallel, index-aligned vectors so
//! a renderer can read them without per-point marshalling.  The ensemble
//! implements [`State`] (its derivative delegates to the Barnes-Hut force
//! engine) and [`StateArith`] (what Runge-Kutta needs), and offers a
//! post-step merge pass that fuses overlapping bodies mass- and
//! momentum-conservingly.

use vstd::prelude::*;
use vstd::math::abs;
use crate::fixed::{
    clamp_lim, cbrt_floor, sqrt_floor, tdiv, tdiv_i128, tdiv_i64, sat_limit, icbrt_u128,
    isqrt_u128, lemma_tdiv_bound, LIMIT, SCALE, SCALE2,
};
use crate::gravity_calc::{
    accel_model, bodies_ok, calculate_accels, lemma_filter_push, lemma_filter_subset,
    lemma_mass_sum_prefix_le, lemma_mass_sum_same_masses, lemma_point_sums_push, mass_sum,
    sim_tree, statics_of, StaticMassPoint,
};
use crate::solver::{rk4_progressed, RungeKutta4, Solver};
use crate::mass::MassPoint;
use crate::state::{State, StateArith};
use crate::vector::Vec2;

verus! {

/// The softening length: 2.5 length units.  Its square is added to the
/// squared separation in the force law to bound accelerations between
/// close bodies.
pub const GRAVITY_CUTOFF: i64 = 2_500_000;

/// The assumed density of a body, 5 mass units per cubic length unit,
/// used by the merge pass to give each body a radius.
pub const DENSITY: i64 = 5_000_000;

/// The mathematical model of the ensemble: the configuration scalars and
/// the five flat component sequences.
#[verifier::ext_equal]
pub struct UniverseModel {
    pub gravity_constant: i64,
    pub minimum_ratio_for_integration: i64,
    pub ms: Seq<i64>,
    pub xs: Seq<i64>,
    pub ys: Seq<i64>,
    pub us: Seq<i64>,
    pub vs: Seq<i64>,
}

/// The mathematical model of a derivative: per-point velocity and
/// acceleration vectors.
#[verifier::ext_equal]
pub struct UniverseDiffModel {
    pub vels: Seq<Vec2>,
    pub accs: Seq<Vec2>,
}

/// The ensemble of point masses.
pub struct Universe {
    pub gravity_constant: i64,
    pub ms: Vec<i64>,
    pub xs: Vec<i64>,
    pub ys: Vec<i64>,
    pub us: Vec<i64>,
    pub vs: Vec<i64>,
    pub minimum_ratio_for_integration: i64,
}

/// A derivative of the ensemble: the rate of change of every position
/// (a velocity) and of every velocity (an acceleration).
pub struct UniverseDiff {
    pub velocities: Vec<Vec2>,
    pub accels: Vec<Vec2>,
}

/// The point masses a model describes, index-aligned.
pub open spec fn model_points(m: UniverseModel) -> Seq<MassPoint> {
    Seq::new(
        m.ms.len(),
        |i: int|
            MassPoint {
                mass: m.ms[i],
                position: Vec2 { x: m.xs[i], y: m.ys[i] },
                velocity: Vec2 { x: m.us[i], y: m.vs[i] },
            },
    )
}

/// Total mass of the ensemble a model describes.
pub open spec fn total_mass_of(m: UniverseModel) -> int {
    mass_sum(statics_of(model_points(m)))
}

/// Well-formedness of a model: aligned lengths, positive masses,
/// coordinates and velocities in the working range, nonnegative
/// configuration, and mass totals small enough that no force
/// computation can overflow.
pub open spec fn universe_ok(m: UniverseModel) -> bool {
    &&& m.xs.len() == m.ms.len()
    &&& m.ys.len() == m.ms.len()
    &&& m.us.len() == m.ms.len()
    &&& m.vs.len() == m.ms.len()
    &&& forall|i: int| 0 <= i < m.ms.len() ==> (#[trigger] m.ms[i]) > 0
    &&& forall|i: int| 0 <= i < m.ms.len() ==> abs((#[trigger] m.xs[i]) as int) <= LIMIT
    &&& forall|i: int| 0 <= i < m.ms.len() ==> abs((#[trigger] m.ys[i]) as int) <= LIMIT
    &&& forall|i: int| 0 <= i < m.ms.len() ==> abs((#[trigger] m.us[i]) as int) <= LIMIT
    &&& forall|i: int| 0 <= i < m.ms.len() ==> abs((#[trigger] m.vs[i]) as int) <= LIMIT
    &&& m.gravity_constant >= 0
    &&& m.minimum_ratio_for_integration >= 0
    &&& total_mass_of(m) <= i64::MAX
    &&& m.gravity_constant * total_mass_of(m) <= SCALE * (i64::MAX as int)
}

/// Copy a vector of scalars.
fn copy_i64_vec(v: &Vec<i64>) -> (r: Vec<i64>)
    ensures
        r@ == v@,
{
    let mut r: Vec<i64> = Vec::new();
    let n: usize = v.len();
    for i in 0..n
        invariant
            n == v@.len(),
            r@.len() == i,
            forall|j: int| 0 <= j < i ==> r@[j] == v@[j],
    {
        r.push(v[i]);
    }
    proof {
        assert(r@ =~= v@);
    }
    r
}

impl Universe {
    /// A fresh, empty universe: gravitational constant and accuracy
    /// threshold both `1.0`, no bodies.
    pub fn new() -> (u: Universe)
        ensures
            u.gravity_constant == SCALE,
            u.minimum_ratio_for_integration == SCALE,
            u.ms@.len() == 0,
            u.xs@.len() == 0,
            u.ys@.len() == 0,
            u.us@.len() == 0,
            u.vs@.len() == 0,
            u.ok(),
    {
        let u = Universe {
            gravity_constant: SCALE,
            ms: Vec::new(),
            xs: Vec::new(),
            ys: Vec::new(),
            us: Vec::new(),
            vs: Vec::new(),
            minimum_ratio_for_integration: SCALE,
        };
        proof {
            assert(statics_of(model_points(u.model())).len() == 0);
            assert(total_mass_of(u.model()) == 0);
            assert(u.gravity_constant * total_mass_of(u.model()) == 0) by (nonlinear_arith)
                requires
                    total_mass_of(u.model()) == 0;
        }
        u
    }

    /// The number of point masses.
    pub fn mass_count(&self) -> (n: usize)
        ensures
            n == self.ms@.len(),
    {
        self.ms.len()
    }

    /// The mass of body `i`.
    pub fn mass_at(&self, i: usize) -> (m: i64)
        requires
            i < self.ms@.len(),
        ensures
            m == self.ms@[i as int],
    {
        self.ms[i]
    }

    /// The x position of body `i`.
    pub fn position_x_at(&self, i: usize) -> (x: i64)
        requires
            i < self.xs@.len(),
        ensures
            x == self.xs@[i as int],
    {
        self.xs[i]
    }

    /// The y position of body `i`.
    pub fn position_y_at(&self, i: usize) -> (y: i64)
        requires
            i < self.ys@.len(),
        ensures
            y == self.ys@[i as int],
    {
        self.ys[i]
    }

    /// The x velocity of body `i`.
    pub fn velocity_x_at(&self, i: usize) -> (u: i64)
        requires
            i < self.us@.len(),
        ensures
            u == self.us@[i as int],
    {
        self.us[i]
    }

    /// The y velocity of body `i`.
    pub fn velocity_y_at(&self, i: usize) -> (v: i64)
        requires
            i < self.vs@.len(),
        ensures
            v == self.vs@[i as int],
    {
        self.vs[i]
    }

    /// The bodies as records, index-aligned with the flat vectors.
    pub fn masses(&self) -> (pts: Vec<MassPoint>)
        requires
            self.ok(),
        ensures
            pts@ == model_points(self.model()),
    {
        let mut pts: Vec<MassPoint> = Vec::new();
        let n: usize = self.ms.len();
        for i in 0..n
            invariant
                self.ok(),
                n == self.ms@.len(),
                pts@.len() == i,
                forall|j: int| 0 <= j < i ==> pts@[j] == model_points(self.model())[j],
        {
            pts.push(
                MassPoint::new(
                    self.ms[i],
                    Vec2::new(self.xs[i], self.ys[i]),
                    Vec2::new(self.us[i], self.vs[i]),
                ),
            );
        }
        proof {
            assert(pts@ =~= model_points(self.model()));
        }
        pts
    }

    /// The total mass of all bodies.
    pub fn total_mass(&self) -> (t: i64)
        requires
            self.ok(),
        ensures
            t == total_mass_of(self.model()),
            t >= 0,
    {
        let ghost st = statics_of(model_points(self.model()));
        let mut t: i64 = 0;
        let n: usize = self.ms.len();
        proof {
            assert(st.subrange(0, 0) =~= Seq::<StaticMassPoint>::empty());
        }
        for i in 0..n
            invariant
                self.ok(),
                n == self.ms@.len(),
                st == statics_of(model_points(self.model())),
                st.len() == n,
                t == mass_sum(st.subrange(0, i as int)),
                0 <= t,
        {
            proof {
                assert(st[i as int].mass == self.ms@[i as int]);
                assert(st.subrange(0, i + 1) =~= st.subrange(0, i as int).push(st[i as int]));
                lemma_point_sums_push(st.subrange(0, i as int), st[i as int]);
                assert forall|j: int| 0 <= j < st.len() implies (#[trigger] st[j]).mass >= 0 by {
                    assert(st[j].mass == self.ms@[j]);
                }
                lemma_mass_sum_prefix_le(st, i + 1);
            }
            t = t + self.ms[i];
        }
        proof {
            assert(st.subrange(0, n as int) =~= st);
        }
        t
    }

    /// Whether `add_mass` accepts these arguments in the current state.
    pub fn can_add_mass(&self, m: i64, x: i64, y: i64, u: i64, v: i64) -> (b: bool)
        requires
            self.ok(),
        ensures
            b == (m > 0 && abs(x as int) <= LIMIT && abs(y as int) <= LIMIT && abs(u as int)
                <= LIMIT && abs(v as int) <= LIMIT && total_mass_of(self.model()) + m <= i64::MAX
                && self.gravity_constant * (total_mass_of(self.model()) + m) <= SCALE * (
            i64::MAX as int)),
    {
        let t: i64 = self.total_mass();
        let in_range: bool = m > 0 && x >= -LIMIT && x <= LIMIT && y >= -LIMIT && y <= LIMIT && u
            >= -LIMIT && u <= LIMIT && v >= -LIMIT && v <= LIMIT;
        if !in_range {
            return false;
        }
        let total: i128 = (t as i128) + (m as i128);
        if total > i64::MAX as i128 {
            return false;
        }
        let bound: i128 = (SCALE as i128) * (i64::MAX as i128);
        proof {
            lemma_axis_product_fits(self.gravity_constant as int, total as int);
        }
        (self.gravity_constant as i128) * total <= bound
    }

    /// Add a body with the given mass, position and velocity.
    pub fn add_mass(&mut self, m: i64, x: i64, y: i64, u: i64, v: i64)
        requires
            old(self).ok(),
            m > 0,
            abs(x as int) <= LIMIT,
            abs(y as int) <= LIMIT,
            abs(u as int) <= LIMIT,
            abs(v as int) <= LIMIT,
            total_mass_of(old(self).model()) + m <= i64::MAX,
            old(self).gravity_constant * (total_mass_of(old(self).model()) + m) <= SCALE * (
            i64::MAX as int),
        ensures
            final(self).ms@ == old(self).ms@.push(m),
            final(self).xs@ == old(self).xs@.push(x),
            final(self).ys@ == old(self).ys@.push(y),
            final(self).us@ == old(self).us@.push(u),
            final(self).vs@ == old(self).vs@.push(v),
            final(self).gravity_constant == old(self).gravity_constant,
            final(self).minimum_ratio_for_integration == old(
                self,
            ).minimum_ratio_for_integration,
            final(self).ok(),
            total_mass_of(final(self).model()) == total_mass_of(old(self).model()) + m,
    {
        let ghost m0 = self.model();
        self.ms.push(m);
        self.xs.push(x);
        self.ys.push(y);
        self.us.push(u);
        self.vs.push(v);
        proof {
            let m1 = self.model();
            let st0 = statics_of(model_points(m0));
            let st1 = statics_of(model_points(m1));
            assert(st1 =~= st0.push(
                StaticMassPoint { mass: m, position: Vec2 { x, y } },
            ));
            lemma_point_sums_push(st0, StaticMassPoint { mass: m, position: Vec2 { x, y } });
        }
    }

    /// Set the Barnes-Hut accuracy threshold (dimensionless ratio).
    pub fn set_minimum_ratio_for_integration(&mut self, ratio: i64)
        requires
            old(self).ok(),
            ratio >= 0,
        ensures
            final(self).minimum_ratio_for_integration == ratio,
            final(self).gravity_constant == old(self).gravity_constant,
            final(self).ms@ == old(self).ms@,
            final(self).xs@ == old(self).xs@,
            final(self).ys@ == old(self).ys@,
            final(self).us@ == old(self).us@,
            final(self).vs@ == old(self).vs@,
            final(self).ok(),
    {
        let ghost m0 = self.model();
        self.minimum_ratio_for_integration = ratio;
        proof {
            assert(model_points(self.model()) =~= model_points(m0));
            assert(total_mass_of(self.model()) == total_mass_of(m0));
        }
    }

    /// Whether `set_gravity_constant` accepts `g` in the current state.
    pub fn can_set_gravity_constant(&self, g: i64) -> (b: bool)
        requires
            self.ok(),
        ensures
            b == (g >= 0 && g * total_mass_of(self.model()) <= SCALE * (i64::MAX as int)),
    {
        if g < 0 {
            return false;
        }
        let t: i64 = self.total_mass();
        let bound: i128 = (SCALE as i128) * (i64::MAX as i128);
        proof {
            lemma_axis_product_fits(g as int, t as int);
        }
        (g as i128) * (t as i128) <= bound
    }

    /// Set the gravitational constant.
    pub fn set_gravity_constant(&mut self, g: i64)
        requires
            old(self).ok(),
            g >= 0,
            g * total_mass_of(old(self).model()) <= SCALE * (i64::MAX as int),
        ensures
            final(self).gravity_constant == g,
            final(self).minimum_ratio_for_integration == old(
                self,
            ).minimum_ratio_for_integration,
            final(self).ms@ == old(self).ms@,
            final(self).xs@ == old(self).xs@,
            final(self).ys@ == old(self).ys@,
            final(self).us@ == old(self).us@,
            final(self).vs@ == old(self).vs@,
            final(self).ok(),
    {
        let ghost m0 = self.model();
        self.gravity_constant = g;
        proof {
            assert(model_points(self.model()) =~= model_points(m0));
            assert(total_mass_of(self.model()) == total_mass_of(m0));
        }
    }
}

impl State for Universe {
    type Axis = i64;

    type Difference = UniverseDiff;

    type Model = UniverseModel;

    type DiffModel = UniverseDiffModel;

    open spec fn ok(&self) -> bool {
        universe_ok(self.model())
    }

    open spec fn model(&self) -> UniverseModel {
        UniverseModel {
            gravity_constant: self.gravity_constant,
            minimum_ratio_for_integration: self.minimum_ratio_for_integration,
            ms: self.ms@,
            xs: self.xs@,
            ys: self.ys@,
            us: self.us@,
            vs: self.vs@,
        }
    }

    open spec fn diff_model(d: &UniverseDiff) -> UniverseDiffModel {
        UniverseDiffModel { vels: d.velocities@, accs: d.accels@ }
    }

    /// The derivative: each position changes at the body's velocity, and
    /// each velocity at the saturated Barnes-Hut acceleration of the
    /// body against the tree of all bodies.
    open spec fn derivative_of(m: UniverseModel) -> UniverseDiffModel {
        UniverseDiffModel {
            vels: Seq::new(m.ms.len(), |i: int| Vec2 { x: m.us[i], y: m.vs[i] }),
            accs: Seq::new(
                m.ms.len(),
                |i: int|
                    Vec2 {
                        x: clamp_lim(
                            accel_model(
                                m.xs[i] as int,
                                m.ys[i] as int,
                                sim_tree(statics_of(model_points(m))),
                                m.gravity_constant as int,
                                m.minimum_ratio_for_integration as int,
                                GRAVITY_CUTOFF as int,
                            ).0,
                            LIMIT as int,
                        ) as i64,
                        y: clamp_lim(
                            accel_model(
                                m.xs[i] as int,
                                m.ys[i] as int,
                                sim_tree(statics_of(model_points(m))),
                                m.gravity_constant as int,
                                m.minimum_ratio_for_integration as int,
                                GRAVITY_CUTOFF as int,
                            ).1,
                            LIMIT as int,
                        ) as i64,
                    },
            ),
        }
    }

    /// The Euler update: `duration * rate` is added to every component,
    /// saturated into the working range; entries beyond the derivative's
    /// length are left unchanged.
    open spec fn progressed(m: UniverseModel, duration: i64, dm: UniverseDiffModel) -> UniverseModel {
        UniverseModel {
            gravity_constant: m.gravity_constant,
            minimum_ratio_for_integration: m.minimum_ratio_for_integration,
            ms: m.ms,
            xs: Seq::new(
                m.xs.len(),
                |i: int|
                    if i < dm.vels.len() {
                        clamp_lim(
                            m.xs[i] + tdiv(dm.vels[i].x * duration, SCALE as int),
                            LIMIT as int,
                        ) as i64
                    } else {
                        m.xs[i]
                    },
            ),
            ys: Seq::new(
                m.ys.len(),
                |i: int|
                    if i < dm.vels.len() {
                        clamp_lim(
                            m.ys[i] + tdiv(dm.vels[i].y * duration, SCALE as int),
                            LIMIT as int,
                        ) as i64
                    } else {
                        m.ys[i]
                    },
            ),
            us: Seq::new(
                m.us.len(),
                |i: int|
                    if i < dm.accs.len() {
                        clamp_lim(
                            m.us[i] + tdiv(dm.accs[i].x * duration, SCALE as int),
                            LIMIT as int,
                        ) as i64
                    } else {
                        m.us[i]
                    },
            ),
            vs: Seq::new(
                m.vs.len(),
                |i: int|
                    if i < dm.accs.len() {
                        clamp_lim(
                            m.vs[i] + tdiv(dm.accs[i].y * duration, SCALE as int),
                            LIMIT as int,
                        ) as i64
                    } else {
                        m.vs[i]
                    },
            ),
        }
    }

    fn calculate_difference(&self) -> (d: UniverseDiff) {
        let ghost m = self.model();
        let pts = self.masses();
        proof {
            let st = statics_of(pts@);
            assert forall|i: int| 0 <= i < st.len() implies (#[trigger] st[i]).mass > 0 && abs(
                st[i].position.x as int,
            ) <= LIMIT && abs(st[i].position.y as int) <= LIMIT by {
                assert(st[i].mass == m.ms[i]);
                assert(st[i].position.x == m.xs[i]);
                assert(st[i].position.y == m.ys[i]);
            }
            assert(bodies_ok(st));
        }
        let accels = calculate_accels(
            &pts,
            self.gravity_constant,
            self.minimum_ratio_for_integration,
            GRAVITY_CUTOFF,
        );
        let mut velocities: Vec<Vec2> = Vec::new();
        let n: usize = self.us.len();
        for i in 0..n
            invariant
                self.ok(),
                n == self.us@.len(),
                n == self.vs@.len(),
                velocities@.len() == i,
                forall|j: int|
                    0 <= j < i ==> (#[trigger] velocities@[j]) == (Vec2 {
                        x: self.us@[j],
                        y: self.vs@[j],
                    }),
        {
            velocities.push(Vec2::new(self.us[i], self.vs[i]));
        }
        let d = UniverseDiff { velocities, accels };
        proof {
            let dm = Self::diff_model(&d);
            let want = Self::derivative_of(m);
            assert(dm.vels =~= want.vels);
            assert forall|i: int| 0 <= i < m.ms.len() implies (#[trigger] dm.accs[i])
                == want.accs[i] by {
                assert(pts@[i].position.x == m.xs[i]);
                assert(pts@[i].position.y == m.ys[i]);
                assert(dm.accs[i].x == want.accs[i].x);
                assert(dm.accs[i].y == want.accs[i].y);
            }
            assert(dm.accs =~= want.accs);
            assert(dm =~= want);
        }
        d
    }

    fn progress(&mut self, duration: i64, diff: &UniverseDiff) {
        let ghost m0 = old(self).model();
        let ghost dm = Self::diff_model(diff);
        let ghost want = Self::progressed(m0, duration, dm);
        let n: usize = self.xs.len();
        for i in 0..n
            invariant
                n == self.xs@.len(),
                self.ms@ == m0.ms,
                self.ys@ == m0.ys,
                self.us@ == m0.us,
                self.vs@ == m0.vs,
                self.gravity_constant == m0.gravity_constant,
                self.minimum_ratio_for_integration == m0.minimum_ratio_for_integration,
                dm == Self::diff_model(diff),
                want == Self::progressed(m0, duration, dm),
                want.xs.len() == n,
                forall|j: int| 0 <= j < i ==> self.xs@[j] == want.xs[j],
                forall|j: int| i <= j < n ==> self.xs@[j] == m0.xs[j],
        {
            if i < diff.velocities.len() {
                proof {
                    lemma_axis_product_fits(dm.vels[i as int].x as int, duration as int);
                }
                let step: i128 = tdiv_i128(
                    (diff.velocities[i].x as i128) * (duration as i128),
                    SCALE as i128,
                );
                let nv: i64 = sat_limit((self.xs[i] as i128) + step);
                self.xs.set(i, nv);
            }
        }
        let n2: usize = self.ys.len();
        for i in 0..n2
            invariant
                n2 == self.ys@.len(),
                self.ms@ == m0.ms,
                self.xs@ == want.xs,
                self.us@ == m0.us,
                self.vs@ == m0.vs,
                self.gravity_constant == m0.gravity_constant,
                self.minimum_ratio_for_integration == m0.minimum_ratio_for_integration,
                dm == Self::diff_model(diff),
                want == Self::progressed(m0, duration, dm),
                want.ys.len() == n2,
                forall|j: int| 0 <= j < i ==> self.ys@[j] == want.ys[j],
                forall|j: int| i <= j < n2 ==> self.ys@[j] == m0.ys[j],
        {
            if i < diff.velocities.len() {
                proof {
                    lemma_axis_product_fits(dm.vels[i as int].y as int, duration as int);
                }
                let step: i128 = tdiv_i128(
                    (diff.velocities[i].y as i128) * (duration as i128),
                    SCALE as i128,
                );
                let nv: i64 = sat_limit((self.ys[i] as i128) + step);
                self.ys.set(i, nv);
            }
        }
        let n3: usize = self.us.len();
        for i in 0..n3
            invariant
                n3 == self.us@.len(),
                self.ms@ == m0.ms,
                self.xs@ == want.xs,
                self.ys@ == want.ys,
                self.vs@ == m0.vs,
                self.gravity_constant == m0.gravity_constant,
                self.minimum_ratio_for_integration == m0.minimum_ratio_for_integration,
                dm == Self::diff_model(diff),
                want == Self::progressed(m0, duration, dm),
                want.us.len() == n3,
                forall|j: int| 0 <= j < i ==> self.us@[j] == want.us[j],
                forall|j: int| i <= j < n3 ==> self.us@[j] == m0.us[j],
        {
            if i < diff.accels.len() {
                proof {
                    lemma_axis_product_fits(dm.accs[i as int].x as int, duration as int);
                }
                let step: i128 = tdiv_i128(
                    (diff.accels[i].x as i128) * (duration as i128),
                    SCALE as i128,
                );
                let nv: i64 = sat_limit((self.us[i] as i128) + step);
                self.us.set(i, nv);
            }
        }
        let n4: usize = self.vs.len();
        for i in 0..n4
            invariant
                n4 == self.vs@.len(),
                self.ms@ == m0.ms,
                self.xs@ == want.xs,
                self.ys@ == want.ys,
                self.us@ == want.us,
                self.gravity_constant == m0.gravity_constant,
                self.minimum_ratio_for_integration == m0.minimum_ratio_for_integration,
                dm == Self::diff_model(diff),
                want == Self::progressed(m0, duration, dm),
                want.vs.len() == n4,
                forall|j: int| 0 <= j < i ==> self.vs@[j] == want.vs[j],
                forall|j: int| i <= j < n4 ==> self.vs@[j] == m0.vs[j],
        {
            if i < diff.accels.len() {
                proof {
                    lemma_axis_product_fits(dm.accs[i as int].y as int, duration as int);
                }
                let step: i128 = tdiv_i128(
                    (diff.accels[i].y as i128) * (duration as i128),
                    SCALE as i128,
                );
                let nv: i64 = sat_limit((self.vs[i] as i128) + step);
                self.vs.set(i, nv);
            }
        }
        proof {
            assert(self.xs@ =~= want.xs);
            assert(self.ys@ =~= want.ys);
            assert(self.us@ =~= want.us);
            assert(self.vs@ =~= want.vs);
            assert(self.model() =~= want);
            lemma_progress_keeps_ok(m0, self.model());
        }
    }
}

/// `|v * duration|` fits in an `i128` for any two `i64` factors.
proof fn lemma_axis_product_fits(v: int, duration: int)
    requires
        -0x8000_0000_0000_0000 <= v <= 0x7fff_ffff_ffff_ffff,
        -0x8000_0000_0000_0000 <= duration <= 0x7fff_ffff_ffff_ffff,
    ensures
        -0x4000_0000_0000_0000_0000_0000_0000_0000 <= v * duration
            <= 0x4000_0000_0000_0000_0000_0000_0000_0000,
{
    assert(-0x4000_0000_0000_0000_0000_0000_0000_0000 <= v * duration
        <= 0x4000_0000_0000_0000_0000_0000_0000_0000) by (nonlinear_arith)
        requires
            -0x8000_0000_0000_0000 <= v <= 0x7fff_ffff_ffff_ffff,
            -0x8000_0000_0000_0000 <= duration <= 0x7fff_ffff_ffff_ffff;
}

/// A model that keeps the masses and configuration of a well-formed
/// model and whose other components stay in the working range is itself
/// well-formed.
proof fn lemma_progress_keeps_ok(m0: UniverseModel, m1: UniverseModel)
    requires
        universe_ok(m0),
        m1.ms == m0.ms,
        m1.gravity_constant == m0.gravity_constant,
        m1.minimum_ratio_for_integration == m0.minimum_ratio_for_integration,
        m1.xs.len() == m0.xs.len(),
        m1.ys.len() == m0.ys.len(),
        m1.us.len() == m0.us.len(),
        m1.vs.len() == m0.vs.len(),
        forall|i: int| 0 <= i < m1.xs.len() ==> abs((#[trigger] m1.xs[i]) as int) <= LIMIT,
        forall|i: int| 0 <= i < m1.ys.len() ==> abs((#[trigger] m1.ys[i]) as int) <= LIMIT,
        forall|i: int| 0 <= i < m1.us.len() ==> abs((#[trigger] m1.us[i]) as int) <= LIMIT,
        forall|i: int| 0 <= i < m1.vs.len() ==> abs((#[trigger] m1.vs[i]) as int) <= LIMIT,
    ensures
        universe_ok(m1),
        total_mass_of(m1) == total_mass_of(m0),
{
    let st0 = statics_of(model_points(m0));
    let st1 = statics_of(model_points(m1));
    assert forall|i: int| 0 <= i < st1.len() implies (#[trigger] st1[i]).mass == st0[i].mass by {
        assert(st1[i].mass == m1.ms[i]);
        assert(st0[i].mass == m0.ms[i]);
    }
    lemma_mass_sum_same_masses(st1, st0);
}

impl StateArith for Universe {
    /// Component-wise saturated sum; the masses and configuration of the
    /// left operand are kept, and entries beyond the right operand's
    /// length are left unchanged.
    open spec fn summed(m1: UniverseModel, m2: UniverseModel) -> UniverseModel {
        UniverseModel {
            gravity_constant: m1.gravity_constant,
            minimum_ratio_for_integration: m1.minimum_ratio_for_integration,
            ms: m1.ms,
            xs: Seq::new(
                m1.xs.len(),
                |i: int|
                    if i < m2.xs.len() {
                        clamp_lim(m1.xs[i] + m2.xs[i], LIMIT as int) as i64
                    } else {
                        m1.xs[i]
                    },
            ),
            ys: Seq::new(
                m1.ys.len(),
                |i: int|
                    if i < m2.ys.len() {
                        clamp_lim(m1.ys[i] + m2.ys[i], LIMIT as int) as i64
                    } else {
                        m1.ys[i]
                    },
            ),
            us: Seq::new(
                m1.us.len(),
                |i: int|
                    if i < m2.us.len() {
                        clamp_lim(m1.us[i] + m2.us[i], LIMIT as int) as i64
                    } else {
                        m1.us[i]
                    },
            ),
            vs: Seq::new(
                m1.vs.len(),
                |i: int|
                    if i < m2.vs.len() {
                        clamp_lim(m1.vs[i] + m2.vs[i], LIMIT as int) as i64
                    } else {
                        m1.vs[i]
                    },
            ),
        }
    }

    /// A difference times a duration, as a bare state delta: empty
    /// masses and zero configuration.
    open spec fn scaled(dm: UniverseDiffModel, duration: i64) -> UniverseModel {
        UniverseModel {
            gravity_constant: 0,
            minimum_ratio_for_integration: 0,
            ms: Seq::empty(),
            xs: Seq::new(
                dm.vels.len(),
                |i: int| clamp_lim(tdiv(dm.vels[i].x * duration, SCALE as int), LIMIT as int) as i64,
            ),
            ys: Seq::new(
                dm.vels.len(),
                |i: int| clamp_lim(tdiv(dm.vels[i].y * duration, SCALE as int), LIMIT as int) as i64,
            ),
            us: Seq::new(
                dm.accs.len(),
                |i: int| clamp_lim(tdiv(dm.accs[i].x * duration, SCALE as int), LIMIT as int) as i64,
            ),
            vs: Seq::new(
                dm.accs.len(),
                |i: int| clamp_lim(tdiv(dm.accs[i].y * duration, SCALE as int), LIMIT as int) as i64,
            ),
        }
    }

    /// A fraction of a duration, rounded toward zero.
    open spec fn axis_frac_spec(duration: i64, denom: i64) -> i64 {
        tdiv(duration as int, denom as int) as i64
    }

    fn clone_state(&self) -> (s: Universe) {
        let s = Universe {
            gravity_constant: self.gravity_constant,
            ms: copy_i64_vec(&self.ms),
            xs: copy_i64_vec(&self.xs),
            ys: copy_i64_vec(&self.ys),
            us: copy_i64_vec(&self.us),
            vs: copy_i64_vec(&self.vs),
            minimum_ratio_for_integration: self.minimum_ratio_for_integration,
        };
        proof {
            assert(s.model() =~= self.model());
        }
        s
    }

    fn add_state(&mut self, rhs: Universe) {
        let ghost m0 = old(self).model();
        let ghost m2 = rhs.model();
        let ghost want = Self::summed(m0, m2);
        let n: usize = self.xs.len();
        for i in 0..n
            invariant
                n == self.xs@.len(),
                self.ms@ == m0.ms,
                self.ys@ == m0.ys,
                self.us@ == m0.us,
                self.vs@ == m0.vs,
                self.gravity_constant == m0.gravity_constant,
                self.minimum_ratio_for_integration == m0.minimum_ratio_for_integration,
                m2 == rhs.model(),
                want == Self::summed(m0, m2),
                want.xs.len() == n,
                forall|j: int| 0 <= j < i ==> self.xs@[j] == want.xs[j],
                forall|j: int| i <= j < n ==> self.xs@[j] == m0.xs[j],
        {
            if i < rhs.xs.len() {
                let nv: i64 = sat_limit((self.xs[i] as i128) + (rhs.xs[i] as i128));
                self.xs.set(i, nv);
            }
        }
        let n2: usize = self.ys.len();
        for i in 0..n2
            invariant
                n2 == self.ys@.len(),
                self.ms@ == m0.ms,
                self.xs@ == want.xs,
                self.us@ == m0.us,
                self.vs@ == m0.vs,
                self.gravity_constant == m0.gravity_constant,
                self.minimum_ratio_for_integration == m0.minimum_ratio_for_integration,
                m2 == rhs.model(),
                want == Self::summed(m0, m2),
                want.ys.len() == n2,
                forall|j: int| 0 <= j < i ==> self.ys@[j] == want.ys[j],
                forall|j: int| i <= j < n2 ==> self.ys@[j] == m0.ys[j],
        {
            if i < rhs.ys.len() {
                let nv: i64 = sat_limit((self.ys[i] as i128) + (rhs.ys[i] as i128));
                self.ys.set(i, nv);
            }
        }
        let n3: usize = self.us.len();
        for i in 0..n3
            invariant
                n3 == self.us@.len(),
                self.ms@ == m0.ms,
                self.xs@ == want.xs,
                self.ys@ == want.ys,
                self.vs@ == m0.vs,
                self.gravity_constant == m0.gravity_constant,
                self.minimum_ratio_for_integration == m0.minimum_ratio_for_integration,
                m2 == rhs.model(),
                want == Self::summed(m0, m2),
                want.us.len() == n3,
                forall|j: int| 0 <= j < i ==> self.us@[j] == want.us[j],
                forall|j: int| i <= j < n3 ==> self.us@[j] == m0.us[j],
        {
            if i < rhs.us.len() {
                let nv: i64 = sat_limit((self.us[i] as i128) + (rhs.us[i] as i128));
                self.us.set(i, nv);
            }
        }
        let n4: usize = self.vs.len();
        for i in 0..n4
            invariant
                n4 == self.vs@.len(),
                self.ms@ == m0.ms,
                self.xs@ == want.xs,
                self.ys@ == want.ys,
                self.us@ == want.us,
                self.gravity_constant == m0.gravity_constant,
                self.minimum_ratio_for_integration == m0.minimum_ratio_for_integration,
                m2 == rhs.model(),
                want == Self::summed(m0, m2),
                want.vs.len() == n4,
                forall|j: int| 0 <= j < i ==> self.vs@[j] == want.vs[j],
                forall|j: int| i <= j < n4 ==> self.vs@[j] == m0.vs[j],
        {
            if i < rhs.vs.len() {
                let nv: i64 = sat_limit((self.vs[i] as i128) + (rhs.vs[i] as i128));
                self.vs.set(i, nv);
            }
        }
        proof {
            assert(self.xs@ =~= want.xs);
            assert(self.ys@ =~= want.ys);
            assert(self.us@ =~= want.us);
            assert(self.vs@ =~= want.vs);
            assert(self.model() =~= want);
            lemma_progress_keeps_ok(m0, self.model());
        }
    }

    fn diff_times(diff: &UniverseDiff, duration: i64) -> (s: Universe) {
        let ghost dm = Self::diff_model(diff);
        let ghost want = Self::scaled(dm, duration);
        let mut xs: Vec<i64> = Vec::new();
        let mut ys: Vec<i64> = Vec::new();
        let nv: usize = diff.velocities.len();
        for i in 0..nv
            invariant
                nv == diff.velocities@.len(),
                dm == Self::diff_model(diff),
                want == Self::scaled(dm, duration),
                xs@.len() == i,
                ys@.len() == i,
                forall|j: int| 0 <= j < i ==> xs@[j] == want.xs[j],
                forall|j: int| 0 <= j < i ==> ys@[j] == want.ys[j],
        {
            proof {
                lemma_axis_product_fits(dm.vels[i as int].x as int, duration as int);
                lemma_axis_product_fits(dm.vels[i as int].y as int, duration as int);
            }
            xs.push(
                sat_limit(
                    tdiv_i128((diff.velocities[i].x as i128) * (duration as i128), SCALE as i128),
                ),
            );
            ys.push(
                sat_limit(
                    tdiv_i128((diff.velocities[i].y as i128) * (duration as i128), SCALE as i128),
                ),
            );
        }
        let mut us: Vec<i64> = Vec::new();
        let mut vs: Vec<i64> = Vec::new();
        let na: usize = diff.accels.len();
        for i in 0..na
            invariant
                na == diff.accels@.len(),
                dm == Self::diff_model(diff),
                want == Self::scaled(dm, duration),
                us@.len() == i,
                vs@.len() == i,
                forall|j: int| 0 <= j < i ==> us@[j] == want.us[j],
                forall|j: int| 0 <= j < i ==> vs@[j] == want.vs[j],
        {
            proof {
                lemma_axis_product_fits(dm.accs[i as int].x as int, duration as int);
                lemma_axis_product_fits(dm.accs[i as int].y as int, duration as int);
            }
            us.push(
                sat_limit(
                    tdiv_i128((diff.accels[i].x as i128) * (duration as i128), SCALE as i128),
                ),
            );
            vs.push(
                sat_limit(
                    tdiv_i128((diff.accels[i].y as i128) * (duration as i128), SCALE as i128),
                ),
            );
        }
        let s = Universe {
            gravity_constant: 0,
            ms: Vec::new(),
            xs,
            ys,
            us,
            vs,
            minimum_ratio_for_integration: 0,
        };
        proof {
            assert(s.model().xs =~= want.xs);
            assert(s.model().ys =~= want.ys);
            assert(s.model().us =~= want.us);
            assert(s.model().vs =~= want.vs);
            assert(s.model().ms =~= want.ms);
            assert(s.model() =~= want);
        }
        s
    }

    fn axis_frac(duration: i64, denom: i64) -> (d: i64) {
        tdiv_i64(duration, denom)
    }
}

/// Total mass of a sequence of bodies.
pub open spec fn point_mass_sum(s: Seq<MassPoint>) -> int {
    mass_sum(statics_of(s))
}

/// Every body has positive mass and position and velocity in the
/// working range, and the total mass fits an `i64`.
pub open spec fn pts_ok(s: Seq<MassPoint>) -> bool {
    (forall|i: int|
        0 <= i < s.len() ==> (#[trigger] s[i]).mass > 0 && abs(s[i].position.x as int) <= LIMIT
            && abs(s[i].position.y as int) <= LIMIT && abs(s[i].velocity.x as int) <= LIMIT && abs(
            s[i].velocity.y as int,
        ) <= LIMIT) && point_mass_sum(s) <= i64::MAX
}

/// The radius the merge pass gives a body: the cube root of its volume
/// `mass / density`.  The volume carries three factors of [`SCALE`]
/// (one per spatial dimension), so the root comes out in ordinary
/// fixed-point length steps.
pub open spec fn radius_of(mass: i64, density: i64) -> int {
    cbrt_floor(tdiv(mass * SCALE2 * SCALE, density as int))
}

/// Two bodies conflict when their separation is below the sum of their
/// density-implied radii.
pub open spec fn conflicts_spec(mp1: MassPoint, mp2: MassPoint, density: i64) -> bool {
    let dx = mp1.position.x - mp2.position.x;
    let dy = mp1.position.y - mp2.position.y;
    sqrt_floor(dx * dx + dy * dy) < radius_of(mp1.mass, density) + radius_of(mp2.mass, density)
}

/// The mass-conserving, momentum-weighted fusion of two bodies.
pub open spec fn merge_spec(a: MassPoint, b: MassPoint) -> MassPoint {
    let mass = a.mass + b.mass;
    MassPoint {
        mass: mass as i64,
        position: Vec2 {
            x: tdiv(a.position.x * a.mass + b.position.x * b.mass, mass) as i64,
            y: tdiv(a.position.y * a.mass + b.position.y * b.mass, mass) as i64,
        },
        velocity: Vec2 {
            x: tdiv(a.velocity.x * a.mass + b.velocity.x * b.mass, mass) as i64,
            y: tdiv(a.velocity.y * a.mass + b.velocity.y * b.mass, mass) as i64,
        },
    }
}

/// Fold a list of conflicting bodies into an accumulator, left to right.
pub open spec fn fold_merge(acc: MassPoint, s: Seq<MassPoint>) -> MassPoint
    decreases s.len(),
{
    if s.len() == 0 {
        acc
    } else {
        merge_spec(fold_merge(acc, s.drop_last()), s.last())
    }
}

/// The predicate selecting the bodies that conflict with `temp`.
pub open spec fn confl_pred(temp: MassPoint, density: i64) -> spec_fn(MassPoint) -> bool {
    |p: MassPoint| conflicts_spec(p, temp, density)
}

/// The predicate selecting the bodies that do not conflict with `temp`.
pub open spec fn unconfl_pred(temp: MassPoint, density: i64) -> spec_fn(MassPoint) -> bool {
    |p: MassPoint| !conflicts_spec(p, temp, density)
}

/// Folding one more body merges it into the fold of the previous ones.
proof fn lemma_fold_push(acc: MassPoint, s: Seq<MassPoint>, x: MassPoint)
    ensures
        fold_merge(acc, s.push(x)) == merge_spec(fold_merge(acc, s), x),
{
    assert(s.push(x).drop_last() =~= s);
    assert(s.push(x).last() == x);
}

/// The merge pass: repeatedly take the last remaining body, fold every
/// body that conflicts with it into it, emit the fused body, and repeat
/// on the rest.
pub open spec fn merge_all(pts: Seq<MassPoint>, density: i64) -> Seq<MassPoint>
    decreases pts.len(),
    via merge_all_dec
{
    if pts.len() == 0 {
        Seq::empty()
    } else {
        let temp = pts.last();
        let rest = pts.drop_last();
        let confl = rest.filter(confl_pred(temp, density));
        let unconfl = rest.filter(unconfl_pred(temp, density));
        seq![fold_merge(temp, confl)] + merge_all(unconfl, density)
    }
}

#[via_fn]
proof fn merge_all_dec(pts: Seq<MassPoint>, density: i64) {
    if pts.len() > 0 {
        pts.drop_last().lemma_filter_len(unconfl_pred(pts.last(), density));
    }
}

/// Appending one body extends the total mass by its contribution.
proof fn lemma_pts_push(s: Seq<MassPoint>, x: MassPoint)
    ensures
        point_mass_sum(s.push(x)) == point_mass_sum(s) + x.mass,
{
    assert(statics_of(s.push(x)) =~= statics_of(s).push(
        StaticMassPoint { mass: x.mass, position: x.position },
    ));
    lemma_point_sums_push(statics_of(s), StaticMassPoint { mass: x.mass, position: x.position });
}

/// Nonnegative masses give a nonnegative total.
proof fn lemma_psum_nonneg(s: Seq<MassPoint>)
    requires
        forall|i: int| 0 <= i < s.len() ==> (#[trigger] s[i]).mass >= 0,
    ensures
        point_mass_sum(s) >= 0,
    decreases s.len(),
{
    if s.len() == 0 {
        assert(statics_of(s).len() == 0);
    } else {
        lemma_psum_nonneg(s.drop_last());
        lemma_pts_push(s.drop_last(), s.last());
        assert(s.drop_last().push(s.last()) =~= s);
    }
}

/// A filter and its complement split the total mass exactly.
proof fn lemma_psum_partition(s: Seq<MassPoint>, temp: MassPoint, density: i64)
    ensures
        point_mass_sum(s) == point_mass_sum(s.filter(confl_pred(temp, density)))
            + point_mass_sum(s.filter(unconfl_pred(temp, density))),
    decreases s.len(),
{
    reveal(Seq::filter);
    if s.len() == 0 {
        assert(statics_of(s).len() == 0);
        assert(statics_of(s.filter(confl_pred(temp, density))).len() == 0);
        assert(statics_of(s.filter(unconfl_pred(temp, density))).len() == 0);
    } else {
        let p = s.drop_last();
        let x = s.last();
        lemma_psum_partition(p, temp, density);
        assert(s =~= p.push(x));
        lemma_filter_push(p, confl_pred(temp, density), x);
        lemma_filter_push(p, unconfl_pred(temp, density), x);
        lemma_pts_push(p.filter(confl_pred(temp, density)), x);
        lemma_pts_push(p.filter(unconfl_pred(temp, density)), x);
        lemma_pts_push(p, x);
    }
}

/// Elements of a filtered body list inherit the bounds of the whole.
proof fn lemma_filter_pts_elems(s: Seq<MassPoint>, pred: spec_fn(MassPoint) -> bool)
    requires
        forall|i: int|
            0 <= i < s.len() ==> (#[trigger] s[i]).mass > 0 && abs(s[i].position.x as int) <= LIMIT
                && abs(s[i].position.y as int) <= LIMIT && abs(s[i].velocity.x as int) <= LIMIT
                && abs(s[i].velocity.y as int) <= LIMIT,
    ensures
        forall|i: int|
            0 <= i < s.filter(pred).len() ==> (#[trigger] s.filter(pred)[i]).mass > 0 && abs(
                s.filter(pred)[i].position.x as int,
            ) <= LIMIT && abs(s.filter(pred)[i].position.y as int) <= LIMIT && abs(
                s.filter(pred)[i].velocity.x as int,
            ) <= LIMIT && abs(s.filter(pred)[i].velocity.y as int) <= LIMIT,
{
    lemma_filter_subset(s, pred);
    assert forall|i: int|
        0 <= i < s.filter(pred).len() implies (#[trigger] s.filter(pred)[i]).mass > 0 && abs(
        s.filter(pred)[i].position.x as int) <= LIMIT && abs(s.filter(pred)[i].position.y as int)
        <= LIMIT && abs(s.filter(pred)[i].velocity.x as int) <= LIMIT && abs(
        s.filter(pred)[i].velocity.y as int) <= LIMIT by {
        assert(s.contains(s.filter(pred)[i]));
        let j = choose|j: int| 0 <= j < s.len() && s[j] == s.filter(pred)[i];
        assert(s[j].mass > 0);
    }
}

/// A fused pair conserves mass and stays in the working range.
proof fn lemma_merge_props(a: MassPoint, b: MassPoint)
    requires
        a.mass > 0,
        b.mass > 0,
        a.mass + b.mass <= i64::MAX,
        abs(a.position.x as int) <= LIMIT,
        abs(a.position.y as int) <= LIMIT,
        abs(a.velocity.x as int) <= LIMIT,
        abs(a.velocity.y as int) <= LIMIT,
        abs(b.position.x as int) <= LIMIT,
        abs(b.position.y as int) <= LIMIT,
        abs(b.velocity.x as int) <= LIMIT,
        abs(b.velocity.y as int) <= LIMIT,
    ensures
        merge_spec(a, b).mass == a.mass + b.mass,
        abs(merge_spec(a, b).position.x as int) <= LIMIT,
        abs(merge_spec(a, b).position.y as int) <= LIMIT,
        abs(merge_spec(a, b).velocity.x as int) <= LIMIT,
        abs(merge_spec(a, b).velocity.y as int) <= LIMIT,
{
    let mass = a.mass + b.mass;
    lemma_weighted_pair_bound(a.position.x as int, a.mass as int, b.position.x as int, b.mass as int);
    lemma_weighted_pair_bound(a.position.y as int, a.mass as int, b.position.y as int, b.mass as int);
    lemma_weighted_pair_bound(a.velocity.x as int, a.mass as int, b.velocity.x as int, b.mass as int);
    lemma_weighted_pair_bound(a.velocity.y as int, a.mass as int, b.velocity.y as int, b.mass as int);
}

/// The mass-weighted average of two values in the working range stays
/// in the working range.
proof fn lemma_weighted_pair_bound(p: int, pm: int, q: int, qm: int)
    requires
        pm > 0,
        qm > 0,
        abs(p) <= LIMIT,
        abs(q) <= LIMIT,
    ensures
        abs(tdiv(p * pm + q * qm, pm + qm)) <= LIMIT,
{
    assert(-(LIMIT * (pm + qm)) <= p * pm + q * qm <= LIMIT * (pm + qm)) by (nonlinear_arith)
        requires
            pm > 0,
            qm > 0,
            abs(p) <= LIMIT,
            abs(q) <= LIMIT,
            LIMIT > 0;
    lemma_tdiv_bound(p * pm + q * qm, pm + qm, LIMIT as int);
}

/// A working-range value times an `i64` mass fits comfortably in an
/// `i128`, even summed in pairs.
proof fn lemma_weighted_term_fits(p: int, m: int)
    requires
        abs(p) <= LIMIT,
        0 <= m <= i64::MAX,
    ensures
        -0x2_0000_0000_0000_0000_0000_0000_0000 <= p * m <= 0x2_0000_0000_0000_0000_0000_0000_0000,
{
    assert(-0x2_0000_0000_0000_0000_0000_0000_0000 <= p * m <= 0x2_0000_0000_0000_0000_0000_0000_0000)
        by (nonlinear_arith)
        requires
            abs(p) <= LIMIT,
            0 <= m <= i64::MAX,
            LIMIT == 0x4_0000_0000_0000;
}

/// Folding conflicting bodies into an accumulator sums the masses and
/// keeps position and velocity in the working range.
proof fn lemma_fold_props(acc: MassPoint, s: Seq<MassPoint>)
    requires
        acc.mass > 0,
        abs(acc.position.x as int) <= LIMIT,
        abs(acc.position.y as int) <= LIMIT,
        abs(acc.velocity.x as int) <= LIMIT,
        abs(acc.velocity.y as int) <= LIMIT,
        forall|i: int|
            0 <= i < s.len() ==> (#[trigger] s[i]).mass > 0 && abs(s[i].position.x as int) <= LIMIT
                && abs(s[i].position.y as int) <= LIMIT && abs(s[i].velocity.x as int) <= LIMIT
                && abs(s[i].velocity.y as int) <= LIMIT,
        acc.mass + point_mass_sum(s) <= i64::MAX,
    ensures
        fold_merge(acc, s).mass == acc.mass + point_mass_sum(s),
        abs(fold_merge(acc, s).position.x as int) <= LIMIT,
        abs(fold_merge(acc, s).position.y as int) <= LIMIT,
        abs(fold_merge(acc, s).velocity.x as int) <= LIMIT,
        abs(fold_merge(acc, s).velocity.y as int) <= LIMIT,
        fold_merge(acc, s).mass > 0,
    decreases s.len(),
{
    if s.len() == 0 {
        assert(statics_of(s).len() == 0);
    } else {
        let p = s.drop_last();
        let x = s.last();
        assert(p.push(x) =~= s);
        lemma_pts_push(p, x);
        lemma_psum_nonneg(p);
        lemma_fold_props(acc, p);
        lemma_merge_props(fold_merge(acc, p), x);
    }
}

/// The merge pass conserves the total mass and keeps every body
/// well-formed.
pub proof fn lemma_merge_all_props(pts: Seq<MassPoint>, density: i64)
    requires
        pts_ok(pts),
    ensures
        point_mass_sum(merge_all(pts, density)) == point_mass_sum(pts),
        pts_ok(merge_all(pts, density)),
    decreases pts.len(),
{
    reveal(Seq::filter);
    if pts.len() == 0 {
        assert(statics_of(merge_all(pts, density)).len() == 0);
        assert(statics_of(pts).len() == 0);
    } else {
        let temp = pts.last();
        let rest = pts.drop_last();
        let confl = rest.filter(confl_pred(temp, density));
        let unconfl = rest.filter(unconfl_pred(temp, density));
        assert forall|i: int|
            0 <= i < rest.len() implies (#[trigger] rest[i]).mass > 0 && abs(
            rest[i].position.x as int) <= LIMIT && abs(rest[i].position.y as int) <= LIMIT && abs(
            rest[i].velocity.x as int) <= LIMIT && abs(rest[i].velocity.y as int) <= LIMIT by {
            assert(rest[i] == pts[i]);
        }
        lemma_filter_pts_elems(rest, confl_pred(temp, density));
        lemma_filter_pts_elems(rest, unconfl_pred(temp, density));
        lemma_psum_partition(rest, temp, density);
        lemma_pts_push(rest, temp);
        assert(rest.push(temp) =~= pts);
        lemma_psum_nonneg(confl);
        lemma_psum_nonneg(unconfl);
        let merged = fold_merge(temp, confl);
        lemma_fold_props(temp, confl);
        assert forall|i: int|
            0 <= i < unconfl.len() implies (#[trigger] unconfl[i]).mass >= 0 by {}
        assert(pts_ok(unconfl)) by {
            lemma_psum_nonneg(unconfl);
        }
        lemma_merge_all_props(unconfl, density);
        let tail = merge_all(unconfl, density);
        assert(merge_all(pts, density) == seq![merged] + tail);
        assert((seq![merged] + tail).drop_first() =~= tail);
        lemma_psum_cons(merged, tail);
        assert forall|i: int|
            0 <= i < merge_all(pts, density).len() implies (#[trigger] merge_all(pts, density)[i]).mass
            > 0 && abs(merge_all(pts, density)[i].position.x as int) <= LIMIT && abs(
            merge_all(pts, density)[i].position.y as int) <= LIMIT && abs(
            merge_all(pts, density)[i].velocity.x as int) <= LIMIT && abs(
            merge_all(pts, density)[i].velocity.y as int) <= LIMIT by {
            if i == 0 {
                assert(merge_all(pts, density)[0] == merged);
            } else {
                assert(merge_all(pts, density)[i] == tail[i - 1]);
            }
        }
    }
}

/// Prepending one body extends the total mass by its contribution.
proof fn lemma_psum_cons(x: MassPoint, s: Seq<MassPoint>)
    ensures
        point_mass_sum(seq![x] + s) == x.mass + point_mass_sum(s),
    decreases s.len(),
{
    if s.len() == 0 {
        assert(seq![x] + s =~= seq![x]);
        assert((seq![x]).drop_last() =~= Seq::<MassPoint>::empty());
        assert(statics_of(Seq::<MassPoint>::empty()).len() == 0);
        lemma_pts_push(Seq::<MassPoint>::empty(), x);
        assert(Seq::<MassPoint>::empty().push(x) =~= seq![x]);
    } else {
        lemma_psum_cons(x, s.drop_last());
        assert((seq![x] + s).drop_last() =~= seq![x] + s.drop_last());
        assert((seq![x] + s).last() == s.last());
        lemma_pts_push(seq![x] + s.drop_last(), s.last());
        assert((seq![x] + s.drop_last()).push(s.last()) =~= seq![x] + s);
        lemma_pts_push(s.drop_last(), s.last());
        assert(s.drop_last().push(s.last()) =~= s);
    }
}

/// Whether two bodies are close enough to be fused by the merge pass.
pub fn conflicts(mp1: MassPoint, mp2: MassPoint, density: i64) -> (b: bool)
    requires
        density > 0,
        mp1.mass > 0,
        mp2.mass > 0,
        abs(mp1.position.x as int) <= LIMIT,
        abs(mp1.position.y as int) <= LIMIT,
        abs(mp2.position.x as int) <= LIMIT,
        abs(mp2.position.y as int) <= LIMIT,
    ensures
        b == conflicts_spec(mp1, mp2, density),
{
    proof {
        assert(0 <= (mp1.mass as int) * SCALE2 * SCALE
            <= 0x4000_0000_0000_0000_0000_0000_0000_0000 && 0 <= (mp2.mass as int) * SCALE2
            * SCALE <= 0x4000_0000_0000_0000_0000_0000_0000_0000) by (nonlinear_arith)
            requires
                0 < mp1.mass <= i64::MAX,
                0 < mp2.mass <= i64::MAX,
                SCALE2 == 1_000_000_000_000,
                SCALE == 1_000_000;
    }
    let v1: i128 = tdiv_i128(
        (mp1.mass as i128) * (SCALE2 as i128) * (SCALE as i128),
        density as i128,
    );
    let v2: i128 = tdiv_i128(
        (mp2.mass as i128) * (SCALE2 as i128) * (SCALE as i128),
        density as i128,
    );
    proof {
        assert(v1 >= 0 && v2 >= 0);
        assert(v1 as u128 as int == v1 as int);
        assert(v2 as u128 as int == v2 as int);
    }
    let r1: u128 = icbrt_u128(v1 as u128);
    let r2: u128 = icbrt_u128(v2 as u128);
    proof {
        assert(r1 < 0x2_0000_0000_0000 && r2 < 0x2_0000_0000_0000) by (nonlinear_arith)
            requires
                r1 * r1 * r1 <= v1 as int,
                r2 * r2 * r2 <= v2 as int,
                v1 as int <= 0x4000_0000_0000_0000_0000_0000_0000_0000,
                v2 as int <= 0x4000_0000_0000_0000_0000_0000_0000_0000;
    }
    let dx: i128 = (mp1.position.x as i128) - (mp2.position.x as i128);
    let dy: i128 = (mp1.position.y as i128) - (mp2.position.y as i128);
    proof {
        assert(0 <= dx * dx && 0 <= dy * dy && dx * dx + dy * dy
            <= 0x80_0000_0000_0000_0000_0000_0000 as int) by (nonlinear_arith)
            requires
                abs(dx as int) <= 2 * LIMIT,
                abs(dy as int) <= 2 * LIMIT,
                LIMIT == 0x4_0000_0000_0000;
    }
    let d2: i128 = dx * dx + dy * dy;
    proof {
        assert(d2 as u128 as int == d2 as int);
    }
    let dist: u128 = isqrt_u128(d2 as u128);
    proof {
        assert(dist < 0x1_0000_0000_0000_0000) by (nonlinear_arith)
            requires
                dist * dist <= d2 as int,
                d2 as int <= 0x80_0000_0000_0000_0000_0000_0000;
        assert(dist as int == sqrt_floor((mp1.position.x - mp2.position.x) * (mp1.position.x
            - mp2.position.x) + (mp1.position.y - mp2.position.y) * (mp1.position.y
            - mp2.position.y)));
        assert(r1 as int == radius_of(mp1.mass, density));
        assert(r2 as int == radius_of(mp2.mass, density));
    }
    dist < r1 + r2
}

/// Fuse two bodies into one, conserving total mass and momentum (the
/// position and velocity are the mass-weighted averages).
pub fn merge(a: MassPoint, b: MassPoint) -> (m: MassPoint)
    requires
        a.mass > 0,
        b.mass > 0,
        a.mass + b.mass <= i64::MAX,
        abs(a.position.x as int) <= LIMIT,
        abs(a.position.y as int) <= LIMIT,
        abs(a.velocity.x as int) <= LIMIT,
        abs(a.velocity.y as int) <= LIMIT,
        abs(b.position.x as int) <= LIMIT,
        abs(b.position.y as int) <= LIMIT,
        abs(b.velocity.x as int) <= LIMIT,
        abs(b.velocity.y as int) <= LIMIT,
    ensures
        m == merge_spec(a, b),
        m.mass == a.mass + b.mass,
        abs(m.position.x as int) <= LIMIT,
        abs(m.position.y as int) <= LIMIT,
        abs(m.velocity.x as int) <= LIMIT,
        abs(m.velocity.y as int) <= LIMIT,
{
    proof {
        lemma_merge_props(a, b);
        lemma_weighted_term_fits(a.position.x as int, a.mass as int);
        lemma_weighted_term_fits(b.position.x as int, b.mass as int);
        lemma_weighted_term_fits(a.position.y as int, a.mass as int);
        lemma_weighted_term_fits(b.position.y as int, b.mass as int);
        lemma_weighted_term_fits(a.velocity.x as int, a.mass as int);
        lemma_weighted_term_fits(b.velocity.x as int, b.mass as int);
        lemma_weighted_term_fits(a.velocity.y as int, a.mass as int);
        lemma_weighted_term_fits(b.velocity.y as int, b.mass as int);
        lemma_weighted_pair_bound(a.position.x as int, a.mass as int, b.position.x as int, b.mass as int);
        lemma_weighted_pair_bound(a.position.y as int, a.mass as int, b.position.y as int, b.mass as int);
        lemma_weighted_pair_bound(a.velocity.x as int, a.mass as int, b.velocity.x as int, b.mass as int);
        lemma_weighted_pair_bound(a.velocity.y as int, a.mass as int, b.velocity.y as int, b.mass as int);
    }
    let mass: i64 = a.mass + b.mass;
    let px: i64 = tdiv_i128(
        (a.position.x as i128) * (a.mass as i128) + (b.position.x as i128) * (b.mass as i128),
        mass as i128,
    ) as i64;
    let py: i64 = tdiv_i128(
        (a.position.y as i128) * (a.mass as i128) + (b.position.y as i128) * (b.mass as i128),
        mass as i128,
    ) as i64;
    let vx: i64 = tdiv_i128(
        (a.velocity.x as i128) * (a.mass as i128) + (b.velocity.x as i128) * (b.mass as i128),
        mass as i128,
    ) as i64;
    let vy: i64 = tdiv_i128(
        (a.velocity.y as i128) * (a.mass as i128) + (b.velocity.y as i128) * (b.mass as i128),
        mass as i128,
    ) as i64;
    MassPoint::new(mass, Vec2::new(px, py), Vec2::new(vx, vy))
}

/// The merge pass over a whole ensemble; exactly [`merge_all`].
pub fn merge_masspoints(mass_points: Vec<MassPoint>, density: i64) -> (out: Vec<MassPoint>)
    requires
        density > 0,
        pts_ok(mass_points@),
    ensures
        out@ == merge_all(mass_points@, density),
        pts_ok(out@),
        point_mass_sum(out@) == point_mass_sum(mass_points@),
    decreases mass_points@.len(),
{
    let ghost orig = mass_points@;
    let mut pts = mass_points;
    let mut result: Vec<MassPoint> = Vec::new();
    proof {
        lemma_merge_all_props(orig, density);
        assert(result@ + merge_all(pts@, density) =~= merge_all(orig, density));
        lemma_psum_cons_empty(result@);
    }
    while pts.len() > 0
        invariant
            density > 0,
            pts_ok(pts@),
            merge_all(orig, density) == result@ + merge_all(pts@, density),
            forall|i: int|
                0 <= i < result@.len() ==> (#[trigger] result@[i]).mass > 0 && abs(
                    result@[i].position.x as int,
                ) <= LIMIT && abs(result@[i].position.y as int) <= LIMIT && abs(
                    result@[i].velocity.x as int,
                ) <= LIMIT && abs(result@[i].velocity.y as int) <= LIMIT,
            point_mass_sum(result@) + point_mass_sum(pts@) == point_mass_sum(orig),
            point_mass_sum(orig) <= i64::MAX,
            point_mass_sum(result@) >= 0,
        decreases pts@.len(),
    {
        let ghost before = pts@;
        let temp = match pts.pop() {
            Some(t) => t,
            None => {
                proof {
                    assert(false);
                }
                MassPoint::new(1, Vec2::zero(), Vec2::zero())
            },
        };
        proof {
            assert(pts@ =~= before.drop_last());
            assert(temp == before.last());
            lemma_pts_push(pts@, temp);
            assert(pts@.push(temp) =~= before);
            lemma_psum_nonneg(pts@);
        }
        let ghost rest = pts@;
        let mut confl: Vec<MassPoint> = Vec::new();
        let mut unconfl: Vec<MassPoint> = Vec::new();
        let n: usize = pts.len();
        proof {
            reveal(Seq::filter);
            assert(rest.subrange(0, 0) =~= Seq::<MassPoint>::empty());
        }
        for i in 0..n
            invariant
                density > 0,
                n == rest.len(),
                rest == pts@,
                pts_ok(rest),
                temp.mass > 0,
                abs(temp.position.x as int) <= LIMIT,
                abs(temp.position.y as int) <= LIMIT,
                confl@ == rest.subrange(0, i as int).filter(confl_pred(temp, density)),
                unconfl@ == rest.subrange(0, i as int).filter(unconfl_pred(temp, density)),
        {
            let p = pts[i];
            proof {
                assert(rest.subrange(0, i + 1) =~= rest.subrange(0, i as int).push(
                    rest[i as int],
                ));
                lemma_filter_push(rest.subrange(0, i as int), confl_pred(temp, density), rest[i as int]);
                lemma_filter_push(
                    rest.subrange(0, i as int),
                    unconfl_pred(temp, density),
                    rest[i as int],
                );
                assert(rest[i as int].mass > 0);
            }
            if conflicts(p, temp, density) {
                confl.push(p);
            } else {
                unconfl.push(p);
            }
        }
        proof {
            assert(rest.subrange(0, n as int) =~= rest);
            assert(confl@ == rest.filter(confl_pred(temp, density)));
            assert(unconfl@ == rest.filter(unconfl_pred(temp, density)));
            lemma_filter_pts_elems(rest, confl_pred(temp, density));
            lemma_filter_pts_elems(rest, unconfl_pred(temp, density));
            lemma_psum_partition(rest, temp, density);
            lemma_psum_nonneg(confl@);
            lemma_psum_nonneg(unconfl@);
            rest.lemma_filter_len(unconfl_pred(temp, density));
        }
        let mut merged = temp;
        let nc: usize = confl.len();
        proof {
            assert(confl@.subrange(0, 0) =~= Seq::<MassPoint>::empty());
        }
        for i in 0..nc
            invariant
                density > 0,
                nc == confl@.len(),
                forall|j: int|
                    0 <= j < confl@.len() ==> (#[trigger] confl@[j]).mass > 0 && abs(
                        confl@[j].position.x as int,
                    ) <= LIMIT && abs(confl@[j].position.y as int) <= LIMIT && abs(
                        confl@[j].velocity.x as int,
                    ) <= LIMIT && abs(confl@[j].velocity.y as int) <= LIMIT,
                temp.mass > 0,
                abs(temp.position.x as int) <= LIMIT,
                abs(temp.position.y as int) <= LIMIT,
                abs(temp.velocity.x as int) <= LIMIT,
                abs(temp.velocity.y as int) <= LIMIT,
                temp.mass + point_mass_sum(confl@) <= i64::MAX,
                merged == fold_merge(temp, confl@.subrange(0, i as int)),
                merged.mass == temp.mass + point_mass_sum(confl@.subrange(0, i as int)),
                merged.mass > 0,
                abs(merged.position.x as int) <= LIMIT,
                abs(merged.position.y as int) <= LIMIT,
                abs(merged.velocity.x as int) <= LIMIT,
                abs(merged.velocity.y as int) <= LIMIT,
        {
            proof {
                assert(confl@.subrange(0, i + 1) =~= confl@.subrange(0, i as int).push(
                    confl@[i as int],
                ));
                lemma_fold_push(temp, confl@.subrange(0, i as int), confl@[i as int]);
                lemma_pts_push(confl@.subrange(0, i as int), confl@[i as int]);
                lemma_psum_prefix_le(confl@, i + 1);
            }
            merged = merge(merged, confl[i]);
        }
        proof {
            assert(confl@.subrange(0, nc as int) =~= confl@);
        }
        proof {
            assert(merged == fold_merge(temp, confl@));
            assert(merged.mass == temp.mass + point_mass_sum(confl@));
        }
        let ghost r_before = result@;
        result.push(merged);
        pts = unconfl;
        proof {
            assert(result@ == r_before.push(merged));
            lemma_pts_push(r_before, merged);
            assert(merge_all(before, density) == seq![merged] + merge_all(unconfl@, density));
            assert(r_before + (seq![merged] + merge_all(unconfl@, density)) =~= result@
                + merge_all(unconfl@, density));
            assert(point_mass_sum(result@) == point_mass_sum(r_before) + merged.mass);
            assert(point_mass_sum(before) == point_mass_sum(rest) + temp.mass);
            assert(point_mass_sum(rest) == point_mass_sum(confl@) + point_mass_sum(unconfl@));
            assert(point_mass_sum(result@) + point_mass_sum(pts@) == point_mass_sum(orig));
            assert(point_mass_sum(unconfl@) <= point_mass_sum(orig));
            assert(pts_ok(pts@));
        }
    }
    proof {
        assert(merge_all(pts@, density) =~= Seq::<MassPoint>::empty());
        assert(result@ + merge_all(pts@, density) =~= result@);
        assert(statics_of(pts@).len() == 0);
        lemma_merge_all_props(orig, density);
    }
    result
}

/// An empty body list has zero total mass.
proof fn lemma_psum_cons_empty(s: Seq<MassPoint>)
    requires
        s.len() == 0,
    ensures
        point_mass_sum(s) == 0,
{
    assert(statics_of(s).len() == 0);
}

/// A prefix of the total mass never exceeds the whole (for positive
/// masses).
proof fn lemma_psum_prefix_le(s: Seq<MassPoint>, i: int)
    requires
        0 <= i <= s.len(),
        forall|j: int| 0 <= j < s.len() ==> (#[trigger] s[j]).mass >= 0,
    ensures
        0 <= point_mass_sum(s.subrange(0, i)) <= point_mass_sum(s),
    decreases s.len() - i,
{
    assert forall|j: int|
        0 <= j < s.subrange(0, i).len() implies (#[trigger] s.subrange(0, i)[j]).mass >= 0 by {
        assert(s.subrange(0, i)[j] == s[j]);
    }
    lemma_psum_nonneg(s.subrange(0, i));
    if i == s.len() {
        assert(s.subrange(0, i) =~= s);
    } else {
        assert(s.subrange(0, i + 1) =~= s.subrange(0, i).push(s[i]));
        lemma_pts_push(s.subrange(0, i), s[i]);
        lemma_psum_prefix_le(s, i + 1);
    }
}

/// The model after the merge pass: the fused bodies, re-flattened into
/// parallel sequences; the configuration is untouched.
pub open spec fn merged_model(m: UniverseModel, density: i64) -> UniverseModel {
    let pts = merge_all(model_points(m), density);
    UniverseModel {
        gravity_constant: m.gravity_constant,
        minimum_ratio_for_integration: m.minimum_ratio_for_integration,
        ms: Seq::new(pts.len(), |i: int| pts[i].mass),
        xs: Seq::new(pts.len(), |i: int| pts[i].position.x),
        ys: Seq::new(pts.len(), |i: int| pts[i].position.y),
        us: Seq::new(pts.len(), |i: int| pts[i].velocity.x),
        vs: Seq::new(pts.len(), |i: int| pts[i].velocity.y),
    }
}

/// The model after one whole tick: a classical Runge-Kutta step of the
/// given duration, followed by the merge pass at the standard density.
pub open spec fn ticked(m: UniverseModel, duration: i64) -> UniverseModel {
    merged_model(rk4_progressed::<Universe>(m, duration), DENSITY)
}

impl Universe {
    /// Advance the whole ensemble by `duration_second`: one Runge-Kutta
    /// step, then merge bodies that ended up overlapping.
    pub fn tick(&mut self, duration_second: i64)
        requires
            old(self).ok(),
        ensures
            final(self).model() == ticked(old(self).model(), duration_second),
            final(self).ok(),
            total_mass_of(final(self).model()) == total_mass_of(old(self).model()),
    {
        let ghost m0 = self.model();
        RungeKutta4::<Universe>::progress(self, duration_second);
        let ghost m1 = self.model();
        let pts = self.masses();
        proof {
            assert forall|i: int|
                0 <= i < pts@.len() implies (#[trigger] pts@[i]).mass > 0 && abs(
                pts@[i].position.x as int) <= LIMIT && abs(pts@[i].position.y as int) <= LIMIT
                && abs(pts@[i].velocity.x as int) <= LIMIT && abs(pts@[i].velocity.y as int)
                <= LIMIT by {
                assert(pts@[i].mass == m1.ms[i]);
                assert(pts@[i].position.x == m1.xs[i]);
                assert(pts@[i].position.y == m1.ys[i]);
                assert(pts@[i].velocity.x == m1.us[i]);
                assert(pts@[i].velocity.y == m1.vs[i]);
            }
            assert(point_mass_sum(pts@) == total_mass_of(m1));
            assert(pts_ok(pts@));
        }
        let merged = merge_masspoints(pts, DENSITY);
        let n: usize = merged.len();
        let mut ms2: Vec<i64> = Vec::new();
        let mut xs2: Vec<i64> = Vec::new();
        let mut ys2: Vec<i64> = Vec::new();
        let mut us2: Vec<i64> = Vec::new();
        let mut vs2: Vec<i64> = Vec::new();
        for i in 0..n
            invariant
                n == merged@.len(),
                ms2@.len() == i,
                xs2@.len() == i,
                ys2@.len() == i,
                us2@.len() == i,
                vs2@.len() == i,
                forall|j: int| 0 <= j < i ==> ms2@[j] == (#[trigger] merged@[j]).mass,
                forall|j: int| 0 <= j < i ==> xs2@[j] == (#[trigger] merged@[j]).position.x,
                forall|j: int| 0 <= j < i ==> ys2@[j] == (#[trigger] merged@[j]).position.y,
                forall|j: int| 0 <= j < i ==> us2@[j] == (#[trigger] merged@[j]).velocity.x,
                forall|j: int| 0 <= j < i ==> vs2@[j] == (#[trigger] merged@[j]).velocity.y,
        {
            let p = merged[i];
            ms2.push(p.mass);
            xs2.push(p.position.x);
            ys2.push(p.position.y);
            us2.push(p.velocity.x);
            vs2.push(p.velocity.y);
        }
        self.ms = ms2;
        self.xs = xs2;
        self.ys = ys2;
        self.us = us2;
        self.vs = vs2;
        proof {
            let want = ticked(m0, duration_second);
            assert(m1 == rk4_progressed::<Universe>(m0, duration_second));
            assert(merged@ == merge_all(model_points(m1), DENSITY));
            assert(self.model().ms =~= want.ms);
            assert(self.model().xs =~= want.xs);
            assert(self.model().ys =~= want.ys);
            assert(self.model().us =~= want.us);
            assert(self.model().vs =~= want.vs);
            assert(self.model() =~= want);
            assert(model_points(self.model()) =~= merged@);
            assert(total_mass_of(self.model()) == point_mass_sum(merged@));
            assert(total_mass_of(self.model()) == total_mass_of(m1));
            assert(universe_ok(self.model()));
            lemma_rk4_total_mass(m0, duration_second);
        }
    }
}

/// A Runge-Kutta step never changes the masses, so the total mass after
/// the step equals the total before.
proof fn lemma_rk4_total_mass(m: UniverseModel, duration: i64)
    requires
        universe_ok(m),
    ensures
        rk4_progressed::<Universe>(m, duration).ms == m.ms,
        total_mass_of(rk4_progressed::<Universe>(m, duration)) == total_mass_of(m),
{
    let m1 = rk4_progressed::<Universe>(m, duration);
    assert(m1.ms == m.ms);
    let st0 = statics_of(model_points(m));
    let st1 = statics_of(model_points(m1));
    assert(st0.len() == st1.len());
    assert forall|i: int| 0 <= i < st1.len() implies (#[trigger] st1[i]).mass == st0[i].mass by {
        assert(st1[i].mass == m1.ms[i]);
        assert(st0[i].mass == m.ms[i]);
    }
    lemma_mass_sum_same_masses(st1, st0);
}

/// Restoring a state from its flat arrays and re-deriving reproduces
/// the derivative bit for bit: the derivative is a function of the five
/// component sequences and the configuration scalars alone.
pub proof fn lemma_restore_rederive(m1: UniverseModel, m2: UniverseModel)
    requires
        m1.ms == m2.ms,
        m1.xs == m2.xs,
        m1.ys == m2.ys,
        m1.us == m2.us,
        m1.vs == m2.vs,
        m1.gravity_constant == m2.gravity_constant,
        m1.minimum_ratio_for_integration == m2.minimum_ratio_for_integration,
    ensures
        Universe::derivative_of(m1) == Universe::derivative_of(m2),
{
    assert(m1 =~= m2);
}

/// Two bodies whose separation is below the sum of their
/// density-implied radii are merged into exactly one, with the total
/// mass conserved exactly and position and velocity the mass-weighted
/// (momentum-conserving) averages.
pub proof fn lemma_merge_two_conflicting(a: MassPoint, b: MassPoint, density: i64)
    requires
        conflicts_spec(a, b, density),
        a.mass > 0,
        b.mass > 0,
        a.mass + b.mass <= i64::MAX,
        abs(a.position.x as int) <= LIMIT,
        abs(a.position.y as int) <= LIMIT,
        abs(a.velocity.x as int) <= LIMIT,
        abs(a.velocity.y as int) <= LIMIT,
        abs(b.position.x as int) <= LIMIT,
        abs(b.position.y as int) <= LIMIT,
        abs(b.velocity.x as int) <= LIMIT,
        abs(b.velocity.y as int) <= LIMIT,
    ensures
        merge_all(seq![a, b], density).len() == 1,
        merge_all(seq![a, b], density)[0] == merge_spec(b, a),
        merge_all(seq![a, b], density)[0].mass == a.mass + b.mass,
        merge_all(seq![a, b], density)[0].velocity.x == tdiv(
            b.velocity.x * b.mass + a.velocity.x * a.mass,
            b.mass + a.mass,
        ) as i64,
        merge_all(seq![a, b], density)[0].velocity.y == tdiv(
            b.velocity.y * b.mass + a.velocity.y * a.mass,
            b.mass + a.mass,
        ) as i64,
{
    reveal(Seq::filter);
    let pts = seq![a, b];
    let temp = pts.last();
    let rest = pts.drop_last();
    assert(temp == b);
    assert(rest =~= seq![a]);
    assert(rest.drop_last() =~= Seq::<MassPoint>::empty());
    assert(rest.last() == a);
    assert(conflicts_spec(a, b, density) == conflicts_spec(b, a, density)) by {
        lemma_conflicts_symmetric(a, b, density);
    }
    let e = Seq::<MassPoint>::empty();
    assert(e.filter(confl_pred(temp, density)) =~= e);
    assert(e.filter(unconfl_pred(temp, density)) =~= e);
    assert(confl_pred(temp, density)(a) == conflicts_spec(a, b, density));
    assert(unconfl_pred(temp, density)(a) == !conflicts_spec(a, b, density));
    let confl = rest.filter(confl_pred(temp, density));
    let unconfl = rest.filter(unconfl_pred(temp, density));
    assert(rest.drop_last().filter(confl_pred(temp, density)) == e.filter(
        confl_pred(temp, density),
    ));
    assert(rest.drop_last().filter(unconfl_pred(temp, density)) == e.filter(
        unconfl_pred(temp, density),
    ));
    assert(confl =~= seq![a]);
    assert(unconfl =~= e);
    assert(merge_all(e, density) =~= e);
    assert(merge_all(unconfl, density) =~= e);
    assert(seq![a].drop_last() =~= e);
    assert(seq![a].last() == a);
    assert(fold_merge(temp, e) == temp);
    assert(fold_merge(temp, seq![a]) == merge_spec(b, a));
    assert(fold_merge(temp, confl) == merge_spec(b, a));
    assert(merge_all(pts, density) =~= seq![merge_spec(b, a)]);
    assert(merge_all(pts, density)[0] == merge_spec(b, a));
    lemma_merge_props(b, a);
    lemma_weighted_pair_bound(b.velocity.x as int, b.mass as int, a.velocity.x as int, a.mass as int);
    lemma_weighted_pair_bound(b.velocity.y as int, b.mass as int, a.velocity.y as int, a.mass as int);
}

/// Two bodies far enough apart are both left untouched by the merge
/// pass (it reverses their order while sweeping from the end).
pub proof fn lemma_merge_two_far(a: MassPoint, b: MassPoint, density: i64)
    requires
        !conflicts_spec(a, b, density),
    ensures
        merge_all(seq![a, b], density) == seq![b, a],
{
    reveal(Seq::filter);
    let pts = seq![a, b];
    let temp = pts.last();
    let rest = pts.drop_last();
    assert(temp == b);
    assert(rest =~= seq![a]);
    assert(rest.drop_last() =~= Seq::<MassPoint>::empty());
    assert(rest.last() == a);
    assert(conflicts_spec(a, b, density) == conflicts_spec(b, a, density)) by {
        lemma_conflicts_symmetric(a, b, density);
    }
    let e = Seq::<MassPoint>::empty();
    assert(e.filter(confl_pred(temp, density)) =~= e);
    assert(e.filter(unconfl_pred(temp, density)) =~= e);
    assert(confl_pred(temp, density)(a) == conflicts_spec(a, b, density));
    assert(unconfl_pred(temp, density)(a) == !conflicts_spec(a, b, density));
    let confl = rest.filter(confl_pred(temp, density));
    let unconfl = rest.filter(unconfl_pred(temp, density));
    assert(rest.drop_last().filter(confl_pred(temp, density)) == e.filter(
        confl_pred(temp, density),
    ));
    assert(rest.drop_last().filter(unconfl_pred(temp, density)) == e.filter(
        unconfl_pred(temp, density),
    ));
    assert(confl =~= e);
    assert(unconfl =~= seq![a]);
    assert(fold_merge(temp, e) == temp);
    assert(fold_merge(temp, confl) == b);
    assert(seq![a].drop_last() =~= e);
    assert(seq![a].last() == a);
    assert(e.filter(confl_pred(a, density)) =~= e);
    assert(e.filter(unconfl_pred(a, density)) =~= e);
    assert(seq![a].drop_last().filter(confl_pred(a, density)) == e.filter(confl_pred(a, density)));
    assert(seq![a].drop_last().filter(unconfl_pred(a, density)) == e.filter(
        unconfl_pred(a, density),
    ));
    assert(fold_merge(a, seq![a].drop_last().filter(confl_pred(a, density))) == a);
    assert(merge_all(e, density) =~= e);
    assert(merge_all(seq![a].drop_last().filter(unconfl_pred(a, density)), density) =~= e);
    assert(merge_all(seq![a], density) =~= seq![a]);
    assert(merge_all(unconfl, density) =~= seq![a]);
    assert(merge_all(pts, density) =~= seq![b, a]);
}

/// Whether two bodies conflict does not depend on their order.
proof fn lemma_conflicts_symmetric(a: MassPoint, b: MassPoint, density: i64)
    ensures
        conflicts_spec(a, b, density) == conflicts_spec(b, a, density),
{
    let dxa = a.position.x - b.position.x;
    let dya = a.position.y - b.position.y;
    let dxb = b.position.x - a.position.x;
    let dyb = b.position.y - a.position.y;
    assert(dxa * dxa + dya * dya == dxb * dxb + dyb * dyb) by (nonlinear_arith)
        requires
            dxa == -dxb,
            dya == -dyb;
}

} // verus!
