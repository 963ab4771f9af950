//! The capability a system must offer to be driven by a solver.
//!
//! A state knows its instantaneous rate of change and how to apply an
//! Euler-style update `self += duration * rate` in place.  Each
//! implementation supplies a mathematical model of its states and
//! derivatives ([`State::Model`], [`State::DiffModel`]) and spec-level
//! functions over those models; the executable operations are pinned to
//! them exactly, so solvers can promise, for any implementation, the
//! precise model of the state they produce.

use vstd::prelude::*;

verus! {

/// A system with a derivative and an additive progression rule.
pub trait State: Sized {
    /// The type of a duration along the integration axis.
    type Axis;

    /// The derivative: the rate of change of the whole state.
    type Difference;

    /// The mathematical model of a state.
    type Model;

    /// The mathematical model of a derivative.
    type DiffModel;

    /// The states on which the derivative is defined; stepping must keep
    /// a state inside this set.
    spec fn ok(&self) -> bool;

    /// The model of this state.
    spec fn model(&self) -> Self::Model;

    /// The model of a derivative value.
    spec fn diff_model(d: &Self::Difference) -> Self::DiffModel;

    /// The derivative of a state with model `m`.
    spec fn derivative_of(m: Self::Model) -> Self::DiffModel;

    /// The model after an Euler-style update of `m` by `duration * dm`.
    spec fn progressed(m: Self::Model, duration: Self::Axis, dm: Self::DiffModel) -> Self::Model;

    /// Compute the instantaneous rate of change without mutating.
    fn calculate_difference(&self) -> (d: Self::Difference)
        requires
            self.ok(),
        ensures
            Self::diff_model(&d) == Self::derivative_of(self.model()),
    ;

    /// Apply `duration * diff` to `self` in place.
    fn progress(&mut self, duration: Self::Axis, diff: &Self::Difference)
        requires
            old(self).ok(),
        ensures
            final(self).model() == Self::progressed(
                old(self).model(),
                duration,
                Self::diff_model(diff),
            ),
            final(self).ok(),
    ;
}

/// The arithmetic a 4th-order Runge-Kutta step additionally needs:
/// cloning, in-place summation of two states, scaling a difference by a
/// duration into a state delta, and taking a fraction of a duration.
pub trait StateArith: State {
    /// The model `add_state` produces from the models of `self` and
    /// `rhs`.
    spec fn summed(m1: Self::Model, m2: Self::Model) -> Self::Model;

    /// The model `diff_times` produces: `dm * duration` as a state.
    spec fn scaled(dm: Self::DiffModel, duration: Self::Axis) -> Self::Model;

    /// What `axis_frac` produces: `duration / denom`.
    spec fn axis_frac_spec(duration: Self::Axis, denom: i64) -> Self::Axis;

    /// An independent copy of the state: same model, same standing.
    fn clone_state(&self) -> (s: Self)
        ensures
            s.model() == self.model(),
            s.ok() <==> self.ok(),
    ;

    /// Accumulate `rhs` into `self`, component-wise.
    fn add_state(&mut self, rhs: Self)
        requires
            old(self).ok(),
        ensures
            final(self).model() == Self::summed(old(self).model(), rhs.model()),
            final(self).ok(),
    ;

    /// Scale a difference by a duration into a full state delta.
    fn diff_times(diff: &Self::Difference, duration: Self::Axis) -> (s: Self)
        ensures
            s.model() == Self::scaled(Self::diff_model(diff), duration),
    ;

    /// The fraction `duration / denom` of a duration.
    fn axis_frac(duration: Self::Axis, denom: i64) -> (d: Self::Axis)
        requires
            denom > 0,
        ensures
            d == Self::axis_frac_spec(duration, denom),
    ;
}

} // verus!
