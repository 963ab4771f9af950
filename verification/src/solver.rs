//! Time integrators over any [`State`].
//!
//! Both solvers are generic: they know nothing about gravity, masses or
//! geometry, only the capability set of [`State`] (and, for Runge-Kutta,
//! [`StateArith`]).  Their contracts pin the model of the produced state
//! exactly, as a composition of the state's own spec-level operations.

use vstd::prelude::*;
use core::marker::PhantomData;
use crate::state::{State, StateArith};

verus! {

/// Something that can advance a state by a duration.
pub trait Solver {
    /// The state type this solver drives.
    type State: State;

    /// Advance `state` in place by `duration`.
    fn progress(state: &mut Self::State, duration: <Self::State as State>::Axis)
        requires
            old(state).ok(),
        ensures
            final(state).ok(),
    ;
}

/// First-order integrator: one derivative evaluation per step.
pub struct ForwardEuler<S> {
    marker: PhantomData<S>,
}

/// The model forward Euler produces: one Euler update by the state's own
/// derivative.
pub open spec fn euler_progressed<S: State>(m: S::Model, duration: S::Axis) -> S::Model {
    S::progressed(m, duration, S::derivative_of(m))
}

impl<S: State> Solver for ForwardEuler<S> {
    type State = S;

    fn progress(state: &mut S, duration: <S as State>::Axis)
        ensures
            final(state).model() == euler_progressed::<S>(old(state).model(), duration),
    {
        let diff = state.calculate_difference();
        state.progress(duration, &diff);
    }
}

/// Classical fixed-step 4th-order Runge-Kutta integrator.
pub struct RungeKutta4<S> {
    marker: PhantomData<S>,
}

/// The model one classical Runge-Kutta step produces: four derivative
/// evaluations at blended intermediate states, accumulated with weights
/// `1/6, 2/6, 2/6, 1/6` (so the applied fractions of the duration are
/// `duration / 6` and `duration / 3`).
pub open spec fn rk4_progressed<S: StateArith>(m: S::Model, duration: S::Axis) -> S::Model
    where
        S::Axis: Copy,
{
    let half = S::axis_frac_spec(duration, 2);
    let sixth = S::axis_frac_spec(duration, 6);
    let third = S::axis_frac_spec(duration, 3);
    let k1 = S::derivative_of(m);
    let k2 = S::derivative_of(S::progressed(m, half, k1));
    let k3 = S::derivative_of(S::progressed(m, half, k2));
    let k4 = S::derivative_of(S::progressed(m, duration, k3));
    S::summed(
        S::summed(S::summed(S::summed(m, S::scaled(k1, sixth)), S::scaled(k2, third)), S::scaled(k3, third)),
        S::scaled(k4, sixth),
    )
}

impl<S> Solver for RungeKutta4<S> where S: StateArith, <S as State>::Axis: Copy {
    type State = S;

    fn progress(state: &mut S, duration: <S as State>::Axis)
        ensures
            final(state).model() == rk4_progressed::<S>(old(state).model(), duration),
    {
        let half = S::axis_frac(duration, 2);
        let k1 = state.calculate_difference();
        let mut state2 = state.clone_state();
        state2.progress(half, &k1);
        let k2 = state2.calculate_difference();
        let mut state3 = state.clone_state();
        state3.progress(half, &k2);
        let k3 = state3.calculate_difference();
        let mut state4 = state.clone_state();
        state4.progress(duration, &k3);
        let k4 = state4.calculate_difference();

        state.add_state(S::diff_times(&k1, S::axis_frac(duration, 6)));
        state.add_state(S::diff_times(&k2, S::axis_frac(duration, 3)));
        state.add_state(S::diff_times(&k3, S::axis_frac(duration, 3)));
        state.add_state(S::diff_times(&k4, S::axis_frac(duration, 6)));
    }
}

} // verus!
