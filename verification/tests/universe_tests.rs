//! Tests for the ensemble, the solvers driving it, and the merge pass.

use nbody_gravity::solver::{ForwardEuler, RungeKutta4, Solver};
use nbody_gravity::state::State;
use nbody_gravity::universe::Universe;

const S: i64 = 1_000_000;

#[test]
fn test_new_universe_is_empty() {
    let u = Universe::new();
    assert_eq!(0, u.mass_count());
}

#[test]
fn test_add_mass_and_readout() {
    let mut u = Universe::new();
    assert!(u.can_add_mass(2 * S, 3 * S, -4 * S, 5 * S, -6 * S));
    u.add_mass(2 * S, 3 * S, -4 * S, 5 * S, -6 * S);
    assert_eq!(1, u.mass_count());
    assert_eq!(2 * S, u.mass_at(0));
    assert_eq!(3 * S, u.position_x_at(0));
    assert_eq!(-4 * S, u.position_y_at(0));
    assert_eq!(5 * S, u.velocity_x_at(0));
    assert_eq!(-6 * S, u.velocity_y_at(0));
    assert_eq!(2 * S, u.total_mass());
}

#[test]
fn test_add_mass_rejects_nonpositive() {
    let u = Universe::new();
    assert!(!u.can_add_mass(0, 0, 0, 0, 0));
    assert!(!u.can_add_mass(-S, 0, 0, 0, 0));
}

#[test]
fn test_configuration_setters() {
    let mut u = Universe::new();
    u.set_minimum_ratio_for_integration(3 * S);
    assert!(u.can_set_gravity_constant(2 * S));
    u.set_gravity_constant(2 * S);
    assert_eq!(3 * S, u.minimum_ratio_for_integration);
    assert_eq!(2 * S, u.gravity_constant);
}

#[test]
fn test_forward_euler_free_motion() {
    // a single body feels no force; forward Euler advances its
    // position by velocity * duration exactly
    let mut u = Universe::new();
    u.add_mass(S, 0, 0, S, 0);
    ForwardEuler::<Universe>::progress(&mut u, S);
    assert_eq!(S, u.position_x_at(0));
    assert_eq!(0, u.position_y_at(0));
    assert_eq!(S, u.velocity_x_at(0));
}

#[test]
fn test_runge_kutta_free_motion_weights() {
    // the four weighted accumulations truncate at each sixth/third of
    // the duration: 166666 + 333333 + 333333 + 166666
    let mut u = Universe::new();
    u.add_mass(S, 0, 0, S, 0);
    RungeKutta4::<Universe>::progress(&mut u, S);
    assert_eq!(999_998, u.position_x_at(0));
    assert_eq!(S, u.velocity_x_at(0));
}

#[test]
fn test_tick_merges_overlapping_bodies() {
    // two 5 kg bodies 0.001 apart have density-implied radii of 1.0
    // each, so they merge into one with conserved mass and momentum
    let mut u = Universe::new();
    u.add_mass(5 * S, 0, 0, 100, 0);
    u.add_mass(5 * S, 1000, 0, -300, 0);
    u.tick(0);
    assert_eq!(1, u.mass_count());
    assert_eq!(10 * S, u.mass_at(0));
    assert_eq!(500, u.position_x_at(0));
    assert_eq!(0, u.position_y_at(0));
    assert_eq!(-100, u.velocity_x_at(0));
    assert_eq!(0, u.velocity_y_at(0));
    assert_eq!(10 * S, u.total_mass());
}

#[test]
fn test_tick_leaves_far_bodies_alone() {
    let mut u = Universe::new();
    u.add_mass(5 * S, 0, 0, 0, 0);
    u.add_mass(7 * S, 100 * S, 0, 0, 0);
    u.tick(0);
    // both bodies survive (the sweep reverses their order)
    assert_eq!(2, u.mass_count());
    assert_eq!(7 * S, u.mass_at(0));
    assert_eq!(5 * S, u.mass_at(1));
    assert_eq!(12 * S, u.total_mass());
}

#[test]
fn test_tick_merges_a_mutual_cluster() {
    // three bodies that all overlap pairwise collapse into a single
    // body carrying the whole mass
    let mut u = Universe::new();
    u.add_mass(5 * S, 0, 0, 0, 0);
    u.add_mass(5 * S, 1000, 0, 0, 0);
    u.add_mass(5 * S, 2000, 0, 0, 0);
    u.tick(0);
    assert_eq!(1, u.mass_count());
    assert_eq!(15 * S, u.mass_at(0));
    assert_eq!(15 * S, u.total_mass());
}

#[test]
fn test_merge_radius_scale() {
    // a 5 kg body at density 5 occupies one cubic unit: radius 1.0, so
    // two such bodies just under 2.0 units apart merge and two just
    // over stay apart
    let mut close = Universe::new();
    close.add_mass(5 * S, 0, 0, 0, 0);
    close.add_mass(5 * S, 2 * S - 2, 0, 0, 0);
    close.tick(0);
    assert_eq!(1, close.mass_count());

    let mut apart = Universe::new();
    apart.add_mass(5 * S, 0, 0, 0, 0);
    apart.add_mass(5 * S, 2 * S, 0, 0, 0);
    apart.tick(0);
    assert_eq!(2, apart.mass_count());
}

#[test]
fn test_tick_conserves_total_mass() {
    let mut u = Universe::new();
    u.add_mass(2 * S, 0, 0, 0, 0);
    u.add_mass(3 * S, 10 * S, 0, 0, 0);
    u.add_mass(4 * S, 0, 10 * S, 0, 0);
    let before = u.total_mass();
    u.tick(S / 10);
    assert_eq!(before, u.total_mass());
}

#[test]
fn test_round_trip_rederives_identical_accels() {
    // serialize the flat arrays, restore them into a fresh ensemble,
    // and re-derive: the accelerations must be bit-identical
    let mut u = Universe::new();
    u.add_mass(10 * S, S, S, 11, -13);
    u.add_mass(S, 4 * S, 5 * S, 17, 19);
    u.add_mass(3 * S, -2 * S, 3 * S, -23, 29);
    let d1 = u.calculate_difference();

    let mut flat: Vec<(i64, i64, i64, i64, i64)> = Vec::new();
    for i in 0..u.mass_count() {
        flat.push((
            u.mass_at(i),
            u.position_x_at(i),
            u.position_y_at(i),
            u.velocity_x_at(i),
            u.velocity_y_at(i),
        ));
    }
    let mut v = Universe::new();
    for &(m, x, y, vx, vy) in flat.iter() {
        assert!(v.can_add_mass(m, x, y, vx, vy));
        v.add_mass(m, x, y, vx, vy);
    }
    let d2 = v.calculate_difference();

    assert_eq!(d1.accels.len(), d2.accels.len());
    for i in 0..d1.accels.len() {
        assert_eq!(d1.accels[i].x, d2.accels[i].x);
        assert_eq!(d1.accels[i].y, d2.accels[i].y);
        assert_eq!(d1.velocities[i].x, d2.velocities[i].x);
        assert_eq!(d1.velocities[i].y, d2.velocities[i].y);
    }
}

#[test]
fn test_derivative_velocities_mirror_state() {
    let mut u = Universe::new();
    u.add_mass(S, 0, 0, 42, -7);
    let d = u.calculate_difference();
    assert_eq!(1, d.velocities.len());
    assert_eq!(42, d.velocities[0].x);
    assert_eq!(-7, d.velocities[0].y);
}

#[test]
fn test_two_bodies_attract_each_other() {
    let mut u = Universe::new();
    u.add_mass(10 * S, 1 * S, 1 * S, 0, 0);
    u.add_mass(1 * S, 4 * S, 5 * S, 0, 0);
    let d = u.calculate_difference();
    // the cutoff used by the ensemble is 2.5 length units, so the
    // magnitude differs from the minimal-softening case, but the
    // directions must be opposite and the lighter body must feel the
    // stronger pull
    assert!(d.accels[0].x > 0 && d.accels[0].y > 0);
    assert!(d.accels[1].x < 0 && d.accels[1].y < 0);
    assert!(d.accels[1].x.abs() > d.accels[0].x.abs());
}
