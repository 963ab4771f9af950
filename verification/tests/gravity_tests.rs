//! Tests for the quad-tree construction and the force approximator.

use nbody_gravity::gravity_calc::{
    calculate_accels, construct_root, construct_tree, ChildRectLocation, Rect, StaticMassPoint,
    MAX_DEPTH,
};
use nbody_gravity::mass::MassPoint;
use nbody_gravity::tree::TreeNode;
use nbody_gravity::vector::Vec2;

const S: i64 = 1_000_000;

fn two_bodies() -> Vec<MassPoint> {
    vec![
        MassPoint::new(10 * S, Vec2::new(1 * S, 1 * S), Vec2::zero()),
        MassPoint::new(1 * S, Vec2::new(4 * S, 5 * S), Vec2::zero()),
    ]
}

fn statics(pts: &[MassPoint]) -> Vec<StaticMassPoint> {
    pts.iter().map(|m| StaticMassPoint::from_mass_point(*m)).collect()
}

#[test]
fn test_root_bounding_box() {
    let pts = statics(&two_bodies());
    let root = construct_root(&pts);
    let r = root.data();
    assert_eq!(0, r.mass);
    assert_eq!(2_500_000, r.geometric_center.x);
    assert_eq!(3_000_000, r.geometric_center.y);
    assert_eq!(3_000_000, r.length.x);
    assert_eq!(4_000_000, r.length.y);
    assert!(root.is_leaf());
}

#[test]
fn test_tree_aggregates_mass_and_centroid() {
    let pts = statics(&two_bodies());
    let mut root = construct_root(&pts);
    construct_tree(&mut root, pts, MAX_DEPTH);
    // total mass is the exact sum; the centroid is the mass-weighted
    // average with truncating division
    assert_eq!(11 * S, root.data().mass);
    assert_eq!(1_272_727, root.data().mass_center.x);
    assert_eq!(1_363_636, root.data().mass_center.y);
    assert_eq!(2, root.children().len());
}

#[test]
fn test_three_body_tree_aggregation() {
    // bodies of 1, 2 and 3 kg in three different quadrants: the root
    // mass is the exact sum and the centroid the weighted average
    let pts = statics(&vec![
        MassPoint::new(1 * S, Vec2::new(0, 0), Vec2::zero()),
        MassPoint::new(2 * S, Vec2::new(10 * S, 0), Vec2::zero()),
        MassPoint::new(3 * S, Vec2::new(0, 10 * S), Vec2::zero()),
    ]);
    let mut root = construct_root(&pts);
    construct_tree(&mut root, pts, MAX_DEPTH);
    assert_eq!(6 * S, root.data().mass);
    assert_eq!(3_333_333, root.data().mass_center.x);
    assert_eq!(5 * S, root.data().mass_center.y);
    assert_eq!(3, root.children().len());
}

#[test]
fn test_single_point_tree_is_leaf() {
    let one = vec![StaticMassPoint {
        mass: 7 * S,
        position: Vec2::new(3 * S, -2 * S),
    }];
    let mut root = construct_root(&one);
    construct_tree(&mut root, one, MAX_DEPTH);
    assert!(root.is_leaf());
    assert_eq!(7 * S, root.data().mass);
    assert_eq!(3 * S, root.data().mass_center.x);
    assert_eq!(-2 * S, root.data().mass_center.y);
}

#[test]
fn test_two_body_full_accuracy_matches_direct_formula() {
    // masses 10 kg at (1,1) and 1 kg at (4,5): separation (3,4) of
    // length 5; with G = 1 and zero softening the hand-computed answer
    // is a = G*1*(3,4)/125 = (0.024, 0.032) on the heavy body and
    // G*10*(-3,-4)/125 = (-0.24, -0.32) on the light one
    let accels = calculate_accels(&two_bodies(), S, S, 0);
    assert_eq!(2, accels.len());
    assert_eq!(24_000, accels[0].x);
    assert_eq!(32_000, accels[0].y);
    assert_eq!(-240_000, accels[1].x);
    assert_eq!(-320_000, accels[1].y);
}

#[test]
fn test_two_body_softened_formula() {
    // the same pair with a softening of one length unit:
    // a = G*M*(3,4)/((25 + 1) * 5), truncated in fixed point
    let accels = calculate_accels(&two_bodies(), S, S, S);
    assert_eq!(23_076, accels[0].x);
    assert_eq!(30_768, accels[0].y);
    assert_eq!(-230_769, accels[1].x);
    assert_eq!(-307_692, accels[1].y);
}

#[test]
fn test_zero_threshold_aggregates_at_root() {
    // with the accuracy ratio at zero every node is accepted at the
    // root, so the first body is pulled toward the global centroid
    let accels = calculate_accels(&two_bodies(), S, 0, S);
    assert_eq!(5_469_864, accels[0].x);
    assert_eq!(7_293_152, accels[0].y);
}

#[test]
fn test_coincident_points_terminate_and_cancel() {
    // two bodies at exactly the same position: the subdivision depth
    // limit folds them into one aggregate, and the self-interaction
    // guard yields zero acceleration
    let pts = vec![
        MassPoint::new(2 * S, Vec2::new(5 * S, 5 * S), Vec2::zero()),
        MassPoint::new(3 * S, Vec2::new(5 * S, 5 * S), Vec2::zero()),
    ];
    let accels = calculate_accels(&pts, S, S, S);
    assert_eq!(2, accels.len());
    assert_eq!(0, accels[0].x);
    assert_eq!(0, accels[0].y);
    assert_eq!(0, accels[1].x);
    assert_eq!(0, accels[1].y);
}

#[test]
fn test_empty_ensemble() {
    let accels = calculate_accels(&Vec::new(), S, S, S);
    assert_eq!(0, accels.len());
}

#[test]
fn test_locate_quadrants_and_ties() {
    let c = Vec2::new(0, 0);
    assert_eq!(
        ChildRectLocation::LeftTop,
        ChildRectLocation::locate(Vec2::new(-1, -1), c)
    );
    assert_eq!(
        ChildRectLocation::LeftBottom,
        ChildRectLocation::locate(Vec2::new(-1, 0), c)
    );
    assert_eq!(
        ChildRectLocation::RightTop,
        ChildRectLocation::locate(Vec2::new(0, -1), c)
    );
    // ties on both axes break toward the greater quadrant
    assert_eq!(
        ChildRectLocation::RightBottom,
        ChildRectLocation::locate(Vec2::new(0, 0), c)
    );
}

#[test]
fn test_child_center_quarter_offsets() {
    let parent = Rect::new(0, Vec2::zero(), Vec2::new(100, 200), Vec2::new(40, 80));
    let lt = ChildRectLocation::LeftTop.to_geometric_center(&parent);
    assert_eq!(90, lt.x);
    assert_eq!(180, lt.y);
    let rb = ChildRectLocation::RightBottom.to_geometric_center(&parent);
    assert_eq!(110, rb.x);
    assert_eq!(220, rb.y);
}

#[test]
fn test_tree_node_container() {
    let mut n: TreeNode<i32> = TreeNode::root(1);
    assert!(n.is_leaf());
    assert_eq!(1, *n.data());
    *n.data_mut() = 2;
    assert_eq!(2, *n.data());
    n.add_child(TreeNode::root(3));
    assert!(!n.is_leaf());
    assert_eq!(1, n.children().len());
    assert_eq!(3, *n.children()[0].data());
}
