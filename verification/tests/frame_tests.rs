use gizmo_drag::fixed::SCALE;
use gizmo_drag::gizmo::{input_handling, normalize_gizmo_rot, DragSample, Gizmo, OrientationStore};
use gizmo_drag::quat::{from_axis_angle, identity, Quat, Vec3};

fn one_pixel_right() -> Quat {
    // One drag sample of (1, 0) at the identity: 0.01 rad about world Y.
    Quat { x: 0, y: 5_000, z: 0, w: 999_988 }
}

#[test]
fn store_starts_at_identity() {
    let s = OrientationStore::new();
    assert_eq!(s.rotation(Gizmo::Left), identity());
    assert_eq!(s.rotation(Gizmo::Right), identity());
    assert!(s.is_well_formed());
}

#[test]
fn set_rotation_touches_only_its_gizmo() {
    let mut s = OrientationStore::new();
    let q = Quat { x: 1_000, y: 2_000, z: 3_000, w: 999_000 };
    s.set_rotation(Gizmo::Left, q);
    assert_eq!(s.rotation(Gizmo::Left), q);
    assert_eq!(s.rotation(Gizmo::Right), identity());
}

#[test]
fn left_half_drives_left_gizmo_only() {
    let mut s = OrientationStore::new();
    let samples = vec![DragSample { dx: 1, dy: 0 }];
    input_handling(&mut s, true, Some(100), 800, &samples);
    assert_eq!(s.left, one_pixel_right());
    assert_eq!(s.right, identity());
}

#[test]
fn right_half_drives_right_gizmo_only() {
    let mut s = OrientationStore::new();
    let samples = vec![DragSample { dx: 1, dy: 0 }];
    input_handling(&mut s, true, Some(500), 800, &samples);
    assert_eq!(s.left, identity());
    assert_eq!(s.right, one_pixel_right());
}

#[test]
fn center_cursor_counts_as_right_half() {
    // The comparison is strict: a cursor exactly at width / 2 is not in the
    // left half, so the Right gizmo is driven.
    let mut s = OrientationStore::new();
    let samples = vec![DragSample { dx: 1, dy: 0 }];
    input_handling(&mut s, true, Some(400), 800, &samples);
    assert_eq!(s.left, identity());
    assert_eq!(s.right, one_pixel_right());

    let mut t = OrientationStore::new();
    let samples = vec![DragSample { dx: 1, dy: 0 }];
    input_handling(&mut t, true, Some(399), 800, &samples);
    assert_eq!(t.left, one_pixel_right());
    assert_eq!(t.right, identity());
}

#[test]
fn released_button_is_a_no_op() {
    let mut s = OrientationStore::new();
    let samples = vec![DragSample { dx: 25, dy: -40 }, DragSample { dx: 3, dy: 3 }];
    input_handling(&mut s, false, Some(100), 800, &samples);
    assert_eq!(s.left, identity());
    assert_eq!(s.right, identity());
}

#[test]
fn missing_cursor_is_a_no_op() {
    let mut s = OrientationStore::new();
    let samples = vec![DragSample { dx: 25, dy: -40 }];
    input_handling(&mut s, true, None, 800, &samples);
    assert_eq!(s.left, identity());
    assert_eq!(s.right, identity());
}

#[test]
fn empty_frame_is_a_no_op() {
    let mut s = OrientationStore::new();
    let samples: Vec<DragSample> = vec![];
    input_handling(&mut s, true, Some(100), 800, &samples);
    assert_eq!(s.left, identity());
    assert_eq!(s.right, identity());
}

#[test]
fn two_samples_compose_rather_than_sum() {
    // Two samples of (1, 0) compose two increments; one sample of (2, 0)
    // builds one double-sized increment. The results differ.
    let mut twice = OrientationStore::new();
    let samples = vec![DragSample { dx: 1, dy: 0 }, DragSample { dx: 1, dy: 0 }];
    input_handling(&mut twice, true, Some(100), 800, &samples);
    assert_eq!(twice.left, Quat { x: 0, y: 9_999, z: 0, w: 999_951 });

    let mut once = OrientationStore::new();
    let samples = vec![DragSample { dx: 2, dy: 0 }];
    input_handling(&mut once, true, Some(100), 800, &samples);
    assert_eq!(once.left, Quat { x: 0, y: 10_000, z: 0, w: 999_950 });

    assert_ne!(twice.left, once.left);
}

#[test]
fn drag_at_identity_matches_world_y_rotation() {
    // At the identity orientation the object's own axes are the world axes,
    // so a horizontal drag of 1 pixel equals the rotation of
    // 1 * ROT_SPEED = 0.01 rad about the world Y axis.
    let mut s = OrientationStore::new();
    let samples = vec![DragSample { dx: 1, dy: 0 }];
    input_handling(&mut s, true, Some(100), 800, &samples);
    let y_axis = Vec3 { x: 0, y: SCALE, z: 0 };
    assert_eq!(s.left, from_axis_angle(&y_axis, 10_000));
}

#[test]
fn routing_holds_at_nontrivial_orientations() {
    // Near a 90-degree rotation about Z; only the driven gizmo moves.
    let q0 = Quat { x: 0, y: 0, z: 707_107, w: 707_107 };
    let mut s = OrientationStore::new();
    s.set_rotation(Gizmo::Left, q0);
    s.set_rotation(Gizmo::Right, q0);
    let samples = vec![DragSample { dx: 5, dy: -2 }];
    input_handling(&mut s, true, Some(600), 800, &samples);
    assert_eq!(s.left, q0);
    assert_ne!(s.right, q0);
    assert!(s.is_well_formed());
}

#[test]
fn drag_axes_follow_the_orientation() {
    // Away from the identity the incremental rotation is built on the
    // object's own axes, so it differs from the same drag applied about the
    // world Y axis.
    let q0 = Quat { x: 0, y: 0, z: 707_107, w: 707_107 };
    let mut s = OrientationStore::new();
    s.set_rotation(Gizmo::Left, q0);
    let samples = vec![DragSample { dx: 1, dy: 0 }];
    input_handling(&mut s, true, Some(100), 800, &samples);
    let y_axis = Vec3 { x: 0, y: SCALE, z: 0 };
    let world_composed = gizmo_drag::quat::quat_mul(&q0, &from_axis_angle(&y_axis, 10_000));
    assert_ne!(s.left, world_composed);
}

#[test]
fn corrector_fires_on_second_boundary() {
    let mut s = OrientationStore::new();
    s.set_rotation(Gizmo::Left, Quat { x: 2_000_000, y: 0, z: 0, w: 0 });
    s.set_rotation(Gizmo::Right, Quat { x: 0, y: 0, z: 0, w: 500_000 });
    normalize_gizmo_rot(&mut s, 3_000_000, 16_000);
    assert_eq!(s.left, Quat { x: 1_000_000, y: 0, z: 0, w: 0 });
    assert_eq!(s.right, Quat { x: 0, y: 0, z: 0, w: 1_000_000 });
}

#[test]
fn corrector_skips_mid_second_frames() {
    let mut s = OrientationStore::new();
    let q = Quat { x: 2_000_000, y: 0, z: 0, w: 0 };
    s.set_rotation(Gizmo::Left, q);
    normalize_gizmo_rot(&mut s, 3_500_000, 16_000);
    assert_eq!(s.left, q);
    assert_eq!(s.right, identity());
    // The trigger comparison is strict: a frame starting exactly `dt` past
    // the boundary does not fire either.
    normalize_gizmo_rot(&mut s, 1_016_000, 16_000);
    assert_eq!(s.left, q);
}

#[test]
fn corrector_is_idempotent_once_on_the_grid() {
    // Correct once, landing both norms exactly on the fixed-point grid;
    // a second pass then changes nothing.
    let mut s = OrientationStore::new();
    s.set_rotation(Gizmo::Left, Quat { x: 300_000, y: 400_000, z: 0, w: 0 });
    s.set_rotation(Gizmo::Right, Quat { x: 2_000_000, y: 0, z: 0, w: 0 });
    normalize_gizmo_rot(&mut s, 1_000_000, 16_000);
    let once = s;
    assert_eq!(once.left, Quat { x: 600_000, y: 800_000, z: 0, w: 0 });
    normalize_gizmo_rot(&mut s, 2_000_000, 16_000);
    assert_eq!(s, once);
}
