use gizmo_drag::fixed::{isqrt, SCALE};
use gizmo_drag::quat::{
    cos_fx, from_axis_angle, identity, norm2, normalize, quat_mul, rotate_inverse, sin_fx, Quat,
    Vec3,
};

#[test]
fn isqrt_small_values() {
    assert_eq!(isqrt(0), 0);
    assert_eq!(isqrt(1), 1);
    assert_eq!(isqrt(3), 1);
    assert_eq!(isqrt(4), 2);
    assert_eq!(isqrt(999_999), 999);
    assert_eq!(isqrt(1_000_000), 1000);
}

#[test]
fn isqrt_norm_sized_values() {
    assert_eq!(isqrt(1_000_000_000_000), 1_000_000);
    assert_eq!(isqrt(2_000_000_000_000), 1_414_213);
    assert_eq!(isqrt(16_000_000_000_000), 4_000_000);
}

#[test]
fn sine_cosine_small_angles() {
    // 0.005 rad: the cubic term vanishes on the grid, the square term is 12.
    assert_eq!(sin_fx(5_000), 5_000);
    assert_eq!(cos_fx(5_000), 999_988);
    // 0.5 rad: 500000 - 125e9/6e6 = 479167, 1e6 - 25e10/2e6 = 875000.
    assert_eq!(sin_fx(500_000), 479_167);
    assert_eq!(cos_fx(500_000), 875_000);
    assert_eq!(sin_fx(0), 0);
    assert_eq!(cos_fx(0), SCALE);
}

#[test]
fn identity_is_unit_of_product() {
    let id = identity();
    let q = Quat { x: 5_000, y: -3_000, z: 700, w: 999_988 };
    assert_eq!(quat_mul(&id, &q), q);
    assert_eq!(quat_mul(&q, &id), q);
}

#[test]
fn rotate_by_identity_inverse_keeps_vector() {
    let id = identity();
    let v = Vec3 { x: SCALE, y: 0, z: 0 };
    assert_eq!(rotate_inverse(&id, &v), v);
    let w = Vec3 { x: 0, y: SCALE, z: 0 };
    assert_eq!(rotate_inverse(&id, &w), w);
}

#[test]
fn normalize_scales_down_exactly() {
    let q = Quat { x: 2_000_000, y: 0, z: 0, w: 0 };
    assert_eq!(normalize(&q), Quat { x: 1_000_000, y: 0, z: 0, w: 0 });
}

#[test]
fn normalize_three_four_five() {
    // (0.3, 0.4) has norm 0.5 exactly; normalization lands on (0.6, 0.8).
    let q = Quat { x: 300_000, y: 400_000, z: 0, w: 0 };
    let n = normalize(&q);
    assert_eq!(n, Quat { x: 600_000, y: 800_000, z: 0, w: 0 });
    assert_eq!(norm2(&n), 1_000_000_000_000);
    // A second application changes nothing: the norm landed on the grid.
    assert_eq!(normalize(&n), n);
}

#[test]
fn normalize_diagonal_within_tolerance() {
    let q = Quat { x: 1_000_000, y: 1_000_000, z: 0, w: 0 };
    let n = normalize(&q);
    assert_eq!(n, Quat { x: 707_107, y: 707_107, z: 0, w: 0 });
    let m = norm2(&n);
    assert_eq!(m, 1_000_000_618_898);
    assert!((m - 1_000_000_000_000).abs() <= 12_000_000);
}

#[test]
fn normalize_zero_is_left_alone() {
    let q = Quat { x: 0, y: 0, z: 0, w: 0 };
    assert_eq!(normalize(&q), q);
}

#[test]
fn from_axis_angle_half_degree_about_y() {
    // 0.01 rad about the world Y axis: half-angle 0.005.
    let y_axis = Vec3 { x: 0, y: SCALE, z: 0 };
    let q = from_axis_angle(&y_axis, 10_000);
    assert_eq!(q, Quat { x: 0, y: 5_000, z: 0, w: 999_988 });
}

#[test]
fn from_axis_angle_zero_is_identity() {
    let x_axis = Vec3 { x: SCALE, y: 0, z: 0 };
    assert_eq!(from_axis_angle(&x_axis, 0), identity());
}
