//! Scalar and vector behavior on concrete values.

use raytracer::fixed::{fp_div, fp_mul, fp_sqrt, SCALE};
use raytracer::material::schlick;
use raytracer::render::color_to_pixel;
use raytracer::utils::{clamp, degrees_to_radians, random_fp, random_fp_min_max};
use raytracer::vec3::Vec3;

#[test]
fn fixed_point_products_round_toward_zero() {
    assert_eq!(fp_mul(65536, 65536), 65536);
    assert_eq!(fp_mul(32768, 32768), 16384);
    assert_eq!(fp_mul(-32768, 32768), -16384);
    assert_eq!(fp_mul(3, 3), 0);
    assert_eq!(fp_div(65536, 131072), 32768);
    assert_eq!(fp_div(-65536, 131072), -32768);
    assert_eq!(fp_div(1, 3), 21845);
    assert_eq!(fp_sqrt(65536), 65536);
    assert_eq!(fp_sqrt(16384), 32768);
    assert_eq!(fp_sqrt(0), 0);
    assert_eq!(fp_sqrt(2 * 65536), 92681);
}

#[test]
fn clamp_selects_the_nearest_bound() {
    assert_eq!(clamp(5, 0, 10), 5);
    assert_eq!(clamp(-5, 0, 10), 0);
    assert_eq!(clamp(15, 0, 10), 10);
}

#[test]
fn degrees_convert_through_fixed_point_pi() {
    // 180 degrees is pi: 205887 in 16.16 fixed point.
    assert_eq!(degrees_to_radians(180 * 65536), 205887);
    assert_eq!(degrees_to_radians(90 * 65536), 102943);
    assert_eq!(degrees_to_radians(0), 0);
}

#[test]
fn dot_and_cross_products_are_exact_on_unit_axes() {
    let x = Vec3::new(65536, 0, 0);
    let y = Vec3::new(0, 65536, 0);
    let z = Vec3::new(0, 0, 65536);
    assert_eq!(Vec3::dot(&x, &x), 65536);
    assert_eq!(Vec3::dot(&x, &y), 0);
    let c = Vec3::cross(&x, &y);
    assert_eq!((c.x, c.y, c.z), (z.x, z.y, z.z));
}

#[test]
fn unit_vector_normalizes_axis_vectors_exactly() {
    let v = Vec3::new(0, 0, 4 * 65536);
    let u = Vec3::unit_vector(v);
    assert_eq!((u.x, u.y, u.z), (0, 0, 65536));
    assert_eq!(v.length(), 4 * 65536);
    assert_eq!(v.length_squared(), 16 * 65536);
}

#[test]
fn reflect_returns_the_exact_mirror_direction() {
    // An orthogonally incoming ray reflects straight back.
    let v = Vec3::new(0, 0, -65536);
    let n = Vec3::new(0, 0, 65536);
    let r = Vec3::reflect(&v, &n);
    assert_eq!((r.x, r.y, r.z), (0, 0, 65536));
    // An oblique ray keeps its tangential components.
    let v2 = Vec3::new(40000, -2000, -30000);
    let r2 = Vec3::reflect(&v2, &n);
    assert_eq!((r2.x, r2.y, r2.z), (40000, -2000, 30000));
}

#[test]
fn refract_at_matched_index_keeps_the_direction() {
    let u = Vec3::new(0, 0, -65536);
    let n = Vec3::new(0, 0, 65536);
    let r = Vec3::refract(&u, &n, 65536);
    assert_eq!((r.x, r.y, r.z), (0, 0, -65536));
}

#[test]
fn refract_bends_toward_the_surface_in_a_denser_medium() {
    // Entering glass (ratio 1/1.5), an oblique ray bends toward the
    // normal: the tangential component shrinks.
    let u = Vec3::unit_vector(Vec3::new(65536, 0, -65536));
    let n = Vec3::new(0, 0, 65536);
    let ratio = fp_div(65536, 98304);
    let r = Vec3::refract(&u, &n, ratio);
    assert!(r.x.abs() < u.x.abs());
    assert!(r.z < 0);
}

#[test]
fn schlick_matches_hand_computed_values() {
    // cos = 1, index 1.5: r0 = ((1 - 1.5)/(1 + 1.5))^2 = 0.04.
    assert_eq!(schlick(65536, 98304), 2621);
    // Grazing incidence (cos = 0) reflects almost fully.
    let grazing = schlick(0, 98304);
    assert!(grazing > 60000, "grazing reflectance was {grazing}");
}

#[test]
fn random_samples_stay_in_their_ranges() {
    let mut seen_distinct = false;
    let first = random_fp();
    for _ in 0..1000 {
        let u = random_fp();
        assert!((0..65536).contains(&u));
        if u != first {
            seen_distinct = true;
        }
        let v = random_fp_min_max(-65536, 65536);
        assert!((-65536..65536).contains(&v));
    }
    assert!(seen_distinct, "the random source returned one constant value");
}

#[test]
fn random_unit_sphere_samples_avoid_the_center() {
    for _ in 0..200 {
        let p = Vec3::random_in_unit_sphere();
        let lsq = p.length_squared();
        assert!((16384..65536).contains(&lsq), "squared length was {lsq}");
        let u = Vec3::random_unit_vector();
        assert!(u.x.abs() <= 131072 && u.y.abs() <= 131072 && u.z.abs() <= 131072);
    }
}

#[test]
fn hemisphere_samples_never_oppose_the_normal() {
    let n = Vec3::new(0, 0, 65536);
    for _ in 0..200 {
        let p = Vec3::random_in_hemisphere(&n);
        assert!(Vec3::dot(&p, &n) >= 0);
    }
}

#[test]
fn color_resolution_averages_gamma_corrects_and_quantizes() {
    let white = Vec3::new(65536, 65536, 65536);
    assert_eq!(color_to_pixel(white, 1), (255, 255, 255));
    let black = Vec3::new(0, 0, 0);
    assert_eq!(color_to_pixel(black, 1), (0, 0, 0));
    // A quarter-intensity channel resolves to sqrt(0.25) = 0.5 -> 128.
    let quarter = Vec3::new(16384, 16384, 16384);
    assert_eq!(color_to_pixel(quarter, 1), (128, 128, 128));
    // Four accumulated white samples average back to white.
    let four_white = Vec3::new(4 * 65536, 4 * 65536, 4 * 65536);
    assert_eq!(color_to_pixel(four_white, 4), (255, 255, 255));
}
