//! Intersection, scattering and the estimator on concrete scenes.

use raytracer::camera::Camera;
use raytracer::hittable::{HitRecord, Hittable};
use raytracer::hittable_list::HittableList;
use raytracer::material::{material_scatter, Material};
use raytracer::ray::Ray;
use raytracer::render::ray_color;
use raytracer::sphere::Sphere;
use raytracer::vec3::Vec3;

const S: i64 = 65536;
const T_FAR: i64 = 67108864;

fn gray() -> Material {
    Material::Lambertian { albedo: Vec3::new(32768, 32768, 32768) }
}

#[test]
fn axis_ray_hits_origin_sphere_with_exact_unit_normal() {
    // Sphere of radius 2 at the origin, ray from (0, 0, 16) down -z.
    let s = Sphere::new(Vec3::new(0, 0, 0), 2 * S, gray());
    let r = Ray::new(Vec3::new(0, 0, 16 * S), Vec3::new(0, 0, -S));
    let rec = s.hit(&r, 0, T_FAR).expect("the ray passes through the center");
    assert_eq!(rec.t, 14 * S);
    assert_eq!((rec.p.x, rec.p.y, rec.p.z), (0, 0, 2 * S));
    assert_eq!((rec.normal.x, rec.normal.y, rec.normal.z), (0, 0, S));
    // The normal has exact unit length and is parallel to center-to-hit.
    assert_eq!(Vec3::dot(&rec.normal, &rec.normal), S);
    let c = Vec3::cross(&rec.normal, &rec.p);
    assert_eq!((c.x, c.y, c.z), (0, 0, 0));
    assert!(rec.front_face);
}

#[test]
fn front_face_is_false_from_inside_and_for_negative_radius() {
    // From the center, the far root is taken and the face is a back face.
    let s = Sphere::new(Vec3::new(0, 0, 0), 2 * S, gray());
    let r = Ray::new(Vec3::new(0, 0, 0), Vec3::new(0, 0, -S));
    let rec = s.hit(&r, 0, T_FAR).expect("the origin is inside the sphere");
    assert_eq!(rec.t, 2 * S);
    assert_eq!((rec.p.x, rec.p.y, rec.p.z), (0, 0, -2 * S));
    assert!(!rec.front_face);
    assert_eq!((rec.normal.x, rec.normal.y, rec.normal.z), (0, 0, S));
    // A negative radius flips the outward normal: the same outside ray
    // now reports a back face (the hollow-sphere trick).
    let hollow = Sphere::new(Vec3::new(0, 0, 0), -2 * S, gray());
    let r2 = Ray::new(Vec3::new(0, 0, 16 * S), Vec3::new(0, 0, -S));
    let rec2 = hollow.hit(&r2, 0, T_FAR).expect("geometry is unchanged");
    assert_eq!(rec2.t, 14 * S);
    assert!(!rec2.front_face);
    assert_eq!((rec2.normal.x, rec2.normal.y, rec2.normal.z), (0, 0, S));
}

#[test]
fn tangent_and_out_of_interval_rays_miss() {
    let s = Sphere::new(Vec3::new(0, 0, 0), 2 * S, gray());
    // A ray passing exactly at distance 2 is tangent: zero discriminant
    // counts as a miss.
    let tangent = Ray::new(Vec3::new(2 * S, 0, 16 * S), Vec3::new(0, 0, -S));
    assert!(s.hit(&tangent, 0, T_FAR).is_none());
    // A hit beyond t_max is rejected.
    let r = Ray::new(Vec3::new(0, 0, 16 * S), Vec3::new(0, 0, -S));
    assert!(s.hit(&r, 0, 13 * S).is_none());
    // With t_min past the near root, the far root is the fallback:
    // the ray exits through the back of the sphere.
    let back = s.hit(&r, 15 * S, T_FAR).expect("the far root is in range");
    assert_eq!(back.t, 18 * S);
    assert!(!back.front_face);
    // A ray pointed away misses entirely.
    let away = Ray::new(Vec3::new(0, 0, 16 * S), Vec3::new(0, 0, S));
    assert!(away.direction().z > 0);
    assert!(s.hit(&away, 0, T_FAR).is_none());
}

#[test]
fn scene_returns_the_closest_hit_in_any_order() {
    let near = Sphere::new(Vec3::new(0, 0, -5 * S), S, gray());
    let far = Sphere::new(Vec3::new(0, 0, -10 * S), S, gray());
    let r = Ray::new(Vec3::new(0, 0, 0), Vec3::new(0, 0, -S));

    let near_alone = near.hit(&r, 0, T_FAR).expect("near sphere is hit");
    let far_alone = far.hit(&r, 0, T_FAR).expect("far sphere is hit");
    assert_eq!(near_alone.t, 4 * S);
    assert_eq!(far_alone.t, 9 * S);

    let mut scene = HittableList::new_first(far);
    scene.push(near);
    let rec = scene.hit(&r, 0, T_FAR).expect("the scene is hit");
    assert_eq!(rec.t, near_alone.t.min(far_alone.t));
    assert_eq!((rec.p.x, rec.p.y, rec.p.z), (0, 0, -4 * S));

    let near2 = Sphere::new(Vec3::new(0, 0, -5 * S), S, gray());
    let far2 = Sphere::new(Vec3::new(0, 0, -10 * S), S, gray());
    let mut scene2 = HittableList::new_first(near2);
    scene2.push(far2);
    let rec2 = scene2.hit(&r, 0, T_FAR).expect("order does not matter");
    assert_eq!(rec2.t, rec.t);

    scene2.clear();
    assert!(scene2.hit(&r, 0, T_FAR).is_none());
}

fn record_at_origin() -> HitRecord {
    let mut rec = HitRecord::default();
    rec.set_face_normal(
        &Ray::new(Vec3::new(0, 0, S), Vec3::new(0, 0, -S)),
        &Vec3::new(0, 0, S),
    );
    rec
}

#[test]
fn metal_with_zero_fuzz_scatters_the_exact_mirror_direction() {
    let m = Material::Metal { albedo: Vec3::new(45875, 39321, 32768), fuzz: 0 };
    let r_in = Ray::new(Vec3::new(0, 0, S), Vec3::new(0, 0, -S));
    let rec = record_at_origin();
    let mut attenuation = Vec3::new(0, 0, 0);
    let mut scattered = Ray::new(Vec3::new(0, 0, 0), Vec3::new(0, 0, 0));
    let survives = material_scatter(&m, &r_in, &rec, &mut attenuation, &mut scattered);
    assert!(survives);
    let d = scattered.direction();
    assert_eq!((d.x, d.y, d.z), (0, 0, S));
    assert_eq!((attenuation.x, attenuation.y, attenuation.z), (45875, 39321, 32768));
}

#[test]
fn dielectric_at_matched_index_does_not_bend_the_ray() {
    let m = Material::Dielectric { ref_idx: S };
    let r_in = Ray::new(Vec3::new(0, 0, S), Vec3::new(0, 0, -S));
    let rec = record_at_origin();
    let mut attenuation = Vec3::new(0, 0, 0);
    let mut scattered = Ray::new(Vec3::new(0, 0, 0), Vec3::new(0, 0, 0));
    let survives = material_scatter(&m, &r_in, &rec, &mut attenuation, &mut scattered);
    assert!(survives);
    // Glass is colorless: the attenuation is exactly white.
    assert_eq!((attenuation.x, attenuation.y, attenuation.z), (S, S, S));
    let d = scattered.direction();
    // The reflect-or-refract draw may pick either branch; at normal
    // incidence the refracted ray is exactly unchanged and the
    // reflected one exactly reversed.
    assert!(
        (d.x, d.y, d.z) == (0, 0, -S) || (d.x, d.y, d.z) == (0, 0, S),
        "unexpected direction {:?}",
        (d.x, d.y, d.z)
    );
}

#[test]
fn diffuse_scatter_mean_cosine_is_positive() {
    let m = gray();
    let r_in = Ray::new(Vec3::new(0, 0, S), Vec3::new(0, 0, -S));
    let rec = record_at_origin();
    let mut sum_z: i64 = 0;
    let n = 2000;
    for _ in 0..n {
        let mut attenuation = Vec3::new(0, 0, 0);
        let mut scattered = Ray::new(Vec3::new(0, 0, 0), Vec3::new(0, 0, 0));
        assert!(material_scatter(&m, &r_in, &rec, &mut attenuation, &mut scattered));
        // The normal is the unit z axis, so the cosine against it is
        // proportional to the scattered z component.
        sum_z += scattered.direction().z;
    }
    let mean = sum_z / n;
    assert!(mean > 20000, "mean scattered z component was {mean}");
}

#[test]
fn estimator_returns_black_at_depth_zero() {
    let mut scene = HittableList::new_first(Sphere::new(Vec3::new(0, 0, -5 * S), S, gray()));
    scene.push(Sphere::new(Vec3::new(0, 0, 10 * S), 2 * S, gray()));
    let r = Ray::new(Vec3::new(0, 0, 0), Vec3::new(0, 0, -S));
    let c = ray_color(&r, &scene, 0);
    assert_eq!((c.x, c.y, c.z), (0, 0, 0));
    let r2 = Ray::new(Vec3::new(3 * S, -S, 0), Vec3::new(13, 55, 1900));
    let c2 = ray_color(&r2, &scene, 0);
    assert_eq!((c2.x, c2.y, c2.z), (0, 0, 0));
}

#[test]
fn degenerate_directions_miss_and_render_white() {
    // A direction too short for fixed point to resolve intersects
    // nothing and falls back to the white end of the background.
    let scene = HittableList::new_first(Sphere::new(Vec3::new(0, 0, -5 * S), S, gray()));
    let r = Ray::new(Vec3::new(0, 0, 0), Vec3::new(1, 2, 3));
    let c = ray_color(&r, &scene, 5);
    assert_eq!((c.x, c.y, c.z), (S, S, S));
}

#[test]
fn estimator_returns_the_exact_background_on_a_miss() {
    let scene = HittableList::new_first(Sphere::new(Vec3::new(0, 0, -10 * S), S, gray()));
    // Straight up: the gradient's blue end.
    let up = Ray::new(Vec3::new(0, 0, 0), Vec3::new(0, S, 0));
    let c = ray_color(&up, &scene, 5);
    assert_eq!((c.x, c.y, c.z), (32768, 45875, 65536));
    // Straight down: the white end.
    let down = Ray::new(Vec3::new(0, 0, 0), Vec3::new(0, -S, 0));
    let c2 = ray_color(&down, &scene, 5);
    assert_eq!((c2.x, c2.y, c2.z), (65536, 65536, 65536));
}

#[test]
fn closed_aperture_camera_rays_start_at_the_lens_center() {
    let cam = Camera::new(
        Vec3::new(0, 0, 0),
        Vec3::new(0, 0, -S),
        Vec3::new(0, S, 0),
        90 * S,
        2 * S,
        0,
        S,
    );
    let center = cam.get_ray(32768, 32768);
    let o = center.origin();
    assert_eq!((o.x, o.y, o.z), (0, 0, 0));
    // The central ray looks forward, down -z.
    assert!(center.direction().z < 0);
    // A ray through the top of the viewport points upward, one through
    // the bottom points downward.
    let top = cam.get_ray(32768, S);
    let bottom = cam.get_ray(32768, 0);
    assert!(top.direction().y > 0);
    assert!(bottom.direction().y < 0);
    assert!(top.direction().y > bottom.direction().y);
}

#[test]
fn open_aperture_rays_start_on_the_lens_disk() {
    // With a half-unit aperture, ray origins are jittered around the
    // lens center by at most the lens radius times the basis bound.
    let cam = Camera::new(
        Vec3::new(0, 0, 0),
        Vec3::new(0, 0, -S),
        Vec3::new(0, S, 0),
        90 * S,
        2 * S,
        32768,
        S,
    );
    for _ in 0..50 {
        let r = cam.get_ray(32768, 32768);
        let o = r.origin();
        assert!(o.x.abs() <= 32768 && o.y.abs() <= 32768 && o.z.abs() <= 32768);
        assert!(r.direction().z < 0);
    }
}

#[test]
fn sky_rows_render_lighter_than_the_sphere_row() {
    // A gray ball on a big ground sphere, camera looking down -z: the
    // top image rows (sky) must come out lighter than the center row.
    let ground = Sphere::new(
        Vec3::new(0, (-1005 * S) / 10, -S),
        100 * S,
        gray(),
    );
    let ball = Sphere::new(Vec3::new(0, 0, -S), 32768, gray());
    let mut scene = HittableList::new_first(ground);
    scene.push(ball);
    let cam = Camera::new(
        Vec3::new(0, 0, 0),
        Vec3::new(0, 0, -S),
        Vec3::new(0, S, 0),
        90 * S,
        2 * S,
        0,
        S,
    );
    let width: i64 = 24;
    let height: i64 = 12;
    let samples: i64 = 8;
    let mut row_sum = vec![0i64; height as usize];
    for j in 0..height {
        for i in 0..width {
            let mut acc: i64 = 0;
            for _ in 0..samples {
                let s = (i * S + 32768) / width;
                let t = (j * S + 32768) / height;
                let r = cam.get_ray(s, t);
                let c = ray_color(&r, &scene, 8);
                acc += c.x + c.y + c.z;
            }
            row_sum[j as usize] += acc / samples;
        }
    }
    // Rows are indexed bottom to top: the top row is sky, the middle
    // row crosses the gray ball.
    let top = row_sum[(height - 1) as usize];
    let middle = row_sum[(height / 2) as usize];
    assert!(top > middle, "top row {top} should be lighter than middle row {middle}");
}
