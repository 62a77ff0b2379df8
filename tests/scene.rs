use tiny_rusty_raytracer::axis::{axis_of, Axis};
use tiny_rusty_raytracer::scene::{cast_ray, scene_intersect};

fn key(distance: f64) -> u64 {
    distance.to_bits()
}

fn far() -> u64 {
    key(1000.0)
}

#[test]
fn index_maps_to_components() {
    assert_eq!(axis_of(0), Axis::X);
    assert_eq!(axis_of(1), Axis::Y);
    assert_eq!(axis_of(2), Axis::Z);
}

#[test]
fn nearest_sphere_wins_in_either_order() {
    let near = Some(key(4.0));
    let behind_it = Some(key(13.0));
    assert_eq!(scene_intersect(&vec![near, behind_it], far()), Some(0));
    assert_eq!(scene_intersect(&vec![behind_it, near], far()), Some(1));

    let colors = vec![(0.4, 0.4, 0.3), (0.3, 0.1, 0.1)];
    let swapped_colors = vec![(0.3, 0.1, 0.1), (0.4, 0.4, 0.3)];
    let background = (0.2, 0.7, 0.8);
    let a = cast_ray(&vec![near, behind_it], far(), &colors, background);
    let b = cast_ray(&vec![behind_it, near], far(), &swapped_colors, background);
    assert_eq!(a, (0.4, 0.4, 0.3));
    assert_eq!(a, b);
}

#[test]
fn cast_ray_returns_color_of_hit_sphere() {
    // A sphere at (0,0,-16) of radius 2 is met at distance 14 by a ray from the
    // origin along -z.
    let color = cast_ray(&vec![Some(key(14.0))], far(), &vec![(0.4, 0.4, 0.3)], (0.2, 0.7, 0.8));
    assert_eq!(color, (0.4, 0.4, 0.3));
}

#[test]
fn cast_ray_on_empty_scene_gives_background() {
    let color = cast_ray(&vec![], far(), &Vec::<(f64, f64, f64)>::new(), (0.2, 0.7, 0.8));
    assert_eq!(color, (0.2, 0.7, 0.8));
    assert_eq!(scene_intersect(&vec![], far()), None);
}

#[test]
fn all_misses_give_no_hit() {
    assert_eq!(scene_intersect(&vec![None, None, None], far()), None);
    let color = cast_ray(&vec![None, None], far(), &vec![1u8, 2u8], 7u8);
    assert_eq!(color, 7);
}

#[test]
fn hits_beyond_far_plane_are_not_visible() {
    assert_eq!(scene_intersect(&vec![Some(key(1000.0)), Some(key(2500.5))], far()), None);
    assert_eq!(scene_intersect(&vec![Some(key(1000.0)), Some(key(999.5))], far()), Some(1));
    let color = cast_ray(&vec![Some(key(1200.0))], far(), &vec![(1.0, 1.0, 1.0)], (0.2, 0.7, 0.8));
    assert_eq!(color, (0.2, 0.7, 0.8));
}

#[test]
fn equal_distances_go_to_the_first_sphere() {
    let d = vec![Some(key(9.0)), Some(key(5.0)), None, Some(key(5.0))];
    assert_eq!(scene_intersect(&d, far()), Some(1));
    assert_eq!(cast_ray(&d, far(), &vec!['a', 'b', 'c', 'd'], 'z'), 'b');
}

#[test]
fn hit_at_distance_zero_is_visible() {
    assert_eq!(scene_intersect(&vec![Some(key(3.0)), Some(key(0.0))], far()), Some(1));
}

#[test]
fn nearest_is_found_among_many() {
    let d = vec![Some(key(40.0)), None, Some(key(12.5)), Some(key(30.0)), Some(key(12.25)), None];
    assert_eq!(scene_intersect(&d, far()), Some(4));
}
