use ray_tracer::pattern::alternate;
use ray_tracer::transport::{secondary_depth, REFLECTION_DEPTH};
use ray_tracer::{hit, is_shadowed, refraction_media, sorted_order};

#[test]
fn the_hit_when_all_intersections_have_positive_t() {
    let xs = vec![2, 1];

    assert_eq!(hit(&xs), Some(1));
}

#[test]
fn the_hit_when_some_intersections_have_negative_t() {
    let xs = vec![1, -1];

    assert_eq!(hit(&xs), Some(0));
}

#[test]
fn the_hit_when_all_intersections_have_negative_t() {
    let xs = vec![-1, -2];

    assert_eq!(hit(&xs), None);
}

#[test]
fn the_hit_is_always_the_lowest_nonnegative_intersection() {
    let xs = vec![5, 7, -3, 2];

    assert_eq!(hit(&xs), Some(3));
}

#[test]
fn the_hit_of_no_intersections_is_none() {
    assert_eq!(hit(&vec![]), None);
}

#[test]
fn the_hit_among_equal_parameters_is_the_first() {
    assert_eq!(hit(&vec![4, 0, 3, 0]), Some(1));
    assert_eq!(hit(&vec![-5, 6, 6]), Some(1));
}

#[test]
fn finding_n1_and_n2_at_various_intersections() {
    // objects 0, 1, 2 are glass spheres of refractive index 1.5, 2.0, 2.5
    let index = [1.5, 2.0, 2.5];
    let medium = |m: Option<usize>| m.map_or(1.0, |o| index[o]);
    let objects = vec![0, 1, 2, 1, 2, 0];

    let n1 = [1.0, 1.5, 2.0, 2.5, 2.5, 1.5];
    let n2 = [1.5, 2.0, 2.5, 2.5, 1.5, 1.0];

    for (i, (n1, n2)) in n1.iter().zip(n2.iter()).enumerate() {
        let (leaving, entering) = refraction_media(&objects, i);
        assert_eq!(medium(leaving), *n1);
        assert_eq!(medium(entering), *n2);
    }
}

#[test]
fn refractive_indices_of_two_concentric_spheres() {
    // outer sphere 0 of index 1.5, inner sphere 1 of index 2.0
    let index = [1.5, 2.0];
    let medium = |m: Option<usize>| m.map_or(1.0, |o| index[o]);
    let objects = vec![0, 1, 1, 0];

    let expected = [(1.0, 1.5), (1.5, 2.0), (2.0, 1.5), (1.5, 1.0)];

    for (i, pair) in expected.iter().enumerate() {
        let (leaving, entering) = refraction_media(&objects, i);
        assert_eq!((medium(leaving), medium(entering)), *pair);
    }
}

#[test]
fn the_shadow_when_an_object_is_between_the_point_and_the_light() {
    // the ray from the point toward the light, 20 away, meets a sphere at 8 and 10
    assert!(is_shadowed(&vec![8, 10], 20));
}

#[test]
fn there_is_no_shadow_when_an_object_is_behind_the_light() {
    assert!(!is_shadowed(&vec![25, 27], 20));
}

#[test]
fn there_is_no_shadow_when_an_object_is_behind_the_point() {
    assert!(!is_shadowed(&vec![-9, -7], 20));
}

#[test]
fn there_is_no_shadow_when_nothing_is_collinear_with_point_and_light() {
    assert!(!is_shadowed(&vec![], 20));
}

#[test]
fn no_shadow_from_a_surface_exactly_at_the_light() {
    assert!(!is_shadowed(&vec![20], 20));
    assert!(is_shadowed(&vec![-3, 19], 20));
}

#[test]
fn sorting_intersections_by_parameter() {
    assert_eq!(sorted_order(&vec![5, 7, -3, 2]), vec![2, 3, 0, 1]);
    assert_eq!(sorted_order(&vec![]), Vec::<usize>::new());
}

#[test]
fn sorting_keeps_equal_parameters_in_order() {
    assert_eq!(sorted_order(&vec![4, 1, 4, 1, 0]), vec![4, 1, 3, 0, 2]);
}

#[test]
fn the_reflected_color_at_maximum_recursive_depth() {
    assert_eq!(secondary_depth(0, false), None);
    assert_eq!(secondary_depth(0, true), None);
}

#[test]
fn the_refracted_color_with_an_opaque_surface() {
    assert_eq!(secondary_depth(REFLECTION_DEPTH, true), None);
}

#[test]
fn secondary_rays_spend_one_level_of_the_budget() {
    assert_eq!(REFLECTION_DEPTH, 5);
    assert_eq!(secondary_depth(REFLECTION_DEPTH, false), Some(4));
    assert_eq!(secondary_depth(1, false), Some(0));
}

#[test]
fn alternating_patterns_pick_by_parity() {
    assert_eq!(alternate(0, 'a', 'b'), 'a');
    assert_eq!(alternate(1, 'a', 'b'), 'b');
    assert_eq!(alternate(2, 'a', 'b'), 'a');
    assert_eq!(alternate(-1, 'a', 'b'), 'b');
    assert_eq!(alternate(-2, 'a', 'b'), 'a');
    assert_eq!(alternate(i64::MIN, 'a', 'b'), 'a');
}

#[test]
fn reflected_color_for_a_nonreflective_material() {
    assert_eq!(secondary_depth(REFLECTION_DEPTH, true), None);
    assert_eq!(secondary_depth(1, true), None);
}

#[test]
fn the_refracted_color_at_the_maximum_recursive_depth() {
    // a transparent material: its coefficient is not zero
    assert_eq!(secondary_depth(0, false), None);
}

#[test]
fn color_at_with_mutually_reflective_surfaces() {
    // two facing mirrors: every bounce casts another ray until the budget runs out
    let mut depth = Some(REFLECTION_DEPTH);
    let mut rays = 0;
    while let Some(d) = depth {
        rays += 1;
        depth = secondary_depth(d, false);
    }
    assert_eq!(rays, 6);
}
