use ray_tracer::refraction::refraction_containers;

#[test]
fn refraction_containers_of_nested_spheres() {
    // spheres a (index 1.5), b (2.0) and c (2.5); b and c lie inside a and overlap
    let (a, b, c) = (0usize, 1usize, 2usize);
    let objs = vec![a, b, c, b, c, a];
    let expected = [
        (None, Some(a)),
        (Some(a), Some(b)),
        (Some(b), Some(c)),
        (Some(c), Some(c)),
        (Some(c), Some(a)),
        (Some(a), None),
    ];
    for (i, e) in expected.iter().enumerate() {
        assert_eq!(refraction_containers(&objs, i), *e);
    }
}

#[test]
fn refraction_indices_of_nested_spheres() {
    let index = |o: Option<usize>| match o {
        None => 1.0,
        Some(k) => [1.5, 2.0, 2.5][k],
    };
    let objs = vec![0usize, 1, 2, 1, 2, 0];
    let expected = [(1.0, 1.5), (1.5, 2.0), (2.0, 2.5), (2.5, 2.5), (2.5, 1.5), (1.5, 1.0)];
    for (i, (n1, n2)) in expected.iter().enumerate() {
        let (c1, c2) = refraction_containers(&objs, i);
        assert_eq!(index(c1), *n1);
        assert_eq!(index(c2), *n2);
    }
}

#[test]
fn single_hit_enters_from_vacuum() {
    assert_eq!(refraction_containers(&vec![7], 0), (None, Some(7)));
}
