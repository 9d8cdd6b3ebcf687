use ray_tracer::csg::{filter_intersections, intersection_allowed, Hit, Op};

#[test]
fn csg_ops() {
    let scenarios = vec![
        // op       hit        inl   inr   result
        (Op::Union, Hit::Left, true, true, false),
        (Op::Union, Hit::Left, true, false, true),
        (Op::Union, Hit::Left, false, true, false),
        (Op::Union, Hit::Left, false, false, true),
        (Op::Union, Hit::Right, true, true, false),
        (Op::Union, Hit::Right, true, false, false),
        (Op::Union, Hit::Right, false, true, true),
        (Op::Union, Hit::Right, false, false, true),
        (Op::Intersection, Hit::Left, true, true, true),
        (Op::Intersection, Hit::Left, true, false, false),
        (Op::Intersection, Hit::Left, false, true, true),
        (Op::Intersection, Hit::Left, false, false, false),
        (Op::Intersection, Hit::Right, true, true, true),
        (Op::Intersection, Hit::Right, true, false, true),
        (Op::Intersection, Hit::Right, false, true, false),
        (Op::Intersection, Hit::Right, false, false, false),
        (Op::Difference, Hit::Left, true, true, false),
        (Op::Difference, Hit::Left, true, false, true),
        (Op::Difference, Hit::Left, false, true, false),
        (Op::Difference, Hit::Left, false, false, true),
        (Op::Difference, Hit::Right, true, true, true),
        (Op::Difference, Hit::Right, true, false, true),
        (Op::Difference, Hit::Right, false, true, false),
        (Op::Difference, Hit::Right, false, false, false),
    ];
    assert_eq!(scenarios.len(), 24);
    for (op, hit, inl, inr, result) in scenarios {
        assert_eq!(intersection_allowed(op, hit, inl, inr), result);
    }
}

#[test]
fn intersection_filter() {
    // filtering a list of intersections: left, right, left, right at t = 1, 2, 3, 4
    let scenarios = vec![
        (Op::Union, 0, 3),
        (Op::Intersection, 1, 2),
        (Op::Difference, 0, 1),
    ];
    let xs = vec![Hit::Left, Hit::Right, Hit::Left, Hit::Right];
    for (op, x0, x1) in scenarios {
        let result = filter_intersections(op, &xs);
        assert_eq!(result.len(), 2);
        assert_eq!(result[0], x0);
        assert_eq!(result[1], x1);
    }
}

#[test]
fn filter_of_no_intersections_is_empty() {
    for op in [Op::Union, Op::Intersection, Op::Difference] {
        assert!(filter_intersections(op, &vec![]).is_empty());
    }
}

#[test]
fn union_of_overlapping_spheres_keeps_outer_crossings() {
    // a unit sphere and one shifted along z: left enters, right enters, left exits, right exits
    let xs = vec![Hit::Left, Hit::Right, Hit::Left, Hit::Right];
    assert_eq!(filter_intersections(Op::Union, &xs), vec![0, 3]);
}

#[test]
fn difference_with_nested_right_child() {
    // the right child lies wholly inside the left one: left, right, right, left
    let xs = vec![Hit::Left, Hit::Right, Hit::Right, Hit::Left];
    assert_eq!(filter_intersections(Op::Difference, &xs), vec![0, 1, 2, 3]);
    assert_eq!(filter_intersections(Op::Intersection, &xs), vec![1, 2]);
    assert_eq!(filter_intersections(Op::Union, &xs), vec![0, 3]);
}
