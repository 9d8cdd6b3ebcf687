use vstd::prelude::*;

verus! {

/// The boolean operation that a constructive-solid-geometry node applies to its two children.
#[derive(Debug, PartialEq, Eq, Structural, Clone, Copy)]
pub enum Op {
    Union,
    Intersection,
    Difference,
}

/// Which child of a CSG node an intersection belongs to.
#[derive(Debug, PartialEq, Eq, Structural, Clone, Copy)]
pub enum Hit {
    Left,
    Right,
}

/// Whether an intersection on the given side is a boundary crossing of the combined solid,
/// given whether the ray is currently inside the left and the right child.
pub open spec fn allowed(op: Op, hit: Hit, inl: bool, inr: bool) -> bool {
    match (op, hit) {
        (Op::Union, Hit::Left) => !inr,
        (Op::Union, Hit::Right) => !inl,
        (Op::Intersection, Hit::Left) => inr,
        (Op::Intersection, Hit::Right) => inl,
        (Op::Difference, Hit::Left) => !inr,
        (Op::Difference, Hit::Right) => inl,
    }
}

/// Whether `op` keeps an intersection on side `hit`, given whether the ray is inside the
/// left and the right child just before it.
pub fn intersection_allowed(op: Op, hit: Hit, inl: bool, inr: bool) -> (r: bool)
    ensures
        r == allowed(op, hit, inl, inr),
{
    match op {
        Op::Union => (hit == Hit::Left && !inr) || (hit == Hit::Right && !inl),
        Op::Intersection => (hit == Hit::Left && inr) || (hit == Hit::Right && inl),
        Op::Difference => (hit == Hit::Left && !inr) || (hit == Hit::Right && inl),
    }
}

/// Whether the ray is inside the child on `side` after crossing the first `n` intersections:
/// each crossing of that child's surface toggles it, starting from outside.
pub open spec fn inside_after(hits: Seq<Hit>, side: Hit, n: int) -> bool
    decreases n,
{
    if n <= 0 {
        false
    } else {
        inside_after(hits, side, n - 1) != (hits[n - 1] == side)
    }
}

/// Whether the intersection at index `i` of a t-sorted list is kept by `op`.
pub open spec fn kept(op: Op, hits: Seq<Hit>, i: int) -> bool {
    allowed(op, hits[i], inside_after(hits, Hit::Left, i), inside_after(hits, Hit::Right, i))
}

/// The indices, in ascending order, among the first `n` intersections that `op` keeps.
pub open spec fn kept_indices(op: Op, hits: Seq<Hit>, n: int) -> Seq<usize>
    decreases n,
{
    if n <= 0 {
        Seq::empty()
    } else if kept(op, hits, n - 1) {
        kept_indices(op, hits, n - 1).push((n - 1) as usize)
    } else {
        kept_indices(op, hits, n - 1)
    }
}

/// Whether a point is inside the combined solid, given whether it is inside each child.
pub open spec fn combined(op: Op, inl: bool, inr: bool) -> bool {
    match op {
        Op::Union => inl || inr,
        Op::Intersection => inl && inr,
        Op::Difference => inl && !inr,
    }
}

/// The admission table keeps exactly the boundary crossings of the combined solid: an
/// intersection is kept if and only if the ray's being inside the combined solid changes there.
pub proof fn lemma_kept_iff_boundary(op: Op, hits: Seq<Hit>, i: int)
    requires
        0 <= i < hits.len(),
    ensures
        kept(op, hits, i) <==> combined(
            op,
            inside_after(hits, Hit::Left, i),
            inside_after(hits, Hit::Right, i),
        ) != combined(op, inside_after(hits, Hit::Left, i + 1), inside_after(hits, Hit::Right, i + 1)),
{
}

/// Scans the sides of a t-sorted intersection list and returns the indices of the
/// intersections that are boundary crossings of the combined solid.
pub fn filter_intersections(op: Op, hits: &Vec<Hit>) -> (r: Vec<usize>)
    ensures
        r@ == kept_indices(op, hits@, hits@.len() as int),
{
    // begin outside of both children
    let mut inl = false;
    let mut inr = false;
    let mut result: Vec<usize> = Vec::new();
    let mut i: usize = 0;
    while i < hits.len()
        invariant
            i <= hits@.len(),
            inl == inside_after(hits@, Hit::Left, i as int),
            inr == inside_after(hits@, Hit::Right, i as int),
            result@ == kept_indices(op, hits@, i as int),
        decreases hits@.len() - i,
    {
        let hit = hits[i];
        if intersection_allowed(op, hit, inl, inr) {
            result.push(i);
        }
        if hit == Hit::Left {
            inl = !inl;
        } else {
            inr = !inr;
        }
        i += 1;
    }
    result
}

} // verus!
