use vstd::prelude::*;

verus! {

/// Whether `o` occurs in `c`.
pub open spec fn holds(c: Seq<usize>, o: usize) -> bool {
    exists|j: int| 0 <= j < c.len() && c[j] == o
}

/// No object occurs twice in `c`.
pub open spec fn distinct(c: Seq<usize>) -> bool {
    forall|i: int, j: int| 0 <= i < c.len() && 0 <= j < c.len() && i != j ==> c[i] != c[j]
}

/// Crossing the surface of `o`: the ray leaves `o` if it was inside it, else enters it.
pub open spec fn toggled(c: Seq<usize>, o: usize) -> Seq<usize> {
    if holds(c, o) {
        c.remove(choose|j: int| 0 <= j < c.len() && c[j] == o)
    } else {
        c.push(o)
    }
}

/// The objects that the ray is inside after its first `n` intersections, in the order entered.
pub open spec fn containers_after(objs: Seq<usize>, n: int) -> Seq<usize>
    decreases n,
{
    if n <= 0 {
        Seq::empty()
    } else {
        toggled(containers_after(objs, n - 1), objs[n - 1])
    }
}

/// The innermost container, if any.
pub open spec fn innermost(c: Seq<usize>) -> Option<usize> {
    if c.len() == 0 {
        None
    } else {
        Some(c.last())
    }
}

/// The ray is inside each object at most once: no object is ever listed twice among the
/// containers.
pub proof fn lemma_containers_distinct(objs: Seq<usize>, n: int)
    requires
        0 <= n <= objs.len(),
    ensures
        distinct(containers_after(objs, n)),
    decreases n,
{
    if n > 0 {
        lemma_containers_distinct(objs, n - 1);
        let c = containers_after(objs, n - 1);
        let o = objs[n - 1];
        if holds(c, o) {
            let k = choose|j: int| 0 <= j < c.len() && c[j] == o;
            let d = c.remove(k);
            assert forall|i: int, j: int| 0 <= i < d.len() && 0 <= j < d.len() && i != j implies d[i]
                != d[j] by {
                let ii = if i < k { i } else { i + 1 };
                let jj = if j < k { j } else { j + 1 };
                assert(d[i] == c[ii]);
                assert(d[j] == c[jj]);
            }
        } else {
            let d = c.push(o);
            assert forall|i: int, j: int| 0 <= i < d.len() && 0 <= j < d.len() && i != j implies d[i]
                != d[j] by {
                if i < c.len() && j < c.len() {
                    assert(d[i] == c[i] && d[j] == c[j]);
                } else if i < c.len() {
                    assert(d[i] == c[i]);
                } else {
                    assert(d[j] == c[j]);
                }
            }
        }
    }
}

/// The ray's crossing of `o` applied to the container list `c` in place.
fn toggle(c: &mut Vec<usize>, o: usize)
    requires
        distinct(old(c)@),
    ensures
        final(c)@ == toggled(old(c)@, o),
{
    let mut k: usize = 0;
    while k < c.len()
        invariant
            k <= c@.len(),
            c@ == old(c)@,
            distinct(c@),
            forall|j: int| 0 <= j < k ==> c@[j] != o,
        decreases c@.len() - k,
    {
        if c[k] == o {
            proof {
                let w = choose|j: int| 0 <= j < c@.len() && c@[j] == o;
                assert(c@[w] == o && c@[k as int] == o);
                assert(w == k);
            }
            c.remove(k);
            return;
        }
        k += 1;
    }
    assert(!holds(c@, o));
    c.push(o);
}

/// Given the objects of a t-sorted intersection list (each identified by a number) and the
/// index of the hit, returns the objects whose refractive indices lie on either side of the
/// hit: the innermost object the ray is inside just before crossing the hit, and just after.
/// `None` stands for empty space, whose refractive index is that of vacuum.
pub fn refraction_containers(objs: &Vec<usize>, hit: usize) -> (r: (Option<usize>, Option<usize>))
    requires
        hit < objs@.len(),
    ensures
        r.0 == innermost(containers_after(objs@, hit as int)),
        r.1 == innermost(containers_after(objs@, hit as int + 1)),
{
    let len: usize = objs.len();
    let mut containers: Vec<usize> = Vec::new();
    let mut n1: Option<usize> = None;
    let mut i: usize = 0;
    while i <= hit
        invariant
            hit < objs@.len() == len,
            i <= hit + 1,
            containers@ == containers_after(objs@, i as int),
            i > hit ==> n1 == innermost(containers_after(objs@, hit as int)),
        decreases hit + 1 - i,
    {
        if i == hit {
            n1 = last_of(&containers);
        }
        proof {
            lemma_containers_distinct(objs@, i as int);
        }
        toggle(&mut containers, objs[i]);
        i += 1;
    }
    (n1, last_of(&containers))
}

fn last_of(c: &Vec<usize>) -> (r: Option<usize>)
    ensures
        r == innermost(c@),
{
    if c.len() == 0 {
        None
    } else {
        Some(c[c.len() - 1])
    }
}

} // verus!
