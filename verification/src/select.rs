//! Choice of the vertex that anchors a set of candidate points.

use crate::vector::{Point3, UNDEFINED};
use vstd::prelude::*;

verus! {

/// The first coordinate of the point has a value.
pub open spec fn has_x(p: Point3) -> bool {
    p.x != UNDEFINED
}

/// `r` is the first vertex whose first coordinate is the largest of those
/// that have a value.
pub open spec fn is_first_max_x(vs: Seq<Point3>, r: int) -> bool {
    &&& 0 <= r < vs.len()
    &&& has_x(vs[r])
    &&& forall|j: int| 0 <= j < vs.len() && has_x(#[trigger] vs[j]) ==> vs[j].x <= vs[r].x
    &&& forall|j: int| 0 <= j < r && has_x(#[trigger] vs[j]) ==> vs[j].x < vs[r].x
}

/// `r` is the first vertex whose first coordinate is the smallest of those
/// that have a value.
pub open spec fn is_first_min_x(vs: Seq<Point3>, r: int) -> bool {
    &&& 0 <= r < vs.len()
    &&& has_x(vs[r])
    &&& forall|j: int| 0 <= j < vs.len() && has_x(#[trigger] vs[j]) ==> vs[j].x >= vs[r].x
    &&& forall|j: int| 0 <= j < r && has_x(#[trigger] vs[j]) ==> vs[j].x > vs[r].x
}

/// `r` is the vertex that `pick_most_not_obvious_vertex` picks: 0 among fewer
/// than two, and where the first coordinate of vertex 0 has no value;
/// otherwise the first vertex of largest first coordinate where the first
/// coordinate of vertex 0 is negative, and the first of smallest first
/// coordinate elsewhere. A first coordinate without a value is neither larger
/// nor smaller than any other, so that its vertex is never picked over
/// another.
pub open spec fn is_least_obvious(vs: Seq<Point3>, r: int) -> bool {
    if vs.len() <= 1 || !has_x(vs[0]) {
        r == 0
    } else if vs[0].x < 0 {
        is_first_max_x(vs, r)
    } else {
        is_first_min_x(vs, r)
    }
}

/// Picks the vertex at the far end of the first axis, seen from the first
/// vertex: the index of the largest first coordinate if that of vertex 0 is
/// negative, of the smallest otherwise, and the earliest of several.
pub fn pick_most_not_obvious_vertex(vertices: Vec<Point3>) -> (r: usize)
    ensures
        is_least_obvious(vertices@, r as int),
{
    if vertices.len() <= 1 {
        return 0;
    }
    let mut choosen_index: usize = 0;
    let mut choosen_x: i64 = vertices[0].x;
    if choosen_x == UNDEFINED {
        return 0;
    }
    let pick_max: bool = choosen_x < 0;
    let mut i: usize = 1;
    while i < vertices.len()
        invariant
            1 <= i <= vertices.len(),
            choosen_index < i,
            choosen_x == vertices[choosen_index as int].x,
            choosen_x != UNDEFINED,
            pick_max == (vertices[0].x < 0),
            pick_max ==> forall|j: int|
                0 <= j < i && has_x(#[trigger] vertices[j]) ==> vertices[j].x <= choosen_x,
            pick_max ==> forall|j: int|
                0 <= j < choosen_index && has_x(#[trigger] vertices[j]) ==> vertices[j].x
                    < choosen_x,
            !pick_max ==> forall|j: int|
                0 <= j < i && has_x(#[trigger] vertices[j]) ==> vertices[j].x >= choosen_x,
            !pick_max ==> forall|j: int|
                0 <= j < choosen_index && has_x(#[trigger] vertices[j]) ==> vertices[j].x
                    > choosen_x,
        decreases vertices.len() - i,
    {
        let x: i64 = vertices[i].x;
        if x != UNDEFINED {
            if pick_max {
                if x > choosen_x {
                    choosen_index = i;
                    choosen_x = x;
                }
            } else {
                if x < choosen_x {
                    choosen_index = i;
                    choosen_x = x;
                }
            }
        }
        i = i + 1;
    }
    choosen_index
}

/// At most one vertex is the one that `pick_most_not_obvious_vertex` picks.
pub proof fn lemma_least_obvious_unique(vs: Seq<Point3>, r: int, s: int)
    requires
        is_least_obvious(vs, r),
        is_least_obvious(vs, s),
    ensures
        r == s,
{
    if vs.len() > 1 && has_x(vs[0]) {
        if r < s {
            assert(has_x(vs[r]) && has_x(vs[s]));
        } else if s < r {
            assert(has_x(vs[r]) && has_x(vs[s]));
        }
    }
}

/// A vertex whose first coordinate has no value is picked only as vertex 0.
pub proof fn lemma_least_obvious_has_x(vs: Seq<Point3>, r: int)
    requires
        is_least_obvious(vs, r),
        r != 0,
    ensures
        0 < r < vs.len(),
        has_x(vs[r]),
{
}

} // verus!
