//! Eight-connectivity between the set pixels of a raster.
//!
//! Two set pixels are connected when a path of set pixels leads from one to
//! the other, each step going to one of the eight neighbours.

use vstd::prelude::*;
use crate::image::Raster;

verus! {

/// Whether `b` is one of the eight neighbours of `a`.
pub open spec fn adjacent(a: (int, int), b: (int, int)) -> bool {
    &&& a != b
    &&& -1 <= b.0 - a.0 <= 1
    &&& -1 <= b.1 - a.1 <= 1
}

/// Whether the step from position `i` of `path` to the next goes to a
/// neighbour.
pub open spec fn linked(path: Seq<(int, int)>, i: int) -> bool {
    adjacent(path[i], path[i + 1])
}

impl Raster {
    /// Whether `p` lies on the canvas and is set.
    pub open spec fn has(self, p: (int, int)) -> bool {
        self.lit(p.0, p.1)
    }
}

/// A non-empty sequence of set pixels, each the neighbour of the one before.
pub open spec fn is_path(r: Raster, path: Seq<(int, int)>) -> bool {
    &&& path.len() >= 1
    &&& forall|i: int| 0 <= i < path.len() ==> r.has(#[trigger] path[i])
    &&& forall|i: int| 0 <= i < path.len() - 1 ==> #[trigger] linked(path, i)
}

/// Whether `path` is a path from `a` to `b`.
pub open spec fn joins(r: Raster, path: Seq<(int, int)>, a: (int, int), b: (int, int)) -> bool {
    is_path(r, path) && path[0] == a && path[path.len() - 1] == b
}

/// Whether a path of set pixels leads from `a` to `b`.
pub open spec fn connected(r: Raster, a: (int, int), b: (int, int)) -> bool {
    exists|path: Seq<(int, int)>| #[trigger] joins(r, path, a, b)
}

/// The connected component of `p`: every pixel connected to it.
pub open spec fn component(r: Raster, p: (int, int)) -> Set<(int, int)> {
    Set::new(|q: (int, int)| connected(r, p, q))
}

/// Whether `s` contains, with each of its pixels, the set neighbours of
/// that pixel.
pub open spec fn closed(r: Raster, s: Set<(int, int)>) -> bool {
    forall|p: (int, int), q: (int, int)|
        s.contains(p) && r.has(q) && #[trigger] adjacent(p, q) ==> s.contains(q)
}

/// The ends of a path are set pixels.
pub proof fn lemma_connected_has(r: Raster, a: (int, int), b: (int, int))
    requires
        connected(r, a, b),
    ensures
        r.has(a),
        r.has(b),
{
    let path = choose|path: Seq<(int, int)>| #[trigger] joins(r, path, a, b);
    assert(r.has(path[0]));
    assert(r.has(path[path.len() - 1]));
}

/// A set pixel is connected to itself.
pub proof fn lemma_connected_self(r: Raster, a: (int, int))
    requires
        r.has(a),
    ensures
        connected(r, a, a),
{
    let path = seq![a];
    assert(joins(r, path, a, a));
}

/// A path can be extended by a set neighbour of its end.
pub proof fn lemma_connected_step(r: Raster, a: (int, int), b: (int, int), c: (int, int))
    requires
        connected(r, a, b),
        r.has(c),
        adjacent(b, c),
    ensures
        connected(r, a, c),
{
    let path = choose|path: Seq<(int, int)>| #[trigger] joins(r, path, a, b);
    let longer = path.push(c);
    assert forall|i: int| 0 <= i < longer.len() implies r.has(#[trigger] longer[i]) by {
        if i < path.len() {
            assert(r.has(path[i]));
        }
    }
    assert forall|i: int| 0 <= i < longer.len() - 1 implies #[trigger] linked(longer, i) by {
        if i < path.len() - 1 {
            assert(linked(path, i));
        }
    }
    assert(joins(r, longer, a, c));
}

/// Two paths that meet form one path.
pub proof fn lemma_connected_trans(r: Raster, a: (int, int), b: (int, int), c: (int, int))
    requires
        connected(r, a, b),
        connected(r, b, c),
    ensures
        connected(r, a, c),
{
    let first = choose|path: Seq<(int, int)>| #[trigger] joins(r, path, a, b);
    let second = choose|path: Seq<(int, int)>| #[trigger] joins(r, path, b, c);
    let whole = first + second.subrange(1, second.len() as int);
    assert forall|i: int| 0 <= i < whole.len() implies r.has(#[trigger] whole[i]) by {
        if i < first.len() {
            assert(r.has(first[i]));
        } else {
            assert(r.has(second[i - first.len() + 1]));
        }
    }
    assert forall|i: int| 0 <= i < whole.len() - 1 implies #[trigger] linked(whole, i) by {
        if i < first.len() - 1 {
            assert(linked(first, i));
        } else {
            assert(linked(second, i - first.len() + 1));
            if i == first.len() - 1 {
                assert(whole[i] == second[0]);
            }
        }
    }
    assert(joins(r, whole, a, c));
}

/// A path can be walked backwards.
pub proof fn lemma_connected_sym(r: Raster, a: (int, int), b: (int, int))
    requires
        connected(r, a, b),
    ensures
        connected(r, b, a),
{
    let path = choose|path: Seq<(int, int)>| #[trigger] joins(r, path, a, b);
    let n = path.len() as int;
    let back = Seq::new(path.len(), |i: int| path[n - 1 - i]);
    assert forall|i: int| 0 <= i < back.len() implies r.has(#[trigger] back[i]) by {
        assert(r.has(path[n - 1 - i]));
    }
    assert forall|i: int| 0 <= i < back.len() - 1 implies #[trigger] linked(back, i) by {
        assert(linked(path, n - 2 - i));
    }
    assert(joins(r, back, b, a));
}

/// A closed set that contains the start of a path contains every pixel of
/// it.
proof fn lemma_closed_along(r: Raster, s: Set<(int, int)>, path: Seq<(int, int)>, i: int)
    requires
        closed(r, s),
        is_path(r, path),
        s.contains(path[0]),
        0 <= i < path.len(),
    ensures
        s.contains(path[i]),
    decreases i,
{
    if i > 0 {
        lemma_closed_along(r, s, path, i - 1);
        assert(linked(path, i - 1));
        assert(r.has(path[i]));
        assert(adjacent(path[i - 1], path[i]));
    }
}

/// A closed set contains, with each of its pixels, the whole component of
/// that pixel.
pub proof fn lemma_closed_holds_component(r: Raster, s: Set<(int, int)>, a: (int, int), b: (int, int))
    requires
        closed(r, s),
        s.contains(a),
        connected(r, a, b),
    ensures
        s.contains(b),
{
    let path = choose|path: Seq<(int, int)>| #[trigger] joins(r, path, a, b);
    lemma_closed_along(r, s, path, path.len() - 1);
}

/// A path in `r` whose pixels are all set in `other` is a path in `other`.
pub proof fn lemma_path_carries(r: Raster, other: Raster, path: Seq<(int, int)>)
    requires
        is_path(r, path),
        forall|i: int| 0 <= i < path.len() ==> other.has(#[trigger] path[i]),
    ensures
        is_path(other, path),
{
    assert forall|i: int| 0 <= i < path.len() - 1 implies #[trigger] linked(path, i) by {}
}

/// Pixels connected in a raster stay connected in one that covers it.
pub proof fn lemma_connected_covered(r: Raster, other: Raster, a: (int, int), b: (int, int))
    requires
        r.covered_by(other),
        connected(r, a, b),
    ensures
        connected(other, a, b),
{
    let path = choose|path: Seq<(int, int)>| #[trigger] joins(r, path, a, b);
    assert forall|i: int| 0 <= i < path.len() implies other.has(#[trigger] path[i]) by {
        assert(r.has(path[i]));
    }
    lemma_path_carries(r, other, path);
    assert(joins(other, path, a, b));
}

} // verus!
