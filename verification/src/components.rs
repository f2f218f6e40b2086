//! Connected components by flood fill, and the removal of every component
//! but the largest.

use vstd::prelude::*;
use crate::connectivity::{
    adjacent, closed, component, connected, is_path, joins, lemma_closed_holds_component,
    lemma_connected_covered, lemma_connected_has, lemma_connected_self, lemma_connected_step,
    lemma_connected_sym, lemma_connected_trans, lemma_path_carries, linked,
};
use crate::image::{
    lemma_index_bound, lemma_index_injective, lemma_repaint_pixel, lemma_repaint_unique,
    lemma_with_pixel, scanned, shifted, BinaryImage, Raster,
};
use crate::morphology::law_repair_keeps_pixels;
use crate::packing::{count_true, lemma_count_bound, lemma_count_set};

verus! {

/// The pixel at the coordinates `p`.
pub open spec fn spot(p: (usize, usize)) -> (int, int) {
    (p.0 as int, p.1 as int)
}

/// Whether the pixel `q` occurs in `list`.
pub open spec fn holds(list: Seq<(usize, usize)>, q: (int, int)) -> bool {
    exists|k: int| 0 <= k < list.len() && spot(#[trigger] list[k]) == q
}

/// The pixels of the canvas that `visited` marks.
pub open spec fn marks(r: Raster, visited: Seq<bool>) -> Set<(int, int)> {
    Set::new(|p: (int, int)| r.on_canvas(p.0, p.1) && visited[r.index(p.0, p.1)])
}

/// `visited` has one mark per pixel, marks set pixels only, and marks with
/// each pixel its set neighbours.
pub open spec fn sealed(r: Raster, visited: Seq<bool>) -> bool {
    &&& visited.len() == r.cells()
    &&& forall|p: (int, int)| #[trigger] marks(r, visited).contains(p) ==> r.has(p)
    &&& closed(r, marks(r, visited))
}

/// What a list holds after one more pixel was appended.
proof fn lemma_holds_push(list: Seq<(usize, usize)>, v: (usize, usize), q: (int, int))
    ensures
        holds(list.push(v), q) == (holds(list, q) || spot(v) == q),
{
    let longer = list.push(v);
    if holds(longer, q) {
        let k = choose|k: int| 0 <= k < longer.len() && spot(#[trigger] longer[k]) == q;
        if k < list.len() {
            assert(spot(list[k]) == q);
        }
    }
    if holds(list, q) {
        let k = choose|k: int| 0 <= k < list.len() && spot(#[trigger] list[k]) == q;
        assert(spot(longer[k]) == q);
    }
    if spot(v) == q {
        assert(spot(longer[list.len() as int]) == q);
    }
}

/// What a list holds after its last pixel was taken off.
proof fn lemma_holds_pop(list: Seq<(usize, usize)>, q: (int, int))
    requires
        list.len() > 0,
    ensures
        holds(list, q) == (holds(list.drop_last(), q) || spot(list.last()) == q),
{
    assert(list =~= list.drop_last().push(list.last()));
    lemma_holds_push(list.drop_last(), list.last(), q);
}

/// A list that extends another holds what the other holds.
proof fn lemma_holds_extended(list: Seq<(usize, usize)>, longer: Seq<(usize, usize)>, q: (int, int))
    requires
        list.len() <= longer.len(),
        forall|k: int| 0 <= k < list.len() ==> longer[k] == list[k],
        holds(list, q),
    ensures
        holds(longer, q),
{
    let k = choose|k: int| 0 <= k < list.len() && spot(#[trigger] list[k]) == q;
    assert(spot(longer[k]) == q);
}

/// Whether `visited` marks the pixel `p`.
pub open spec fn marked(r: Raster, visited: Seq<bool>, p: (int, int)) -> bool {
    visited[r.index(p.0, p.1)]
}

/// Whether `list` lists a whole component, each pixel once, starting from
/// its first entry.
pub open spec fn lists_component(r: Raster, list: Seq<(usize, usize)>) -> bool {
    &&& list.len() >= 1
    &&& forall|k: int|
        0 <= k < list.len() ==> connected(r, spot(list[0]), spot(#[trigger] list[k]))
    &&& forall|k1: int, k2: int|
        0 <= k1 < k2 < list.len() ==> spot(#[trigger] list[k1]) != spot(#[trigger] list[k2])
    &&& forall|q: (int, int)| #[trigger] connected(r, spot(list[0]), q) ==> holds(list, q)
}

/// The state of a flood fill from `seed` that started with the marks `v0`:
/// `found` lists the pixels marked since, `stack` the pixels still to visit.
spec fn filling(
    r: Raster,
    seed: (usize, usize),
    v0: Seq<bool>,
    v: Seq<bool>,
    found: Seq<(usize, usize)>,
    stack: Seq<(usize, usize)>,
) -> bool {
    &&& r.wf()
    &&& r.has(spot(seed))
    &&& sealed(r, v0)
    &&& !marked(r, v0, spot(seed))
    &&& v.len() == r.cells()
    &&& forall|k: int| 0 <= k < stack.len() ==> connected(r, spot(seed), spot(#[trigger] stack[k]))
    &&& forall|k: int|
        0 <= k < found.len() ==> connected(r, spot(seed), spot(#[trigger] found[k])) && !marked(
            r,
            v0,
            spot(found[k]),
        )
    &&& forall|k1: int, k2: int|
        0 <= k1 < k2 < found.len() ==> spot(#[trigger] found[k1]) != spot(#[trigger] found[k2])
    &&& forall|p: (int, int)|
        r.on_canvas(p.0, p.1) ==> #[trigger] marked(r, v, p) == (marked(r, v0, p) || holds(
            found,
            p,
        ))
    &&& forall|k: int, q: (int, int)|
        0 <= k < found.len() && r.has(q) && #[trigger] adjacent(spot(found[k]), q) ==> marked(
            r,
            v,
            q,
        ) || holds(stack, q)
    &&& found.len() == 0 ==> stack == seq![seed]
    &&& found.len() > 0 ==> found[0] == seed
}

/// A fill starts with its seed on the stack and nothing found.
proof fn lemma_fill_start(r: Raster, seed: (usize, usize), v0: Seq<bool>)
    requires
        r.wf(),
        r.has(spot(seed)),
        sealed(r, v0),
        !marked(r, v0, spot(seed)),
    ensures
        filling(r, seed, v0, v0, Seq::empty(), seq![seed]),
{
    lemma_connected_self(r, spot(seed));
    let found = Seq::<(usize, usize)>::empty();
    assert forall|p: (int, int)| r.on_canvas(p.0, p.1) implies #[trigger] marked(r, v0, p) == (
    marked(r, v0, p) || holds(found, p)) by {}
}

/// The pixel on top of the stack is set and on the canvas.
proof fn lemma_fill_top(
    r: Raster,
    seed: (usize, usize),
    v0: Seq<bool>,
    v: Seq<bool>,
    found: Seq<(usize, usize)>,
    stack: Seq<(usize, usize)>,
)
    requires
        filling(r, seed, v0, v, found, stack),
        stack.len() > 0,
    ensures
        r.has(spot(stack.last())),
        0 <= r.index(spot(stack.last()).0, spot(stack.last()).1) < r.cells(),
{
    let c = spot(stack[stack.len() - 1]);
    lemma_connected_has(r, spot(seed), c);
    lemma_index_bound(r.width, r.height, c.0, c.1);
}

/// A marked pixel on top of the stack is dropped.
proof fn lemma_fill_skip(
    r: Raster,
    seed: (usize, usize),
    v0: Seq<bool>,
    v: Seq<bool>,
    found: Seq<(usize, usize)>,
    stack: Seq<(usize, usize)>,
)
    requires
        filling(r, seed, v0, v, found, stack),
        stack.len() > 0,
        marked(r, v, spot(stack.last())),
    ensures
        filling(r, seed, v0, v, found, stack.drop_last()),
{
    let rest = stack.drop_last();
    let c = spot(stack.last());
    lemma_fill_top(r, seed, v0, v, found, stack);
    assert forall|k: int| 0 <= k < rest.len() implies connected(
        r,
        spot(seed),
        spot(#[trigger] rest[k]),
    ) by {
        assert(rest[k] == stack[k]);
    }
    assert forall|k: int, q: (int, int)|
        0 <= k < found.len() && r.has(q) && #[trigger] adjacent(spot(found[k]), q) implies marked(
        r,
        v,
        q,
    ) || holds(rest, q) by {
        lemma_holds_pop(stack, q);
    }
    if found.len() == 0 {
        assert(stack[0] == seed);
        assert(marked(r, v, c) == (marked(r, v0, c) || holds(found, c)));
    }
}

/// An unmarked pixel on top of the stack is marked and listed, and its
/// unmarked set neighbours are put on the stack.
proof fn lemma_fill_take(
    r: Raster,
    seed: (usize, usize),
    v0: Seq<bool>,
    v: Seq<bool>,
    found: Seq<(usize, usize)>,
    stack: Seq<(usize, usize)>,
    grown: Seq<(usize, usize)>,
)
    requires
        filling(r, seed, v0, v, found, stack),
        stack.len() > 0,
        !marked(r, v, spot(stack.last())),
        stack.len() - 1 <= grown.len(),
        forall|k: int| 0 <= k < stack.len() - 1 ==> grown[k] == stack[k],
        forall|k: int|
            stack.len() - 1 <= k < grown.len() ==> r.has(spot(#[trigger] grown[k])) && adjacent(
                spot(stack.last()),
                spot(grown[k]),
            ),
        forall|q: (int, int)|
            r.has(q) && #[trigger] adjacent(spot(stack.last()), q) ==> marked(
                r,
                v.update(r.index(spot(stack.last()).0, spot(stack.last()).1), true),
                q,
            ) || holds(grown, q),
    ensures
        filling(
            r,
            seed,
            v0,
            v.update(r.index(spot(stack.last()).0, spot(stack.last()).1), true),
            found.push(stack.last()),
            grown,
        ),
        count_true(v.update(r.index(spot(stack.last()).0, spot(stack.last()).1), true))
            == count_true(v) + 1,
        count_true(v.update(r.index(spot(stack.last()).0, spot(stack.last()).1), true)) <= v.len(),
{
    let top = stack.last();
    let c = spot(top);
    let at = r.index(c.0, c.1);
    let v2 = v.update(at, true);
    let found2 = found.push(top);
    let rest = stack.drop_last();
    lemma_fill_top(r, seed, v0, v, found, stack);
    lemma_count_set(v, at);
    lemma_count_bound(v2);
    assert(connected(r, spot(seed), spot(stack[stack.len() - 1])));
    assert(marked(r, v, c) == (marked(r, v0, c) || holds(found, c)));
    assert forall|k: int| 0 <= k < grown.len() implies connected(
        r,
        spot(seed),
        spot(#[trigger] grown[k]),
    ) by {
        if k < stack.len() - 1 {
            assert(grown[k] == stack[k]);
        } else {
            lemma_connected_step(r, spot(seed), c, spot(grown[k]));
        }
    }
    assert forall|k: int| 0 <= k < found2.len() implies connected(
        r,
        spot(seed),
        spot(#[trigger] found2[k]),
    ) && !marked(r, v0, spot(found2[k])) by {
        if k < found.len() {
            assert(found2[k] == found[k]);
        }
    }
    assert forall|k1: int, k2: int| 0 <= k1 < k2 < found2.len() implies spot(
        #[trigger] found2[k1],
    ) != spot(#[trigger] found2[k2]) by {
        if k2 == found.len() {
            assert(found2[k1] == found[k1]);
            let p = spot(found[k1]);
            lemma_connected_has(r, spot(seed), p);
            assert(holds(found, p));
            assert(marked(r, v, p) == (marked(r, v0, p) || holds(found, p)));
        } else {
            assert(found2[k1] == found[k1] && found2[k2] == found[k2]);
        }
    }
    assert forall|p: (int, int)| r.on_canvas(p.0, p.1) implies #[trigger] marked(r, v2, p) == (
    marked(r, v0, p) || holds(found2, p)) by {
        lemma_holds_push(found, top, p);
        lemma_index_bound(r.width, r.height, p.0, p.1);
        assert(marked(r, v, p) == (marked(r, v0, p) || holds(found, p)));
        if r.index(p.0, p.1) == at {
            lemma_index_injective(r.width, p.0, p.1, c.0, c.1);
        }
    }
    assert forall|k: int, q: (int, int)|
        0 <= k < found2.len() && r.has(q) && #[trigger] adjacent(spot(found2[k]), q) implies marked(
        r,
        v2,
        q,
    ) || holds(grown, q) by {
        lemma_index_bound(r.width, r.height, q.0, q.1);
        if k < found.len() {
            assert(found2[k] == found[k]);
            assert(adjacent(spot(found[k]), q));
            if !marked(r, v, q) {
                lemma_holds_pop(stack, q);
                if spot(top) != q {
                    lemma_holds_extended(rest, grown, q);
                }
            }
        }
    }
    if found.len() == 0 {
        assert(stack[0] == seed);
    } else {
        assert(found2[0] == found[0]);
    }
}

/// When the stack is empty, the fill has listed the component of its seed
/// and marked exactly that component in addition.
proof fn lemma_fill_done(
    r: Raster,
    seed: (usize, usize),
    v0: Seq<bool>,
    v: Seq<bool>,
    found: Seq<(usize, usize)>,
)
    requires
        filling(r, seed, v0, v, found, Seq::empty()),
    ensures
        sealed(r, v),
        lists_component(r, found),
        found[0] == seed,
        forall|p: (int, int)|
            r.on_canvas(p.0, p.1) ==> #[trigger] marked(r, v, p) == (marked(r, v0, p) || connected(
                r,
                spot(seed),
                p,
            )),
{
    let none = Seq::<(usize, usize)>::empty();
    assert(found.len() > 0) by {
        if found.len() == 0 {
            assert(seq![seed].len() == 1);
            assert(none.len() == 0);
        }
    }
    let mine = Set::new(|p: (int, int)| holds(found, p));
    // what was found is closed: a set neighbour is marked, and not from before
    assert forall|p: (int, int), q: (int, int)|
        mine.contains(p) && r.has(q) && #[trigger] adjacent(p, q) implies mine.contains(q) by {
        let k = choose|k: int| 0 <= k < found.len() && spot(#[trigger] found[k]) == p;
        assert(adjacent(spot(found[k]), q));
        assert(marked(r, v, q) || holds(none, q));
        assert(marked(r, v, q) == (marked(r, v0, q) || holds(found, q)));
        if marked(r, v0, q) {
            lemma_connected_has(r, spot(seed), p);
            assert(marks(r, v0).contains(q));
            assert(adjacent(q, p));
            assert(marks(r, v0).contains(p));
        }
    }
    assert(closed(r, mine));
    assert(spot(found[0]) == spot(seed));
    assert(mine.contains(spot(seed)));
    assert forall|q: (int, int)| #[trigger] connected(r, spot(found[0]), q) implies holds(
        found,
        q,
    ) by {
        lemma_closed_holds_component(r, mine, spot(seed), q);
    }
    assert forall|p: (int, int)| r.on_canvas(p.0, p.1) implies #[trigger] marked(r, v, p) == (
    marked(r, v0, p) || connected(r, spot(seed), p)) by {
        assert(marked(r, v, p) == (marked(r, v0, p) || holds(found, p)));
        if holds(found, p) {
            let k = choose|k: int| 0 <= k < found.len() && spot(#[trigger] found[k]) == p;
            assert(connected(r, spot(seed), spot(found[k])));
        }
    }
    assert forall|p: (int, int)| #[trigger] marks(r, v).contains(p) implies r.has(p) by {
        assert(marked(r, v, p) == (marked(r, v0, p) || connected(r, spot(seed), p)));
        if marked(r, v0, p) {
            assert(marks(r, v0).contains(p));
        } else {
            lemma_connected_has(r, spot(seed), p);
        }
    }
    assert forall|p: (int, int), q: (int, int)|
        marks(r, v).contains(p) && r.has(q) && #[trigger] adjacent(p, q) implies marks(
        r,
        v,
    ).contains(q) by {
        assert(marked(r, v, p) == (marked(r, v0, p) || connected(r, spot(seed), p)));
        assert(marked(r, v, q) == (marked(r, v0, q) || connected(r, spot(seed), q)));
        if marked(r, v0, p) {
            assert(marks(r, v0).contains(p));
            assert(marks(r, v0).contains(q));
        } else {
            lemma_connected_step(r, spot(seed), p, q);
        }
    }
}

/// Whether `a` comes before `b` in row-major order.
pub open spec fn precedes(a: (int, int), b: (int, int)) -> bool {
    scanned(a.0, a.1, b.0, b.1)
}

impl Raster {
    /// Whether `p` is the pixel at which the largest component is first
    /// met: no component is larger than that of `p`, and no pixel of a
    /// component of the same size comes before `p` in row-major order.
    pub open spec fn is_chosen(self, p: (int, int)) -> bool {
        &&& self.has(p)
        &&& forall|q: (int, int)|
            #[trigger] self.has(q) ==> component(self, q).len() < component(self, p).len() || (
            component(self, q).len() == component(self, p).len() && !precedes(q, p))
    }

    /// Whether `(x, y)` belongs to the largest component; among several of
    /// the largest size, to the one that a row-major scan meets first.
    pub open spec fn largest_component_pixel(self, x: int, y: int) -> bool {
        exists|p: (int, int)| #[trigger] self.is_chosen(p) && connected(self, p, (x, y))
    }

    /// The largest component alone, on a canvas of the same size without
    /// fill bits. Blank when no pixel is set.
    pub open spec fn largest_component(self) -> Raster {
        Raster::blank(self.width, self.height).repaint(
            |x: int, y: int| self.largest_component_pixel(x, y),
        )
    }

    /// Whether the set pixels form more than one component.
    pub open spec fn fragmented(self) -> bool {
        exists|a: (int, int), b: (int, int)|
            self.has(a) && self.has(b) && !#[trigger] connected(self, a, b)
    }

    /// The largest component alone, after one pass of diagonal repair.
    pub open spec fn prune_step(self) -> Raster {
        self.largest_component().repaired()
    }

    /// The raster without its smaller components: the largest component is
    /// kept and repaired, and where there was more than one component, the
    /// same is done once more to the result. What a step returns has a
    /// single component (see [`law_pruned_unfolds`]), so that no third step
    /// is ever called for.
    pub open spec fn pruned(self) -> Raster {
        if self.fragmented() {
            self.prune_step().prune_step()
        } else {
            self.prune_step()
        }
    }
}

/// The pixel that the entries of `list` are connected to: its first entry.
pub open spec fn seed(list: Vec<(usize, usize)>) -> (int, int) {
    spot(list@[0])
}

/// Whether one of the components listed in `found` contains `p`.
pub open spec fn claimed(r: Raster, found: Seq<Vec<(usize, usize)>>, p: (int, int)) -> bool {
    exists|i: int| 0 <= i < found.len() && connected(r, seed(#[trigger] found[i]), p)
}

/// Whether `found` lists all components of `r`, in the order in which a
/// row-major scan meets them, each starting with its first pixel in that
/// order.
pub open spec fn surveyed(r: Raster, found: Seq<Vec<(usize, usize)>>) -> bool {
    &&& forall|i: int| 0 <= i < found.len() ==> lists_component(r, (#[trigger] found[i])@)
    &&& forall|p: (int, int)| #[trigger] r.has(p) ==> claimed(r, found, p)
    &&& forall|i: int, q: (int, int)|
        0 <= i < found.len() && #[trigger] connected(r, seed(found[i]), q) ==> !precedes(
            q,
            seed(found[i]),
        )
    &&& forall|i: int, j: int|
        0 <= i < j < found.len() ==> precedes(seed(#[trigger] found[i]), seed(#[trigger] found[j]))
}

/// The state of a scan for components that stands at `(x, y)`: `v` marks
/// the pixels of the components listed in `found`, and these are the
/// components of all set pixels that the scan has passed.
spec fn census(r: Raster, found: Seq<Vec<(usize, usize)>>, v: Seq<bool>, x: int, y: int) -> bool {
    &&& r.wf()
    &&& sealed(r, v)
    &&& forall|p: (int, int)| #[trigger] r.has(p) && scanned(p.0, p.1, x, y) ==> marked(r, v, p)
    &&& forall|p: (int, int)|
        r.on_canvas(p.0, p.1) && #[trigger] marked(r, v, p) ==> claimed(r, found, p)
    &&& forall|i: int| 0 <= i < found.len() ==> lists_component(r, (#[trigger] found[i])@)
    &&& forall|i: int|
        0 <= i < found.len() ==> scanned(seed(#[trigger] found[i]).0, seed(found[i]).1, x, y)
    &&& forall|i: int, q: (int, int)|
        0 <= i < found.len() && #[trigger] connected(r, seed(found[i]), q) ==> !precedes(
            q,
            seed(found[i]),
        )
    &&& forall|i: int, j: int|
        0 <= i < j < found.len() ==> precedes(seed(#[trigger] found[i]), seed(#[trigger] found[j]))
}

/// A scan starts without marks and without components.
proof fn lemma_census_start(r: Raster, v: Seq<bool>)
    requires
        r.wf(),
        v == Seq::new(r.cells(), |i: int| false),
    ensures
        census(r, Seq::empty(), v, 0, 0),
{
    assert forall|p: (int, int)| #[trigger] marks(r, v).contains(p) implies r.has(p) by {
        lemma_index_bound(r.width, r.height, p.0, p.1);
    }
    assert forall|p: (int, int), q: (int, int)|
        marks(r, v).contains(p) && r.has(q) && #[trigger] adjacent(p, q) implies marks(
        r,
        v,
    ).contains(q) by {
        lemma_index_bound(r.width, r.height, p.0, p.1);
    }
    assert forall|p: (int, int)| r.on_canvas(p.0, p.1) && #[trigger] marked(r, v, p) implies claimed(
        r,
        Seq::empty(),
        p,
    ) by {
        lemma_index_bound(r.width, r.height, p.0, p.1);
    }
}

/// The scan passes a pixel that is unset or marked already.
proof fn lemma_census_skip(r: Raster, found: Seq<Vec<(usize, usize)>>, v: Seq<bool>, x: int, y: int)
    requires
        census(r, found, v, x, y),
        r.on_canvas(x, y),
        !r.pixel(x, y) || marked(r, v, (x, y)),
    ensures
        census(r, found, v, x + 1, y),
{
    assert forall|p: (int, int)| #[trigger] r.has(p) && scanned(p.0, p.1, x + 1, y) implies marked(
        r,
        v,
        p,
    ) by {
        if !scanned(p.0, p.1, x, y) {
            assert(p == (x, y));
        }
    }
    assert forall|i: int| 0 <= i < found.len() implies scanned(
        seed(#[trigger] found[i]).0,
        seed(found[i]).1,
        x + 1,
        y,
    ) by {
        assert(scanned(seed(found[i]).0, seed(found[i]).1, x, y));
    }
}

/// The scan meets a set pixel without a mark: a flood fill from it finds a
/// new component.
proof fn lemma_census_add(
    r: Raster,
    found: Seq<Vec<(usize, usize)>>,
    v: Seq<bool>,
    x: int,
    y: int,
    list: Vec<(usize, usize)>,
    v2: Seq<bool>,
)
    requires
        census(r, found, v, x, y),
        r.lit(x, y),
        !marked(r, v, (x, y)),
        sealed(r, v2),
        lists_component(r, list@),
        seed(list) == (x, y),
        forall|p: (int, int)|
            r.on_canvas(p.0, p.1) ==> #[trigger] marked(r, v2, p) == (marked(r, v, p) || connected(
                r,
                (x, y),
                p,
            )),
    ensures
        census(r, found.push(list), v2, x + 1, y),
{
    let more = found.push(list);
    let last = found.len() as int;
    assert(more[last] == list);
    lemma_connected_self(r, (x, y));
    assert forall|p: (int, int)| #[trigger] r.has(p) && scanned(p.0, p.1, x + 1, y) implies marked(
        r,
        v2,
        p,
    ) by {
        assert(marked(r, v2, p) == (marked(r, v, p) || connected(r, (x, y), p)));
        if !scanned(p.0, p.1, x, y) {
            assert(p == (x, y));
        }
    }
    assert forall|p: (int, int)| r.on_canvas(p.0, p.1) && #[trigger] marked(r, v2, p) implies claimed(
        r,
        more,
        p,
    ) by {
        assert(marked(r, v2, p) == (marked(r, v, p) || connected(r, (x, y), p)));
        if marked(r, v, p) {
            assert(claimed(r, found, p));
            let i = choose|i: int| 0 <= i < found.len() && connected(r, seed(#[trigger] found[i]), p);
            assert(more[i] == found[i]);
        } else {
            assert(connected(r, seed(more[last]), p));
        }
    }
    assert forall|i: int| 0 <= i < more.len() implies lists_component(r, (#[trigger] more[i])@) by {
        if i < last {
            assert(more[i] == found[i]);
        }
    }
    assert forall|i: int| 0 <= i < more.len() implies scanned(
        seed(#[trigger] more[i]).0,
        seed(more[i]).1,
        x + 1,
        y,
    ) by {
        if i < last {
            assert(more[i] == found[i]);
            assert(scanned(seed(found[i]).0, seed(found[i]).1, x, y));
        }
    }
    assert forall|i: int, q: (int, int)|
        0 <= i < more.len() && #[trigger] connected(r, seed(more[i]), q) implies !precedes(
        q,
        seed(more[i]),
    ) by {
        if i < last {
            assert(more[i] == found[i]);
        } else if precedes(q, (x, y)) {
            // a pixel passed before is marked, and the marks hold whole components
            lemma_connected_has(r, (x, y), q);
            assert(r.has(q) && scanned(q.0, q.1, x, y));
            assert(marked(r, v, q));
            assert(marks(r, v).contains(q));
            lemma_connected_sym(r, (x, y), q);
            lemma_closed_holds_component(r, marks(r, v), q, (x, y));
        }
    }
    assert forall|i: int, j: int| 0 <= i < j < more.len() implies precedes(
        seed(#[trigger] more[i]),
        seed(#[trigger] more[j]),
    ) by {
        assert(more[i] == found[i]);
        if j < last {
            assert(more[j] == found[j]);
        } else {
            assert(scanned(seed(found[i]).0, seed(found[i]).1, x, y));
        }
    }
}

/// The end of a row is the start of the next one.
proof fn lemma_census_row(r: Raster, found: Seq<Vec<(usize, usize)>>, v: Seq<bool>, y: int)
    requires
        census(r, found, v, r.width as int, y),
    ensures
        census(r, found, v, 0, y + 1),
{
    assert forall|p: (int, int)| #[trigger] r.has(p) && scanned(p.0, p.1, 0, y + 1) implies marked(
        r,
        v,
        p,
    ) by {
        assert(scanned(p.0, p.1, r.width as int, y));
    }
    assert forall|i: int| 0 <= i < found.len() implies scanned(
        seed(#[trigger] found[i]).0,
        seed(found[i]).1,
        0,
        y + 1,
    ) by {
        assert(scanned(seed(found[i]).0, seed(found[i]).1, r.width as int, y));
    }
}

/// After the last row, all components are listed.
proof fn lemma_census_done(r: Raster, found: Seq<Vec<(usize, usize)>>, v: Seq<bool>)
    requires
        census(r, found, v, 0, r.height as int),
    ensures
        surveyed(r, found),
{
    assert forall|p: (int, int)| #[trigger] r.has(p) implies claimed(r, found, p) by {
        assert(scanned(p.0, p.1, 0, r.height as int));
        assert(marked(r, v, p));
    }
}

/// Connected pixels have the same component.
pub proof fn lemma_same_component(r: Raster, a: (int, int), b: (int, int))
    requires
        connected(r, a, b),
    ensures
        component(r, a) == component(r, b),
{
    lemma_connected_sym(r, a, b);
    assert forall|q: (int, int)| component(r, a).contains(q) == component(r, b).contains(q) by {
        if connected(r, a, q) {
            lemma_connected_trans(r, b, a, q);
        }
        if connected(r, b, q) {
            lemma_connected_trans(r, a, b, q);
        }
    }
    assert(component(r, a) =~= component(r, b));
}

/// A list of a whole component is as long as the component is large.
pub proof fn lemma_component_size(r: Raster, list: Seq<(usize, usize)>)
    requires
        lists_component(r, list),
    ensures
        component(r, spot(list[0])).len() == list.len(),
{
    let pixels = Seq::new(list.len(), |k: int| spot(list[k]));
    assert forall|i: int, j: int|
        0 <= i < pixels.len() && 0 <= j < pixels.len() && i != j implies pixels[i] != pixels[j] by {
        if i < j {
            assert(spot(list[i]) != spot(list[j]));
        } else {
            assert(spot(list[j]) != spot(list[i]));
        }
    }
    assert forall|q: (int, int)| pixels.to_set().contains(q) == component(
        r,
        spot(list[0]),
    ).contains(q) by {
        if pixels.contains(q) {
            let k = choose|k: int| 0 <= k < pixels.len() && pixels[k] == q;
            assert(connected(r, spot(list[0]), spot(list[k])));
        }
        if connected(r, spot(list[0]), q) {
            let k = choose|k: int| 0 <= k < list.len() && spot(#[trigger] list[k]) == q;
            assert(pixels[k] == q);
        }
    }
    assert(pixels.to_set() =~= component(r, spot(list[0])));
    pixels.unique_seq_to_set();
}

/// The first of the longest lists of a survey starts with the chosen pixel.
proof fn lemma_chosen(r: Raster, found: Seq<Vec<(usize, usize)>>, best: int)
    requires
        surveyed(r, found),
        0 <= best < found.len(),
        forall|i: int| 0 <= i < found.len() ==> (#[trigger] found[i])@.len() <= found[best]@.len(),
        forall|i: int| 0 <= i < best ==> (#[trigger] found[i])@.len() < found[best]@.len(),
    ensures
        r.is_chosen(seed(found[best])),
{
    let chosen = seed(found[best]);
    assert(lists_component(r, found[best]@));
    lemma_component_size(r, found[best]@);
    assert(connected(r, spot(found[best]@[0]), spot(found[best]@[0])));
    lemma_connected_has(r, chosen, chosen);
    assert forall|q: (int, int)| #[trigger] r.has(q) implies component(r, q).len() < component(
        r,
        chosen,
    ).len() || (component(r, q).len() == component(r, chosen).len() && !precedes(q, chosen)) by {
        assert(claimed(r, found, q));
        let j = choose|j: int| 0 <= j < found.len() && connected(r, seed(#[trigger] found[j]), q);
        assert(lists_component(r, found[j]@));
        lemma_component_size(r, found[j]@);
        lemma_same_component(r, seed(found[j]), q);
        assert(!precedes(q, seed(found[j])));
        if best < j {
            assert(precedes(seed(found[best]), seed(found[j])));
        }
    }
}

/// At most one pixel is chosen.
pub proof fn lemma_chosen_unique(r: Raster, p: (int, int), q: (int, int))
    requires
        r.is_chosen(p),
        r.is_chosen(q),
    ensures
        p == q,
{
    assert(r.has(p) && r.has(q));
}

/// A survey lists more than one component exactly when the raster is
/// fragmented.
proof fn lemma_fragmented(r: Raster, found: Seq<Vec<(usize, usize)>>)
    requires
        surveyed(r, found),
    ensures
        r.fragmented() == (found.len() > 1),
{
    if found.len() > 1 {
        let a = seed(found[0]);
        let b = seed(found[1]);
        assert(precedes(a, b));
        assert(lists_component(r, found[0]@));
        assert(lists_component(r, found[1]@));
        assert(connected(r, spot(found[0]@[0]), spot(found[0]@[0])));
        assert(connected(r, spot(found[1]@[0]), spot(found[1]@[0])));
        lemma_connected_has(r, a, a);
        lemma_connected_has(r, b, b);
        if connected(r, a, b) {
            lemma_connected_sym(r, a, b);
            assert(!precedes(a, seed(found[1])));
        }
        assert(r.has(a) && r.has(b) && !connected(r, a, b));
    } else {
        assert forall|a: (int, int), b: (int, int)| r.has(a) && r.has(b) implies #[trigger] connected(
            r,
            a,
            b,
        ) by {
            assert(claimed(r, found, a));
            assert(claimed(r, found, b));
            let i = choose|i: int| 0 <= i < found.len() && connected(r, seed(#[trigger] found[i]), a);
            let j = choose|j: int| 0 <= j < found.len() && connected(r, seed(#[trigger] found[j]), b);
            lemma_connected_sym(r, seed(found[0]), a);
            lemma_connected_trans(r, a, seed(found[0]), b);
        }
    }
}

/// Every pixel of a path is connected to its start.
proof fn lemma_path_prefix(r: Raster, path: Seq<(int, int)>, a: (int, int), b: (int, int), i: int)
    requires
        joins(r, path, a, b),
        0 <= i < path.len(),
    ensures
        connected(r, a, path[i]),
{
    let part = path.take(i + 1);
    assert forall|k: int| 0 <= k < part.len() implies r.has(#[trigger] part[k]) by {
        assert(r.has(path[k]));
    }
    assert forall|k: int| 0 <= k < part.len() - 1 implies #[trigger] linked(part, k) by {
        assert(linked(path, k));
    }
    assert(joins(r, part, a, path[i]));
}

/// The largest component, taken alone, is a raster without fill bits whose
/// set pixels are all connected.
pub proof fn lemma_largest_whole(r: Raster)
    requires
        r.wf(),
    ensures
        r.largest_component().wf(),
        r.largest_component().plain(),
        r.largest_component().same_size(r),
        !r.largest_component().fragmented(),
{
    let blank = Raster::blank(r.width, r.height);
    let paint = |x: int, y: int| r.largest_component_pixel(x, y);
    let kept = r.largest_component();
    lemma_repaint_pixel(blank, paint);
    assert forall|a: (int, int), b: (int, int)| kept.has(a) && kept.has(b) implies #[trigger] connected(
        kept,
        a,
        b,
    ) by {
        assert(kept.pixel(a.0, a.1) == paint(a.0, a.1));
        assert(kept.pixel(b.0, b.1) == paint(b.0, b.1));
        let c = choose|c: (int, int)| #[trigger] r.is_chosen(c) && connected(r, c, (a.0, a.1));
        let d = choose|d: (int, int)| #[trigger] r.is_chosen(d) && connected(r, d, (b.0, b.1));
        lemma_chosen_unique(r, c, d);
        lemma_kept_path(r, c, a);
        lemma_kept_path(r, c, b);
        lemma_connected_sym(kept, c, a);
        lemma_connected_trans(kept, a, c, b);
    }
}

/// A pixel connected to the chosen pixel is connected to it within the
/// largest component taken alone.
proof fn lemma_kept_path(r: Raster, c: (int, int), a: (int, int))
    requires
        r.wf(),
        r.is_chosen(c),
        connected(r, c, a),
    ensures
        connected(r.largest_component(), c, a),
{
    let blank = Raster::blank(r.width, r.height);
    let paint = |x: int, y: int| r.largest_component_pixel(x, y);
    let kept = r.largest_component();
    lemma_repaint_pixel(blank, paint);
    let path = choose|path: Seq<(int, int)>| #[trigger] joins(r, path, c, a);
    assert forall|i: int| 0 <= i < path.len() implies kept.has(#[trigger] path[i]) by {
        lemma_path_prefix(r, path, c, a, i);
        assert(r.has(path[i]));
        assert(r.is_chosen(c) && connected(r, c, (path[i].0, path[i].1)));
        assert(kept.pixel(path[i].0, path[i].1) == paint(path[i].0, path[i].1));
    }
    lemma_path_carries(r, kept, path);
    assert(joins(kept, path, c, a));
}

/// A pixel that is set after the repair is, or is the neighbour of, a pixel
/// that was set before.
proof fn lemma_anchor(l: Raster, a: (int, int)) -> (s: (int, int))
    requires
        l.wf(),
        l.repaired().has(a),
    ensures
        l.has(s),
        connected(l.repaired(), s, a),
{
    let fixed = l.repaired();
    lemma_repaint_pixel(l, |x: int, y: int| l.repaired_pixel(x, y));
    law_repair_keeps_pixels(l);
    assert(fixed.pixel(a.0, a.1) == l.repaired_pixel(a.0, a.1));
    let s = if l.pixel(a.0, a.1) {
        a
    } else if l.diagonal_gap(a.0, a.1 + 1, -1) {
        (a.0, a.1 + 1)
    } else {
        (a.0, a.1 - 1)
    };
    assert(l.has(s));
    assert(fixed.has(s));
    lemma_connected_self(fixed, s);
    if s != a {
        assert(adjacent(s, a));
        lemma_connected_step(fixed, s, s, a);
    }
    s
}

/// The repair of a raster whose set pixels are all connected leaves them
/// all connected.
pub proof fn lemma_repair_whole(l: Raster)
    requires
        l.wf(),
        !l.fragmented(),
    ensures
        !l.repaired().fragmented(),
{
    let fixed = l.repaired();
    law_repair_keeps_pixels(l);
    assert forall|a: (int, int), b: (int, int)| fixed.has(a) && fixed.has(b) implies #[trigger] connected(
        fixed,
        a,
        b,
    ) by {
        let sa = lemma_anchor(l, a);
        let sb = lemma_anchor(l, b);
        assert(connected(l, sa, sb));
        lemma_connected_covered(l, fixed, sa, sb);
        lemma_connected_sym(fixed, sa, a);
        lemma_connected_trans(fixed, a, sa, sb);
        lemma_connected_trans(fixed, a, sb, b);
    }
}

/// One step of pruning returns a raster without fill bits whose set pixels
/// are all connected.
pub proof fn lemma_step_whole(r: Raster)
    requires
        r.wf(),
    ensures
        r.prune_step().wf(),
        r.prune_step().plain(),
        r.prune_step().same_size(r),
        !r.prune_step().fragmented(),
{
    let kept = r.largest_component();
    lemma_largest_whole(r);
    lemma_repair_whole(kept);
    lemma_repaint_pixel(kept, |x: int, y: int| kept.repaired_pixel(x, y));
}

/// Pruning is one step, followed by the pruning of its result where there
/// was more than one component; and the result of a step has a single
/// component at most.
pub proof fn law_pruned_unfolds(r: Raster)
    requires
        r.wf(),
    ensures
        !r.prune_step().fragmented(),
        r.pruned() == if r.fragmented() {
            r.prune_step().pruned()
        } else {
            r.prune_step()
        },
{
    lemma_step_whole(r);
}

/// For pixels of the canvas, coming first in row-major order is having the
/// lower position among the stored bits.
proof fn lemma_precedes_index(r: Raster, a: (int, int), b: (int, int))
    requires
        r.on_canvas(a.0, a.1),
        r.on_canvas(b.0, b.1),
        precedes(a, b),
    ensures
        0 <= r.index(a.0, a.1) < r.index(b.0, b.1),
{
    lemma_index_bound(r.width, r.height, a.0, a.1);
    if a.1 < b.1 {
        assert((a.1 + 1) * r.width <= b.1 * r.width) by (nonlinear_arith)
            requires
                a.1 + 1 <= b.1,
                r.width >= 0,
        ;
        assert((a.1 + 1) * r.width == a.1 * r.width + r.width) by (nonlinear_arith);
    }
}

/// A raster with a set pixel has a first set pixel in row-major order.
proof fn lemma_first_pixel(r: Raster, a: (int, int)) -> (m: (int, int))
    requires
        r.has(a),
    ensures
        r.has(m),
        forall|q: (int, int)| #[trigger] r.has(q) ==> !precedes(q, m),
    decreases r.index(a.0, a.1),
{
    if exists|q: (int, int)| #[trigger] r.has(q) && precedes(q, a) {
        let q = choose|q: (int, int)| #[trigger] r.has(q) && precedes(q, a);
        lemma_precedes_index(r, q, a);
        lemma_first_pixel(r, q)
    } else {
        a
    }
}

/// In a raster whose set pixels are all connected, the largest component is
/// all of them.
pub proof fn lemma_largest_of_whole(r: Raster)
    requires
        r.wf(),
        !r.fragmented(),
    ensures
        r.largest_component().same_pixels(r),
{
    let blank = Raster::blank(r.width, r.height);
    let paint = |x: int, y: int| r.largest_component_pixel(x, y);
    let kept = r.largest_component();
    lemma_repaint_pixel(blank, paint);
    assert forall|x: int, y: int| kept.on_canvas(x, y) implies kept.pixel(x, y) == r.pixel(x, y) by {
        assert(kept.pixel(x, y) == paint(x, y));
        if r.pixel(x, y) {
            let m = lemma_first_pixel(r, (x, y));
            assert forall|q: (int, int)| #[trigger] r.has(q) implies component(r, q).len()
                < component(r, m).len() || (component(r, q).len() == component(r, m).len()
                && !precedes(q, m)) by {
                assert(connected(r, q, m));
                lemma_same_component(r, q, m);
            }
            assert(r.is_chosen(m));
            assert(connected(r, m, (x, y)));
        }
        if r.largest_component_pixel(x, y) {
            let c = choose|c: (int, int)| #[trigger] r.is_chosen(c) && connected(r, c, (x, y));
            lemma_connected_has(r, c, (x, y));
        }
    }
}

/// The repair looks at the pixels of the canvas only.
pub proof fn lemma_repair_same_pixels(a: Raster, b: Raster)
    requires
        a.wf(),
        b.wf(),
        a.same_pixels(b),
    ensures
        a.repaired().same_pixels(b.repaired()),
{
    lemma_repaint_pixel(a, |x: int, y: int| a.repaired_pixel(x, y));
    lemma_repaint_pixel(b, |x: int, y: int| b.repaired_pixel(x, y));
    assert forall|x: int, y: int| a.on_canvas(x, y) implies a.repaired().pixel(x, y)
        == b.repaired().pixel(x, y) by {
        assert(a.repaired().pixel(x, y) == a.repaired_pixel(x, y));
        assert(b.repaired().pixel(x, y) == b.repaired_pixel(x, y));
        assert(a.diagonal_gap(x, y + 1, -1) == b.diagonal_gap(x, y + 1, -1)) by {
            if a.interior(x, y + 1) {
                assert(a.pixel(x, y + 1) == b.pixel(x, y + 1));
                assert(a.pixel(x - 1, y) == b.pixel(x - 1, y));
                assert(a.pixel(x - 1, y + 1) == b.pixel(x - 1, y + 1));
                assert(a.pixel(x + 1, y) == b.pixel(x + 1, y));
                assert(a.pixel(x + 1, y + 1) == b.pixel(x + 1, y + 1));
            }
        }
        assert(a.diagonal_gap(x, y - 1, 1) == b.diagonal_gap(x, y - 1, 1)) by {
            if a.interior(x, y - 1) {
                assert(a.pixel(x, y - 1) == b.pixel(x, y - 1));
                assert(a.pixel(x - 1, y) == b.pixel(x - 1, y));
                assert(a.pixel(x - 1, y - 1) == b.pixel(x - 1, y - 1));
                assert(a.pixel(x + 1, y) == b.pixel(x + 1, y));
                assert(a.pixel(x + 1, y - 1) == b.pixel(x + 1, y - 1));
            }
        }
    }
}

/// An image with a single component keeps it: pruning returns the pixels of
/// the image after one pass of diagonal repair, without fill bits.
pub proof fn law_single_component_kept(r: Raster)
    requires
        r.wf(),
        !r.fragmented(),
    ensures
        r.pruned().same_pixels(r.repaired()),
        r.pruned().plain(),
{
    lemma_step_whole(r);
    lemma_largest_whole(r);
    lemma_largest_of_whole(r);
    lemma_repair_same_pixels(r.largest_component(), r);
}

/// Pruning what was pruned repairs it once more and does nothing else. So
/// pruning twice gives the same as pruning once exactly when the pruned
/// raster has no diagonal gap left.
pub proof fn law_prune_twice(r: Raster)
    requires
        r.wf(),
    ensures
        r.pruned().pruned() == r.pruned().repaired(),
        (r.pruned().pruned() == r.pruned()) == (r.pruned().repaired() == r.pruned()),
{
    lemma_step_whole(r);
    lemma_step_whole(r.prune_step());
    let once = r.pruned();
    let kept = once.largest_component();
    lemma_largest_whole(once);
    lemma_largest_of_whole(once);
    let blank = Raster::blank(once.width, once.height);
    let paint = |x: int, y: int| once.largest_component_pixel(x, y);
    lemma_repaint_pixel(blank, paint);
    assert forall|x: int, y: int| blank.on_canvas(x, y) implies once.pixel(x, y) == paint(x, y) by {
        assert(kept.pixel(x, y) == paint(x, y));
    }
    lemma_repaint_unique(blank, once, paint);
}

/// A vector of `n` unset marks.
fn unmarked(n: usize) -> (v: Vec<bool>)
    ensures
        v@ == Seq::new(n as nat, |i: int| false),
{
    let mut v: Vec<bool> = Vec::new();
    let mut i: usize = 0;
    while i < n
        invariant
            i <= n,
            v@ == Seq::new(i as nat, |k: int| false),
        decreases n - i,
    {
        v.push(false);
        proof {
            assert(v@ =~= Seq::new((i + 1) as nat, |k: int| false));
        }
        i += 1;
    }
    v
}

/// The position of the first of the longest lists.
fn first_longest(found: &Vec<Vec<(usize, usize)>>) -> (best: usize)
    requires
        found@.len() > 0,
    ensures
        best < found@.len(),
        forall|i: int| 0 <= i < found@.len() ==> (#[trigger] found@[i])@.len() <= found@[best as int]@.len(),
        forall|i: int| 0 <= i < best ==> (#[trigger] found@[i])@.len() < found@[best as int]@.len(),
{
    let mut best: usize = 0;
    let mut i: usize = 1;
    while i < found.len()
        invariant
            best < i <= found@.len(),
            forall|k: int| 0 <= k < i ==> (#[trigger] found@[k])@.len() <= found@[best as int]@.len(),
            forall|k: int| 0 <= k < best ==> (#[trigger] found@[k])@.len() < found@[best as int]@.len(),
        decreases found@.len() - i,
    {
        if found[i].len() > found[best].len() {
            best = i;
        }
        i += 1;
    }
    best
}

impl BinaryImage {
    /// The largest component alone, on a canvas of the same size, and
    /// whether there was more than one component. Of several components of
    /// the largest size, the one that a row-major scan meets first is kept.
    fn keep_largest(&self) -> (kept: (BinaryImage, bool))
        ensures
            kept.0@ == self@.largest_component(),
            kept.0@.wf(),
            kept.1 == self@.fragmented(),
    {
        self.validity();
        let ghost r = self@;
        let found = self.find_components();
        let mut image = BinaryImage::new_w_h(self.width(), self.height());
        let ghost blank = Raster::blank(r.width, r.height);
        let ghost paint = |x: int, y: int| r.largest_component_pixel(x, y);
        proof {
            lemma_fragmented(r, found@);
        }
        if found.len() > 0 {
            let best = first_longest(&found);
            let list = &found[best];
            let ghost chosen = seed(*list);
            proof {
                lemma_chosen(r, found@, best as int);
                assert(lists_component(r, list@));
                assert forall|k: int| 0 <= k < list@.len() implies r.on_canvas(
                    spot(#[trigger] list@[k]).0,
                    spot(list@[k]).1,
                ) by {
                    assert(connected(r, spot(list@[0]), spot(list@[k])));
                    lemma_connected_has(r, spot(list@[0]), spot(list@[k]));
                }
                assert forall|p: (int, int)| blank.on_canvas(p.0, p.1) implies #[trigger] image@.pixel(
                    p.0,
                    p.1,
                ) == holds(list@.take(0), p) by {
                    lemma_index_bound(blank.width, blank.height, p.0, p.1);
                }
            }
            let count = list.len();
            let mut k: usize = 0;
            while k < count
                invariant
                    k <= count,
                    count == list@.len(),
                    r.wf(),
                    blank == Raster::blank(r.width, r.height),
                    image@.wf(),
                    image@.same_size(blank),
                    image@.plain(),
                    forall|i: int|
                        0 <= i < list@.len() ==> r.on_canvas(
                            spot(#[trigger] list@[i]).0,
                            spot(list@[i]).1,
                        ),
                    forall|p: (int, int)|
                        blank.on_canvas(p.0, p.1) ==> #[trigger] image@.pixel(p.0, p.1) == holds(
                            list@.take(k as int),
                            p,
                        ),
                decreases count - k,
            {
                let (x, y) = list[k];
                let ghost before = image@;
                proof {
                    assert(r.on_canvas(spot(list@[k as int]).0, spot(list@[k as int]).1));
                    lemma_with_pixel(before, x as int, y as int, true);
                }
                image.set_pixel(x, y, true);
                proof {
                    assert(list@.take(k + 1) =~= list@.take(k as int).push(list@[k as int]));
                    assert forall|p: (int, int)| blank.on_canvas(p.0, p.1) implies #[trigger] image@.pixel(
                        p.0,
                        p.1,
                    ) == holds(list@.take(k + 1), p) by {
                        lemma_holds_push(list@.take(k as int), list@[k as int], p);
                        assert(before.pixel(p.0, p.1) == holds(list@.take(k as int), p));
                        assert(image@.pixel(p.0, p.1) == if p.0 == x && p.1 == y {
                            true
                        } else {
                            before.pixel(p.0, p.1)
                        });
                        assert((spot(list@[k as int]) == p) == (p.0 == x && p.1 == y));
                    }
                }
                k += 1;
            }
            proof {
                assert(list@.take(count as int) =~= list@);
                assert forall|px: int, py: int| blank.on_canvas(px, py) implies image@.pixel(px, py)
                    == paint(px, py) by {
                    let p = (px, py);
                    assert(image@.pixel(p.0, p.1) == holds(list@, p));
                    if holds(list@, p) {
                        let i = choose|i: int| 0 <= i < list@.len() && spot(#[trigger] list@[i]) == p;
                        assert(connected(r, spot(list@[0]), spot(list@[i])));
                        assert(r.is_chosen(chosen) && connected(r, chosen, (px, py)));
                    }
                    if r.largest_component_pixel(px, py) {
                        let c = choose|c: (int, int)| #[trigger]
                            r.is_chosen(c) && connected(r, c, (px, py));
                        lemma_chosen_unique(r, c, chosen);
                        assert(connected(r, spot(list@[0]), p));
                    }
                }
                lemma_repaint_unique(blank, image@, paint);
            }
        } else {
            proof {
                assert forall|px: int, py: int| blank.on_canvas(px, py) implies image@.pixel(px, py)
                    == paint(px, py) by {
                    lemma_index_bound(blank.width, blank.height, px, py);
                    if r.largest_component_pixel(px, py) {
                        let c = choose|c: (int, int)| #[trigger]
                            r.is_chosen(c) && connected(r, c, (px, py));
                        assert(r.has(c));
                        assert(claimed(r, found@, c));
                    }
                }
                lemma_repaint_unique(blank, image@, paint);
            }
        }
        (image, found.len() > 1)
    }

    /// Removes every connected component but the largest. The components
    /// are taken under eight-connectivity; of several of the largest size,
    /// the one that a row-major scan meets first is kept. The kept
    /// component is repaired with [`BinaryImage::fix_diagonal_cc`]. Where
    /// there was more than one component, the result is pruned again.
    ///
    /// An image without a set pixel gives a blank image.
    pub fn remove_disjoint_components(&self) -> (image: BinaryImage)
        ensures
            image@ == self@.pruned(),
            image@.wf(),
        decreases
                (if self@.fragmented() {
                    1nat
                } else {
                    0nat
                }),
    {
        self.validity();
        let (largest, several) = self.keep_largest();
        let fixed = largest.fix_diagonal_cc();
        if several {
            proof {
                lemma_step_whole(self@);
            }
            fixed.remove_disjoint_components()
        } else {
            fixed
        }
    }

    /// Lists the connected components in the order in which a row-major
    /// scan meets them. Each component is found by a flood fill from the
    /// first of its pixels that the scan meets.
    fn find_components(&self) -> (found: Vec<Vec<(usize, usize)>>)
        ensures
            surveyed(self@, found@),
    {
        self.validity();
        let width = self.width();
        let height = self.height();
        let ghost r = self@;
        let mut visited = unmarked(width * height);
        let mut found: Vec<Vec<(usize, usize)>> = Vec::new();
        proof {
            lemma_census_start(r, visited@);
            assert(found@ =~= Seq::empty());
        }
        let mut y: usize = 0;
        while y < height
            invariant
                y <= height,
                r == self@,
                width == r.width,
                height == r.height,
                census(r, found@, visited@, 0, y as int),
            decreases height - y,
        {
            let mut x: usize = 0;
            while x < width
                invariant
                    x <= width,
                    y < height,
                    r == self@,
                    width == r.width,
                    height == r.height,
                    census(r, found@, visited@, x as int, y as int),
                decreases width - x,
            {
                proof {
                    lemma_index_bound(r.width, r.height, x as int, y as int);
                }
                if self.get_pixel(x, y) && !visited[y * width + x] {
                    let ghost before = visited@;
                    let ghost lists = found@;
                    let list = self.flood_fill(&mut visited, x, y);
                    proof {
                        lemma_census_add(r, lists, before, x as int, y as int, list, visited@);
                    }
                    found.push(list);
                } else {
                    proof {
                        lemma_census_skip(r, found@, visited@, x as int, y as int);
                    }
                }
                x += 1;
            }
            proof {
                lemma_census_row(r, found@, visited@, y as int);
            }
            y += 1;
        }
        proof {
            lemma_census_done(r, found@, visited@);
        }
        found
    }

    /// Marks the component of the set, unmarked pixel `(x, y)` and lists its
    /// pixels, `(x, y)` first. The pixels to visit are kept on a stack.
    fn flood_fill(&self, visited: &mut Vec<bool>, x: usize, y: usize) -> (found: Vec<
        (usize, usize),
    >)
        requires
            self@.lit(x as int, y as int),
            sealed(self@, old(visited)@),
            !marked(self@, old(visited)@, spot((x, y))),
        ensures
            sealed(self@, final(visited)@),
            lists_component(self@, found@),
            found@[0] == (x, y),
            forall|p: (int, int)|
                self@.on_canvas(p.0, p.1) ==> #[trigger] marked(self@, final(visited)@, p) == (
                marked(self@, old(visited)@, p) || connected(self@, spot((x, y)), p)),
    {
        self.validity();
        let width = self.width();
        let ghost r = self@;
        let ghost v0 = visited@;
        let mut found: Vec<(usize, usize)> = Vec::new();
        let mut stack: Vec<(usize, usize)> = Vec::new();
        stack.push((x, y));
        proof {
            lemma_fill_start(r, (x, y), v0);
            assert(stack@ =~= seq![(x, y)]);
            assert(found@ =~= Seq::empty());
        }
        while stack.len() > 0
            invariant
                r == self@,
                width == r.width,
                filling(r, (x, y), v0, visited@, found@, stack@),
            decreases visited@.len() - count_true(visited@), stack@.len(),
        {
            let ghost before = stack@;
            let ghost marks_before = visited@;
            let ghost found_before = found@;
            proof {
                lemma_fill_top(r, (x, y), v0, visited@, found@, stack@);
                lemma_count_bound(visited@);
            }
            let top = stack.pop();
            let (cx, cy) = match top {
                Some(c) => c,
                None => (x, y),
            };
            let idx = cy * width + cx;
            if visited[idx] {
                proof {
                    lemma_fill_skip(r, (x, y), v0, visited@, found@, before);
                }
            } else {
                visited.set(idx, true);
                found.push((cx, cy));
                self.push_neighbours(visited, &mut stack, cx, cy);
                proof {
                    assert forall|q: (int, int)|
                        r.has(q) && #[trigger] adjacent(spot(before.last()), q) implies marked(
                        r,
                        visited@,
                        q,
                    ) || holds(stack@, q) by {}
                    lemma_fill_take(r, (x, y), v0, marks_before, found_before, before, stack@);
                }
            }
        }
        proof {
            assert(stack@ =~= Seq::empty());
            lemma_fill_done(r, (x, y), v0, visited@, found@);
        }
        found
    }

    /// Appends to `stack` the set neighbours of `(cx, cy)` that `visited`
    /// does not mark, row by row.
    fn push_neighbours(
        &self,
        visited: &Vec<bool>,
        stack: &mut Vec<(usize, usize)>,
        cx: usize,
        cy: usize,
    )
        requires
            self@.on_canvas(cx as int, cy as int),
            visited@.len() == self@.cells(),
        ensures
            old(stack)@.len() <= final(stack)@.len(),
            forall|k: int| 0 <= k < old(stack)@.len() ==> final(stack)@[k] == old(stack)@[k],
            forall|k: int|
                old(stack)@.len() <= k < final(stack)@.len() ==> self@.has(
                    spot(#[trigger] final(stack)@[k]),
                ) && adjacent(spot((cx, cy)), spot(final(stack)@[k])),
            forall|q: (int, int)|
                self@.has(q) && #[trigger] adjacent(spot((cx, cy)), q) ==> visited@[self@.index(
                    q.0,
                    q.1,
                )] || holds(final(stack)@, q),
    {
        self.validity();
        let width = self.width();
        let height = self.height();
        let ghost r = self@;
        let ghost c = spot((cx, cy));
        let mut j: usize = 0;
        while j < 3
            invariant
                j <= 3,
                r == self@,
                r.wf(),
                width == r.width,
                height == r.height,
                c == spot((cx, cy)),
                r.on_canvas(cx as int, cy as int),
                visited@.len() == r.cells(),
                old(stack)@.len() <= stack@.len(),
                forall|k: int| 0 <= k < old(stack)@.len() ==> stack@[k] == old(stack)@[k],
                forall|k: int|
                    old(stack)@.len() <= k < stack@.len() ==> r.has(spot(#[trigger] stack@[k]))
                        && adjacent(c, spot(stack@[k])),
                forall|q: (int, int)|
                    r.has(q) && #[trigger] adjacent(c, q) && scanned(
                        q.0 - cx + 1,
                        q.1 - cy + 1,
                        0,
                        j as int,
                    ) ==> visited@[r.index(q.0, q.1)] || holds(stack@, q),
            decreases 3 - j,
        {
            let mut i: usize = 0;
            while i < 3
                invariant
                    i <= 3,
                    j < 3,
                    r == self@,
                    r.wf(),
                    width == r.width,
                    height == r.height,
                    c == spot((cx, cy)),
                    r.on_canvas(cx as int, cy as int),
                    visited@.len() == r.cells(),
                    old(stack)@.len() <= stack@.len(),
                    forall|k: int| 0 <= k < old(stack)@.len() ==> stack@[k] == old(stack)@[k],
                    forall|k: int|
                        old(stack)@.len() <= k < stack@.len() ==> r.has(spot(#[trigger] stack@[k]))
                            && adjacent(c, spot(stack@[k])),
                    forall|q: (int, int)|
                        r.has(q) && #[trigger] adjacent(c, q) && scanned(
                            q.0 - cx + 1,
                            q.1 - cy + 1,
                            i as int,
                            j as int,
                        ) ==> visited@[r.index(q.0, q.1)] || holds(stack@, q),
                decreases 3 - i,
            {
                let ghost before = stack@;
                if !(i == 1 && j == 1) {
                    let nx = shifted(cx, i, 1, width);
                    let ny = shifted(cy, j, 1, height);
                    match (nx, ny) {
                        (Some(nx), Some(ny)) => {
                            proof {
                                lemma_index_bound(r.width, r.height, nx as int, ny as int);
                            }
                            if self.get_pixel(nx, ny) && !visited[ny * width + nx] {
                                stack.push((nx, ny));
                            }
                        },
                        _ => {},
                    }
                }
                proof {
                    assert forall|q: (int, int)|
                        r.has(q) && #[trigger] adjacent(c, q) && scanned(
                            q.0 - cx + 1,
                            q.1 - cy + 1,
                            i + 1,
                            j as int,
                        ) implies visited@[r.index(q.0, q.1)] || holds(stack@, q) by {
                        if scanned(q.0 - cx + 1, q.1 - cy + 1, i as int, j as int) {
                            if !visited@[r.index(q.0, q.1)] {
                                lemma_holds_extended(before, stack@, q);
                            }
                        } else {
                            assert(q.0 == cx + i - 1 && q.1 == cy + j - 1);
                            if !visited@[r.index(q.0, q.1)] {
                                assert(spot(stack@[stack@.len() - 1]) == q);
                            }
                        }
                    }
                }
                i += 1;
            }
            j += 1;
        }
    }
}

} // verus!
