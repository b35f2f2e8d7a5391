//! Flood fill: the grid split into maximal 4-connected regions of equal
//! cells, with the fence around each region and its straight sides.
use vstd::prelude::*;
use vstd::laws_eq::obeys_concrete_eq;

use crate::grid::{Grid, GridView, lemma_index_bounds};
use crate::position::{Direction, Position, neighbour};

verus! {

/// `p` and `q` are orthogonal neighbours.
pub open spec fn adjacent(p: Position, q: Position) -> bool {
    ||| p.x == q.x && (p.y + 1 == q.y || q.y + 1 == p.y)
    ||| p.y == q.y && (p.x + 1 == q.x || q.x + 1 == p.x)
}

/// `w` walks from its first cell through neighbouring cells, all inside
/// `g` and all equal to the first.
pub open spec fn is_walk<T>(g: GridView<T>, w: Seq<Position>) -> bool {
    &&& w.len() >= 1
    &&& forall|i: int| 0 <= i < w.len() ==> g.in_bounds(#[trigger] w[i]) && g.cell(w[i]) == g.cell(w[0])
    &&& forall|i: int| 0 <= i < w.len() - 1 ==> adjacent(#[trigger] w[i], w[i + 1])
}

/// A walk over equal cells leads from `a` to `b`.
pub open spec fn linked<T>(g: GridView<T>, a: Position, b: Position) -> bool {
    exists|w: Seq<Position>| is_walk(g, w) && w[0] == a && w.last() == b
}

/// `r` lists, once each, the cells of a maximal 4-connected set of equal
/// cells: all are linked to the first, and every equal neighbour of one of
/// them is among them.
pub open spec fn is_region<T>(g: GridView<T>, r: Seq<Position>) -> bool {
    &&& r.len() >= 1
    &&& r.no_duplicates()
    &&& forall|i: int| 0 <= i < r.len() ==> g.in_bounds(#[trigger] r[i]) && linked(g, r[0], r[i])
    &&& forall|p: Position, q: Position|
        #[trigger] r.contains(p) && g.in_bounds(q) && adjacent(p, q) && g.cell(q) == g.cell(p) ==> #[trigger] r.contains(q)
}

/// `regions` are regions of `g`, and every cell of `g` lies in exactly one.
pub open spec fn partitions<T>(g: GridView<T>, regions: Seq<Seq<Position>>) -> bool {
    &&& forall|k: int| 0 <= k < regions.len() ==> is_region(g, #[trigger] regions[k])
    &&& forall|p: Position| g.in_bounds(p) ==> exists|k: int| 0 <= k < regions.len() && #[trigger] regions[k].contains(p)
    &&& forall|k1: int, k2: int, p: Position|
        0 <= k1 < regions.len() && 0 <= k2 < regions.len() && #[trigger] regions[k1].contains(p)
            && #[trigger] regions[k2].contains(p) ==> k1 == k2
}

/// Every labelled cell shares its label with each equal neighbour, but for
/// cells labelled `open` that are still waiting in `pending`.
spec fn labels_closed<T>(g: GridView<T>, label: Seq<usize>, open: usize, pending: Seq<Position>) -> bool {
    forall|p: Position, q: Position|
        g.in_bounds(p) && g.in_bounds(q) && adjacent(p, q) && g.cell(q) == g.cell(p)
            && #[trigger] label[g.index_of(p)] != 0 && !(label[g.index_of(p)] == open && pending.contains(p))
            ==> #[trigger] label[g.index_of(q)] == label[g.index_of(p)]
}

proof fn lemma_walk_extend<T>(g: GridView<T>, a: Position, p: Position, q: Position)
    requires
        linked(g, a, p),
        g.in_bounds(q),
        adjacent(p, q),
        g.cell(q) == g.cell(a),
    ensures
        linked(g, a, q),
{
    let w = choose|w: Seq<Position>| is_walk(g, w) && w[0] == a && w.last() == p;
    let w2 = w.push(q);
    assert forall|i: int| 0 <= i < w2.len() - 1 implies adjacent(#[trigger] w2[i], w2[i + 1]) by {
        if i < w.len() - 1 {
            assert(w2[i] == w[i] && w2[i + 1] == w[i + 1]);
        }
    }
    assert(w2[0] == w[0]);
    assert(is_walk(g, w2));
    assert(w2.last() == q);
}

/// Fills the region of `seed` with the label `id`, through an explicit
/// stack of cells whose neighbours are still to be looked at.
fn flood_region<T: PartialEq>(grid: &Grid<T>, seed: Position, label: &mut Vec<usize>, id: usize) -> (region: Vec<Position>)
    requires
        grid@.wf(),
        obeys_concrete_eq::<T>(),
        grid@.in_bounds(seed),
        id >= 1,
        old(label)@.len() == grid@.cells.len(),
        old(label)@[grid@.index_of(seed)] == 0,
        forall|i: int| 0 <= i < old(label)@.len() ==> #[trigger] old(label)@[i] < id,
        labels_closed(grid@, old(label)@, 0, Seq::empty()),
    ensures
        final(label)@.len() == old(label)@.len(),
        is_region(grid@, region@),
        region@[0] == seed,
        forall|p: Position| grid@.in_bounds(p) ==>
            (#[trigger] region@.contains(p) <==> final(label)@[grid@.index_of(p)] == id),
        forall|i: int| 0 <= i < final(label)@.len() ==>
            #[trigger] final(label)@[i] == old(label)@[i] || (old(label)@[i] == 0 && final(label)@[i] == id),
        labels_closed(grid@, final(label)@, 0, Seq::empty()),
{
    let ghost g = grid@;
    let ghost label0 = label@;
    proof {
        lemma_index_bounds(seed.x as int, seed.y as int, g.width as int, g.height as int);
    }
    let si = grid.index(seed);
    label.set(si, id);
    let mut region: Vec<Position> = Vec::new();
    region.push(seed);
    let mut stack: Vec<Position> = Vec::new();
    stack.push(seed);
    proof {
        let w = seq![seed];
        assert(is_walk(g, w));
        assert(w[0] == seed && w.last() == seed);
        assert(linked(g, seed, seed));
        assert(region@[0] == seed);
        assert forall|p: Position| g.in_bounds(p) implies (#[trigger] region@.contains(p) <==> label@[g.index_of(p)] == id) by {
            lemma_index_bounds(p.x as int, p.y as int, g.width as int, g.height as int);
            if label@[g.index_of(p)] == id {
                assert(g.index_of(p) == g.index_of(seed));
                lemma_same_index(g, p, seed);
            }
            if region@.contains(p) {
                assert(region@[0] == p);
            }
        }
        assert(labels_closed(g, label@, id, stack@)) by {
            assert forall|p: Position, q: Position|
                g.in_bounds(p) && g.in_bounds(q) && adjacent(p, q) && g.cell(q) == g.cell(p)
                    && #[trigger] label@[g.index_of(p)] != 0 && !(label@[g.index_of(p)] == id && stack@.contains(p))
                    implies #[trigger] label@[g.index_of(q)] == label@[g.index_of(p)] by {
                lemma_index_bounds(p.x as int, p.y as int, g.width as int, g.height as int);
                lemma_index_bounds(q.x as int, q.y as int, g.width as int, g.height as int);
                if g.index_of(p) == si {
                    lemma_same_index(g, p, seed);
                    assert(stack@[0] == p);
                } else {
                    assert(label@[g.index_of(p)] == label0[g.index_of(p)]);
                    if g.index_of(q) == si {
                        lemma_same_index(g, q, seed);
                        assert(label0[g.index_of(q)] == label0[g.index_of(p)]);
                    }
                }
            }
        }
    }
    while stack.len() > 0
        invariant
            g == grid@,
            g.wf(),
            obeys_concrete_eq::<T>(),
            g.in_bounds(seed),
            label@.len() == g.cells.len(),
            region@.len() >= 1,
            region@[0] == seed,
            region@.no_duplicates(),
            stack@.no_duplicates(),
            forall|i: int| 0 <= i < stack@.len() ==> region@.contains(#[trigger] stack@[i]),
            forall|i: int| 0 <= i < region@.len() ==>
                g.in_bounds(#[trigger] region@[i]) && g.cell(region@[i]) == g.cell(seed) && linked(g, seed, region@[i]),
            forall|p: Position| g.in_bounds(p) ==> (#[trigger] region@.contains(p) <==> label@[g.index_of(p)] == id),
            forall|i: int| 0 <= i < label@.len() ==>
                #[trigger] label@[i] == label0[i] || (label0[i] == 0 && label@[i] == id),
            forall|i: int| 0 <= i < label0.len() ==> #[trigger] label0[i] < id,
            label0.len() == g.cells.len(),
            id >= 1,
            labels_closed(g, label@, id, stack@),
        decreases zeros(label@), stack@.len(),
    {
        let ghost zeros0 = zeros(label@);
        let ghost full = stack@;
        let p = stack.pop().unwrap();
        let ghost stack0 = stack@;
        proof {
            assert(full =~= stack@.push(p));
            assert(full[full.len() - 1] == p);
            assert(region@.contains(p));
            let t = choose|t: int| 0 <= t < region@.len() && region@[t] == p;
            assert(g.cell(region@[t]) == g.cell(seed));
            assert(!stack@.contains(p)) by {
                if stack@.contains(p) {
                    let i = choose|i: int| 0 <= i < stack@.len() && stack@[i] == p;
                    assert(full[i] == p);
                }
            }
            assert forall|i: int| 0 <= i < stack@.len() implies region@.contains(#[trigger] stack@[i]) by {
                assert(full[i] == stack@[i]);
            }
        }
        proof {
            assert(label@[g.index_of(p)] == id);
            assert(labels_closed(g, label@, id, stack@.push(p)));
            assert(flood_inv(g, seed, id, label0, label@, region@, stack@, p));
        }
        let value = grid.get(p).unwrap();
        visit(grid, p, Direction::Down, value, label, &mut region, &mut stack, id, Ghost(seed), Ghost(label0));
        let ghost l1 = label@;
        visit(grid, p, Direction::Up, value, label, &mut region, &mut stack, id, Ghost(seed), Ghost(label0));
        let ghost l2 = label@;
        visit(grid, p, Direction::Left, value, label, &mut region, &mut stack, id, Ghost(seed), Ghost(label0));
        let ghost l3 = label@;
        visit(grid, p, Direction::Right, value, label, &mut region, &mut stack, id, Ghost(seed), Ghost(label0));
        proof {
            assert forall|d: Direction| #[trigger] neighbour(p, d) is Some implies
                ({
                    let q = neighbour(p, d)->0;
                    g.in_bounds(q) && g.cell(q) == g.cell(p) ==> label@[g.index_of(q)] == id
                }) by {
                if let Some(q) = neighbour(p, d) {
                    if g.in_bounds(q) && g.cell(q) == g.cell(p) {
                        lemma_index_bounds(q.x as int, q.y as int, g.width as int, g.height as int);
                        let i = g.index_of(q);
                        match d {
                            Direction::Down => {
                                assert(l1[i] == id);
                                assert(l2[i] == id);
                                assert(l3[i] == id);
                            },
                            Direction::Up => {
                                assert(l2[i] == id);
                                assert(l3[i] == id);
                            },
                            Direction::Left => {
                                assert(l3[i] == id);
                            },
                            Direction::Right => {},
                        }
                    }
                }
            }
            lemma_flood_settle(g, label@, id, p, stack@);
        }
    }
    proof {
        assert(stack@ =~= Seq::<Position>::empty());
        assert forall|a: Position, b: Position|
            #[trigger] region@.contains(a) && g.in_bounds(b) && adjacent(a, b) && g.cell(b) == g.cell(a)
            implies #[trigger] region@.contains(b) by {
            let t = choose|t: int| 0 <= t < region@.len() && region@[t] == a;
            assert(g.in_bounds(region@[t]));
        }
        assert forall|i: int| 0 <= i < region@.len() implies g.in_bounds(#[trigger] region@[i]) && linked(g, region@[0], region@[i]) by {}
    }
    region
}

/// The grid split into its regions, the maximal 4-connected sets of equal
/// cells.
pub fn find_regions<T: PartialEq>(grid: &Grid<T>) -> (regions: Vec<Vec<Position>>)
    requires
        grid@.wf(),
        obeys_concrete_eq::<T>(),
    ensures
        partitions(grid@, regions@.map_values(|r: Vec<Position>| r@)),
{
    let ghost g = grid@;
    let n: usize = grid.cell_count();
    let mut label: Vec<usize> = Vec::new();
    let mut i: usize = 0;
    while i < n
        invariant
            i <= n,
            label@.len() == i,
            forall|j: int| 0 <= j < i ==> #[trigger] label@[j] == 0,
        decreases n - i,
    {
        label.push(0);
        i = i + 1;
    }
    proof {
        assert forall|p: Position, q: Position|
            g.in_bounds(p) && g.in_bounds(q) && adjacent(p, q) && g.cell(q) == g.cell(p)
                && #[trigger] label@[g.index_of(p)] != 0 && !(label@[g.index_of(p)] == 0 && Seq::<Position>::empty().contains(p))
                implies #[trigger] label@[g.index_of(q)] == label@[g.index_of(p)] by {
            lemma_index_bounds(p.x as int, p.y as int, g.width as int, g.height as int);
        }
    }
    let mut regions: Vec<Vec<Position>> = Vec::new();
    let mut y: u32 = 0;
    while y < grid.height()
        invariant
            g == grid@,
            g.wf(),
            obeys_concrete_eq::<T>(),
            n == g.cells.len(),
            label@.len() == n,
            y <= g.height,
            regions@.len() <= y * g.width,
            forall|j: int| 0 <= j < n ==> #[trigger] label@[j] <= regions@.len(),
            labels_closed(g, label@, 0, Seq::empty()),
            forall|k: int| 0 <= k < regions@.len() ==> is_region(g, #[trigger] regions@[k]@),
            forall|k: int, p: Position| 0 <= k < regions@.len() && g.in_bounds(p) ==>
                (#[trigger] regions@[k]@.contains(p) <==> label@[g.index_of(p)] == k + 1),
            forall|p: Position| g.in_bounds(p) && p.y < y ==> #[trigger] label@[g.index_of(p)] != 0,
        decreases g.height - y,
    {
        let mut x: u32 = 0;
        while x < grid.width()
            invariant
                g == grid@,
                g.wf(),
                obeys_concrete_eq::<T>(),
                n == g.cells.len(),
                label@.len() == n,
                y < g.height,
                x <= g.width,
                regions@.len() <= y * g.width + x,
                forall|j: int| 0 <= j < n ==> #[trigger] label@[j] <= regions@.len(),
                labels_closed(g, label@, 0, Seq::empty()),
                forall|k: int| 0 <= k < regions@.len() ==> is_region(g, #[trigger] regions@[k]@),
                forall|k: int, p: Position| 0 <= k < regions@.len() && g.in_bounds(p) ==>
                    (#[trigger] regions@[k]@.contains(p) <==> label@[g.index_of(p)] == k + 1),
                forall|p: Position| g.in_bounds(p) && (p.y < y || (p.y == y && p.x < x)) ==> #[trigger] label@[g.index_of(p)] != 0,
            decreases g.width - x,
        {
            let p = Position { x, y };
            let pi = grid.index(p);
            proof {
                lemma_index_bounds(x as int, y as int, g.width as int, g.height as int);
            }
            if label[pi] == 0 {
                let id = regions.len() + 1;
                let ghost before = label@;
                let ghost regions_before = regions@;
                let region = flood_region(grid, p, &mut label, id);
                regions.push(region);
                proof {
                    assert forall|k: int| 0 <= k < regions@.len() implies is_region(g, #[trigger] regions@[k]@) by {
                        if k < regions_before.len() {
                            assert(regions@[k] == regions_before[k]);
                        }
                    }
                    assert forall|k: int, q: Position| 0 <= k < regions@.len() && g.in_bounds(q) implies
                        (#[trigger] regions@[k]@.contains(q) <==> label@[g.index_of(q)] == k + 1) by {
                        lemma_index_bounds(q.x as int, q.y as int, g.width as int, g.height as int);
                        if k < regions_before.len() {
                            assert(regions@[k] == regions_before[k]);
                            assert(label@[g.index_of(q)] == before[g.index_of(q)] || (before[g.index_of(q)] == 0 && label@[g.index_of(q)] == id));
                        }
                    }
                    assert forall|j: int| 0 <= j < n implies #[trigger] label@[j] <= regions@.len() by {
                        assert(label@[j] == before[j] || (before[j] == 0 && label@[j] == id));
                    }
                    assert forall|q: Position| g.in_bounds(q) && (q.y < y || (q.y == y && q.x < x + 1)) implies #[trigger] label@[g.index_of(q)] != 0 by {
                        lemma_index_bounds(q.x as int, q.y as int, g.width as int, g.height as int);
                        if q == p {
                            assert(regions@[regions_before.len() as int]@.contains(p)) by {
                                assert(regions@[regions_before.len() as int]@[0] == p);
                            }
                        } else {
                            assert(label@[g.index_of(q)] == before[g.index_of(q)] || (before[g.index_of(q)] == 0 && label@[g.index_of(q)] == id));
                        }
                    }
                }
            }
            x = x + 1;
        }
        proof {
            assert(y * g.width + g.width == (y + 1) * g.width) by (nonlinear_arith);
        }
        y = y + 1;
    }
    proof {
        let views = regions@.map_values(|r: Vec<Position>| r@);
        assert forall|k: int| 0 <= k < views.len() implies is_region(g, #[trigger] views[k]) by {
            assert(views[k] == regions@[k]@);
        }
        assert forall|p: Position| g.in_bounds(p) implies exists|k: int| 0 <= k < views.len() && #[trigger] views[k].contains(p) by {
            lemma_index_bounds(p.x as int, p.y as int, g.width as int, g.height as int);
            let k = label@[g.index_of(p)] - 1;
            assert(regions@[k]@.contains(p));
            assert(views[k] == regions@[k]@);
        }
        assert forall|k1: int, k2: int, p: Position|
            0 <= k1 < views.len() && 0 <= k2 < views.len() && #[trigger] views[k1].contains(p)
                && #[trigger] views[k2].contains(p) implies k1 == k2 by {
            assert(views[k1] == regions@[k1]@);
            assert(views[k2] == regions@[k2]@);
            assert(g.in_bounds(p)) by {
                let t = choose|t: int| 0 <= t < views[k1].len() && views[k1][t] == p;
                assert(g.in_bounds(views[k1][t]));
            }
        }
    }
    regions
}

/// How many cells carry no label yet.
spec fn zeros(s: Seq<usize>) -> nat
    decreases s.len(),
{
    if s.len() == 0 {
        0
    } else {
        zeros(s.drop_last()) + if s.last() == 0 { 1nat } else { 0nat }
    }
}

proof fn lemma_zeros_update(s: Seq<usize>, i: int, x: usize)
    requires
        0 <= i < s.len(),
        s[i] == 0,
        x != 0,
    ensures
        zeros(s.update(i, x)) < zeros(s),
    decreases s.len(),
{
    if i == s.len() - 1 {
        assert(s.update(i, x).drop_last() =~= s.drop_last());
    } else {
        assert(s.update(i, x).drop_last() =~= s.drop_last().update(i, x));
        lemma_zeros_update(s.drop_last(), i, x);
    }
}

pub(crate) proof fn lemma_adjacent_of(p: Position, d: Direction)
    ensures
        neighbour(p, d) matches Some(q) ==> adjacent(p, q) && adjacent(q, p),
{
}

/// Each neighbour of `p` is reached from `p` in one of the four directions.
pub(crate) proof fn lemma_direction_to(p: Position, q: Position)
    requires
        adjacent(p, q),
    ensures
        neighbour(p, Direction::Down) == Some(q) || neighbour(p, Direction::Up) == Some(q)
            || neighbour(p, Direction::Left) == Some(q) || neighbour(p, Direction::Right) == Some(q),
{
}

/// Labelling a fresh equal neighbour `q` of `p` and queueing it keeps the
/// closure of the labels.
proof fn lemma_flood_step<T>(
    g: GridView<T>,
    label: Seq<usize>,
    id: usize,
    p: Position,
    q: Position,
    stack: Seq<Position>,
    region: Seq<Position>,
)
    requires
        g.wf(),
        g.in_bounds(q),
        label.len() == g.cells.len(),
        label[g.index_of(q)] == 0,
        id != 0,
        !region.contains(q),
        !stack.contains(p),
        region.no_duplicates(),
        stack.no_duplicates(),
        forall|i: int| 0 <= i < stack.len() ==> region.contains(#[trigger] stack[i]),
        forall|x: Position| g.in_bounds(x) ==> (#[trigger] region.contains(x) <==> label[g.index_of(x)] == id),
        labels_closed(g, label, id, stack.push(p)),
    ensures
        region.push(q).no_duplicates(),
        stack.push(q).no_duplicates(),
        !stack.push(q).contains(p) || p == q,
        forall|x: Position| g.in_bounds(x) ==>
            (#[trigger] region.push(q).contains(x) <==> label.update(g.index_of(q), id)[g.index_of(x)] == id),
        labels_closed(g, label.update(g.index_of(q), id), id, stack.push(q).push(p)),
{
    let l2 = label.update(g.index_of(q), id);
    lemma_index_bounds(q.x as int, q.y as int, g.width as int, g.height as int);
    assert(!stack.contains(q)) by {
        if stack.contains(q) {
            let i = choose|i: int| 0 <= i < stack.len() && stack[i] == q;
            assert(region.contains(stack[i]));
        }
    }
    assert forall|i: int, j: int| 0 <= i < j < region.push(q).len() implies region.push(q)[i] != region.push(q)[j] by {
        if j == region.len() {
            assert(region.contains(region[i]));
        }
    }
    assert forall|i: int, j: int| 0 <= i < j < stack.push(q).len() implies stack.push(q)[i] != stack.push(q)[j] by {
        if j == stack.len() {
            assert(stack.contains(stack[i]));
        }
    }
    assert forall|x: Position| g.in_bounds(x) implies
        (#[trigger] region.push(q).contains(x) <==> l2[g.index_of(x)] == id) by {
        lemma_index_bounds(x.x as int, x.y as int, g.width as int, g.height as int);
        if x == q {
            assert(region.push(q)[region.len() as int] == q);
        } else {
            if g.index_of(x) == g.index_of(q) {
                lemma_same_index(g, x, q);
            }
            if region.push(q).contains(x) {
                let i = choose|i: int| 0 <= i < region.push(q).len() && region.push(q)[i] == x;
                assert(region[i] == x);
            }
            if region.contains(x) {
                let i = choose|i: int| 0 <= i < region.len() && region[i] == x;
                assert(region.push(q)[i] == x);
            }
        }
    }
    assert forall|a: Position, b: Position|
        g.in_bounds(a) && g.in_bounds(b) && adjacent(a, b) && g.cell(b) == g.cell(a)
            && #[trigger] l2[g.index_of(a)] != 0 && !(l2[g.index_of(a)] == id && stack.push(q).push(p).contains(a))
            implies #[trigger] l2[g.index_of(b)] == l2[g.index_of(a)] by {
        lemma_index_bounds(a.x as int, a.y as int, g.width as int, g.height as int);
        lemma_index_bounds(b.x as int, b.y as int, g.width as int, g.height as int);
        if a == q {
            assert(stack.push(q).push(p)[stack.len() as int] == q);
        } else {
            if g.index_of(a) == g.index_of(q) {
                lemma_same_index(g, a, q);
            }
            assert(l2[g.index_of(a)] == label[g.index_of(a)]);
            if stack.push(p).contains(a) {
                let i = choose|i: int| 0 <= i < stack.push(p).len() && stack.push(p)[i] == a;
                if i < stack.len() {
                    assert(stack.push(q).push(p)[i] == a);
                } else {
                    assert(stack.push(q).push(p)[stack.len() as int + 1] == a);
                }
            }
            assert(label[g.index_of(b)] == label[g.index_of(a)]);
            if g.index_of(b) == g.index_of(q) {
                lemma_same_index(g, b, q);
            }
        }
    }
}

/// Once every equal neighbour of `p` carries the open label, `p` no longer
/// needs to wait.
proof fn lemma_flood_settle<T>(g: GridView<T>, label: Seq<usize>, id: usize, p: Position, stack: Seq<Position>)
    requires
        g.wf(),
        g.in_bounds(p),
        label.len() == g.cells.len(),
        label[g.index_of(p)] == id,
        labels_closed(g, label, id, stack.push(p)),
        forall|d: Direction| #[trigger] neighbour(p, d) is Some ==>
            ({
                let q = neighbour(p, d)->0;
                g.in_bounds(q) && g.cell(q) == g.cell(p) ==> label[g.index_of(q)] == id
            }),
    ensures
        labels_closed(g, label, id, stack),
{
    assert forall|a: Position, b: Position|
        g.in_bounds(a) && g.in_bounds(b) && adjacent(a, b) && g.cell(b) == g.cell(a)
            && #[trigger] label[g.index_of(a)] != 0 && !(label[g.index_of(a)] == id && stack.contains(a))
            implies #[trigger] label[g.index_of(b)] == label[g.index_of(a)] by {
        if a == p {
            lemma_direction_to(p, b);
            assert(neighbour(p, Direction::Down) == neighbour(p, Direction::Down));
            assert(neighbour(p, Direction::Up) == neighbour(p, Direction::Up));
            assert(neighbour(p, Direction::Left) == neighbour(p, Direction::Left));
            assert(neighbour(p, Direction::Right) == neighbour(p, Direction::Right));
        } else {
            if stack.push(p).contains(a) {
                let i = choose|i: int| 0 <= i < stack.push(p).len() && stack.push(p)[i] == a;
                assert(stack[i] == a);
            }
        }
    }
}

/// The state of a flood from `seed` while the neighbours of `p` are looked at.
spec fn flood_inv<T>(
    g: GridView<T>,
    seed: Position,
    id: usize,
    label0: Seq<usize>,
    label: Seq<usize>,
    region: Seq<Position>,
    stack: Seq<Position>,
    p: Position,
) -> bool {
    &&& g.wf()
    &&& g.in_bounds(seed)
    &&& id >= 1
    &&& label.len() == g.cells.len()
    &&& label0.len() == g.cells.len()
    &&& region.len() >= 1
    &&& region[0] == seed
    &&& region.no_duplicates()
    &&& stack.no_duplicates()
    &&& !stack.contains(p)
    &&& g.in_bounds(p)
    &&& g.cell(p) == g.cell(seed)
    &&& label[g.index_of(p)] == id
    &&& forall|i: int| 0 <= i < stack.len() ==> region.contains(#[trigger] stack[i])
    &&& forall|i: int| 0 <= i < region.len() ==>
        g.in_bounds(#[trigger] region[i]) && g.cell(region[i]) == g.cell(seed) && linked(g, seed, region[i])
    &&& forall|x: Position| g.in_bounds(x) ==> (#[trigger] region.contains(x) <==> label[g.index_of(x)] == id)
    &&& forall|i: int| 0 <= i < label.len() ==> #[trigger] label[i] == label0[i] || (label0[i] == 0 && label[i] == id)
    &&& forall|i: int| 0 <= i < label0.len() ==> #[trigger] label0[i] < id
    &&& labels_closed(g, label, id, stack.push(p))
}

/// Looks at the neighbour of `p` towards `d`: an equal cell with no label
/// yet joins the region and waits on the stack.
fn visit<T: PartialEq>(
    grid: &Grid<T>,
    p: Position,
    d: Direction,
    value: &T,
    label: &mut Vec<usize>,
    region: &mut Vec<Position>,
    stack: &mut Vec<Position>,
    id: usize,
    Ghost(seed): Ghost<Position>,
    Ghost(label0): Ghost<Seq<usize>>,
)
    requires
        grid@.wf(),
        obeys_concrete_eq::<T>(),
        flood_inv(grid@, seed, id, label0, old(label)@, old(region)@, old(stack)@, p),
        *value == grid@.cell(p),
    ensures
        flood_inv(grid@, seed, id, label0, final(label)@, final(region)@, final(stack)@, p),
        neighbour(p, d) matches Some(q) ==>
            (grid@.in_bounds(q) && grid@.cell(q) == grid@.cell(p) ==> final(label)@[grid@.index_of(q)] == id),
        forall|i: int| 0 <= i < final(label)@.len() ==>
            #[trigger] final(label)@[i] == old(label)@[i] || (old(label)@[i] == 0 && final(label)@[i] == id),
        zeros(final(label)@) < zeros(old(label)@)
            || (final(label)@ == old(label)@ && final(stack)@ == old(stack)@),
{
    let ghost g = grid@;
    proof {
        reveal(obeys_concrete_eq);
    }
    match p.move_to(d) {
        Some(q) => {
            match grid.get(q) {
                Some(c) => {
                    if *c == *value {
                        let qi = grid.index(q);
                        if label[qi] == 0 {
                            let ghost before = label@;
                            let ghost stack_before = stack@;
                            let ghost region_before = region@;
                            proof {
                                lemma_adjacent_of(p, d);
                                assert(region@.contains(p));
                                let t = choose|t: int| 0 <= t < region@.len() && region@[t] == p;
                                assert(linked(g, seed, region@[t]));
                                lemma_walk_extend(g, seed, p, q);
                                assert(!region@.contains(q));
                                lemma_zeros_update(label@, qi as int, id);
                            }
                            label.set(qi, id);
                            region.push(q);
                            stack.push(q);
                            proof {
                                lemma_flood_step(g, before, id, p, q, stack_before, region_before);
                                assert forall|i: int| 0 <= i < region@.len() implies
                                    g.in_bounds(#[trigger] region@[i]) && g.cell(region@[i]) == g.cell(seed) && linked(g, seed, region@[i]) by {
                                    if i < region_before.len() {
                                        assert(region@[i] == region_before[i]);
                                    }
                                }
                                assert forall|i: int| 0 <= i < stack@.len() implies region@.contains(#[trigger] stack@[i]) by {
                                    if i < stack_before.len() {
                                        assert(stack@[i] == stack_before[i]);
                                        assert(region_before.contains(stack@[i]));
                                        let t = choose|t: int| 0 <= t < region_before.len() && region_before[t] == stack@[i];
                                        assert(region@[t] == stack@[i]);
                                    } else {
                                        assert(region@[region_before.len() as int] == q);
                                    }
                                }
                                assert forall|i: int| 0 <= i < label@.len() implies
                                    #[trigger] label@[i] == label0[i] || (label0[i] == 0 && label@[i] == id) by {
                                    if i != qi {
                                        assert(label@[i] == before[i]);
                                    }
                                }
                                assert(region@[0] == seed);
                                assert(label@[g.index_of(p)] == id) by {
                                    assert(region@.contains(p)) by {
                                        let t = choose|t: int| 0 <= t < region_before.len() && region_before[t] == p;
                                        assert(region@[t] == p);
                                    }
                                }
                                assert forall|i: int| 0 <= i < label@.len() implies
                                    #[trigger] label@[i] == before[i] || (before[i] == 0 && label@[i] == id) by {}
                            }
                        }
                    }
                },
                None => {},
            }
        },
        None => {},
    }
}

/// Two addresses inside a grid with one storage index are one address.
pub(crate) proof fn lemma_same_index<T>(g: GridView<T>, p: Position, q: Position)
    requires
        g.wf(),
        g.in_bounds(p),
        g.in_bounds(q),
        g.index_of(p) == g.index_of(q),
    ensures
        p == q,
{
    lemma_index_bounds(p.x as int, p.y as int, g.width as int, g.height as int);
    lemma_index_bounds(q.x as int, q.y as int, g.width as int, g.height as int);
}

} // verus!

verus! {

/// A unit fence: the side `e.1` of the cell `e.0`.
pub type Fence = (Position, Direction);

/// `e` lies on the border of `region`: its cell is in the region and the
/// neighbour on its side is not.
pub open spec fn is_fence(region: Seq<Position>, e: Fence) -> bool {
    &&& region.contains(e.0)
    &&& !(neighbour(e.0, e.1) is Some && region.contains(neighbour(e.0, e.1)->0))
}

/// The direction along which fences facing `d` run and are merged: left
/// for fences facing up or down, up for fences facing left or right.
pub open spec fn along(d: Direction) -> Direction {
    match d {
        Direction::Up | Direction::Down => Direction::Left,
        _ => Direction::Up,
    }
}

/// `e` is the first unit of a straight side: the next cell along has no
/// fence facing the same way.
pub open spec fn starts_side(region: Seq<Position>, e: Fence) -> bool {
    &&& is_fence(region, e)
    &&& !(neighbour(e.0, along(e.1)) is Some && is_fence(region, (neighbour(e.0, along(e.1))->0, e.1)))
}

/// Whether `region` holds `q`.
fn contains_position(region: &Vec<Position>, q: Position) -> (r: bool)
    ensures
        r == region@.contains(q),
{
    let mut i: usize = 0;
    while i < region.len()
        invariant
            i <= region@.len(),
            forall|j: int| 0 <= j < i ==> region@[j] != q,
        decreases region@.len() - i,
    {
        if region[i] == q {
            return true;
        }
        i = i + 1;
    }
    false
}

/// Whether `fences` holds `e`.
fn contains_fence(fences: &Vec<Fence>, e: Fence) -> (r: bool)
    ensures
        r == fences@.contains(e),
{
    let mut i: usize = 0;
    while i < fences.len()
        invariant
            i <= fences@.len(),
            forall|j: int| 0 <= j < i ==> fences@[j] != e,
        decreases fences@.len() - i,
    {
        if fences[i].0 == e.0 && fences[i].1 == e.1 {
            return true;
        }
        i = i + 1;
    }
    false
}

/// Appends the fence on side `d` of `p`, if there is one there.
fn push_if_fence(region: &Vec<Position>, p: Position, d: Direction, out: &mut Vec<Fence>)
    ensures
        final(out)@ == if is_fence(region@, (p, d)) { old(out)@.push((p, d)) } else { old(out)@ },
{
    let open_side = match p.move_to(d) {
        Some(q) => !contains_position(region, q),
        None => true,
    };
    if open_side && contains_position(region, p) {
        out.push((p, d));
    }
}

/// Every unit fence of `region`, each once: the sides of its cells that do
/// not face another of its cells.
pub fn region_perimeter(region: &Vec<Position>) -> (r: Vec<Fence>)
    requires
        region@.no_duplicates(),
    ensures
        r@.no_duplicates(),
        forall|e: Fence| #[trigger] r@.contains(e) <==> is_fence(region@, e),
{
    let mut out: Vec<Fence> = Vec::new();
    let mut i: usize = 0;
    while i < region.len()
        invariant
            i <= region@.len(),
            region@.no_duplicates(),
            out@.no_duplicates(),
            forall|e: Fence| #[trigger] out@.contains(e) <==> (is_fence(region@, e) && region@.take(i as int).contains(e.0)),
        decreases region@.len() - i,
    {
        let p = region[i];
        let ghost out0 = out@;
        push_if_fence(region, p, Direction::Down, &mut out);
        push_if_fence(region, p, Direction::Up, &mut out);
        push_if_fence(region, p, Direction::Left, &mut out);
        push_if_fence(region, p, Direction::Right, &mut out);
        proof {
            lemma_perimeter_step(region@, i as int, out0, out@);
        }
        i = i + 1;
    }
    assert(region@.take(region@.len() as int) =~= region@);
    out
}

proof fn lemma_perimeter_step(region: Seq<Position>, i: int, out0: Seq<Fence>, out: Seq<Fence>)
    requires
        0 <= i < region.len(),
        region.no_duplicates(),
        out0.no_duplicates(),
        forall|e: Fence| #[trigger] out0.contains(e) <==> (is_fence(region, e) && region.take(i).contains(e.0)),
        ({
            let p = region[i];
            let s1 = if is_fence(region, (p, Direction::Down)) { out0.push((p, Direction::Down)) } else { out0 };
            let s2 = if is_fence(region, (p, Direction::Up)) { s1.push((p, Direction::Up)) } else { s1 };
            let s3 = if is_fence(region, (p, Direction::Left)) { s2.push((p, Direction::Left)) } else { s2 };
            out == if is_fence(region, (p, Direction::Right)) { s3.push((p, Direction::Right)) } else { s3 }
        }),
    ensures
        out.no_duplicates(),
        forall|e: Fence| #[trigger] out.contains(e) <==> (is_fence(region, e) && region.take(i + 1).contains(e.0)),
{
    let p = region[i];
    assert(!region.take(i).contains(p)) by {
        if region.take(i).contains(p) {
            let j = choose|j: int| 0 <= j < i && #[trigger] region.take(i)[j] == p;
            assert(region[j] == p);
        }
    }
    assert(region.take(i + 1) =~= region.take(i).push(p));
    assert forall|e: Fence| region.take(i + 1).contains(e.0) <==> (region.take(i).contains(e.0) || e.0 == p) by {
        lemma_seq_push_contains(region.take(i), p, true, e.0);
    }
    assert forall|e: Fence| out.contains(e) <==> (out0.contains(e) || (e.0 == p && is_fence(region, e))) by {
        lemma_push_contains(out0, p, region, e);
    }
    assert forall|a: int, b: int| 0 <= a < b < out.len() implies out[a] != out[b] by {
        lemma_push_distinct(out0, p, region, a, b);
    }
}

/// What the four conditional pushes of the fences of `p` add.
proof fn lemma_push_contains(out0: Seq<Fence>, p: Position, region: Seq<Position>, e: Fence)
    ensures
        ({
            let s1 = if is_fence(region, (p, Direction::Down)) { out0.push((p, Direction::Down)) } else { out0 };
            let s2 = if is_fence(region, (p, Direction::Up)) { s1.push((p, Direction::Up)) } else { s1 };
            let s3 = if is_fence(region, (p, Direction::Left)) { s2.push((p, Direction::Left)) } else { s2 };
            let s4 = if is_fence(region, (p, Direction::Right)) { s3.push((p, Direction::Right)) } else { s3 };
            s4.contains(e) <==> (out0.contains(e) || (e.0 == p && is_fence(region, e)))
        }),
{
    let s1 = if is_fence(region, (p, Direction::Down)) { out0.push((p, Direction::Down)) } else { out0 };
    let s2 = if is_fence(region, (p, Direction::Up)) { s1.push((p, Direction::Up)) } else { s1 };
    let s3 = if is_fence(region, (p, Direction::Left)) { s2.push((p, Direction::Left)) } else { s2 };
    let s4 = if is_fence(region, (p, Direction::Right)) { s3.push((p, Direction::Right)) } else { s3 };
    lemma_seq_push_contains(out0, (p, Direction::Down), is_fence(region, (p, Direction::Down)), e);
    lemma_seq_push_contains(s1, (p, Direction::Up), is_fence(region, (p, Direction::Up)), e);
    lemma_seq_push_contains(s2, (p, Direction::Left), is_fence(region, (p, Direction::Left)), e);
    lemma_seq_push_contains(s3, (p, Direction::Right), is_fence(region, (p, Direction::Right)), e);
}

proof fn lemma_seq_push_contains<A>(s: Seq<A>, x: A, b: bool, e: A)
    ensures
        (if b { s.push(x) } else { s }).contains(e) <==> (s.contains(e) || (b && e == x)),
{
    if b {
        if s.push(x).contains(e) {
            let j = choose|j: int| 0 <= j < s.push(x).len() && s.push(x)[j] == e;
            if j < s.len() {
                assert(s[j] == e);
            }
        }
        if s.contains(e) {
            let j = choose|j: int| 0 <= j < s.len() && s[j] == e;
            assert(s.push(x)[j] == e);
        }
        assert(s.push(x)[s.len() as int] == x);
    }
}

/// The four conditional pushes of the fences of a new cell `p` add no
/// repeats.
proof fn lemma_push_distinct(out0: Seq<Fence>, p: Position, region: Seq<Position>, a: int, b: int)
    requires
        out0.no_duplicates(),
        forall|e: Fence| #[trigger] out0.contains(e) ==> e.0 != p,
    ensures
        ({
            let s1 = if is_fence(region, (p, Direction::Down)) { out0.push((p, Direction::Down)) } else { out0 };
            let s2 = if is_fence(region, (p, Direction::Up)) { s1.push((p, Direction::Up)) } else { s1 };
            let s3 = if is_fence(region, (p, Direction::Left)) { s2.push((p, Direction::Left)) } else { s2 };
            let s4 = if is_fence(region, (p, Direction::Right)) { s3.push((p, Direction::Right)) } else { s3 };
            0 <= a < b < s4.len() ==> s4[a] != s4[b]
        }),
{
    let s1 = if is_fence(region, (p, Direction::Down)) { out0.push((p, Direction::Down)) } else { out0 };
    let s2 = if is_fence(region, (p, Direction::Up)) { s1.push((p, Direction::Up)) } else { s1 };
    let s3 = if is_fence(region, (p, Direction::Left)) { s2.push((p, Direction::Left)) } else { s2 };
    let s4 = if is_fence(region, (p, Direction::Right)) { s3.push((p, Direction::Right)) } else { s3 };
    lemma_push_fresh(out0, (p, Direction::Down), is_fence(region, (p, Direction::Down)), p);
    lemma_seq_push_contains(out0, (p, Direction::Down), is_fence(region, (p, Direction::Down)), (p, Direction::Up));
    lemma_push_fresh(s1, (p, Direction::Up), is_fence(region, (p, Direction::Up)), p);
    lemma_seq_push_contains(out0, (p, Direction::Down), is_fence(region, (p, Direction::Down)), (p, Direction::Left));
    lemma_seq_push_contains(s1, (p, Direction::Up), is_fence(region, (p, Direction::Up)), (p, Direction::Left));
    lemma_push_fresh(s2, (p, Direction::Left), is_fence(region, (p, Direction::Left)), p);
    lemma_seq_push_contains(out0, (p, Direction::Down), is_fence(region, (p, Direction::Down)), (p, Direction::Right));
    lemma_seq_push_contains(s1, (p, Direction::Up), is_fence(region, (p, Direction::Up)), (p, Direction::Right));
    lemma_seq_push_contains(s2, (p, Direction::Left), is_fence(region, (p, Direction::Left)), (p, Direction::Right));
    lemma_push_fresh(s3, (p, Direction::Right), is_fence(region, (p, Direction::Right)), p);
}

/// Pushing a fence of `p` that is not yet there keeps a list free of
/// repeats, where the list so far holds only other cells and earlier
/// directions.
proof fn lemma_push_fresh(s: Seq<Fence>, x: Fence, b: bool, p: Position)
    requires
        s.no_duplicates(),
        !s.contains(x),
    ensures
        (if b { s.push(x) } else { s }).no_duplicates(),
{
    if b {
        assert forall|i: int, j: int| 0 <= i < j < s.push(x).len() implies s.push(x)[i] != s.push(x)[j] by {
            if j == s.len() {
                assert(s.contains(s[i]));
            }
        }
    }
}

} // verus!

verus! {

/// The direction along which fences facing `d` are merged into sides.
fn along_of(d: Direction) -> (r: Direction)
    ensures
        r == along(d),
{
    match d {
        Direction::Up | Direction::Down => Direction::Left,
        _ => Direction::Up,
    }
}

/// The straight sides of `region`, each given by its first unit fence:
/// the leftmost of a side facing up or down, the topmost of a side facing
/// left or right.
pub fn region_sides(region: &Vec<Position>) -> (r: Vec<Fence>)
    requires
        region@.no_duplicates(),
    ensures
        r@.no_duplicates(),
        forall|e: Fence| #[trigger] r@.contains(e) <==> starts_side(region@, e),
{
    let perimeter = region_perimeter(region);
    let mut out: Vec<Fence> = Vec::new();
    let mut i: usize = 0;
    while i < perimeter.len()
        invariant
            i <= perimeter@.len(),
            perimeter@.no_duplicates(),
            forall|e: Fence| #[trigger] perimeter@.contains(e) <==> is_fence(region@, e),
            out@.no_duplicates(),
            forall|e: Fence| #[trigger] out@.contains(e) <==> (starts_side(region@, e) && perimeter@.take(i as int).contains(e)),
        decreases perimeter@.len() - i,
    {
        let (p, d) = perimeter[i];
        let starts = match p.move_to(along_of(d)) {
            Some(q) => !contains_fence(&perimeter, (q, d)),
            None => true,
        };
        let ghost out0 = out@;
        proof {
            assert(perimeter@.contains(perimeter@[i as int]));
            assert(perimeter@.take(i as int + 1) =~= perimeter@.take(i as int).push((p, d)));
            assert(!perimeter@.take(i as int).contains((p, d))) by {
                if perimeter@.take(i as int).contains((p, d)) {
                    let j = choose|j: int| 0 <= j < i && #[trigger] perimeter@.take(i as int)[j] == (p, d);
                    assert(perimeter@[j] == perimeter@[i as int]);
                }
            }
            assert forall|e: Fence| perimeter@.take(i as int + 1).contains(e) <==> (perimeter@.take(i as int).contains(e) || e == (p, d)) by {
                lemma_seq_push_contains(perimeter@.take(i as int), (p, d), true, e);
            }
        }
        if starts {
            out.push((p, d));
        }
        proof {
            assert(!out0.contains((p, d)));
            lemma_push_fresh(out0, (p, d), starts, p);
            assert forall|e: Fence| #[trigger] out@.contains(e) <==> (starts_side(region@, e) && perimeter@.take(i as int + 1).contains(e)) by {
                lemma_seq_push_contains(out0, (p, d), starts, e);
            }
        }
        i = i + 1;
    }
    assert(perimeter@.take(perimeter@.len() as int) =~= perimeter@);
    out
}

/// Merging unit fences into sides never gives more sides than fences.
pub proof fn lemma_sides_within_perimeter(region: Seq<Position>, perimeter: Seq<Fence>, sides: Seq<Fence>)
    requires
        perimeter.no_duplicates(),
        sides.no_duplicates(),
        forall|e: Fence| #[trigger] perimeter.contains(e) <==> is_fence(region, e),
        forall|e: Fence| #[trigger] sides.contains(e) <==> starts_side(region, e),
    ensures
        sides.len() <= perimeter.len(),
{
    perimeter.unique_seq_to_set();
    sides.unique_seq_to_set();
    assert(sides.to_set().subset_of(perimeter.to_set()));
    vstd::set_lib::lemma_len_subset(sides.to_set(), perimeter.to_set());
}

/// A region of one cell has four unit fences, and each is a side of its own.
pub proof fn lemma_single_cell_region(p: Position, perimeter: Seq<Fence>, sides: Seq<Fence>)
    requires
        perimeter.no_duplicates(),
        sides.no_duplicates(),
        forall|e: Fence| #[trigger] perimeter.contains(e) <==> is_fence(seq![p], e),
        forall|e: Fence| #[trigger] sides.contains(e) <==> starts_side(seq![p], e),
    ensures
        perimeter.len() == 4,
        sides.len() == 4,
{
    let region = seq![p];
    let four = Set::<Fence>::empty().insert((p, Direction::Up)).insert((p, Direction::Down))
        .insert((p, Direction::Left)).insert((p, Direction::Right));
    assert forall|q: Position| #[trigger] region.contains(q) <==> q == p by {
        if q == p {
            assert(region[0] == p);
        }
    }
    assert forall|e: Fence| #[trigger] four.contains(e) <==> is_fence(region, e) by {}
    assert forall|e: Fence| is_fence(region, e) <==> starts_side(region, e) by {}
    assert(perimeter.to_set() =~= four);
    assert(sides.to_set() =~= four);
    perimeter.unique_seq_to_set();
    sides.unique_seq_to_set();
    assert(four.len() == 4);
}

} // verus!

verus! {

/// A region holding the corner cell of a grid whose cells are all equal
/// holds every cell of the first `x + 1` columns of row `y`.
proof fn lemma_uniform_reach<T>(g: GridView<T>, r: Seq<Position>, x: u32, y: u32)
    requires
        g.wf(),
        is_region(g, r),
        r.contains(Position { x: 0, y: 0 }),
        forall|p: Position, q: Position| g.in_bounds(p) && g.in_bounds(q) ==> g.cell(p) == g.cell(q),
        x < g.width,
        y < g.height,
    ensures
        r.contains(Position { x, y }),
    decreases x + y,
{
    if x > 0 {
        lemma_uniform_reach(g, r, (x - 1) as u32, y);
        assert(adjacent(Position { x: (x - 1) as u32, y }, Position { x, y }));
    } else if y > 0 {
        lemma_uniform_reach(g, r, x, (y - 1) as u32);
        assert(adjacent(Position { x, y: (y - 1) as u32 }, Position { x, y }));
    }
}

proof fn lemma_same_region<T>(g: GridView<T>, regions: Seq<Seq<Position>>, k0: int, k: int)
    requires
        partitions(g, regions),
        0 <= k0 < regions.len(),
        0 <= k < regions.len(),
        forall|p: Position| g.in_bounds(p) ==> #[trigger] regions[k0].contains(p),
    ensures
        k == k0,
{
    assert(is_region(g, regions[k]));
    let p = regions[k][0];
    assert(regions[k].contains(p));
    assert(g.in_bounds(p));
    assert(regions[k0].contains(p));
}

/// A grid whose cells are all equal is one region, of `width * height`
/// cells.
pub proof fn lemma_uniform_grid_one_region<T>(g: GridView<T>, regions: Seq<Seq<Position>>)
    requires
        g.wf(),
        g.width >= 1,
        g.height >= 1,
        forall|p: Position, q: Position| g.in_bounds(p) && g.in_bounds(q) ==> g.cell(p) == g.cell(q),
        partitions(g, regions),
    ensures
        regions.len() == 1,
        regions[0].len() == g.width * g.height,
        forall|q: Position| #[trigger] regions[0].contains(q) <==> g.in_bounds(q),
{
    let origin = Position { x: 0, y: 0 };
    assert(g.in_bounds(origin));
    let k0 = choose|k: int| 0 <= k < regions.len() && #[trigger] regions[k].contains(origin);
    let r = regions[k0];
    assert(is_region(g, r));
    assert forall|p: Position| g.in_bounds(p) implies #[trigger] r.contains(p) by {
        lemma_uniform_reach(g, r, p.x, p.y);
    }
    lemma_same_region(g, regions, k0, 0);
    assert forall|q: Position| #[trigger] r.contains(q) implies g.in_bounds(q) by {
        let t = choose|t: int| 0 <= t < r.len() && r[t] == q;
        assert(g.in_bounds(r[t]));
    }
    if regions.len() >= 2 {
        lemma_same_region(g, regions, k0, 1);
    }
    let n = g.width * g.height;
    let ids = Seq::new(r.len(), |i: int| g.index_of(r[i]));
    assert forall|i: int| 0 <= i < r.len() implies 0 <= #[trigger] ids[i] < n by {
        assert(g.in_bounds(r[i]));
        lemma_index_bounds(r[i].x as int, r[i].y as int, g.width as int, g.height as int);
    }
    assert(ids.no_duplicates()) by {
        assert forall|i: int, j: int| 0 <= i < j < ids.len() implies ids[i] != ids[j] by {
            assert(g.in_bounds(r[i]) && g.in_bounds(r[j]));
            if ids[i] == ids[j] {
                lemma_same_index(g, r[i], r[j]);
            }
        }
    }
    assert(ids.to_set() =~= vstd::set_lib::set_int_range(0, n as int)) by {
        assert forall|i: int| 0 <= i < n implies ids.to_set().contains(i) by {
            let w = g.width as int;
            vstd::arithmetic::div_mod::lemma_fundamental_div_mod(i, w);
            let x = i % w;
            let y = i / w;
            assert(0 <= y < g.height as int) by (nonlinear_arith)
                requires i == w * y + x, 0 <= x < w, 0 <= i < n, n == w * (g.height as int);
            let p = Position { x: x as u32, y: y as u32 };
            assert(g.in_bounds(p));
            assert(g.index_of(p) == i) by (nonlinear_arith)
                requires i == w * y + x, g.index_of(p) == x + y * w;
            assert(r.contains(p));
            let t = choose|t: int| 0 <= t < r.len() && r[t] == p;
            assert(ids[t] == i);
        }
    }
    ids.unique_seq_to_set();
    vstd::set_lib::lemma_int_range(0, n as int);
}

} // verus!

verus! {

/// The unit fences around a `w` by `h` rectangle at the corner: its top and
/// bottom rows, then its left and right columns.
spec fn rectangle_fences(w: nat, h: nat) -> Seq<Fence> {
    Seq::new(w, |x: int| (Position { x: x as u32, y: 0 }, Direction::Up))
        + Seq::new(w, |x: int| (Position { x: x as u32, y: (h - 1) as u32 }, Direction::Down))
        + Seq::new(h, |y: int| (Position { x: 0, y: y as u32 }, Direction::Left))
        + Seq::new(h, |y: int| (Position { x: (w - 1) as u32, y: y as u32 }, Direction::Right))
}

/// The region of a whole `w` by `h` grid has `2 * (w + h)` unit fences.
pub proof fn lemma_rectangle_perimeter(region: Seq<Position>, w: nat, h: nat, perimeter: Seq<Fence>)
    requires
        1 <= w <= u32::MAX,
        1 <= h <= u32::MAX,
        forall|q: Position| #[trigger] region.contains(q) <==> q.x < w && q.y < h,
        perimeter.no_duplicates(),
        forall|e: Fence| #[trigger] perimeter.contains(e) <==> is_fence(region, e),
    ensures
        perimeter.len() == 2 * (w + h),
{
    let s = rectangle_fences(w, h);
    assert(s.len() == 2 * (w + h));
    assert forall|i: int| 0 <= i < s.len() implies #[trigger] is_fence(region, s[i]) by {
        let e = s[i];
        if i < w {
            assert(e == (Position { x: i as u32, y: 0 }, Direction::Up));
        } else if i < 2 * w {
            assert(e == (Position { x: (i - w) as u32, y: (h - 1) as u32 }, Direction::Down));
        } else if i < 2 * w + h {
            assert(e == (Position { x: 0, y: (i - 2 * w) as u32 }, Direction::Left));
        } else {
            assert(e == (Position { x: (w - 1) as u32, y: (i - 2 * w - h) as u32 }, Direction::Right));
        }
    }
    assert(s.no_duplicates()) by {
        assert forall|i: int, j: int| 0 <= i < j < s.len() implies s[i] != s[j] by {
            if i < w && j < w {
                assert(s[i].0.x == i && s[j].0.x == j);
            } else if w <= i < 2 * w && w <= j < 2 * w {
                assert(s[i].0.x == i - w && s[j].0.x == j - w);
            } else if 2 * w <= i < 2 * w + h && 2 * w <= j < 2 * w + h {
                assert(s[i].0.y == i - 2 * w && s[j].0.y == j - 2 * w);
            } else if 2 * w + h <= i && 2 * w + h <= j {
                assert(s[i].0.y == i - 2 * w - h && s[j].0.y == j - 2 * w - h);
            } else {
                assert(s[i].1 != s[j].1);
            }
        }
    }
    assert(perimeter.to_set() =~= s.to_set()) by {
        assert forall|e: Fence| perimeter.to_set().contains(e) <==> s.to_set().contains(e) by {
            if s.contains(e) {
                let i = choose|i: int| 0 <= i < s.len() && s[i] == e;
                assert(is_fence(region, s[i]));
            }
            if is_fence(region, e) {
                let p = e.0;
                assert(region.contains(p));
                match e.1 {
                    Direction::Up => {
                        if p.y > 0 {
                            assert(region.contains(Position { x: p.x, y: (p.y - 1) as u32 }));
                        }
                        assert(s[p.x as int] == e);
                    },
                    Direction::Down => {
                        if p.y + 1 < h {
                            assert(region.contains(Position { x: p.x, y: (p.y + 1) as u32 }));
                        }
                        assert(s[w + p.x] == e);
                    },
                    Direction::Left => {
                        if p.x > 0 {
                            assert(region.contains(Position { x: (p.x - 1) as u32, y: p.y }));
                        }
                        assert(s[2 * w + p.y] == e);
                    },
                    Direction::Right => {
                        if p.x + 1 < w {
                            assert(region.contains(Position { x: (p.x + 1) as u32, y: p.y }));
                        }
                        assert(s[2 * w + h + p.y] == e);
                    },
                }
            }
        }
    }
    perimeter.unique_seq_to_set();
    s.unique_seq_to_set();
}

} // verus!
