//! Hiking trails on a height map: routes from height 0 to height 9 that
//! climb by exactly one at each step to an orthogonal neighbour.
use vstd::prelude::*;

use crate::grid::{Grid, GridView, lemma_index_bounds};
use crate::position::{Direction, Position, neighbour};
use crate::regions::adjacent;

verus! {

/// The height at which trails end.
pub const SUMMIT: u8 = 9;

/// `q` is one step up from `p`: its neighbour, exactly one higher.
pub open spec fn climbs(g: GridView<u8>, p: Position, q: Position) -> bool {
    &&& g.in_bounds(p)
    &&& g.in_bounds(q)
    &&& adjacent(p, q)
    &&& g.cell(q) == g.cell(p) + 1
}

/// The number of distinct trails from `p` up to a summit, counted by their
/// first step.
pub open spec fn rating(g: GridView<u8>, p: Position) -> nat
    decreases 10 - g.cell(p), 1nat,
{
    if !g.in_bounds(p) || g.cell(p) > SUMMIT {
        0
    } else if g.cell(p) == SUMMIT {
        1
    } else {
        rating_via(g, p, Direction::Down) + rating_via(g, p, Direction::Up) + rating_via(g, p, Direction::Left)
            + rating_via(g, p, Direction::Right)
    }
}

/// The number of trails from `p` whose first step goes towards `d`.
pub open spec fn rating_via(g: GridView<u8>, p: Position, d: Direction) -> nat
    decreases 10 - g.cell(p), 0nat,
{
    match neighbour(p, d) {
        Some(q) => if climbs(g, p, q) && g.cell(p) < SUMMIT {
            rating(g, q)
        } else {
            0
        },
        None => 0,
    }
}

spec fn pow4(n: nat) -> nat
    decreases n,
{
    if n == 0 {
        1
    } else {
        4 * pow4((n - 1) as nat)
    }
}

proof fn lemma_pow4_bound(n: nat)
    requires
        n <= 9,
    ensures
        pow4(n) <= 262144,
{
    assert(pow4(0) == 1);
    assert(pow4(1) == 4);
    assert(pow4(2) == 16);
    assert(pow4(3) == 64);
    assert(pow4(4) == 256);
    assert(pow4(5) == 1024);
    assert(pow4(6) == 4096);
    assert(pow4(7) == 16384);
    assert(pow4(8) == 65536);
    assert(pow4(9) == 262144);
    lemma_pow4_mono(n, 9);
}

proof fn lemma_pow4_mono(a: nat, b: nat)
    requires
        a <= b,
    ensures
        pow4(a) <= pow4(b),
    decreases b,
{
    if a < b {
        lemma_pow4_mono(a, (b - 1) as nat);
    }
}

/// The rating of a cell is at most four to the power of the climb left.
proof fn lemma_rating_bound(g: GridView<u8>, p: Position)
    requires
        g.in_bounds(p),
        g.cell(p) <= SUMMIT,
    ensures
        rating(g, p) <= pow4((SUMMIT - g.cell(p)) as nat),
    decreases 10 - g.cell(p),
{
    if g.cell(p) < SUMMIT {
        assert forall|d: Direction| #[trigger] rating_via(g, p, d) <= pow4((SUMMIT - g.cell(p) - 1) as nat) by {
            if let Some(q) = neighbour(p, d) {
                if climbs(g, p, q) {
                    lemma_rating_bound(g, q);
                }
            }
        }
        assert(rating_via(g, p, Direction::Down) <= pow4((SUMMIT - g.cell(p) - 1) as nat));
        assert(rating_via(g, p, Direction::Up) <= pow4((SUMMIT - g.cell(p) - 1) as nat));
        assert(rating_via(g, p, Direction::Left) <= pow4((SUMMIT - g.cell(p) - 1) as nat));
        assert(rating_via(g, p, Direction::Right) <= pow4((SUMMIT - g.cell(p) - 1) as nat));
    }
}

} // verus!

verus! {

/// The number of trails from `p` whose first step goes towards `d`, read
/// from a table that holds the rating of every cell one higher than `p`.
fn rating_towards(grid: &Grid<u8>, table: &Vec<u64>, p: Position, h: u8, d: Direction) -> (r: u64)
    requires
        grid@.wf(),
        grid@.in_bounds(p),
        h == grid@.cell(p),
        h < SUMMIT,
        table@.len() == grid@.cells.len(),
        forall|q: Position| grid@.in_bounds(q) && grid@.cell(q) == h + 1 ==>
            #[trigger] table@[grid@.index_of(q)] == rating(grid@, q),
    ensures
        r == rating_via(grid@, p, d),
        r <= pow4((SUMMIT - h - 1) as nat),
{
    proof {
        crate::regions::lemma_adjacent_of(p, d);
    }
    match p.move_to(d) {
        Some(q) => {
            match grid.get(q) {
                Some(hq) => {
                    if *hq == h + 1 {
                        proof {
                            lemma_rating_bound(grid@, q);
                        }
                        table[grid.index(q)]
                    } else {
                        0
                    }
                },
                None => 0,
            }
        },
        None => 0,
    }
}

/// The rating of `p`, from a table that holds the rating of every cell one
/// higher.
fn rating_at(grid: &Grid<u8>, table: &Vec<u64>, p: Position) -> (r: u64)
    requires
        grid@.wf(),
        grid@.in_bounds(p),
        grid@.cell(p) <= SUMMIT,
        table@.len() == grid@.cells.len(),
        forall|q: Position| grid@.in_bounds(q) && grid@.cell(q) == grid@.cell(p) + 1 ==>
            #[trigger] table@[grid@.index_of(q)] == rating(grid@, q),
    ensures
        r == rating(grid@, p),
{
    let h = *grid.get(p).unwrap();
    if h == SUMMIT {
        return 1;
    }
    let a = rating_towards(grid, table, p, h, Direction::Down);
    let b = rating_towards(grid, table, p, h, Direction::Up);
    let c = rating_towards(grid, table, p, h, Direction::Left);
    let d = rating_towards(grid, table, p, h, Direction::Right);
    proof {
        lemma_pow4_bound((SUMMIT - h - 1) as nat);
    }
    a + b + c + d
}

/// The rating of every cell, indexed like the grid's storage.
fn rating_table(grid: &Grid<u8>) -> (table: Vec<u64>)
    requires
        grid@.wf(),
    ensures
        table@.len() == grid@.cells.len(),
        forall|p: Position| grid@.in_bounds(p) ==> #[trigger] table@[grid@.index_of(p)] == rating(grid@, p),
{
    let ghost g = grid@;
    let n = grid.cell_count();
    let mut table: Vec<u64> = Vec::new();
    let mut i: usize = 0;
    while i < n
        invariant
            i <= n,
            table@.len() == i,
            forall|j: int| 0 <= j < i ==> #[trigger] table@[j] == 0,
        decreases n - i,
    {
        table.push(0);
        i = i + 1;
    }
    proof {
        assert forall|p: Position| g.in_bounds(p) && g.cell(p) > SUMMIT implies #[trigger] table@[g.index_of(p)] == 0 by {
            lemma_index_bounds(p.x as int, p.y as int, g.width as int, g.height as int);
        }
    }
    let mut lvl: u8 = 10;
    while lvl > 0
        invariant
            g == grid@,
            g.wf(),
            lvl <= 10,
            table@.len() == g.cells.len(),
            forall|p: Position| g.in_bounds(p) && g.cell(p) > SUMMIT ==> #[trigger] table@[g.index_of(p)] == 0,
            forall|p: Position| g.in_bounds(p) && lvl <= g.cell(p) <= SUMMIT ==>
                #[trigger] table@[g.index_of(p)] == rating(g, p),
        decreases lvl,
    {
        lvl = lvl - 1;
        let mut y: u32 = 0;
        while y < grid.height()
            invariant
                g == grid@,
                g.wf(),
                lvl < 10,
                y <= g.height,
                table@.len() == g.cells.len(),
                forall|p: Position| g.in_bounds(p) && g.cell(p) > SUMMIT ==> #[trigger] table@[g.index_of(p)] == 0,
                forall|p: Position| g.in_bounds(p) && lvl < g.cell(p) <= SUMMIT ==>
                    #[trigger] table@[g.index_of(p)] == rating(g, p),
                forall|p: Position| g.in_bounds(p) && g.cell(p) == lvl && p.y < y ==>
                    #[trigger] table@[g.index_of(p)] == rating(g, p),
            decreases g.height - y,
        {
            let mut x: u32 = 0;
            while x < grid.width()
                invariant
                    g == grid@,
                    g.wf(),
                    lvl < 10,
                    y < g.height,
                    x <= g.width,
                    table@.len() == g.cells.len(),
                    forall|p: Position| g.in_bounds(p) && g.cell(p) > SUMMIT ==> #[trigger] table@[g.index_of(p)] == 0,
                    forall|p: Position| g.in_bounds(p) && lvl < g.cell(p) <= SUMMIT ==>
                        #[trigger] table@[g.index_of(p)] == rating(g, p),
                    forall|p: Position| g.in_bounds(p) && g.cell(p) == lvl && (p.y < y || (p.y == y && p.x < x)) ==>
                        #[trigger] table@[g.index_of(p)] == rating(g, p),
                decreases g.width - x,
            {
                let p = Position { x, y };
                if *grid.get(p).unwrap() == lvl {
                    let r = rating_at(grid, &table, p);
                    let pi = grid.index(p);
                    let ghost before = table@;
                    table.set(pi, r);
                    proof {
                        assert forall|q: Position| g.in_bounds(q) && q != p implies
                            #[trigger] table@[g.index_of(q)] == before[g.index_of(q)] by {
                            lemma_index_bounds(q.x as int, q.y as int, g.width as int, g.height as int);
                            if g.index_of(q) == g.index_of(p) {
                                crate::regions::lemma_same_index(g, q, p);
                            }
                        }
                    }
                }
                x = x + 1;
            }
            y = y + 1;
        }
    }
    table
}

} // verus!

verus! {

/// The cells reached from `p` by `k` climbing steps.
pub open spec fn climbed(g: GridView<u8>, p: Position, k: nat) -> Set<Position>
    decreases k,
{
    if k == 0 {
        Set::empty().insert(p)
    } else {
        Set::new(|q: Position| exists|r: Position| #[trigger] climbed(g, p, (k - 1) as nat).contains(r) && climbs(g, r, q))
    }
}

/// The summits that trails from `p` reach.
pub open spec fn summits(g: GridView<u8>, p: Position) -> Set<Position> {
    climbed(g, p, SUMMIT as nat)
}

/// The cells one step above the first `i` cells of `layer`.
spec fn covered(g: GridView<u8>, layer: Seq<Position>, i: int) -> Set<Position> {
    Set::new(|q: Position| exists|j: int| 0 <= j < i && climbs(g, #[trigger] layer[j], q))
}

/// The cell one step above `r` towards `d`, if there is one.
spec fn target(g: GridView<u8>, r: Position, d: Direction) -> Set<Position> {
    Set::new(|q: Position| neighbour(r, d) == Some(q) && climbs(g, r, q))
}

/// `out` lists once each the cells of `s`, all at height `k + 1`, and
/// `seen` marks exactly those among the cells of that height.
spec fn layer_state(g: GridView<u8>, k: nat, out: Seq<Position>, seen: Seq<bool>, seen0: Seq<bool>, s: Set<Position>) -> bool {
    &&& seen.len() == g.cells.len()
    &&& out.no_duplicates()
    &&& forall|j: int| 0 <= j < out.len() ==> g.in_bounds(#[trigger] out[j]) && g.cell(out[j]) == k + 1
    &&& forall|q: Position| #[trigger] out.contains(q) <==> s.contains(q)
    &&& forall|q: Position| g.in_bounds(q) && g.cell(q) == k + 1 ==> (#[trigger] seen[g.index_of(q)] <==> out.contains(q))
    &&& forall|q: Position| g.in_bounds(q) && g.cell(q) != k + 1 ==>
        #[trigger] seen[g.index_of(q)] == seen0[g.index_of(q)]
}

proof fn lemma_climb_step(
    g: GridView<u8>,
    k: nat,
    r: Position,
    d: Direction,
    out: Seq<Position>,
    seen: Seq<bool>,
    out2: Seq<Position>,
    seen2: Seq<bool>,
    seen0: Seq<bool>,
    s: Set<Position>,
)
    requires
        g.wf(),
        g.in_bounds(r),
        g.cell(r) == k,
        layer_state(g, k, out, seen, seen0, s),
        seen2.len() == seen.len(),
        match neighbour(r, d) {
            Some(q) => if climbs(g, r, q) && !seen[g.index_of(q)] {
                &&& out2 == out.push(q)
                &&& seen2 == seen.update(g.index_of(q), true)
            } else {
                &&& out2 == out
                &&& seen2 == seen
            },
            None => out2 == out && seen2 == seen,
        },
    ensures
        layer_state(g, k, out2, seen2, seen0, s.union(target(g, r, d))),
{
    let s2 = s.union(target(g, r, d));
    match neighbour(r, d) {
        Some(q) => {
            if climbs(g, r, q) && !seen[g.index_of(q)] {
                lemma_index_bounds(q.x as int, q.y as int, g.width as int, g.height as int);
                assert(!out.contains(q));
                assert forall|i: int, j: int| 0 <= i < j < out2.len() implies out2[i] != out2[j] by {
                    if j == out.len() {
                        assert(out.contains(out[i]));
                    }
                }
                assert forall|j: int| 0 <= j < out2.len() implies g.in_bounds(#[trigger] out2[j]) && g.cell(out2[j]) == k + 1 by {
                    if j < out.len() {
                        assert(out2[j] == out[j]);
                    }
                }
                assert forall|x: Position| #[trigger] out2.contains(x) <==> s2.contains(x) by {
                    if out2.contains(x) {
                        let j = choose|j: int| 0 <= j < out2.len() && out2[j] == x;
                        if j < out.len() {
                            assert(out[j] == x);
                        }
                    }
                    if out.contains(x) {
                        let j = choose|j: int| 0 <= j < out.len() && out[j] == x;
                        assert(out2[j] == x);
                    }
                    if x == q {
                        assert(out2[out.len() as int] == q);
                    }
                }
                assert forall|x: Position| g.in_bounds(x) && g.cell(x) == k + 1 implies
                    (#[trigger] seen2[g.index_of(x)] <==> out2.contains(x)) by {
                    lemma_index_bounds(x.x as int, x.y as int, g.width as int, g.height as int);
                    if x != q && g.index_of(x) == g.index_of(q) {
                        crate::regions::lemma_same_index(g, x, q);
                    }
                    if x == q {
                        assert(out2[out.len() as int] == q);
                    } else {
                        if out2.contains(x) {
                            let j = choose|j: int| 0 <= j < out2.len() && out2[j] == x;
                            assert(out[j] == x);
                        }
                        if out.contains(x) {
                            let j = choose|j: int| 0 <= j < out.len() && out[j] == x;
                            assert(out2[j] == x);
                        }
                    }
                }
                assert forall|x: Position| g.in_bounds(x) && g.cell(x) != k + 1 implies
                    #[trigger] seen2[g.index_of(x)] == seen0[g.index_of(x)] by {
                    lemma_index_bounds(x.x as int, x.y as int, g.width as int, g.height as int);
                    if g.index_of(x) == g.index_of(q) {
                        crate::regions::lemma_same_index(g, x, q);
                    }
                }
            } else {
                assert forall|x: Position| #[trigger] out2.contains(x) <==> s2.contains(x) by {
                    if target(g, r, d).contains(x) {
                        assert(x == q);
                        lemma_index_bounds(q.x as int, q.y as int, g.width as int, g.height as int);
                        assert(seen[g.index_of(q)]);
                    }
                }
            }
        },
        None => {
            assert forall|x: Position| #[trigger] out2.contains(x) <==> s2.contains(x) by {}
        },
    }
}

/// Steps from `r` towards `d` onto a cell one higher that is not yet seen.
fn climb_to(grid: &Grid<u8>, r: Position, d: Direction, seen: &mut Vec<bool>, out: &mut Vec<Position>)
    requires
        grid@.wf(),
        grid@.in_bounds(r),
        old(seen)@.len() == grid@.cells.len(),
    ensures
        final(seen)@.len() == old(seen)@.len(),
        match neighbour(r, d) {
            Some(q) => if climbs(grid@, r, q) && !old(seen)@[grid@.index_of(q)] {
                &&& final(out)@ == old(out)@.push(q)
                &&& final(seen)@ == old(seen)@.update(grid@.index_of(q), true)
            } else {
                &&& final(out)@ == old(out)@
                &&& final(seen)@ == old(seen)@
            },
            None => final(out)@ == old(out)@ && final(seen)@ == old(seen)@,
        },
{
    proof {
        crate::regions::lemma_adjacent_of(r, d);
    }
    let h = *grid.get(r).unwrap();
    match r.move_to(d) {
        Some(q) => {
            match grid.get(q) {
                Some(hq) => {
                    if h < 255 && *hq == h + 1 {
                        let qi = grid.index(q);
                        if !seen[qi] {
                            seen.set(qi, true);
                            out.push(q);
                        }
                    }
                },
                None => {},
            }
        },
        None => {},
    }
}

/// The cells one step above the cells of `layer`, each once.
fn next_layer(grid: &Grid<u8>, layer: &Vec<Position>, seen: &mut Vec<bool>, Ghost(k): Ghost<nat>) -> (out: Vec<Position>)
    requires
        grid@.wf(),
        old(seen)@.len() == grid@.cells.len(),
        forall|i: int| 0 <= i < layer@.len() ==> grid@.in_bounds(#[trigger] layer@[i]) && grid@.cell(layer@[i]) == k,
        forall|q: Position| grid@.in_bounds(q) && grid@.cell(q) == k + 1 ==> !old(seen)@[#[trigger] grid@.index_of(q)],
    ensures
        final(seen)@.len() == old(seen)@.len(),
        out@.no_duplicates(),
        forall|i: int| 0 <= i < out@.len() ==> grid@.in_bounds(#[trigger] out@[i]) && grid@.cell(out@[i]) == k + 1,
        forall|q: Position| #[trigger] out@.contains(q) <==> exists|r: Position| #[trigger] layer@.contains(r) && climbs(grid@, r, q),
        forall|q: Position| grid@.in_bounds(q) && grid@.cell(q) != k + 1 ==>
            #[trigger] final(seen)@[grid@.index_of(q)] == old(seen)@[grid@.index_of(q)],
{
    let ghost g = grid@;
    let ghost seen0 = seen@;
    let mut out: Vec<Position> = Vec::new();
    let mut i: usize = 0;
    while i < layer.len()
        invariant
            g == grid@,
            g.wf(),
            i <= layer@.len(),
            seen@.len() == g.cells.len(),
            forall|j: int| 0 <= j < layer@.len() ==> g.in_bounds(#[trigger] layer@[j]) && g.cell(layer@[j]) == k,
            layer_state(g, k, out@, seen@, seen0, covered(g, layer@, i as int)),
        decreases layer@.len() - i,
    {
        let r = layer[i];
        let ghost s0 = covered(g, layer@, i as int);
        let ghost (o0, e0) = (out@, seen@);
        climb_to(grid, r, Direction::Down, seen, &mut out);
        proof {
            lemma_climb_step(g, k, r, Direction::Down, o0, e0, out@, seen@, seen0, s0);
        }
        let ghost s1 = s0.union(target(g, r, Direction::Down));
        let ghost (o1, e1) = (out@, seen@);
        climb_to(grid, r, Direction::Up, seen, &mut out);
        proof {
            lemma_climb_step(g, k, r, Direction::Up, o1, e1, out@, seen@, seen0, s1);
        }
        let ghost s2 = s1.union(target(g, r, Direction::Up));
        let ghost (o2, e2) = (out@, seen@);
        climb_to(grid, r, Direction::Left, seen, &mut out);
        proof {
            lemma_climb_step(g, k, r, Direction::Left, o2, e2, out@, seen@, seen0, s2);
        }
        let ghost s3 = s2.union(target(g, r, Direction::Left));
        let ghost (o3, e3) = (out@, seen@);
        climb_to(grid, r, Direction::Right, seen, &mut out);
        proof {
            lemma_climb_step(g, k, r, Direction::Right, o3, e3, out@, seen@, seen0, s3);
            let s4 = s3.union(target(g, r, Direction::Right));
            assert(s4 =~= covered(g, layer@, i + 1)) by {
                assert forall|q: Position| s4.contains(q) <==> covered(g, layer@, i + 1).contains(q) by {
                    if climbs(g, r, q) {
                        crate::regions::lemma_direction_to(r, q);
                    }
                    if covered(g, layer@, i + 1).contains(q) {
                        let j = choose|j: int| 0 <= j < i + 1 && climbs(g, #[trigger] layer@[j], q);
                        if j < i {
                            assert(s0.contains(q));
                        }
                    }
                    if s0.contains(q) {
                        let j = choose|j: int| 0 <= j < i && climbs(g, #[trigger] layer@[j], q);
                        assert(covered(g, layer@, i + 1).contains(q));
                    }
                    if s4.contains(q) && !s0.contains(q) {
                        assert(climbs(g, layer@[i as int], q));
                    }
                }
            }
        }
        i = i + 1;
    }
    proof {
        assert forall|q: Position| #[trigger] out@.contains(q) <==> exists|r: Position| #[trigger] layer@.contains(r) && climbs(g, r, q) by {
            if out@.contains(q) {
                assert(covered(g, layer@, layer@.len() as int).contains(q));
                let j = choose|j: int| 0 <= j < layer@.len() && climbs(g, #[trigger] layer@[j], q);
                assert(layer@.contains(layer@[j]));
            }
            if exists|r: Position| #[trigger] layer@.contains(r) && climbs(g, r, q) {
                let r = choose|r: Position| #[trigger] layer@.contains(r) && climbs(g, r, q);
                let j = choose|j: int| 0 <= j < layer@.len() && layer@[j] == r;
                assert(climbs(g, layer@[j], q));
                assert(covered(g, layer@, layer@.len() as int).contains(q));
            }
        }
    }
    out
}

} // verus!

verus! {

/// How many summits the trails from the trailhead `p` reach.
fn trailhead_score(grid: &Grid<u8>, p: Position) -> (r: u64)
    requires
        grid@.wf(),
        grid@.in_bounds(p),
        grid@.cell(p) == 0,
    ensures
        r == summits(grid@, p).len(),
{
    let ghost g = grid@;
    let n = grid.cell_count();
    let mut seen: Vec<bool> = Vec::new();
    let mut i: usize = 0;
    while i < n
        invariant
            i <= n,
            seen@.len() == i,
            forall|j: int| 0 <= j < i ==> !#[trigger] seen@[j],
        decreases n - i,
    {
        seen.push(false);
        i = i + 1;
    }
    let mut layer: Vec<Position> = Vec::new();
    layer.push(p);
    proof {
        assert forall|q: Position| #[trigger] layer@.contains(q) <==> climbed(g, p, 0).contains(q) by {
            if q == p {
                assert(layer@[0] == p);
            }
        }
        assert forall|q: Position| g.in_bounds(q) && g.cell(q) > 0 implies !#[trigger] seen@[g.index_of(q)] by {
            lemma_index_bounds(q.x as int, q.y as int, g.width as int, g.height as int);
        }
    }
    let mut k: u8 = 0;
    while k < SUMMIT
        invariant
            g == grid@,
            g.wf(),
            k <= SUMMIT,
            seen@.len() == g.cells.len(),
            layer@.no_duplicates(),
            forall|j: int| 0 <= j < layer@.len() ==> g.in_bounds(#[trigger] layer@[j]) && g.cell(layer@[j]) == k,
            forall|q: Position| #[trigger] layer@.contains(q) <==> climbed(g, p, k as nat).contains(q),
            forall|q: Position| g.in_bounds(q) && g.cell(q) > k ==> !#[trigger] seen@[g.index_of(q)],
        decreases SUMMIT - k,
    {
        let ghost seen0 = seen@;
        let ghost layer0 = layer@;
        layer = next_layer(grid, &layer, &mut seen, Ghost(k as nat));
        proof {
            assert forall|q: Position| #[trigger] layer@.contains(q) <==> climbed(g, p, (k + 1) as nat).contains(q) by {
                if layer@.contains(q) {
                    let r = choose|r: Position| #[trigger] layer0.contains(r) && climbs(g, r, q);
                    assert(climbed(g, p, k as nat).contains(r));
                }
                if climbed(g, p, (k + 1) as nat).contains(q) {
                    let r = choose|r: Position| #[trigger] climbed(g, p, k as nat).contains(r) && climbs(g, r, q);
                    assert(layer0.contains(r));
                }
            }
        }
        k = k + 1;
    }
    proof {
        assert(layer@.to_set() =~= summits(g, p));
        layer@.unique_seq_to_set();
    }
    layer.len() as u64
}

/// A trailhead, a cell of height 0, with the number of summits its trails
/// reach and the number of its distinct trails.
pub struct Trailhead {
    pub position: Position,
    pub score: u64,
    pub rating: u64,
}

/// Every trailhead of the height map, in row-major order, with its score
/// and rating.
pub fn find_hikes(grid: &Grid<u8>) -> (r: Vec<Trailhead>)
    requires
        grid@.wf(),
    ensures
        forall|i: int| 0 <= i < r@.len() ==> {
            let t = #[trigger] r@[i];
            &&& grid@.in_bounds(t.position)
            &&& grid@.cell(t.position) == 0
            &&& t.score == summits(grid@, t.position).len()
            &&& t.rating == rating(grid@, t.position)
        },
        forall|p: Position| grid@.in_bounds(p) && grid@.cell(p) == 0 ==>
            exists|i: int| 0 <= i < r@.len() && (#[trigger] r@[i]).position == p,
        forall|i: int, j: int| 0 <= i < j < r@.len() ==>
            grid@.index_of((#[trigger] r@[i]).position) < grid@.index_of((#[trigger] r@[j]).position),
{
    let ghost g = grid@;
    let table = rating_table(grid);
    let mut r: Vec<Trailhead> = Vec::new();
    let mut y: u32 = 0;
    while y < grid.height()
        invariant
            g == grid@,
            g.wf(),
            y <= g.height,
            table@.len() == g.cells.len(),
            forall|p: Position| g.in_bounds(p) ==> #[trigger] table@[g.index_of(p)] == rating(g, p),
            forall|i: int| 0 <= i < r@.len() ==> {
                let t = #[trigger] r@[i];
                &&& g.in_bounds(t.position)
                &&& g.cell(t.position) == 0
                &&& t.score == summits(g, t.position).len()
                &&& t.rating == rating(g, t.position)
                &&& g.index_of(t.position) < y * g.width
            },
            forall|p: Position| g.in_bounds(p) && g.cell(p) == 0 && p.y < y ==>
                exists|i: int| 0 <= i < r@.len() && (#[trigger] r@[i]).position == p,
            forall|i: int, j: int| 0 <= i < j < r@.len() ==>
                g.index_of((#[trigger] r@[i]).position) < g.index_of((#[trigger] r@[j]).position),
        decreases g.height - y,
    {
        let mut x: u32 = 0;
        while x < grid.width()
            invariant
                g == grid@,
                g.wf(),
                y < g.height,
                x <= g.width,
                table@.len() == g.cells.len(),
                forall|p: Position| g.in_bounds(p) ==> #[trigger] table@[g.index_of(p)] == rating(g, p),
                forall|i: int| 0 <= i < r@.len() ==> {
                    let t = #[trigger] r@[i];
                    &&& g.in_bounds(t.position)
                    &&& g.cell(t.position) == 0
                    &&& t.score == summits(g, t.position).len()
                    &&& t.rating == rating(g, t.position)
                    &&& g.index_of(t.position) < y * g.width + x
                },
                forall|p: Position| g.in_bounds(p) && g.cell(p) == 0 && (p.y < y || (p.y == y && p.x < x)) ==>
                    exists|i: int| 0 <= i < r@.len() && (#[trigger] r@[i]).position == p,
                forall|i: int, j: int| 0 <= i < j < r@.len() ==>
                    g.index_of((#[trigger] r@[i]).position) < g.index_of((#[trigger] r@[j]).position),
            decreases g.width - x,
        {
            let p = Position { x, y };
            if *grid.get(p).unwrap() == 0 {
                let score = trailhead_score(grid, p);
                let trails = table[grid.index(p)];
                let ghost before = r@;
                r.push(Trailhead { position: p, score, rating: trails });
                proof {
                    assert forall|q: Position| g.in_bounds(q) && g.cell(q) == 0 && (q.y < y || (q.y == y && q.x < x + 1)) implies
                        exists|i: int| 0 <= i < r@.len() && (#[trigger] r@[i]).position == q by {
                        if q == p {
                            assert(r@[before.len() as int].position == p);
                        } else {
                            let i = choose|i: int| 0 <= i < before.len() && (#[trigger] before[i]).position == q;
                            assert(r@[i].position == q);
                        }
                    }
                    assert forall|i: int| 0 <= i < r@.len() implies {
                        let t = #[trigger] r@[i];
                        &&& g.in_bounds(t.position)
                        &&& g.cell(t.position) == 0
                        &&& t.score == summits(g, t.position).len()
                        &&& t.rating == rating(g, t.position)
                        &&& g.index_of(t.position) < y * g.width + x + 1
                    } by {
                        if i < before.len() {
                            assert(r@[i] == before[i]);
                        }
                    }
                    assert forall|i: int, j: int| 0 <= i < j < r@.len() implies
                        g.index_of((#[trigger] r@[i]).position) < g.index_of((#[trigger] r@[j]).position) by {
                        assert(r@[i] == before[i]);
                        if j < before.len() {
                            assert(r@[j] == before[j]);
                        }
                    }
                }
            }
            x = x + 1;
        }
        proof {
            assert(y * g.width + g.width == (y + 1) * g.width) by (nonlinear_arith);
        }
        y = y + 1;
    }
    r
}

} // verus!
