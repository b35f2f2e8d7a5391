//! Cheapest routes through a maze of walls, where stepping forward costs
//! one and turning in place by a quarter costs a thousand.
use vstd::prelude::*;
use vstd::laws_eq::obeys_concrete_eq;
use vstd::set_lib::{lemma_int_range, lemma_len_subset, set_int_range};
use itertools::Itertools;

use crate::grid::{Grid, GridView};
use crate::position::{Direction, Position, neighbour};

verus! {

/// One cell of a maze.
#[derive(Debug, Clone, Copy, Eq, Hash)]
pub enum Tile {
    Empty,
    Wall,
    Start,
    End,
}

impl PartialEq for Tile {
    fn eq(&self, other: &Tile) -> (r: bool) {
        match (self, other) {
            (Tile::Empty, Tile::Empty) => true,
            (Tile::Wall, Tile::Wall) => true,
            (Tile::Start, Tile::Start) => true,
            (Tile::End, Tile::End) => true,
            _ => false,
        }
    }
}

impl vstd::std_specs::cmp::PartialEqSpecImpl for Tile {
    open spec fn obeys_eq_spec() -> bool {
        true
    }

    open spec fn eq_spec(&self, other: &Tile) -> bool {
        *self == *other
    }
}

/// A place in a maze together with the way one faces there.
pub type PathNode = (Position, Direction);

/// What a quarter turn in place costs.
pub const TURN_COST: u64 = 1000;

/// The largest maze, in cells, that a search takes on: four facings per
/// cell must be addressable, and the cost of any route without repeated
/// places must fit in a `u64`.
pub const MAX_MAZE_CELLS: u64 = 0x1000_0000;

/// Marks a node that no route has reached yet.
const UNREACHED: u64 = u64::MAX;

/// Whether `p` is inside the maze and not a wall.
pub open spec fn passable(g: GridView<Tile>, p: Position) -> bool {
    g.in_bounds(p) && g.cell(p) != Tile::Wall
}

/// `b` follows `a` in one move: a quarter turn in place, or a step forward
/// onto a passable cell.
pub open spec fn is_step(g: GridView<Tile>, a: PathNode, b: PathNode) -> bool {
    ||| a.0 == b.0 && (b.1 == a.1.clockwise() || b.1 == a.1.counter_clockwise())
    ||| b.1 == a.1 && neighbour(a.0, a.1) == Some(b.0) && passable(g, b.0)
}

/// What the move from `a` to `b` costs: a turn where the place stays the
/// same, a single step otherwise.
pub open spec fn step_weight(a: PathNode, b: PathNode) -> nat {
    if a.0 == b.0 {
        TURN_COST as nat
    } else {
        1
    }
}

/// A sequence of nodes, each reached from the one before in one move.
pub open spec fn is_route(g: GridView<Tile>, r: Seq<PathNode>) -> bool {
    &&& r.len() >= 1
    &&& forall|i: int| 0 <= i < r.len() - 1 ==> is_step(g, #[trigger] r[i], r[i + 1])
}

/// The summed cost of the moves along `r`.
pub open spec fn route_cost(r: Seq<PathNode>) -> nat
    decreases r.len(),
{
    if r.len() <= 1 {
        0
    } else {
        route_cost(r.drop_last()) + step_weight(r[r.len() - 2], r.last())
    }
}

/// `r` leaves `s` facing right and ends, facing any way, at `e`.
pub open spec fn route_between(g: GridView<Tile>, s: Position, e: Position, r: Seq<PathNode>) -> bool {
    &&& is_route(g, r)
    &&& r[0] == (s, Direction::Right)
    &&& r.last().0 == e
}

/// `c` is the least cost of a route from `s` to `e`.
pub open spec fn is_min_cost(g: GridView<Tile>, s: Position, e: Position, c: nat) -> bool {
    &&& exists|r: Seq<PathNode>| route_between(g, s, e, r) && route_cost(r) == c
    &&& forall|r: Seq<PathNode>| route_between(g, s, e, r) ==> c <= route_cost(r)
}

/// No route leads from `s` to `e`.
pub open spec fn unreachable(g: GridView<Tile>, s: Position, e: Position) -> bool {
    forall|r: Seq<PathNode>| !route_between(g, s, e, r)
}

spec fn dir_code(d: Direction) -> int {
    match d {
        Direction::Up => 0,
        Direction::Right => 1,
        Direction::Down => 2,
        Direction::Left => 3,
    }
}

spec fn dir_of_code(c: int) -> Direction {
    if c == 0 {
        Direction::Up
    } else if c == 1 {
        Direction::Right
    } else if c == 2 {
        Direction::Down
    } else {
        Direction::Left
    }
}

/// How many nodes a maze has: four facings per cell.
spec fn node_count(g: GridView<Tile>) -> int {
    (g.width * g.height * 4) as int
}

/// The number of node `n` in the cost table.
spec fn node_id(g: GridView<Tile>, n: PathNode) -> int {
    g.index_of(n.0) * 4 + dir_code(n.1)
}

/// The node whose number is `id`.
spec fn node_at(g: GridView<Tile>, id: int) -> PathNode {
    (Position { x: ((id / 4) % (g.width as int)) as u32, y: ((id / 4) / (g.width as int)) as u32 }, dir_of_code(id % 4))
}

proof fn lemma_node_id(g: GridView<Tile>, n: PathNode)
    requires
        g.wf(),
        g.in_bounds(n.0),
    ensures
        0 <= node_id(g, n) < node_count(g),
        node_at(g, node_id(g, n)) == n,
{
    let x = n.0.x as int;
    let y = n.0.y as int;
    let w = g.width as int;
    let h = g.height as int;
    let idx = x + y * w;
    assert(0 <= x + y * w < w * h) by (nonlinear_arith)
        requires 0 <= x < w, 0 <= y < h;
    assert(w * h * 4 == (w * h) * 4) by (nonlinear_arith);
    vstd::arithmetic::div_mod::lemma_fundamental_div_mod_converse(idx * 4 + dir_code(n.1), 4, idx, dir_code(n.1));
    vstd::arithmetic::div_mod::lemma_fundamental_div_mod_converse(idx, w, y, x);
}

proof fn lemma_node_at(g: GridView<Tile>, id: int)
    requires
        g.wf(),
        0 <= id < node_count(g),
    ensures
        g.in_bounds(node_at(g, id).0),
        node_id(g, node_at(g, id)) == id,
{
    let w = g.width as int;
    let h = g.height as int;
    let idx = id / 4;
    vstd::arithmetic::div_mod::lemma_fundamental_div_mod(id, 4);
    vstd::arithmetic::div_mod::lemma_fundamental_div_mod(idx, w);
    let m = w * h;
    assert(node_count(g) == m * 4);
    assert(0 <= idx < m);
    let x = idx % w;
    let y = idx / w;
    assert(0 <= y < h) by (nonlinear_arith)
        requires idx == w * y + x, 0 <= x < w, 0 <= idx < w * h;
    assert(idx == x + y * w) by (nonlinear_arith)
        requires idx == w * (idx / w) + idx % w, x == idx % w, y == idx / w;
}

/// Why a search could not start.
#[derive(Debug, Clone, Copy, PartialEq, Eq, Structural)]
pub enum SearchError {
    /// The maze has no start cell, or no end cell.
    MissingMarker,
    /// The maze has more than one start cell, or more than one end cell.
    DuplicateMarker,
}

/// No cell of `g` holds `t`.
pub open spec fn absent(g: GridView<Tile>, t: Tile) -> bool {
    forall|p: Position| g.in_bounds(p) ==> g.cell(p) != t
}

/// Two different cells of `g` hold `t`.
pub open spec fn repeated(g: GridView<Tile>, t: Tile) -> bool {
    exists|p: Position, q: Position| p != q && g.in_bounds(p) && g.in_bounds(q) && g.cell(p) == t && g.cell(q) == t
}

/// `p` is the one cell of `g` that holds `t`.
pub open spec fn unique_at(g: GridView<Tile>, t: Tile, p: Position) -> bool {
    &&& g.in_bounds(p)
    &&& g.cell(p) == t
    &&& forall|q: Position| g.in_bounds(q) && g.cell(q) == t ==> q == p
}

/// There is a route from `s` facing right to the node `n`, of cost `c`.
pub open spec fn reaches_node(g: GridView<Tile>, s: Position, n: PathNode, c: nat) -> bool {
    exists|r: Seq<PathNode>| is_route(g, r) && r[0] == (s, Direction::Right) && r.last() == n && route_cost(r) == c
}

/// Every node of `dist` that is not marked unreached is reached from `s`
/// at exactly that cost.
#[verifier::opaque]
spec fn costs_sound(g: GridView<Tile>, s: Position, dist: Seq<u64>) -> bool {
    forall|v: int| 0 <= v < node_count(g) && #[trigger] dist[v] < UNREACHED ==> reaches_node(g, s, node_at(g, v), dist[v] as nat)
}

/// No move out of a reached node `u` (but `except`) leads to a node whose
/// cost could be lowered through it.
#[verifier::opaque]
spec fn costs_closed(g: GridView<Tile>, dist: Seq<u64>, queued: Seq<bool>, except: int) -> bool {
    forall|u: int, v: int|
        0 <= u < node_count(g) && 0 <= v < node_count(g) && u != except && !queued[u] && dist[u] < UNREACHED
            && #[trigger] is_step(g, node_at(g, u), node_at(g, v))
            ==> dist[v] <= dist[u] + step_weight(node_at(g, u), node_at(g, v))
                || dist[u] + step_weight(node_at(g, u), node_at(g, v)) >= UNREACHED
}

/// The sum of the costs in a table, the measure that each improvement lowers.
spec fn total(s: Seq<u64>) -> nat
    decreases s.len(),
{
    if s.len() == 0 {
        0
    } else {
        total(s.drop_last()) + s.last() as nat
    }
}

proof fn lemma_total_update(s: Seq<u64>, i: int, x: u64)
    requires
        0 <= i < s.len(),
    ensures
        total(s.update(i, x)) + s[i] == total(s) + x,
    decreases s.len(),
{
    if i == s.len() - 1 {
        assert(s.update(i, x).drop_last() =~= s.drop_last());
    } else {
        assert(s.update(i, x).drop_last() =~= s.drop_last().update(i, x));
        lemma_total_update(s.drop_last(), i, x);
    }
}

proof fn lemma_route_push(r: Seq<PathNode>, n: PathNode)
    requires
        r.len() >= 1,
    ensures
        route_cost(r.push(n)) == route_cost(r) + step_weight(r.last(), n),
{
    assert(r.push(n).drop_last() =~= r);
}

proof fn lemma_route_cost_bound(r: Seq<PathNode>)
    requires
        r.len() >= 1,
    ensures
        route_cost(r) <= TURN_COST * (r.len() - 1),
    decreases r.len(),
{
    if r.len() > 1 {
        lemma_route_cost_bound(r.drop_last());
    }
}

/// Every node of a route that starts inside the maze is inside it.
proof fn lemma_route_in_bounds(g: GridView<Tile>, r: Seq<PathNode>, i: int)
    requires
        is_route(g, r),
        g.in_bounds(r[0].0),
        0 <= i < r.len(),
    ensures
        g.in_bounds(r[i].0),
    decreases i,
{
    if i > 0 {
        lemma_route_in_bounds(g, r, i - 1);
        assert(is_step(g, r[i - 1], r[i]));
    }
}

/// A closed cost table with the start at zero costs no node more than any
/// affordable route to it.
proof fn lemma_costs_lower(g: GridView<Tile>, s: Position, dist: Seq<u64>, queued: Seq<bool>, r: Seq<PathNode>)
    requires
        g.wf(),
        g.in_bounds(s),
        dist.len() == node_count(g),
        costs_closed(g, dist, queued, -1),
        forall|u: int| 0 <= u < node_count(g) ==> !queued[u],
        dist[node_id(g, (s, Direction::Right))] == 0,
        is_route(g, r),
        r[0] == (s, Direction::Right),
        route_cost(r) < UNREACHED,
    ensures
        g.in_bounds(r.last().0),
        dist[node_id(g, r.last())] <= route_cost(r),
    decreases r.len(),
{
    reveal(costs_closed);
    lemma_route_in_bounds(g, r, r.len() - 1);
    if r.len() > 1 {
        let q = r.drop_last();
        assert(is_route(g, q)) by {
            assert forall|i: int| 0 <= i < q.len() - 1 implies is_step(g, #[trigger] q[i], q[i + 1]) by {
                assert(q[i] == r[i] && q[i + 1] == r[i + 1]);
            }
        }
        lemma_costs_lower(g, s, dist, queued, q);
        let a = q.last();
        let b = r.last();
        assert(a == r[r.len() - 2]);
        assert(is_step(g, a, b));
        lemma_node_id(g, a);
        lemma_node_id(g, b);
        let u = node_id(g, a);
        let v = node_id(g, b);
        assert(is_step(g, node_at(g, u), node_at(g, v)));
    }
}

/// A route with more nodes than the maze has visits some node twice.
proof fn lemma_route_repeats(g: GridView<Tile>, r: Seq<PathNode>) -> (ij: (int, int))
    requires
        g.wf(),
        is_route(g, r),
        g.in_bounds(r[0].0),
        r.len() > node_count(g),
    ensures
        0 <= ij.0 < ij.1 < r.len(),
        r[ij.0] == r[ij.1],
{
    let ids = Seq::new(r.len(), |i: int| node_id(g, r[i]));
    assert forall|i: int| 0 <= i < r.len() implies 0 <= #[trigger] ids[i] < node_count(g) by {
        lemma_route_in_bounds(g, r, i);
        lemma_node_id(g, r[i]);
    }
    if ids.no_duplicates() {
        ids.unique_seq_to_set();
        lemma_int_range(0, node_count(g));
        assert(ids.to_set().subset_of(set_int_range(0, node_count(g))));
        lemma_len_subset(ids.to_set(), set_int_range(0, node_count(g)));
        assert(false);
    }
    let (i, j) = choose|i: int, j: int| 0 <= i < ids.len() && 0 <= j < ids.len() && i != j && ids[i] == ids[j];
    lemma_route_in_bounds(g, r, i);
    lemma_route_in_bounds(g, r, j);
    lemma_node_id(g, r[i]);
    lemma_node_id(g, r[j]);
    if i < j {
        (i, j)
    } else {
        (j, i)
    }
}

/// Leaving out the loop between two visits of one node keeps a route.
proof fn lemma_route_cut(g: GridView<Tile>, r: Seq<PathNode>, i: int, j: int)
    requires
        is_route(g, r),
        0 <= i < j < r.len(),
        r[i] == r[j],
    ensures
        is_route(g, r.take(i) + r.skip(j)),
        (r.take(i) + r.skip(j))[0] == r[0],
        (r.take(i) + r.skip(j)).last() == r.last(),
        (r.take(i) + r.skip(j)).len() < r.len(),
{
    let cut = r.take(i) + r.skip(j);
    assert(cut.len() == r.len() - (j - i));
    assert forall|k: int| 0 <= k < cut.len() - 1 implies is_step(g, #[trigger] cut[k], cut[k + 1]) by {
        if k < i - 1 {
            assert(cut[k] == r[k] && cut[k + 1] == r[k + 1]);
        } else if k == i - 1 {
            assert(cut[k] == r[k] && cut[k + 1] == r[j]);
        } else {
            assert(cut[k] == r[k + j - i] && cut[k + 1] == r[k + j - i + 1]);
        }
    }
    assert(cut[0] == r[0]);
    assert(cut.last() == r.last());
}

/// Any node reached by a route is reached by one with no more nodes than
/// the maze has.
proof fn lemma_short_route(g: GridView<Tile>, r: Seq<PathNode>) -> (t: Seq<PathNode>)
    requires
        g.wf(),
        is_route(g, r),
        g.in_bounds(r[0].0),
    ensures
        is_route(g, t),
        t[0] == r[0],
        t.last() == r.last(),
        t.len() <= node_count(g),
    decreases r.len(),
{
    if r.len() <= node_count(g) {
        r
    } else {
        let (i, j) = lemma_route_repeats(g, r);
        lemma_route_cut(g, r, i, j);
        lemma_short_route(g, r.take(i) + r.skip(j))
    }
}

/// The index of the first least key, or `None` for no keys.
/// Relies on `itertools::Itertools::position_min`, which returns the
/// position of the first of several equally least elements.
#[verifier::external_body]
fn position_of_min(keys: &Vec<u64>) -> (r: Option<usize>)
    ensures
        match r {
            None => keys@.len() == 0,
            Some(k) => {
                &&& k < keys@.len()
                &&& forall|j: int| 0 <= j < keys@.len() ==> keys@[k as int] <= #[trigger] keys@[j]
                &&& forall|j: int| 0 <= j < k ==> keys@[k as int] < #[trigger] keys@[j]
            },
        },
{
    keys.iter().position_min()
}

/// Where in `queue` the node of least cost stands; the first such place
/// where several tie.
fn pick_min(queue: &Vec<usize>, dist: &Vec<u64>) -> (k: usize)
    requires
        queue@.len() > 0,
        forall|i: int| 0 <= i < queue@.len() ==> (#[trigger] queue@[i]) < dist@.len(),
    ensures
        k < queue@.len(),
        forall|j: int| 0 <= j < queue@.len() ==> dist@[queue@[k as int] as int] <= dist@[#[trigger] queue@[j] as int],
        forall|j: int| 0 <= j < k ==> dist@[queue@[k as int] as int] < dist@[#[trigger] queue@[j] as int],
{
    let mut keys: Vec<u64> = Vec::new();
    let mut i: usize = 0;
    while i < queue.len()
        invariant
            i <= queue@.len(),
            keys@.len() == i,
            forall|j: int| 0 <= j < queue@.len() ==> (#[trigger] queue@[j]) < dist@.len(),
            forall|j: int| 0 <= j < i ==> #[trigger] keys@[j] == dist@[queue@[j] as int],
        decreases queue@.len() - i,
    {
        keys.push(dist[queue[i]]);
        i = i + 1;
    }
    match position_of_min(&keys) {
        Some(k) => {
            assert forall|j: int| 0 <= j < queue@.len() implies dist@[queue@[k as int] as int] <= dist@[#[trigger] queue@[j] as int] by {
                assert(keys@[j] == dist@[queue@[j] as int]);
            }
            assert forall|j: int| 0 <= j < k implies dist@[queue@[k as int] as int] < dist@[#[trigger] queue@[j] as int] by {
                assert(keys@[j] == dist@[queue@[j] as int]);
            }
            k
        },
        None => {
            assert(false);
            0
        },
    }
}

fn dir_index(d: Direction) -> (r: usize)
    ensures
        r == dir_code(d),
{
    match d {
        Direction::Up => 0,
        Direction::Right => 1,
        Direction::Down => 2,
        Direction::Left => 3,
    }
}

fn dir_from_index(c: usize) -> (d: Direction)
    requires
        c < 4,
    ensures
        d == dir_of_code(c as int),
{
    if c == 0 {
        Direction::Up
    } else if c == 1 {
        Direction::Right
    } else if c == 2 {
        Direction::Down
    } else {
        Direction::Left
    }
}

/// The number of node `n` in the cost table.
fn node_index(grid: &Grid<Tile>, n: PathNode) -> (r: usize)
    requires
        grid@.wf(),
        grid@.in_bounds(n.0),
        node_count(grid@) <= usize::MAX,
    ensures
        r == node_id(grid@, n),
        r < node_count(grid@),
{
    proof {
        lemma_node_id(grid@, n);
    }
    let w = grid.width() as usize;
    ((n.0.x as usize) + (n.0.y as usize) * w) * 4 + dir_index(n.1)
}

/// The node whose number in the cost table is `id`.
fn node_at_index(grid: &Grid<Tile>, id: usize) -> (n: PathNode)
    requires
        grid@.wf(),
        id < node_count(grid@),
    ensures
        n == node_at(grid@, id as int),
        grid@.in_bounds(n.0),
{
    proof {
        lemma_node_at(grid@, id as int);
    }
    let w = grid.width() as usize;
    let cell = id / 4;
    (Position { x: (cell % w) as u32, y: (cell / w) as u32 }, dir_from_index(id % 4))
}

/// A search in progress: the best cost found so far for each node, and the
/// nodes whose moves are still to be tried, each listed once.
struct Frontier {
    dist: Vec<u64>,
    queue: Vec<usize>,
    queued: Vec<bool>,
}

impl Frontier {
    spec fn inv(&self, g: GridView<Tile>, s: Position, except: int) -> bool {
        &&& self.dist@.len() == node_count(g)
        &&& self.queued@.len() == node_count(g)
        &&& self.queue@.no_duplicates()
        &&& forall|i: int| 0 <= i < self.queue@.len() ==> (#[trigger] self.queue@[i]) < node_count(g)
        &&& forall|u: int| 0 <= u < node_count(g) ==> (#[trigger] self.queued@[u] <==> self.queue@.contains(u as usize))
        &&& costs_sound(g, s, self.dist@)
        &&& costs_closed(g, self.dist@, self.queued@, except)
    }

    /// Lowers the cost of `v` to that of `u` plus `w` where that is less,
    /// and then lists `v` to have its moves tried.
    fn relax(&mut self, grid: &Grid<Tile>, Ghost(s): Ghost<Position>, u: usize, v: usize, w: u64)
        requires
            grid@.wf(),
            node_count(grid@) <= usize::MAX,
            old(self).inv(grid@, s, u as int),
            u < node_count(grid@),
            v < node_count(grid@),
            u != v,
            !old(self).queued@[u as int],
            old(self).dist@[u as int] < UNREACHED,
            is_step(grid@, node_at(grid@, u as int), node_at(grid@, v as int)),
            w == step_weight(node_at(grid@, u as int), node_at(grid@, v as int)),
        ensures
            final(self).inv(grid@, s, u as int),
            !final(self).queued@[u as int],
            final(self).dist@[u as int] == old(self).dist@[u as int],
            final(self).dist@[v as int] <= old(self).dist@[u as int] + w || old(self).dist@[u as int] + w >= UNREACHED,
            forall|x: int| 0 <= x < node_count(grid@) ==> #[trigger] final(self).dist@[x] <= old(self).dist@[x],
            total(final(self).dist@) < total(old(self).dist@)
                || (final(self).dist@ == old(self).dist@ && final(self).queue@ == old(self).queue@),
    {
        let ghost g = grid@;
        let du = self.dist[u];
        if du < UNREACHED - w {
            let cand = du + w;
            if cand < self.dist[v] {
                let ghost old_dist = self.dist@;
                let ghost old_queue = self.queue@;
                let ghost old_queued = self.queued@;
                proof {
                    lemma_sound_after_lower(g, s, old_dist, u as int, v as int, cand);
                    lemma_total_update(old_dist, v as int, cand);
                }
                self.dist.set(v, cand);
                if !self.queued[v] {
                    self.queue.push(v);
                    self.queued.set(v, true);
                    proof {
                        lemma_queue_push(node_count(g), old_queue, old_queued, v);
                    }
                }
                proof {
                    lemma_closed_after_lower(g, old_dist, old_queued, self.queued@, u as int, v as int, cand);
                }
            }
        }
    }
}

proof fn lemma_sound_after_lower(g: GridView<Tile>, s: Position, dist: Seq<u64>, u: int, v: int, cand: u64)
    requires
        dist.len() == node_count(g),
        costs_sound(g, s, dist),
        0 <= u < node_count(g),
        0 <= v < node_count(g),
        dist[u] < UNREACHED,
        is_step(g, node_at(g, u), node_at(g, v)),
        cand == dist[u] + step_weight(node_at(g, u), node_at(g, v)),
    ensures
        costs_sound(g, s, dist.update(v, cand)),
{
    reveal(costs_sound);
    let r = choose|r: Seq<PathNode>| is_route(g, r) && r[0] == (s, Direction::Right)
        && r.last() == node_at(g, u) && route_cost(r) == dist[u] as nat;
    lemma_route_push(r, node_at(g, v));
    let r2 = r.push(node_at(g, v));
    assert(is_route(g, r2)) by {
        assert forall|i: int| 0 <= i < r2.len() - 1 implies is_step(g, #[trigger] r2[i], r2[i + 1]) by {
            if i < r.len() - 1 {
                assert(r2[i] == r[i] && r2[i + 1] == r[i + 1]);
            }
        }
    }
    assert(r2.last() == node_at(g, v));
    assert(reaches_node(g, s, node_at(g, v), cand as nat));
    let d2 = dist.update(v, cand);
    assert forall|x: int| 0 <= x < node_count(g) && #[trigger] d2[x] < UNREACHED
        implies reaches_node(g, s, node_at(g, x), d2[x] as nat) by {
        if x != v {
            assert(d2[x] == dist[x]);
        }
    }
}

proof fn lemma_queue_push(n: int, queue: Seq<usize>, queued: Seq<bool>, v: usize)
    requires
        queued.len() == n,
        n <= usize::MAX,
        0 <= v < n,
        !queued[v as int],
        queue.no_duplicates(),
        forall|i: int| 0 <= i < queue.len() ==> (#[trigger] queue[i]) < n,
        forall|u: int| 0 <= u < n ==> (#[trigger] queued[u] <==> queue.contains(u as usize)),
    ensures
        queue.push(v).no_duplicates(),
        forall|i: int| 0 <= i < queue.push(v).len() ==> (#[trigger] queue.push(v)[i]) < n,
        forall|u: int| 0 <= u < n ==> (#[trigger] queued.update(v as int, true)[u] <==> queue.push(v).contains(u as usize)),
{
    let q2 = queue.push(v);
    assert(!queue.contains(v));
    assert forall|i: int, j: int| 0 <= i < j < q2.len() implies q2[i] != q2[j] by {
        if j == queue.len() {
            assert(q2[i] == queue[i]);
        }
    }
    assert forall|i: int| 0 <= i < q2.len() implies (#[trigger] q2[i]) < n by {
        if i < queue.len() {
            assert(q2[i] == queue[i]);
        }
    }
    assert forall|x: int| 0 <= x < n implies (#[trigger] queued.update(v as int, true)[x] <==> q2.contains(x as usize)) by {
        if x != v {
            if q2.contains(x as usize) {
                let i = choose|i: int| 0 <= i < q2.len() && q2[i] == x as usize;
                assert(queue[i] == x as usize);
            }
            if queue.contains(x as usize) {
                let i = choose|i: int| 0 <= i < queue.len() && queue[i] == x as usize;
                assert(q2[i] == x as usize);
            }
        } else {
            assert(q2[queue.len() as int] == v);
        }
    }
}

proof fn lemma_closed_after_lower(
    g: GridView<Tile>,
    dist: Seq<u64>,
    queued: Seq<bool>,
    queued2: Seq<bool>,
    u: int,
    v: int,
    cand: u64,
)
    requires
        dist.len() == node_count(g),
        queued.len() == node_count(g),
        queued2.len() == node_count(g),
        costs_closed(g, dist, queued, u),
        0 <= v < node_count(g),
        cand < dist[v],
        queued2[v],
        forall|x: int| 0 <= x < node_count(g) && x != v ==> queued2[x] == queued[x],
    ensures
        costs_closed(g, dist.update(v, cand), queued2, u),
{
    reveal(costs_closed);
    let d2 = dist.update(v, cand);
    assert forall|a: int, b: int|
        0 <= a < node_count(g) && 0 <= b < node_count(g) && a != u && !queued2[a] && d2[a] < UNREACHED
            && #[trigger] is_step(g, node_at(g, a), node_at(g, b))
        implies d2[b] <= d2[a] + step_weight(node_at(g, a), node_at(g, b))
            || d2[a] + step_weight(node_at(g, a), node_at(g, b)) >= UNREACHED by {
        assert(a != v);
        assert(d2[a] == dist[a]);
        assert(queued2[a] == queued[a]);
    }
}

/// Taking `u` off the list keeps everything but the closure at `u`.
proof fn lemma_pop(g: GridView<Tile>, queue: Seq<usize>, queued: Seq<bool>, dist: Seq<u64>, k: int)
    requires
        node_count(g) <= usize::MAX,
        queued.len() == node_count(g),
        dist.len() == node_count(g),
        0 <= k < queue.len(),
        queue.no_duplicates(),
        forall|i: int| 0 <= i < queue.len() ==> (#[trigger] queue[i]) < node_count(g),
        forall|x: int| 0 <= x < node_count(g) ==> (#[trigger] queued[x] <==> queue.contains(x as usize)),
        costs_closed(g, dist, queued, -1),
    ensures
        queue.remove(k).no_duplicates(),
        forall|i: int| 0 <= i < queue.remove(k).len() ==> (#[trigger] queue.remove(k)[i]) < node_count(g),
        forall|x: int| 0 <= x < node_count(g) ==>
            (#[trigger] queued.update(queue[k] as int, false)[x] <==> queue.remove(k).contains(x as usize)),
        costs_closed(g, dist, queued.update(queue[k] as int, false), queue[k] as int),
{
    reveal(costs_closed);
    let q2 = queue.remove(k);
    let u = queue[k];
    assert forall|i: int| 0 <= i < q2.len() implies q2[i] == queue[if i < k { i } else { i + 1 }] by {}
    assert forall|i: int, j: int| 0 <= i < j < q2.len() implies q2[i] != q2[j] by {
        assert(q2[i] == queue[if i < k { i } else { i + 1 }]);
        assert(q2[j] == queue[if j < k { j } else { j + 1 }]);
    }
    assert forall|i: int| 0 <= i < q2.len() implies (#[trigger] q2[i]) < node_count(g) by {
        assert(q2[i] == queue[if i < k { i } else { i + 1 }]);
    }
    assert forall|x: int| 0 <= x < node_count(g) implies
        (#[trigger] queued.update(u as int, false)[x] <==> q2.contains(x as usize)) by {
        if q2.contains(x as usize) {
            let i = choose|i: int| 0 <= i < q2.len() && q2[i] == x as usize;
            let j = if i < k { i } else { i + 1 };
            assert(queue[j] == x as usize);
            assert(j != k);
        }
        if x != u && queue.contains(x as usize) {
            let j = choose|j: int| 0 <= j < queue.len() && queue[j] == x as usize;
            assert(j != k);
            let i = if j < k { j } else { j - 1 };
            assert(q2[i] == x as usize);
        }
    }
}

/// Once every move out of `u` has been tried, the closure holds at `u` too.
proof fn lemma_close_at(g: GridView<Tile>, dist: Seq<u64>, queued: Seq<bool>, u: int)
    requires
        costs_closed(g, dist, queued, u),
        forall|v: int| 0 <= v < node_count(g) && #[trigger] is_step(g, node_at(g, u), node_at(g, v)) ==>
            dist[v] <= dist[u] + step_weight(node_at(g, u), node_at(g, v))
                || dist[u] + step_weight(node_at(g, u), node_at(g, v)) >= UNREACHED,
    ensures
        costs_closed(g, dist, queued, -1),
{
    reveal(costs_closed);
}

/// The nodes one move away from `u`: the two quarter turns in place, and
/// the step forward where it lands on a passable cell.
proof fn lemma_successors(g: GridView<Tile>, u: int, v: int)
    requires
        g.wf(),
        0 <= u < node_count(g),
        0 <= v < node_count(g),
        is_step(g, node_at(g, u), node_at(g, v)),
    ensures
        ({
            let (p, d) = node_at(g, u);
            ||| v == node_id(g, (p, d.clockwise()))
            ||| v == node_id(g, (p, d.counter_clockwise()))
            ||| (neighbour(p, d) is Some && passable(g, neighbour(p, d)->0)
                && v == node_id(g, (neighbour(p, d)->0, d)))
        }),
{
    lemma_node_at(g, v);
}

/// The least cost of every node from `start` facing right: the table is
/// sound (each cost is that of a route) and closed (no move lowers a cost).
fn settle_costs(grid: &Grid<Tile>, start: Position) -> (dist: Vec<u64>)
    requires
        grid@.wf(),
        grid@.in_bounds(start),
        grid@.width * grid@.height <= MAX_MAZE_CELLS,
    ensures
        dist@.len() == node_count(grid@),
        costs_sound(grid@, start, dist@),
        costs_closed(grid@, dist@, Seq::new(node_count(grid@) as nat, |i: int| false), -1),
        dist@[node_id(grid@, (start, Direction::Right))] == 0,
{
    let ghost g = grid@;
    let cells: usize = (grid.width() as usize) * (grid.height() as usize);
    let n: usize = cells * 4;
    assert(n == node_count(g));
    let mut dist: Vec<u64> = Vec::new();
    let mut queued: Vec<bool> = Vec::new();
    let mut i: usize = 0;
    while i < n
        invariant
            i <= n,
            dist@.len() == i,
            queued@.len() == i,
            forall|j: int| 0 <= j < i ==> #[trigger] dist@[j] == UNREACHED,
            forall|j: int| 0 <= j < i ==> !#[trigger] queued@[j],
        decreases n - i,
    {
        dist.push(UNREACHED);
        queued.push(false);
        i = i + 1;
    }
    let s = node_index(grid, (start, Direction::Right));
    dist.set(s, 0);
    queued.set(s, true);
    let mut queue: Vec<usize> = Vec::new();
    queue.push(s);
    proof {
        lemma_node_id(g, (start, Direction::Right));
        reveal(costs_sound);
        reveal(costs_closed);
        let r = seq![(start, Direction::Right)];
        assert(is_route(g, r));
        assert(r.last() == node_at(g, s as int));
        assert(route_cost(r) == 0);
        assert(reaches_node(g, start, node_at(g, s as int), 0));
        assert forall|x: int| 0 <= x < node_count(g) implies (#[trigger] queued@[x] <==> queue@.contains(x as usize)) by {
            if x == s {
                assert(queue@[0] == s);
            }
        }
    }
    let mut f = Frontier { dist, queue, queued };
    while f.queue.len() > 0
        invariant
            g == grid@,
            g.wf(),
            g.in_bounds(start),
            node_count(g) <= usize::MAX,
            s == node_id(g, (start, Direction::Right)),
            s < node_count(g),
            f.inv(g, start, -1),
            f.dist@[s as int] == 0,
        decreases total(f.dist@), f.queue@.len(),
    {
        let k = pick_min(&f.queue, &f.dist);
        proof {
            lemma_pop(g, f.queue@, f.queued@, f.dist@, k as int);
        }
        let u = f.queue.remove(k);
        f.queued.set(u, false);
        if f.dist[u] < UNREACHED {
            let (p, d) = node_at_index(grid, u);
            let cw = node_index(grid, (p, d.turn90()));
            proof {
                lemma_node_at(g, cw as int);
                lemma_node_id(g, (p, d.clockwise()));
            }
            f.relax(grid, Ghost(start), u, cw, TURN_COST);
            let ccw = node_index(grid, (p, d.turn270()));
            proof {
                lemma_node_id(g, (p, d.counter_clockwise()));
            }
            f.relax(grid, Ghost(start), u, ccw, TURN_COST);
            match p.move_to(d) {
                Some(q) => {
                    match grid.get(q) {
                        Some(t) => {
                            if *t != Tile::Wall {
                                let fwd = node_index(grid, (q, d));
                                proof {
                                    lemma_node_id(g, (q, d));
                                }
                                f.relax(grid, Ghost(start), u, fwd, 1);
                            }
                        },
                        None => {},
                    }
                },
                None => {},
            }
            proof {
                assert forall|v: int| 0 <= v < node_count(g) && #[trigger] is_step(g, node_at(g, u as int), node_at(g, v)) implies
                    f.dist@[v] <= f.dist@[u as int] + step_weight(node_at(g, u as int), node_at(g, v))
                        || f.dist@[u as int] + step_weight(node_at(g, u as int), node_at(g, v)) >= UNREACHED by {
                    lemma_successors(g, u as int, v);
                    lemma_node_id(g, (p, d));
                    lemma_node_at(g, v);
                }
                lemma_close_at(g, f.dist@, f.queued@, u as int);
            }
        } else {
            proof {
                reveal(costs_closed);
            }
        }
    }
    proof {
        assert(f.queued@ =~= Seq::new(node_count(g) as nat, |i: int| false)) by {
            assert forall|x: int| 0 <= x < node_count(g) implies !f.queued@[x] by {
                assert(!f.queue@.contains(x as usize));
            }
        }
    }
    f.dist
}

/// The only element of `found`, if it has exactly one.
/// Relies on `itertools::Itertools::exactly_one`, which returns the element
/// when the iterator yields exactly one, and an error otherwise.
#[verifier::external_body]
fn exactly_one_position(found: Vec<Position>) -> (r: Option<Position>)
    ensures
        r == (if found@.len() == 1 { Some(found@[0]) } else { None }),
{
    found.into_iter().exactly_one().ok()
}

/// The one cell that holds the marker `t`.
fn locate_marker(grid: &Grid<Tile>, t: Tile) -> (r: Result<Position, SearchError>)
    requires
        grid@.wf(),
    ensures
        match r {
            Ok(p) => unique_at(grid@, t, p),
            Err(SearchError::MissingMarker) => absent(grid@, t),
            Err(SearchError::DuplicateMarker) => repeated(grid@, t),
        },
{
    proof {
        lemma_tile_eq();
    }
    let found = grid.find(&t);
    let ghost f = found@;
    if found.len() == 0 {
        proof {
            assert forall|p: Position| grid@.in_bounds(p) implies grid@.cell(p) != t by {
                if grid@.cell(p) == t {
                    assert(f.contains(p));
                }
            }
        }
        return Err(SearchError::MissingMarker);
    }
    match exactly_one_position(found) {
        Some(p) => {
            assert(f[0] == p);
            assert(f.contains(f[0]));
            assert forall|q: Position| grid@.in_bounds(q) && grid@.cell(q) == t implies q == p by {
                assert(f.contains(q));
                let j = choose|j: int| 0 <= j < f.len() && f[j] == q;
                assert(j == 0);
            }
            Ok(p)
        },
        None => {
            assert(f.contains(f[0]));
            assert(f.contains(f[1]));
            assert(grid@.index_of(f[0]) < grid@.index_of(f[1]));
            assert(f[0] != f[1] && grid@.in_bounds(f[0]) && grid@.in_bounds(f[1])
                && grid@.cell(f[0]) == t && grid@.cell(f[1]) == t);
            Err(SearchError::DuplicateMarker)
        },
    }
}

/// The least cost over the four facings at `end`, or `None` where none of
/// them is reached.
fn best_at(grid: &Grid<Tile>, dist: &Vec<u64>, end: Position) -> (r: Option<u64>)
    requires
        grid@.wf(),
        grid@.in_bounds(end),
        node_count(grid@) <= usize::MAX,
        dist@.len() == node_count(grid@),
    ensures
        match r {
            Some(c) => {
                &&& c < UNREACHED
                &&& exists|d: Direction| dist@[node_id(grid@, (end, d))] == c
                &&& forall|d: Direction| c <= #[trigger] dist@[node_id(grid@, (end, d))]
            },
            None => forall|d: Direction| #[trigger] dist@[node_id(grid@, (end, d))] == UNREACHED,
        },
{
    let dirs = Direction::all();
    let mut best: u64 = UNREACHED;
    let ghost mut best_dir = Direction::Down;
    let mut i: usize = 0;
    while i < 4
        invariant
            grid@.wf(),
            grid@.in_bounds(end),
            node_count(grid@) <= usize::MAX,
            dist@.len() == node_count(grid@),
            dirs@ == seq![Direction::Down, Direction::Up, Direction::Left, Direction::Right],
            i <= 4,
            forall|j: int| 0 <= j < i ==> best <= dist@[node_id(grid@, (end, #[trigger] dirs@[j]))],
            best < UNREACHED ==> dist@[node_id(grid@, (end, best_dir))] == best,
        decreases 4 - i,
    {
        let id = node_index(grid, (end, dirs[i]));
        if dist[id] < best {
            best = dist[id];
            proof {
                best_dir = dirs@[i as int];
            }
        }
        i = i + 1;
    }
    assert(forall|d: Direction| dirs@.contains(d)) by {
        assert forall|d: Direction| dirs@.contains(d) by {
            match d {
                Direction::Down => assert(dirs@[0] == d),
                Direction::Up => assert(dirs@[1] == d),
                Direction::Left => assert(dirs@[2] == d),
                Direction::Right => assert(dirs@[3] == d),
            }
        }
    }
    if best < UNREACHED {
        Some(best)
    } else {
        None
    }
}

/// From a settled cost table, the least cost from `s` to `e` is the least
/// over the facings at `e`, and no route exists where none is reached.
proof fn lemma_search_outcome(g: GridView<Tile>, s: Position, e: Position, dist: Seq<u64>, r: Option<u64>)
    requires
        g.wf(),
        g.in_bounds(s),
        g.in_bounds(e),
        g.width * g.height <= MAX_MAZE_CELLS,
        dist.len() == node_count(g),
        costs_sound(g, s, dist),
        costs_closed(g, dist, Seq::new(node_count(g) as nat, |i: int| false), -1),
        dist[node_id(g, (s, Direction::Right))] == 0,
        match r {
            Some(c) => {
                &&& c < UNREACHED
                &&& exists|d: Direction| dist[node_id(g, (e, d))] == c
                &&& forall|d: Direction| c <= #[trigger] dist[node_id(g, (e, d))]
            },
            None => forall|d: Direction| #[trigger] dist[node_id(g, (e, d))] == UNREACHED,
        },
    ensures
        match r {
            Some(c) => is_min_cost(g, s, e, c as nat),
            None => unreachable(g, s, e),
        },
{
    let queued = Seq::new(node_count(g) as nat, |i: int| false);
    match r {
        Some(c) => {
            let d = choose|d: Direction| dist[node_id(g, (e, d))] == c;
            let id = node_id(g, (e, d));
            lemma_node_id(g, (e, d));
            reveal(costs_sound);
            assert(dist[id] < UNREACHED);
            assert(reaches_node(g, s, node_at(g, id), dist[id] as nat));
            let rt = choose|rt: Seq<PathNode>| is_route(g, rt) && rt[0] == (s, Direction::Right)
                && rt.last() == node_at(g, id) && route_cost(rt) == dist[id] as nat;
            assert(route_between(g, s, e, rt) && route_cost(rt) == c);
            assert forall|rt2: Seq<PathNode>| route_between(g, s, e, rt2) implies c <= route_cost(rt2) by {
                if route_cost(rt2) < UNREACHED {
                    lemma_costs_lower(g, s, dist, queued, rt2);
                    assert(c <= dist[node_id(g, (e, rt2.last().1))]);
                }
            }
        },
        None => {
            assert forall|rt: Seq<PathNode>| !route_between(g, s, e, rt) by {
                if route_between(g, s, e, rt) {
                    let t = lemma_short_route(g, rt);
                    lemma_route_cost_bound(t);
                    assert(TURN_COST * (t.len() - 1) < UNREACHED) by (nonlinear_arith)
                        requires t.len() <= node_count(g), node_count(g) == g.width * g.height * 4,
                            g.width * g.height <= MAX_MAZE_CELLS;
                    lemma_costs_lower(g, s, dist, queued, t);
                    assert(dist[node_id(g, (e, t.last().1))] == UNREACHED);
                }
            }
        },
    }
}

/// What a search found: where it started and ended, and the least cost.
pub struct RouteCostsView {
    pub start: Position,
    pub end: Position,
    pub min_cost: Option<u64>,
}

/// The outcome of a search, with the settled cost of every node, from
/// which the cells on the cheapest routes are read back.
pub struct RouteCosts {
    start: Position,
    end: Position,
    min_cost: Option<u64>,
    dist: Vec<u64>,
}

impl View for RouteCosts {
    type V = RouteCostsView;

    closed spec fn view(&self) -> RouteCostsView {
        RouteCostsView { start: self.start, end: self.end, min_cost: self.min_cost }
    }
}

impl RouteCosts {
    /// The cost table is the settled one for the maze `g`.
    pub closed spec fn settles(&self, g: GridView<Tile>) -> bool {
        &&& g.wf()
        &&& g.width * g.height <= MAX_MAZE_CELLS
        &&& g.in_bounds(self.start)
        &&& g.in_bounds(self.end)
        &&& self.dist@.len() == node_count(g)
        &&& costs_sound(g, self.start, self.dist@)
        &&& costs_closed(g, self.dist@, Seq::new(node_count(g) as nat, |i: int| false), -1)
        &&& self.dist@[node_id(g, (self.start, Direction::Right))] == 0
        &&& match self.min_cost {
            Some(c) => {
                &&& c < UNREACHED
                &&& exists|d: Direction| self.dist@[node_id(g, (self.end, d))] == c
                &&& forall|d: Direction| c <= #[trigger] self.dist@[node_id(g, (self.end, d))]
            },
            None => forall|d: Direction| #[trigger] self.dist@[node_id(g, (self.end, d))] == UNREACHED,
        }
    }

    pub fn start(&self) -> (r: Position)
        ensures
            r == self@.start,
    {
        self.start
    }

    pub fn end(&self) -> (r: Position)
        ensures
            r == self@.end,
    {
        self.end
    }

    /// The least cost of a route from start to end, or `None` where the end
    /// cannot be reached.
    pub fn min_cost(&self) -> (r: Option<u64>)
        ensures
            r == self@.min_cost,
    {
        self.min_cost
    }
}

/// The least cost of a route through the maze from its start cell, facing
/// right, to its end cell, facing any way: a step forward onto a cell that
/// is not a wall costs one, a quarter turn in place costs a thousand.
/// `min_cost` is `None` where no route exists. The maze must hold exactly
/// one start and one end cell; the start is looked for first.
pub fn find_shortest_path(grid: &Grid<Tile>) -> (r: Result<RouteCosts, SearchError>)
    requires
        grid@.wf(),
        grid@.width * grid@.height <= MAX_MAZE_CELLS,
    ensures
        match r {
            Ok(res) => {
                &&& unique_at(grid@, Tile::Start, res@.start)
                &&& unique_at(grid@, Tile::End, res@.end)
                &&& match res@.min_cost {
                    Some(c) => is_min_cost(grid@, res@.start, res@.end, c as nat),
                    None => unreachable(grid@, res@.start, res@.end),
                }
                &&& res.settles(grid@)
            },
            Err(SearchError::MissingMarker) => absent(grid@, Tile::Start)
                || (!repeated(grid@, Tile::Start) && absent(grid@, Tile::End)),
            Err(SearchError::DuplicateMarker) => repeated(grid@, Tile::Start)
                || (!absent(grid@, Tile::Start) && repeated(grid@, Tile::End)),
        },
{
    let start = match locate_marker(grid, Tile::Start) {
        Ok(p) => p,
        Err(e) => {
            return Err(e);
        },
    };
    let end = match locate_marker(grid, Tile::End) {
        Ok(p) => p,
        Err(e) => {
            return Err(e);
        },
    };
    let dist = settle_costs(grid, start);
    let min_cost = best_at(grid, &dist, end);
    proof {
        lemma_search_outcome(grid@, start, end, dist@, min_cost);
    }
    Ok(RouteCosts { start, end, min_cost, dist })
}

/// The cost of the moves along `path`: a thousand for each move that stays
/// in place, one for each other.
pub fn path_cost(path: &[PathNode]) -> (r: u64)
    requires
        path@.len() <= MAX_MAZE_CELLS,
    ensures
        r == route_cost(path@),
{
    if path.len() == 0 {
        return 0;
    }
    let mut total: u64 = 0;
    let mut i: usize = 1;
    while i < path.len()
        invariant
            1 <= i <= path@.len(),
            path@.len() <= MAX_MAZE_CELLS,
            total == route_cost(path@.take(i as int)),
            total <= TURN_COST * (i - 1),
        decreases path@.len() - i,
    {
        let (a, _) = path[i - 1];
        let (b, _) = path[i];
        proof {
            let pre = path@.take(i as int + 1);
            assert(pre.drop_last() =~= path@.take(i as int));
        }
        if a == b {
            total = total + TURN_COST;
        } else {
            total = total + 1;
        }
        i = i + 1;
    }
    assert(path@.take(path@.len() as int) =~= path@);
    total
}

impl Tile {
    /// The character that shows this tile: `.`, `#`, `S` or `E`.
    pub open spec fn glyph(self) -> char {
        match self {
            Tile::Empty => '.',
            Tile::Wall => '#',
            Tile::Start => 'S',
            Tile::End => 'E',
        }
    }

    pub fn to_char(&self) -> (r: char)
        ensures
            r == self.glyph(),
    {
        match self {
            Tile::Empty => '.',
            Tile::Wall => '#',
            Tile::Start => 'S',
            Tile::End => 'E',
        }
    }

    /// The tile that `c` shows, or `None` for any other character.
    pub fn from_char(c: char) -> (r: Option<Tile>)
        ensures
            r matches Some(t) ==> t.glyph() == c,
            r is None <==> (c != '.' && c != '#' && c != 'S' && c != 'E'),
    {
        match c {
            '.' => Some(Tile::Empty),
            '#' => Some(Tile::Wall),
            'S' => Some(Tile::Start),
            'E' => Some(Tile::End),
            _ => None,
        }
    }
}

proof fn lemma_tile_eq()
    ensures
        obeys_concrete_eq::<Tile>(),
{
    reveal(obeys_concrete_eq);
}

} // verus!

verus! {

/// `g2` is `g1` with some cells, possibly none, turned into walls.
pub open spec fn more_walls(g1: GridView<Tile>, g2: GridView<Tile>) -> bool {
    &&& g2.width == g1.width
    &&& g2.height == g1.height
    &&& forall|p: Position| g1.in_bounds(p) ==> g2.cell(p) == g1.cell(p) || g2.cell(p) == Tile::Wall
}

/// Every route through a maze with more walls is a route through the maze
/// without them.
proof fn lemma_route_with_more_walls(g1: GridView<Tile>, g2: GridView<Tile>, r: Seq<PathNode>)
    requires
        more_walls(g1, g2),
        is_route(g2, r),
    ensures
        is_route(g1, r),
{
    assert forall|i: int| 0 <= i < r.len() - 1 implies is_step(g1, #[trigger] r[i], r[i + 1]) by {
        assert(is_step(g2, r[i], r[i + 1]));
    }
}

/// Adding walls anywhere never lowers the least cost of a route, and never
/// makes an unreachable end reachable.
pub proof fn lemma_walls_monotone(g1: GridView<Tile>, g2: GridView<Tile>, s: Position, e: Position)
    requires
        more_walls(g1, g2),
    ensures
        forall|c1: nat, c2: nat| #[trigger] is_min_cost(g1, s, e, c1) && #[trigger] is_min_cost(g2, s, e, c2) ==> c1 <= c2,
        unreachable(g1, s, e) ==> unreachable(g2, s, e),
{
    assert forall|r: Seq<PathNode>| route_between(g2, s, e, r) implies route_between(g1, s, e, r) by {
        lemma_route_with_more_walls(g1, g2, r);
    }
    assert forall|c1: nat, c2: nat| is_min_cost(g1, s, e, c1) && is_min_cost(g2, s, e, c2) implies c1 <= c2 by {
        let r = choose|r: Seq<PathNode>| route_between(g2, s, e, r) && route_cost(r) == c2;
        assert(route_between(g1, s, e, r));
    }
}

/// Turning one more empty cell into a wall never lowers the least cost of
/// a route, and never makes an unreachable end reachable.
pub proof fn lemma_wall_monotone(g: GridView<Tile>, p: Position, s: Position, e: Position)
    requires
        g.wf(),
        g.in_bounds(p),
        g.cell(p) == Tile::Empty,
    ensures
        forall|c1: nat, c2: nat|
            #[trigger] is_min_cost(g, s, e, c1) && #[trigger] is_min_cost(g.with_cell(p, Tile::Wall), s, e, c2) ==> c1 <= c2,
        unreachable(g, s, e) ==> unreachable(g.with_cell(p, Tile::Wall), s, e),
{
    let g2 = g.with_cell(p, Tile::Wall);
    assert forall|q: Position| g.in_bounds(q) implies g2.cell(q) == g.cell(q) || g2.cell(q) == Tile::Wall by {
        crate::grid::lemma_index_bounds(q.x as int, q.y as int, g.width as int, g.height as int);
        crate::grid::lemma_index_bounds(p.x as int, p.y as int, g.width as int, g.height as int);
    }
    lemma_walls_monotone(g, g2, s, e);
}

/// How far `p` lies from `s`, counted in unit steps along the axes.
pub open spec fn manhattan(s: Position, p: Position) -> nat {
    ((if p.x >= s.x { p.x - s.x } else { s.x - p.x }) + (if p.y >= s.y { p.y - s.y } else { s.y - p.y })) as nat
}

/// Along a route from `s` facing right, the cost covers every unit of
/// distance covered, and a quarter turn as soon as the route faces another
/// way or has left the row of `s`.
proof fn lemma_route_lower_bound(g: GridView<Tile>, s: Position, r: Seq<PathNode>)
    requires
        is_route(g, r),
        r[0] == (s, Direction::Right),
    ensures
        route_cost(r) >= manhattan(s, r.last().0)
            + (if r.last().1 != Direction::Right || r.last().0.y != s.y { TURN_COST as nat } else { 0 }),
    decreases r.len(),
{
    if r.len() > 1 {
        let q = r.drop_last();
        assert(is_route(g, q)) by {
            assert forall|i: int| 0 <= i < q.len() - 1 implies is_step(g, #[trigger] q[i], q[i + 1]) by {
                assert(q[i] == r[i] && q[i + 1] == r[i + 1]);
            }
        }
        lemma_route_lower_bound(g, s, q);
        assert(q.last() == r[r.len() - 2]);
        assert(is_step(g, r[r.len() - 2], r.last()));
    }
}

/// Every route from `s` facing right to `e` costs at least the distance from
/// `s` to `e`, and a thousand more where `e` lies in another row, since the
/// route must turn before it can change rows.
pub proof fn lemma_cost_lower_bound(g: GridView<Tile>, s: Position, e: Position, r: Seq<PathNode>)
    requires
        route_between(g, s, e, r),
    ensures
        route_cost(r) >= manhattan(s, e),
        e.y != s.y ==> route_cost(r) >= manhattan(s, e) + TURN_COST,
{
    lemma_route_lower_bound(g, s, r);
}

/// The least cost from `s` to `e` is at least their distance, and a
/// thousand more where `e` lies in another row.
pub proof fn lemma_min_cost_lower_bound(g: GridView<Tile>, s: Position, e: Position, c: nat)
    requires
        is_min_cost(g, s, e, c),
    ensures
        c >= manhattan(s, e),
        e.y != s.y ==> c >= manhattan(s, e) + TURN_COST,
{
    let r = choose|r: Seq<PathNode>| route_between(g, s, e, r) && route_cost(r) == c;
    lemma_cost_lower_bound(g, s, e, r);
}

} // verus!

verus! {

/// `p` lies on some cheapest route from `s` to `e`.
pub open spec fn on_best_route(g: GridView<Tile>, s: Position, e: Position, p: Position) -> bool {
    exists|c: nat, rt: Seq<PathNode>, i: int|
        #[trigger] is_min_cost(g, s, e, c) && #[trigger] route_between(g, s, e, rt) && route_cost(rt) == c
            && 0 <= i < rt.len() && #[trigger] rt[i].0 == p
}

/// Joining two routes where the first ends on the node the second starts
/// from adds their costs.
proof fn lemma_route_join(g: GridView<Tile>, a: Seq<PathNode>, b: Seq<PathNode>)
    requires
        a.len() >= 1,
        b.len() >= 1,
        a.last() == b[0],
    ensures
        route_cost(a + b.skip(1)) == route_cost(a) + route_cost(b),
        is_route(g, a) && is_route(g, b) ==> is_route(g, a + b.skip(1)),
        (a + b.skip(1))[0] == a[0],
        (a + b.skip(1)).last() == b.last(),
    decreases b.len(),
{
    let j = a + b.skip(1);
    if b.len() == 1 {
        assert(j =~= a);
    } else {
        let b1 = b.drop_last();
        lemma_route_join(g, a, b1);
        let j1 = a + b1.skip(1);
        assert(j =~= j1.push(b.last()));
        assert(j1.last() == b[b.len() - 2]) by {
            if b1.len() == 1 {
                assert(j1 =~= a);
            } else {
                assert(j1.last() == b1.skip(1).last());
            }
        }
        lemma_route_push(j1, b.last());
        assert(j.drop_last() =~= j1);
        if is_route(g, a) && is_route(g, b) {
            assert(is_route(g, b1)) by {
                assert forall|i: int| 0 <= i < b1.len() - 1 implies is_step(g, #[trigger] b1[i], b1[i + 1]) by {
                    assert(b1[i] == b[i] && b1[i + 1] == b[i + 1]);
                }
            }
            assert forall|i: int| 0 <= i < j.len() - 1 implies is_step(g, #[trigger] j[i], j[i + 1]) by {
                if i < j.len() - 2 {
                    assert(j[i] == j1[i] && j[i + 1] == j1[i + 1]);
                } else {
                    assert(j[i] == b[b.len() - 2]);
                    assert(is_step(g, b[b.len() - 2], b[b.len() - 1]));
                }
            }
        }
    }
}

/// Along a cheapest route, the settled cost of each node is the cost of the
/// route up to it.
#[verifier::rlimit(50)]
proof fn lemma_best_prefix(g: GridView<Tile>, s: Position, e: Position, dist: Seq<u64>, c: nat, rt: Seq<PathNode>, k: int)
    requires
        g.wf(),
        g.in_bounds(s),
        dist.len() == node_count(g),
        costs_sound(g, s, dist),
        costs_closed(g, dist, Seq::new(node_count(g) as nat, |i: int| false), -1),
        dist[node_id(g, (s, Direction::Right))] == 0,
        is_min_cost(g, s, e, c),
        c < UNREACHED,
        route_between(g, s, e, rt),
        route_cost(rt) == c,
        0 <= k < rt.len(),
    ensures
        g.in_bounds(rt[k].0),
        dist[node_id(g, rt[k])] == route_cost(rt.take(k + 1)),
{
    let pre = rt.take(k + 1);
    let post = rt.skip(k);
    assert(pre + post.skip(1) =~= rt);
    lemma_route_join(g, pre, post);
    assert(is_route(g, pre)) by {
        assert forall|i: int| 0 <= i < pre.len() - 1 implies is_step(g, #[trigger] pre[i], pre[i + 1]) by {
            assert(pre[i] == rt[i] && pre[i + 1] == rt[i + 1]);
        }
    }
    assert(is_route(g, post)) by {
        assert forall|i: int| 0 <= i < post.len() - 1 implies is_step(g, #[trigger] post[i], post[i + 1]) by {
            assert(post[i] == rt[i + k] && post[i + 1] == rt[i + k + 1]);
        }
    }
    lemma_costs_lower(g, s, dist, Seq::new(node_count(g) as nat, |i: int| false), pre);
    assert(pre.last() == rt[k]);
    lemma_node_id(g, rt[k]);
    let id = node_id(g, rt[k]);
    if dist[id] < route_cost(pre) {
        reveal(costs_sound);
        assert(dist[id] < UNREACHED);
        let r2 = choose|r2: Seq<PathNode>| is_route(g, r2) && r2[0] == (s, Direction::Right)
            && r2.last() == node_at(g, id) && route_cost(r2) == dist[id] as nat;
        lemma_route_join(g, r2, post);
        assert(route_between(g, s, e, r2 + post.skip(1)));
    }
}

/// The node reached from `a` towards `d` leads back to `a` the opposite way.
proof fn lemma_neighbour_back(a: Position, d: Direction, b: Position)
    requires
        neighbour(a, d) == Some(b),
    ensures
        neighbour(b, d.clockwise().clockwise()) == Some(a),
{
}

/// The nodes one move before `b`: the two quarter turns in place, and the
/// cell behind it where `b` stands on a passable cell.
proof fn lemma_predecessors(g: GridView<Tile>, a: int, b: int)
    requires
        g.wf(),
        0 <= a < node_count(g),
        0 <= b < node_count(g),
        is_step(g, node_at(g, a), node_at(g, b)),
    ensures
        ({
            let (p, d) = node_at(g, b);
            ||| a == node_id(g, (p, d.counter_clockwise()))
            ||| a == node_id(g, (p, d.clockwise()))
            ||| (neighbour(p, d.clockwise().clockwise()) is Some && passable(g, p)
                && g.in_bounds(neighbour(p, d.clockwise().clockwise())->0)
                && a == node_id(g, (neighbour(p, d.clockwise().clockwise())->0, d)))
        }),
{
    lemma_node_at(g, a);
    lemma_node_at(g, b);
    let (q, e) = node_at(g, a);
    let (p, d) = node_at(g, b);
    if q != p {
        lemma_neighbour_back(q, e, p);
    }
}

} // verus!

verus! {

/// From node `m`, at its settled cost, moves lead on to the end at a total
/// of exactly `c`.
spec fn leads_to_end(g: GridView<Tile>, e: Position, dist: Seq<u64>, c: nat, m: int) -> bool {
    &&& dist[m] < UNREACHED
    &&& exists|q: Seq<PathNode>| is_route(g, q) && q[0] == node_at(g, m) && q.last().0 == e
        && dist[m] + route_cost(q) == c
}

/// The move from `a` to `b` lies on a cheapest way to `b`.
spec fn tight(g: GridView<Tile>, dist: Seq<u64>, a: int, b: int) -> bool {
    &&& dist[a] < UNREACHED
    &&& is_step(g, node_at(g, a), node_at(g, b))
    &&& dist[a] + step_weight(node_at(g, a), node_at(g, b)) == dist[b]
}

/// How many nodes are not marked yet.
spec fn unmarked(s: Seq<bool>) -> nat
    decreases s.len(),
{
    if s.len() == 0 {
        0
    } else {
        unmarked(s.drop_last()) + if s.last() { 0nat } else { 1nat }
    }
}

proof fn lemma_unmarked_update(s: Seq<bool>, i: int)
    requires
        0 <= i < s.len(),
        !s[i],
    ensures
        unmarked(s.update(i, true)) < unmarked(s),
    decreases s.len(),
{
    if i == s.len() - 1 {
        assert(s.update(i, true).drop_last() =~= s.drop_last());
    } else {
        assert(s.update(i, true).drop_last() =~= s.drop_last().update(i, true));
        lemma_unmarked_update(s.drop_last(), i);
    }
}

/// A walk back from the end over moves that lie on cheapest ways: the
/// nodes found so far, and those whose predecessors are still to be tried.
struct Trace {
    marked: Vec<bool>,
    stack: Vec<usize>,
}

impl Trace {
    spec fn inv(&self, g: GridView<Tile>, e: Position, dist: Seq<u64>, c: nat, except: int) -> bool {
        &&& self.marked@.len() == node_count(g)
        &&& dist.len() == node_count(g)
        &&& self.stack@.no_duplicates()
        &&& forall|i: int| 0 <= i < self.stack@.len() ==>
            (#[trigger] self.stack@[i]) < node_count(g) && self.marked@[self.stack@[i] as int]
        &&& forall|m: int| 0 <= m < node_count(g) && #[trigger] self.marked@[m] ==> leads_to_end(g, e, dist, c, m)
        &&& forall|a: int, b: int|
            0 <= a < node_count(g) && 0 <= b < node_count(g) && #[trigger] self.marked@[b] && b != except
                && !self.stack@.contains(b as usize) && #[trigger] tight(g, dist, a, b) ==> self.marked@[a]
    }

    /// Marks `a` where the move from `a` to `b` lies on a cheapest way.
    fn consider(&mut self, grid: &Grid<Tile>, dist: &Vec<u64>, a: usize, b: usize, w: u64, Ghost(e): Ghost<Position>, Ghost(c): Ghost<nat>)
        requires
            grid@.wf(),
            node_count(grid@) <= usize::MAX,
            old(self).inv(grid@, e, dist@, c, b as int),
            a < node_count(grid@),
            b < node_count(grid@),
            old(self).marked@[b as int],
            !old(self).stack@.contains(b),
            is_step(grid@, node_at(grid@, a as int), node_at(grid@, b as int)),
            w == step_weight(node_at(grid@, a as int), node_at(grid@, b as int)),
        ensures
            final(self).inv(grid@, e, dist@, c, b as int),
            final(self).marked@[b as int],
            !final(self).stack@.contains(b),
            tight(grid@, dist@, a as int, b as int) ==> final(self).marked@[a as int],
            forall|x: int| 0 <= x < node_count(grid@) && #[trigger] old(self).marked@[x] ==> final(self).marked@[x],
            unmarked(final(self).marked@) < unmarked(old(self).marked@)
                || (final(self).marked@ == old(self).marked@ && final(self).stack@ == old(self).stack@),
    {
        let ghost g = grid@;
        let da = dist[a];
        let db = dist[b];
        if da < UNREACHED && da <= db && db - da == w && !self.marked[a] {
            let ghost marked0 = self.marked@;
            let ghost stack0 = self.stack@;
            proof {
                assert(leads_to_end(g, e, dist@, c, b as int));
                let q = choose|q: Seq<PathNode>| is_route(g, q) && q[0] == node_at(g, b as int) && q.last().0 == e
                    && dist@[b as int] + route_cost(q) == c;
                let two = seq![node_at(g, a as int), node_at(g, b as int)];
                assert(two =~= seq![node_at(g, a as int)].push(node_at(g, b as int)));
                lemma_route_push(seq![node_at(g, a as int)], node_at(g, b as int));
                assert(is_route(g, two)) by {
                    assert forall|i: int| 0 <= i < two.len() - 1 implies is_step(g, #[trigger] two[i], two[i + 1]) by {}
                }
                lemma_route_join(g, two, q);
                assert(route_cost(two) == w);
                let qa2 = two + q.skip(1);
                assert(is_route(g, qa2) && qa2[0] == node_at(g, a as int) && qa2.last().0 == e
                    && dist@[a as int] + route_cost(qa2) == c);
                assert(!stack0.contains(a)) by {
                    if stack0.contains(a) {
                        let i = choose|i: int| 0 <= i < stack0.len() && stack0[i] == a;
                        assert(marked0[stack0[i] as int]);
                    }
                }
                lemma_unmarked_update(marked0, a as int);
            }
            self.marked.set(a, true);
            self.stack.push(a);
            proof {
                assert forall|i: int, j: int| 0 <= i < j < self.stack@.len() implies self.stack@[i] != self.stack@[j] by {
                    if j == stack0.len() {
                        assert(stack0.contains(stack0[i]));
                    }
                }
                assert forall|i: int| 0 <= i < self.stack@.len() implies
                    (#[trigger] self.stack@[i]) < node_count(g) && self.marked@[self.stack@[i] as int] by {
                    if i < stack0.len() {
                        assert(self.stack@[i] == stack0[i]);
                    }
                }
                assert(!self.stack@.contains(b)) by {
                    if self.stack@.contains(b) {
                        let i = choose|i: int| 0 <= i < self.stack@.len() && self.stack@[i] == b;
                        if i < stack0.len() {
                            assert(stack0[i] == b);
                        }
                    }
                }
                assert forall|x: int, y: int|
                    0 <= x < node_count(g) && 0 <= y < node_count(g) && #[trigger] self.marked@[y] && y != b
                        && !self.stack@.contains(y as usize) && #[trigger] tight(g, dist@, x, y) implies self.marked@[x] by {
                    if y != a {
                        assert(marked0[y]);
                        if stack0.contains(y as usize) {
                            let i = choose|i: int| 0 <= i < stack0.len() && stack0[i] == y as usize;
                            assert(self.stack@[i] == y as usize);
                        }
                    } else {
                        assert(self.stack@[stack0.len() as int] == a);
                    }
                }
            }
        }
    }
}

} // verus!

verus! {

/// Some facing of the cell `p` is marked.
spec fn any_facing_marked(g: GridView<Tile>, marked: Seq<bool>, p: Position) -> bool {
    ||| marked[node_id(g, (p, Direction::Up))]
    ||| marked[node_id(g, (p, Direction::Right))]
    ||| marked[node_id(g, (p, Direction::Down))]
    ||| marked[node_id(g, (p, Direction::Left))]
}

/// The cells, in row-major order, of which some facing is marked.
fn marked_positions(grid: &Grid<Tile>, marked: &Vec<bool>) -> (r: Vec<Position>)
    requires
        grid@.wf(),
        node_count(grid@) <= usize::MAX,
        marked@.len() == node_count(grid@),
    ensures
        r@.no_duplicates(),
        forall|p: Position| #[trigger] r@.contains(p) <==> (grid@.in_bounds(p) && any_facing_marked(grid@, marked@, p)),
{
    let ghost g = grid@;
    let mut r: Vec<Position> = Vec::new();
    let mut y: u32 = 0;
    while y < grid.height()
        invariant
            g == grid@,
            g.wf(),
            node_count(g) <= usize::MAX,
            marked@.len() == node_count(g),
            y <= g.height,
            forall|p: Position| #[trigger] r@.contains(p) <==> (g.in_bounds(p) && p.y < y && any_facing_marked(g, marked@, p)),
            forall|i: int, j: int| 0 <= i < j < r@.len() ==> g.index_of(#[trigger] r@[i]) < g.index_of(#[trigger] r@[j]),
            forall|i: int| 0 <= i < r@.len() ==> g.index_of(#[trigger] r@[i]) < y * g.width,
        decreases g.height - y,
    {
        let mut x: u32 = 0;
        while x < grid.width()
            invariant
                g == grid@,
                g.wf(),
                node_count(g) <= usize::MAX,
                marked@.len() == node_count(g),
                y < g.height,
                x <= g.width,
                forall|p: Position| #[trigger] r@.contains(p) <==>
                    (g.in_bounds(p) && (p.y < y || (p.y == y && p.x < x)) && any_facing_marked(g, marked@, p)),
                forall|i: int, j: int| 0 <= i < j < r@.len() ==> g.index_of(#[trigger] r@[i]) < g.index_of(#[trigger] r@[j]),
                forall|i: int| 0 <= i < r@.len() ==> g.index_of(#[trigger] r@[i]) < y * g.width + x,
            decreases g.width - x,
        {
            let p = Position { x, y };
            let hit = marked[node_index(grid, (p, Direction::Up))] || marked[node_index(grid, (p, Direction::Right))]
                || marked[node_index(grid, (p, Direction::Down))] || marked[node_index(grid, (p, Direction::Left))];
            let ghost before = r@;
            if hit {
                r.push(p);
            }
            proof {
                assert forall|q: Position| #[trigger] r@.contains(q) <==>
                    (g.in_bounds(q) && (q.y < y || (q.y == y && q.x < x + 1)) && any_facing_marked(g, marked@, q)) by {
                    if before.contains(q) {
                        let j = choose|j: int| 0 <= j < before.len() && before[j] == q;
                        assert(g.index_of(before[j]) < y * g.width + x);
                        assert(r@[j] == q);
                    }
                    if r@ != before {
                        assert(r@[before.len() as int] == p);
                        if r@.contains(q) {
                            let j = choose|j: int| 0 <= j < r@.len() && r@[j] == q;
                            if j < before.len() {
                                assert(before[j] == q);
                            }
                        }
                    }
                }
            }
            x = x + 1;
        }
        proof {
            assert(y * g.width + g.width == (y + 1) * g.width) by (nonlinear_arith);
        }
        y = y + 1;
    }
    r
}

/// Along a cheapest route, every node from `k` on is marked once the trace
/// is closed.
proof fn lemma_marked_along(g: GridView<Tile>, s: Position, e: Position, dist: Seq<u64>, c: nat, rt: Seq<PathNode>, marked: Seq<bool>, k: int)
    requires
        g.wf(),
        g.in_bounds(s),
        dist.len() == node_count(g),
        marked.len() == node_count(g),
        costs_sound(g, s, dist),
        costs_closed(g, dist, Seq::new(node_count(g) as nat, |i: int| false), -1),
        dist[node_id(g, (s, Direction::Right))] == 0,
        is_min_cost(g, s, e, c),
        c < UNREACHED,
        route_between(g, s, e, rt),
        route_cost(rt) == c,
        0 <= k < rt.len(),
        forall|d: Direction| dist[node_id(g, (e, d))] == c ==> #[trigger] marked[node_id(g, (e, d))],
        forall|a: int, b: int|
            0 <= a < node_count(g) && 0 <= b < node_count(g) && #[trigger] marked[b] && #[trigger] tight(g, dist, a, b) ==> marked[a],
    ensures
        marked[node_id(g, rt[k])],
    decreases rt.len() - k,
{
    lemma_best_prefix(g, s, e, dist, c, rt, k);
    if k == rt.len() - 1 {
        assert(rt.take(k + 1) =~= rt);
        assert(rt[k] == (e, rt[k].1));
    } else {
        lemma_marked_along(g, s, e, dist, c, rt, marked, k + 1);
        lemma_best_prefix(g, s, e, dist, c, rt, k + 1);
        assert(rt.take(k + 2) =~= rt.take(k + 1).push(rt[k + 1]));
        lemma_route_push(rt.take(k + 1), rt[k + 1]);
        lemma_node_id(g, rt[k]);
        lemma_node_id(g, rt[k + 1]);
        assert(is_step(g, rt[k], rt[k + 1]));
        assert(tight(g, dist, node_id(g, rt[k]), node_id(g, rt[k + 1])));
    }
}

/// Every cell that lies on some cheapest route from the start to the end,
/// each once, in row-major order; none where the end cannot be reached.
pub fn collect_best_paths(grid: &Grid<Tile>, costs: &RouteCosts) -> (r: Vec<Position>)
    requires
        costs.settles(grid@),
    ensures
        r@.no_duplicates(),
        forall|p: Position| #[trigger] r@.contains(p) <==> on_best_route(grid@, costs@.start, costs@.end, p),
{
    let ghost g = grid@;
    let ghost s = costs.start;
    let e = costs.end;
    proof {
        lemma_search_outcome(g, s, e, costs.dist@, costs.min_cost);
    }
    let c = match costs.min_cost {
        Some(c) => c,
        None => {
            proof {
                assert forall|p: Position| !on_best_route(g, s, e, p) by {
                    if on_best_route(g, s, e, p) {
                        let (c2, rt, i) = choose|c2: nat, rt: Seq<PathNode>, i: int|
                            is_min_cost(g, s, e, c2) && route_between(g, s, e, rt) && route_cost(rt) == c2
                                && 0 <= i < rt.len() && rt[i].0 == p;
                        assert(route_between(g, s, e, rt));
                    }
                }
            }
            return Vec::new();
        },
    };
    let dist = &costs.dist;
    let n: usize = dist.len();
    let mut marked: Vec<bool> = Vec::new();
    let mut i: usize = 0;
    while i < n
        invariant
            i <= n,
            marked@.len() == i,
            forall|j: int| 0 <= j < i ==> !#[trigger] marked@[j],
        decreases n - i,
    {
        marked.push(false);
        i = i + 1;
    }
    let mut t = Trace { marked, stack: Vec::new() };
    proof {
        reveal(costs_sound);
    }
    let dirs = Direction::all();
    let mut j: usize = 0;
    while j < 4
        invariant
            g == grid@,
            costs.settles(g),
            dist == &costs.dist,
            costs.min_cost == Some(c),
            e == costs.end,
            dirs@ == seq![Direction::Down, Direction::Up, Direction::Left, Direction::Right],
            j <= 4,
            t.inv(g, e, dist@, c as nat, -1),
            forall|i: int| 0 <= i < t.stack@.len() ==> #[trigger] t.stack@[i] < node_count(g),
            forall|k: int| 0 <= k < j ==> (dist@[node_id(g, (e, #[trigger] dirs@[k]))] == c ==> t.marked@[node_id(g, (e, dirs@[k]))]),
        decreases 4 - j,
    {
        let id = node_index(grid, (e, dirs[j]));
        if dist[id] == c && !t.marked[id] {
            let ghost t0 = t;
            proof {
                lemma_node_id(g, (e, dirs@[j as int]));
                let q = seq![node_at(g, id as int)];
                assert(is_route(g, q) && q[0] == node_at(g, id as int) && q.last().0 == e
                    && dist@[id as int] + route_cost(q) == c);
                assert(!t0.stack@.contains(id)) by {
                    if t0.stack@.contains(id) {
                        let i = choose|i: int| 0 <= i < t0.stack@.len() && t0.stack@[i] == id;
                        assert(t0.marked@[t0.stack@[i] as int]);
                    }
                }
            }
            t.marked.set(id, true);
            t.stack.push(id);
            proof {
                lemma_trace_seed(g, e, dist@, c as nat, t0.marked@, t0.stack@, id);
            }
        }
        j = j + 1;
    }
    proof {
        assert forall|d: Direction| dist@[node_id(g, (e, d))] == c implies #[trigger] t.marked@[node_id(g, (e, d))] by {
            match d {
                Direction::Down => assert(dirs@[0] == d),
                Direction::Up => assert(dirs@[1] == d),
                Direction::Left => assert(dirs@[2] == d),
                Direction::Right => assert(dirs@[3] == d),
            }
        }
    }
    while t.stack.len() > 0
        invariant
            g == grid@,
            costs.settles(g),
            dist == &costs.dist,
            costs.min_cost == Some(c),
            e == costs.end,
            g.wf(),
            node_count(g) <= usize::MAX,
            t.inv(g, e, dist@, c as nat, -1),
            forall|d: Direction| dist@[node_id(g, (e, d))] == c ==> #[trigger] t.marked@[node_id(g, (e, d))],
        decreases unmarked(t.marked@), t.stack@.len(),
    {
        let ghost t0 = t;
        let b = t.stack.pop().unwrap();
        proof {
            assert(t0.stack@ =~= t.stack@.push(b));
            lemma_trace_pop(g, e, dist@, c as nat, t0.marked@, t0.stack@, t.stack@, b);
        }
        let (p, d) = node_at_index(grid, b);
        let ghost m0 = t.marked@;
        let a1 = node_index(grid, (p, d.turn270()));
        proof {
            lemma_node_id(g, (p, d.counter_clockwise()));
        }
        t.consider(grid, dist, a1, b, TURN_COST, Ghost(e), Ghost(c as nat));
        let ghost m1 = t.marked@;
        let a2 = node_index(grid, (p, d.turn90()));
        proof {
            lemma_node_id(g, (p, d.clockwise()));
        }
        t.consider(grid, dist, a2, b, TURN_COST, Ghost(e), Ghost(c as nat));
        let ghost m2 = t.marked@;
        match grid.get(p) {
            Some(tile) => {
                if *tile != Tile::Wall {
                    match p.move_to(d.turn180()) {
                        Some(pp) => {
                            if pp.x < grid.width() && pp.y < grid.height() {
                                let back = node_index(grid, (pp, d));
                                proof {
                                    lemma_node_id(g, (pp, d));
                                    lemma_neighbour_back(p, d.clockwise().clockwise(), pp);
                                }
                                t.consider(grid, dist, back, b, 1, Ghost(e), Ghost(c as nat));
                            }
                        },
                        None => {},
                    }
                }
            },
            None => {},
        }
        proof {
            assert forall|a: int| 0 <= a < node_count(g) && #[trigger] tight(g, dist@, a, b as int) implies t.marked@[a] by {
                lemma_predecessors(g, a, b as int);
                lemma_node_at(g, b as int);
                if a == a1 {
                    assert(m1[a]);
                } else if a == a2 {
                    assert(m2[a]);
                }
            }
            lemma_trace_settle(g, e, dist@, c as nat, t.marked@, t.stack@, b);
            assert forall|d: Direction| dist@[node_id(g, (e, d))] == c implies #[trigger] t.marked@[node_id(g, (e, d))] by {
                let x = node_id(g, (e, d));
                lemma_node_id(g, (e, d));
                assert(m0[x]);
                assert(m1[x]);
                assert(m2[x]);
            }
        }
    }
    proof {
        assert(t.stack@ =~= Seq::<usize>::empty());
    }
    let r = marked_positions(grid, &t.marked);
    proof {
        lemma_collect_outcome(g, s, e, dist@, c as nat, t.marked@, r@);
    }
    r
}

proof fn lemma_trace_seed(g: GridView<Tile>, e: Position, dist: Seq<u64>, c: nat, marked: Seq<bool>, stack: Seq<usize>, id: usize)
    requires
        marked.len() == node_count(g),
        dist.len() == node_count(g),
        stack.no_duplicates(),
        forall|i: int| 0 <= i < stack.len() ==> (#[trigger] stack[i]) < node_count(g) && marked[stack[i] as int],
        forall|m: int| 0 <= m < node_count(g) && #[trigger] marked[m] ==> leads_to_end(g, e, dist, c, m),
        forall|a: int, b: int|
            0 <= a < node_count(g) && 0 <= b < node_count(g) && #[trigger] marked[b] && b != -1
                && !stack.contains(b as usize) && #[trigger] tight(g, dist, a, b) ==> marked[a],
        id < node_count(g),
        !stack.contains(id),
        leads_to_end(g, e, dist, c, id as int),
    ensures
        ({
            let m2 = marked.update(id as int, true);
            let s2 = stack.push(id);
            &&& s2.no_duplicates()
            &&& forall|i: int| 0 <= i < s2.len() ==> (#[trigger] s2[i]) < node_count(g) && m2[s2[i] as int]
            &&& forall|m: int| 0 <= m < node_count(g) && #[trigger] m2[m] ==> leads_to_end(g, e, dist, c, m)
            &&& forall|a: int, b: int|
                0 <= a < node_count(g) && 0 <= b < node_count(g) && #[trigger] m2[b] && b != -1
                    && !s2.contains(b as usize) && #[trigger] tight(g, dist, a, b) ==> m2[a]
        }),
{
    let m2 = marked.update(id as int, true);
    let s2 = stack.push(id);
    assert forall|i: int, j: int| 0 <= i < j < s2.len() implies s2[i] != s2[j] by {
        if j == stack.len() {
            assert(stack.contains(stack[i]));
        }
    }
    assert forall|i: int| 0 <= i < s2.len() implies (#[trigger] s2[i]) < node_count(g) && m2[s2[i] as int] by {
        if i < stack.len() {
            assert(s2[i] == stack[i]);
        }
    }
    assert forall|a: int, b: int|
        0 <= a < node_count(g) && 0 <= b < node_count(g) && #[trigger] m2[b] && b != -1
            && !s2.contains(b as usize) && #[trigger] tight(g, dist, a, b) implies m2[a] by {
        if b == id {
            assert(s2[stack.len() as int] == id);
        } else {
            if stack.contains(b as usize) {
                let i = choose|i: int| 0 <= i < stack.len() && stack[i] == b as usize;
                assert(s2[i] == b as usize);
            }
        }
    }
}

proof fn lemma_trace_pop(g: GridView<Tile>, e: Position, dist: Seq<u64>, c: nat, marked: Seq<bool>, full: Seq<usize>, stack: Seq<usize>, b: usize)
    requires
        full.len() > 0,
        full == stack.push(b),
        node_count(g) <= usize::MAX,
        marked.len() == node_count(g),
        dist.len() == node_count(g),
        full.no_duplicates(),
        forall|i: int| 0 <= i < full.len() ==> (#[trigger] full[i]) < node_count(g) && marked[full[i] as int],
        forall|a: int, x: int|
            0 <= a < node_count(g) && 0 <= x < node_count(g) && #[trigger] marked[x] && x != -1
                && !full.contains(x as usize) && #[trigger] tight(g, dist, a, x) ==> marked[a],
    ensures
        stack.no_duplicates(),
        !stack.contains(b),
        b < node_count(g),
        marked[b as int],
        forall|i: int| 0 <= i < stack.len() ==> (#[trigger] stack[i]) < node_count(g) && marked[stack[i] as int],
        forall|a: int, x: int|
            0 <= a < node_count(g) && 0 <= x < node_count(g) && #[trigger] marked[x] && x != b
                && !stack.contains(x as usize) && #[trigger] tight(g, dist, a, x) ==> marked[a],
{
    assert(full[stack.len() as int] == b);
    assert forall|i: int, j: int| 0 <= i < j < stack.len() implies stack[i] != stack[j] by {
        assert(full[i] == stack[i] && full[j] == stack[j]);
    }
    assert(!stack.contains(b)) by {
        if stack.contains(b) {
            let i = choose|i: int| 0 <= i < stack.len() && stack[i] == b;
            assert(full[i] == b);
        }
    }
    assert forall|i: int| 0 <= i < stack.len() implies (#[trigger] stack[i]) < node_count(g) && marked[stack[i] as int] by {
        assert(full[i] == stack[i]);
    }
    assert forall|a: int, x: int|
        0 <= a < node_count(g) && 0 <= x < node_count(g) && #[trigger] marked[x] && x != b
            && !stack.contains(x as usize) && #[trigger] tight(g, dist, a, x) implies marked[a] by {
        if full.contains(x as usize) {
            let i = choose|i: int| 0 <= i < full.len() && full[i] == x as usize;
            if i < stack.len() {
                assert(stack[i] == x as usize);
            } else {
                assert(full[i] == b);
            }
        }
    }
}

proof fn lemma_trace_settle(g: GridView<Tile>, e: Position, dist: Seq<u64>, c: nat, marked: Seq<bool>, stack: Seq<usize>, b: usize)
    requires
        b < node_count(g),
        forall|a: int, x: int|
            0 <= a < node_count(g) && 0 <= x < node_count(g) && #[trigger] marked[x] && x != b
                && !stack.contains(x as usize) && #[trigger] tight(g, dist, a, x) ==> marked[a],
        forall|a: int| 0 <= a < node_count(g) && #[trigger] tight(g, dist, a, b as int) ==> marked[a],
    ensures
        forall|a: int, x: int|
            0 <= a < node_count(g) && 0 <= x < node_count(g) && #[trigger] marked[x] && x != -1
                && !stack.contains(x as usize) && #[trigger] tight(g, dist, a, x) ==> marked[a],
{
}

/// The marked cells are exactly those on cheapest routes.
proof fn lemma_collect_outcome(g: GridView<Tile>, s: Position, e: Position, dist: Seq<u64>, c: nat, marked: Seq<bool>, r: Seq<Position>)
    requires
        g.wf(),
        g.in_bounds(s),
        dist.len() == node_count(g),
        marked.len() == node_count(g),
        costs_sound(g, s, dist),
        costs_closed(g, dist, Seq::new(node_count(g) as nat, |i: int| false), -1),
        dist[node_id(g, (s, Direction::Right))] == 0,
        is_min_cost(g, s, e, c),
        c < UNREACHED,
        forall|m: int| 0 <= m < node_count(g) && #[trigger] marked[m] ==> leads_to_end(g, e, dist, c, m),
        forall|d: Direction| dist[node_id(g, (e, d))] == c ==> #[trigger] marked[node_id(g, (e, d))],
        forall|a: int, b: int|
            0 <= a < node_count(g) && 0 <= b < node_count(g) && #[trigger] marked[b] && #[trigger] tight(g, dist, a, b) ==> marked[a],
        forall|p: Position| #[trigger] r.contains(p) <==> (g.in_bounds(p) && any_facing_marked(g, marked, p)),
    ensures
        forall|p: Position| #[trigger] r.contains(p) <==> on_best_route(g, s, e, p),
{
    assert forall|p: Position| #[trigger] r.contains(p) implies on_best_route(g, s, e, p) by {
        let d = if marked[node_id(g, (p, Direction::Up))] {
            Direction::Up
        } else if marked[node_id(g, (p, Direction::Right))] {
            Direction::Right
        } else if marked[node_id(g, (p, Direction::Down))] {
            Direction::Down
        } else {
            Direction::Left
        };
        let m = node_id(g, (p, d));
        lemma_node_id(g, (p, d));
        assert(leads_to_end(g, e, dist, c, m));
        let q = choose|q: Seq<PathNode>| is_route(g, q) && q[0] == node_at(g, m) && q.last().0 == e
            && dist[m] + route_cost(q) == c;
        reveal(costs_sound);
        let rs = choose|rs: Seq<PathNode>| is_route(g, rs) && rs[0] == (s, Direction::Right)
            && rs.last() == node_at(g, m) && route_cost(rs) == dist[m] as nat;
        lemma_route_join(g, rs, q);
        let rt = rs + q.skip(1);
        assert(route_between(g, s, e, rt));
        assert(rt[rs.len() - 1] == rs.last());
        assert(rt[rs.len() - 1].0 == p);
    }
    assert forall|p: Position| on_best_route(g, s, e, p) implies #[trigger] r.contains(p) by {
        let (c2, rt, i) = choose|c2: nat, rt: Seq<PathNode>, i: int|
            #[trigger] is_min_cost(g, s, e, c2) && #[trigger] route_between(g, s, e, rt) && route_cost(rt) == c2
                && 0 <= i < rt.len() && #[trigger] rt[i].0 == p;
        let w = choose|w: Seq<PathNode>| route_between(g, s, e, w) && route_cost(w) == c;
        assert(c2 <= c);
        assert(c <= c2);
        lemma_marked_along(g, s, e, dist, c, rt, marked, i);
        lemma_route_in_bounds(g, rt, i);
        assert(rt[i] == (p, rt[i].1));
    }
}

} // verus!
