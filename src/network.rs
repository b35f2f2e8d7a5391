//! An undirected network of numbered nodes, and the enumeration of its
//! cliques: sets of nodes that are all linked to one another.
use vstd::prelude::*;

verus! {

/// An undirected network on the nodes `0 .. size`, each link stored once,
/// smaller end first.
pub struct NetworkMap {
    size: usize,
    edges: Vec<(usize, usize)>,
}

/// `c` lists distinct nodes of a network of `size` nodes in increasing order.
pub open spec fn increasing(c: Seq<usize>, size: nat) -> bool {
    &&& forall|i: int| 0 <= i < c.len() ==> #[trigger] c[i] < size
    &&& forall|i: int, j: int| 0 <= i < j < c.len() ==> #[trigger] c[i] < #[trigger] c[j]
}

impl NetworkMap {
    /// The number of nodes.
    pub closed spec fn spec_size(&self) -> nat {
        self.size as nat
    }

    /// Whether `i` and `j` are linked.
    pub closed spec fn linked(&self, i: usize, j: usize) -> bool {
        let (a, b) = if i <= j { (i, j) } else { (j, i) };
        self.edges@.contains((a, b))
    }

    /// Every two nodes of `c` are linked.
    pub open spec fn is_clique_spec(&self, c: Seq<usize>) -> bool {
        forall|i: int, j: int| 0 <= i < j < c.len() ==> self.linked(#[trigger] c[i], #[trigger] c[j])
    }

    /// A network of `size` nodes and no links.
    pub fn new(size: usize) -> (r: NetworkMap)
        ensures
            r.spec_size() == size,
            forall|i: usize, j: usize| !r.linked(i, j),
    {
        NetworkMap { size, edges: Vec::new() }
    }

    pub fn size(&self) -> (r: usize)
        ensures
            r == self.spec_size(),
    {
        self.size
    }

    /// Links `i` and `j`; linking them again changes nothing.
    pub fn add_edge(&mut self, i: usize, j: usize)
        ensures
            final(self).spec_size() == old(self).spec_size(),
            forall|a: usize, b: usize| #[trigger] final(self).linked(a, b) <==>
                (old(self).linked(a, b) || (a == i && b == j) || (a == j && b == i)),
    {
        let e = if i <= j { (i, j) } else { (j, i) };
        let ghost before = self.edges@;
        self.edges.push(e);
        proof {
            assert forall|a: usize, b: usize| #[trigger] self.linked(a, b) <==>
                (old(self).linked(a, b) || (a == i && b == j) || (a == j && b == i)) by {
                let k = if a <= b { (a, b) } else { (b, a) };
                if self.edges@.contains(k) {
                    let t = choose|t: int| 0 <= t < self.edges@.len() && self.edges@[t] == k;
                    if t < before.len() {
                        assert(before[t] == k);
                    }
                }
                if before.contains(k) {
                    let t = choose|t: int| 0 <= t < before.len() && before[t] == k;
                    assert(self.edges@[t] == k);
                }
                if (a == i && b == j) || (a == j && b == i) {
                    assert(self.edges@[before.len() as int] == k);
                }
            }
        }
    }

    /// Whether `i` and `j` are linked.
    pub fn has_edge(&self, i: usize, j: usize) -> (r: bool)
        ensures
            r == self.linked(i, j),
    {
        let (a, b) = if i <= j { (i, j) } else { (j, i) };
        let mut k: usize = 0;
        while k < self.edges.len()
            invariant
                k <= self.edges@.len(),
                (a, b) == (if i <= j { (i, j) } else { (j, i) }),
                forall|t: int| 0 <= t < k ==> self.edges@[t] != (a, b),
            decreases self.edges@.len() - k,
        {
            if self.edges[k].0 == a && self.edges[k].1 == b {
                assert(self.edges@[k as int] == (a, b));
                assert(self.edges@.contains((a, b)));
                return true;
            }
            k = k + 1;
        }
        false
    }
}

/// Whether every two nodes of `nodes` are linked.
pub fn is_clique(network_map: &NetworkMap, nodes: &[usize]) -> (r: bool)
    ensures
        r == network_map.is_clique_spec(nodes@),
{
    let mut i: usize = 0;
    while i < nodes.len()
        invariant
            i <= nodes@.len(),
            forall|a: int, b: int| 0 <= a < i && a < b < nodes@.len() ==> network_map.linked(#[trigger] nodes@[a], #[trigger] nodes@[b]),
        decreases nodes@.len() - i,
    {
        let mut j: usize = i + 1;
        while j < nodes.len()
            invariant
                i < nodes@.len(),
                i + 1 <= j <= nodes@.len(),
                forall|a: int, b: int| 0 <= a < i && a < b < nodes@.len() ==> network_map.linked(#[trigger] nodes@[a], #[trigger] nodes@[b]),
                forall|b: int| i < b < j ==> network_map.linked(nodes@[i as int], #[trigger] nodes@[b]),
            decreases nodes@.len() - j,
        {
            if !network_map.has_edge(nodes[i], nodes[j]) {
                return false;
            }
            j = j + 1;
        }
        i = i + 1;
    }
    true
}

/// For each node, the nodes linked to it, in increasing order.
pub fn get_neighbours(network_map: &NetworkMap) -> (m: Vec<Vec<usize>>)
    ensures
        m@.len() == network_map.spec_size(),
        forall|i: int| 0 <= i < m@.len() ==> increasing(#[trigger] m@[i]@, network_map.spec_size()),
        forall|i: int, j: usize| 0 <= i < m@.len() ==>
            (#[trigger] m@[i]@.contains(j) <==> j < network_map.spec_size() && network_map.linked(i as usize, j)),
{
    let n = network_map.size();
    let mut m: Vec<Vec<usize>> = Vec::new();
    let mut i: usize = 0;
    while i < n
        invariant
            n == network_map.spec_size(),
            i <= n,
            m@.len() == i,
            forall|k: int| 0 <= k < m@.len() ==> increasing(#[trigger] m@[k]@, n as nat),
            forall|k: int, j: usize| 0 <= k < m@.len() ==>
                (#[trigger] m@[k]@.contains(j) <==> j < n && network_map.linked(k as usize, j)),
        decreases n - i,
    {
        let mut row: Vec<usize> = Vec::new();
        let mut j: usize = 0;
        while j < n
            invariant
                n == network_map.spec_size(),
                i < n,
                j <= n,
                increasing(row@, n as nat),
                forall|k: int| 0 <= k < row@.len() ==> #[trigger] row@[k] < j,
                forall|x: usize| #[trigger] row@.contains(x) <==> x < j && network_map.linked(i, x),
            decreases n - j,
        {
            if network_map.has_edge(i, j) {
                let ghost before = row@;
                row.push(j);
                proof {
                    assert forall|x: usize| #[trigger] row@.contains(x) <==> x < j + 1 && network_map.linked(i, x) by {
                        if row@.contains(x) {
                            let t = choose|t: int| 0 <= t < row@.len() && row@[t] == x;
                            if t < before.len() {
                                assert(before[t] == x);
                            }
                        }
                        if before.contains(x) {
                            let t = choose|t: int| 0 <= t < before.len() && before[t] == x;
                            assert(row@[t] == x);
                        }
                        if x == j {
                            assert(row@[before.len() as int] == j);
                        }
                    }
                }
            }
            j = j + 1;
        }
        let ghost before = m@;
        m.push(row);
        proof {
            assert forall|k: int, x: usize| 0 <= k < m@.len() implies
                (#[trigger] m@[k]@.contains(x) <==> x < n && network_map.linked(k as usize, x)) by {
                if k < before.len() {
                    assert(m@[k] == before[k]);
                }
            }
            assert forall|k: int| 0 <= k < m@.len() implies increasing(#[trigger] m@[k]@, n as nat) by {
                if k < before.len() {
                    assert(m@[k] == before[k]);
                }
            }
        }
        i = i + 1;
    }
    m
}

} // verus!

verus! {

/// The contents of each list.
pub open spec fn views(s: Seq<Vec<usize>>) -> Seq<Seq<usize>> {
    s.map_values(|v: Vec<usize>| v@)
}

/// `c` is a clique of `size` nodes, in increasing order, that starts with
/// `prefix`.
pub open spec fn extends_to_clique(network_map: &NetworkMap, prefix: Seq<usize>, size: nat, c: Seq<usize>) -> bool {
    &&& c.len() == size
    &&& increasing(c, network_map.spec_size())
    &&& network_map.is_clique_spec(c)
    &&& c.take(prefix.len() as int) == prefix
}

/// The adjacency lists of `network_map`, as `get_neighbours` gives them.
pub open spec fn neighbour_lists(network_map: &NetworkMap, neighbours: Seq<Vec<usize>>) -> bool {
    &&& neighbours.len() == network_map.spec_size()
    &&& forall|i: int, j: usize| 0 <= i < neighbours.len() ==>
        (#[trigger] neighbours[i]@.contains(j) <==> j < network_map.spec_size() && network_map.linked(i as usize, j))
}

fn copy_of(v: &Vec<usize>) -> (r: Vec<usize>)
    ensures
        r@ == v@,
{
    let mut r: Vec<usize> = Vec::new();
    let mut i: usize = 0;
    while i < v.len()
        invariant
            i <= v@.len(),
            r@ == v@.take(i as int),
        decreases v@.len() - i,
    {
        r.push(v[i]);
        i = i + 1;
        assert(r@ =~= v@.take(i as int));
    }
    assert(v@.take(v@.len() as int) =~= v@);
    r
}

proof fn lemma_views_push(s: Seq<Vec<usize>>, v: Vec<usize>, c: Seq<usize>)
    ensures
        views(s.push(v)).contains(c) <==> (views(s).contains(c) || c == v@),
{
    let a = views(s.push(v));
    let b = views(s);
    assert(a =~= b.push(v@));
    if a.contains(c) {
        let t = choose|t: int| 0 <= t < a.len() && a[t] == c;
        if t < b.len() {
            assert(b[t] == c);
        }
    }
    if b.contains(c) {
        let t = choose|t: int| 0 <= t < b.len() && b[t] == c;
        assert(a[t] == c);
    }
    if c == v@ {
        assert(a[b.len() as int] == c);
    }
}

/// Appends every clique of `size` nodes that extends `clique` by larger
/// nodes, each linked to the last one chosen.
fn extend_cliques(
    network_map: &NetworkMap,
    neighbours: &Vec<Vec<usize>>,
    size: usize,
    clique: &mut Vec<usize>,
    out: &mut Vec<Vec<usize>>,
)
    requires
        neighbour_lists(network_map, neighbours@),
        1 <= old(clique)@.len() <= size,
        increasing(old(clique)@, network_map.spec_size()),
    ensures
        final(clique)@ == old(clique)@,
        forall|c: Seq<usize>| #[trigger] views(final(out)@).contains(c) <==>
            (views(old(out)@).contains(c) || extends_to_clique(network_map, old(clique)@, size as nat, c)),
    decreases size - old(clique)@.len(),
{
    let ghost prefix = clique@;
    if clique.len() == size {
        if is_clique(network_map, clique.as_slice()) {
            let ghost before = out@;
            out.push(copy_of(clique));
            proof {
                assert forall|c: Seq<usize>| #[trigger] views(out@).contains(c) <==>
                    (views(before).contains(c) || extends_to_clique(network_map, prefix, size as nat, c)) by {
                    lemma_views_push(before, out@.last(), c);
                    assert(out@ == before.push(out@.last()));
                    if extends_to_clique(network_map, prefix, size as nat, c) {
                        assert(c =~= c.take(prefix.len() as int));
                    }
                    assert(prefix.take(prefix.len() as int) =~= prefix);
                }
            }
        } else {
            proof {
                assert forall|c: Seq<usize>| !extends_to_clique(network_map, prefix, size as nat, c) by {
                    if extends_to_clique(network_map, prefix, size as nat, c) {
                        assert(c =~= c.take(prefix.len() as int));
                    }
                }
            }
        }
    } else {
        let i = clique[clique.len() - 1];
        let row = &neighbours[i];
        let ghost out0 = out@;
        let mut k: usize = 0;
        while k < row.len()
            invariant
                neighbour_lists(network_map, neighbours@),
                prefix.len() < size,
                1 <= prefix.len(),
                increasing(prefix, network_map.spec_size()),
                i == prefix.last(),
                *row == neighbours@[i as int],
                i < neighbours@.len(),
                k <= row@.len(),
                clique@ == prefix,
                old(clique)@ == prefix,
                forall|c: Seq<usize>| #[trigger] views(out@).contains(c) <==>
                    (views(out0).contains(c) || exists|t: int| 0 <= t < k && row@[t] > i
                        && #[trigger] extends_to_clique(network_map, prefix.push(row@[t]), size as nat, c)),
            decreases row@.len() - k,
        {
            let j = row[k];
            let ghost before = out@;
            if j > i {
                assert(row@.contains(j));
                clique.push(j);
                proof {
                    assert forall|a: int, b: int| 0 <= a < b < clique@.len() implies #[trigger] clique@[a] < #[trigger] clique@[b] by {
                        if b < prefix.len() {
                        } else {
                            assert(clique@[a] == prefix[a]);
                            assert(prefix[a] <= prefix.last());
                        }
                    }
                }
                extend_cliques(network_map, neighbours, size, clique, out);
                clique.pop();
            }
            proof {
                assert(clique@ =~= prefix);
                assert forall|c: Seq<usize>| #[trigger] views(out@).contains(c) <==>
                    (views(out0).contains(c) || exists|t: int| 0 <= t < k + 1 && row@[t] > i
                        && #[trigger] extends_to_clique(network_map, prefix.push(row@[t]), size as nat, c)) by {
                    if exists|t: int| 0 <= t < k + 1 && row@[t] > i
                        && #[trigger] extends_to_clique(network_map, prefix.push(row@[t]), size as nat, c) {
                        let t = choose|t: int| 0 <= t < k + 1 && row@[t] > i
                            && #[trigger] extends_to_clique(network_map, prefix.push(row@[t]), size as nat, c);
                        if t < k {
                            assert(views(before).contains(c));
                        }
                    }
                }
            }
            k = k + 1;
        }
        proof {
            assert forall|c: Seq<usize>| #[trigger] views(out@).contains(c) <==>
                (views(out0).contains(c) || extends_to_clique(network_map, prefix, size as nat, c)) by {
                if exists|t: int| 0 <= t < row@.len() && row@[t] > i
                    && #[trigger] extends_to_clique(network_map, prefix.push(row@[t]), size as nat, c) {
                    let t = choose|t: int| 0 <= t < row@.len() && row@[t] > i
                        && #[trigger] extends_to_clique(network_map, prefix.push(row@[t]), size as nat, c);
                    assert(c.take(prefix.len() as int) =~= c.take(prefix.len() as int + 1).take(prefix.len() as int));
                    assert(prefix.push(row@[t]).take(prefix.len() as int) =~= prefix);
                }
                if extends_to_clique(network_map, prefix, size as nat, c) {
                    let n = prefix.len() as int;
                    let j = c[n];
                    assert(c[n - 1] == prefix[n - 1]) by {
                        assert(c.take(n)[n - 1] == c[n - 1]);
                    }
                    assert(network_map.linked(c[n - 1], c[n]));
                    assert(row@.contains(j));
                    let t = choose|t: int| 0 <= t < row@.len() && row@[t] == j;
                    assert(c.take(n + 1) =~= prefix.push(j));
                    assert(extends_to_clique(network_map, prefix.push(row@[t]), size as nat, c));
                }
            }
        }
    }
}

/// Every clique of `size` nodes, in increasing order; for no nodes, the
/// one empty clique.
pub fn cliques_of_size(network_map: &NetworkMap, neighbours: &Vec<Vec<usize>>, size: usize) -> (r: Vec<Vec<usize>>)
    requires
        neighbour_lists(network_map, neighbours@),
    ensures
        forall|c: Seq<usize>| #[trigger] views(r@).contains(c) <==>
            (c.len() == size && increasing(c, network_map.spec_size()) && network_map.is_clique_spec(c)),
{
    let mut out: Vec<Vec<usize>> = Vec::new();
    if size == 0 {
        out.push(Vec::new());
        proof {
            assert forall|c: Seq<usize>| #[trigger] views(out@).contains(c) <==>
                (c.len() == size && increasing(c, network_map.spec_size()) && network_map.is_clique_spec(c)) by {
                lemma_views_push(Seq::empty(), out@[0], c);
                assert(out@ == Seq::<Vec<usize>>::empty().push(out@[0]));
                assert(views(Seq::<Vec<usize>>::empty()) =~= Seq::empty());
                if c.len() == 0 {
                    assert(c =~= out@[0]@);
                }
            }
        }
        return out;
    }
    let n = network_map.size();
    let mut clique: Vec<usize> = Vec::new();
    let mut i: usize = 0;
    while i < n
        invariant
            neighbour_lists(network_map, neighbours@),
            n == network_map.spec_size(),
            size >= 1,
            i <= n,
            clique@ == Seq::<usize>::empty(),
            forall|c: Seq<usize>| #[trigger] views(out@).contains(c) <==>
                (c.len() == size && increasing(c, n as nat) && network_map.is_clique_spec(c) && c[0] < i),
        decreases n - i,
    {
        clique.push(i);
        let ghost before = out@;
        extend_cliques(network_map, neighbours, size, &mut clique, &mut out);
        clique.pop();
        proof {
            assert(clique@ =~= Seq::<usize>::empty());
            assert forall|c: Seq<usize>| #[trigger] views(out@).contains(c) <==>
                (c.len() == size && increasing(c, n as nat) && network_map.is_clique_spec(c) && c[0] < i + 1) by {
                if c.len() >= 1 {
                    assert(c.take(1)[0] == c[0]);
                    if c[0] == i {
                        assert(c.take(1) =~= seq![i]);
                    }
                }
            }
        }
        i = i + 1;
    }
    proof {
        assert forall|c: Seq<usize>| #[trigger] views(out@).contains(c) <==>
            (c.len() == size && increasing(c, n as nat) && network_map.is_clique_spec(c)) by {
            if c.len() == size && increasing(c, n as nat) {
                assert(c[0] < n);
            }
        }
    }
    out
}

} // verus!
