//! An undirected graph over vertices numbered `1` to `size`, stored as an
//! adjacency list: one vector of neighbours per vertex, plus a value stored
//! at each vertex. Neighbour lookup is a linear scan.

use vstd::prelude::*;

verus! {

/// The adjacency lists after connecting `node_a` and `node_b`: nothing
/// changes when the edge is already present, otherwise each endpoint is
/// appended to the other's list (a self-loop appends the vertex to its own
/// list twice).
pub open spec fn add_edge_spec(adj: Seq<Seq<usize>>, node_a: usize, node_b: usize) -> Seq<
    Seq<usize>,
> {
    let a = node_a - 1;
    let b = node_b - 1;
    if adj[a].contains(node_b) {
        adj
    } else {
        let step = adj.update(a, adj[a].push(node_b));
        step.update(b, step[b].push(node_a))
    }
}

/// `s` with its first occurrence of `x` (if any) removed.
pub open spec fn remove_first(s: Seq<usize>, x: usize) -> Seq<usize>
    decreases s.len(),
{
    if s.len() == 0 {
        s
    } else if s[0] == x {
        s.drop_first()
    } else {
        seq![s[0]] + remove_first(s.drop_first(), x)
    }
}

/// The adjacency lists after disconnecting `node_a` and `node_b`: the first
/// occurrence of each endpoint is removed from the other's list, the list of
/// `node_a` first.
pub open spec fn remove_edge_spec(adj: Seq<Seq<usize>>, node_a: usize, node_b: usize) -> Seq<
    Seq<usize>,
> {
    let a = node_a - 1;
    let b = node_b - 1;
    let step = adj.update(a, remove_first(adj[a], node_b));
    step.update(b, remove_first(step[b], node_a))
}

/// When `x` sits at position `p` of `s` and nowhere earlier, removing the
/// first occurrence of `x` removes exactly position `p`.
proof fn lemma_remove_first_found(s: Seq<usize>, x: usize, p: int)
    requires
        0 <= p < s.len(),
        s[p] == x,
        forall|k: int| 0 <= k < p ==> s[k] != x,
    ensures
        remove_first(s, x) == s.remove(p),
    decreases p,
{
    if p == 0 {
        assert(s.drop_first() =~= s.remove(0));
    } else {
        assert(s[0] != x);
        lemma_remove_first_found(s.drop_first(), x, p - 1);
        assert(seq![s[0]] + s.drop_first().remove(p - 1) =~= s.remove(p));
    }
}

/// Removing the first occurrence of an absent value changes nothing.
proof fn lemma_remove_first_absent(s: Seq<usize>, x: usize)
    requires
        !s.contains(x),
    ensures
        remove_first(s, x) == s,
    decreases s.len(),
{
    if s.len() > 0 {
        assert(s[0] != x);
        assert(!s.drop_first().contains(x)) by {
            if s.drop_first().contains(x) {
                let k = choose|k: int|
                    0 <= k < s.drop_first().len() && s.drop_first()[k] == x;
                assert(s[k + 1] == x);
            }
        }
        lemma_remove_first_absent(s.drop_first(), x);
        assert(seq![s[0]] + s.drop_first() =~= s);
    }
}

/// Copies a neighbour list.
fn copy_row(row: &Vec<usize>) -> (r: Vec<usize>)
    ensures
        r@ == row@,
{
    let mut out: Vec<usize> = Vec::new();
    let mut idx: usize = 0;
    while idx < row.len()
        invariant
            idx <= row@.len(),
            out@ == row@.take(idx as int),
        decreases row@.len() - idx,
    {
        out.push(row[idx]);
        assert(row@.take(idx + 1 as int) =~= row@.take(idx as int).push(row@[idx as int]));
        idx = idx + 1;
    }
    assert(row@.take(row@.len() as int) =~= row@);
    out
}

/// Linear scan for `x` in a neighbour list.
fn row_contains(row: &Vec<usize>, x: usize) -> (r: bool)
    ensures
        r == row@.contains(x),
{
    let mut idx: usize = 0;
    while idx < row.len()
        invariant
            idx <= row@.len(),
            forall|k: int| 0 <= k < idx ==> row@[k] != x,
        decreases row@.len() - idx,
    {
        if row[idx] == x {
            return true;
        }
        idx = idx + 1;
    }
    false
}

/// An undirected adjacency-list graph with `u32` values at its vertices.
/// Vertices are numbered starting from 1.
pub struct Graph {
    size: usize,
    vertexes: Vec<u32>,
    edges: Vec<Vec<usize>>,
}

impl Graph {
    /// The number of vertices, for specification purposes.
    pub closed spec fn spec_size(self) -> int {
        self.size as int
    }

    /// The value stored at each vertex, indexed from 0.
    pub closed spec fn vertex_values(self) -> Seq<u32> {
        self.vertexes@
    }

    /// The neighbour list of each vertex, indexed from 0.
    pub closed spec fn adjacency(self) -> Seq<Seq<usize>> {
        self.edges@.map_values(|row: Vec<usize>| row@)
    }

    /// Both per-vertex tables cover exactly the declared vertices.
    pub open spec fn wf(self) -> bool {
        &&& self.vertex_values().len() == self.spec_size()
        &&& self.adjacency().len() == self.spec_size()
    }

    /// A graph with `size` vertices, no edges, and every vertex value 0.
    pub fn new(size: usize) -> (g: Graph)
        ensures
            g.wf(),
            g.spec_size() == size as int,
            forall|i: int| 0 <= i < size ==> g.vertex_values()[i] == 0u32,
            forall|i: int| 0 <= i < size ==> (#[trigger] g.adjacency()[i]).len() == 0,
    {
        let mut vertexes: Vec<u32> = Vec::new();
        let mut i: usize = 0;
        while i < size
            invariant
                i <= size,
                vertexes@.len() == i,
                forall|k: int| 0 <= k < i ==> vertexes@[k] == 0u32,
            decreases size - i,
        {
            vertexes.push(0);
            i = i + 1;
        }
        let mut edges: Vec<Vec<usize>> = Vec::new();
        let mut j: usize = 0;
        while j < size
            invariant
                j <= size,
                edges@.len() == j,
                forall|k: int| 0 <= k < j ==> (#[trigger] edges@[k])@.len() == 0,
            decreases size - j,
        {
            edges.push(Vec::new());
            j = j + 1;
        }
        Graph { size, vertexes, edges }
    }

    /// Connects `node_a` and `node_b`: appends each endpoint to the other's
    /// neighbour list, unless `node_b` is already a neighbour of `node_a`,
    /// in which case nothing changes.
    pub fn add_edge(&mut self, node_a: usize, node_b: usize)
        requires
            old(self).wf(),
            1 <= node_a <= old(self).spec_size(),
            1 <= node_b <= old(self).spec_size(),
        ensures
            final(self).wf(),
            final(self).spec_size() == old(self).spec_size(),
            final(self).vertex_values() == old(self).vertex_values(),
            final(self).adjacency() == add_edge_spec(old(self).adjacency(), node_a, node_b),
    {
        let a = node_a - 1;
        let b = node_b - 1;
        if row_contains(&self.edges[a], node_b) {
            return;
        }
        let mut row_a = copy_row(&self.edges[a]);
        row_a.push(node_b);
        self.edges[a] = row_a;
        let mut row_b = copy_row(&self.edges[b]);
        row_b.push(node_a);
        self.edges[b] = row_b;
        proof {
            assert(self.adjacency() =~= add_edge_spec(old(self).adjacency(), node_a, node_b));
        }
    }

    /// Disconnects `node_a` and `node_b`: removes the first occurrence of
    /// each endpoint from the other's neighbour list; absent entries are
    /// left alone.
    pub fn remove_edge(&mut self, node_a: usize, node_b: usize)
        requires
            old(self).wf(),
            1 <= node_a <= old(self).spec_size(),
            1 <= node_b <= old(self).spec_size(),
        ensures
            final(self).wf(),
            final(self).spec_size() == old(self).spec_size(),
            final(self).vertex_values() == old(self).vertex_values(),
            final(self).adjacency() == remove_edge_spec(old(self).adjacency(), node_a, node_b),
    {
        let a = node_a - 1;
        let b = node_b - 1;
        let row_a = Self::remove_first_exec(&self.edges[a], node_b);
        self.edges[a] = row_a;
        let row_b = Self::remove_first_exec(&self.edges[b], node_a);
        self.edges[b] = row_b;
        proof {
            assert(self.adjacency() =~= remove_edge_spec(old(self).adjacency(), node_a, node_b));
        }
    }

    /// A copy of `row` with the first occurrence of `x` (if any) removed.
    fn remove_first_exec(row: &Vec<usize>, x: usize) -> (r: Vec<usize>)
        ensures
            r@ == remove_first(row@, x),
    {
        let mut out = copy_row(row);
        let mut idx: usize = 0;
        while idx < out.len()
            invariant
                idx <= out@.len(),
                out@ == row@,
                forall|k: int| 0 <= k < idx ==> row@[k] != x,
            decreases out@.len() - idx,
        {
            if out[idx] == x {
                out.remove(idx);
                proof {
                    lemma_remove_first_found(row@, x, idx as int);
                }
                return out;
            }
            idx = idx + 1;
        }
        proof {
            assert(!row@.contains(x));
            lemma_remove_first_absent(row@, x);
        }
        out
    }

    /// The value stored at `node`.
    pub fn get_vertex_value(&self, node: usize) -> (v: u32)
        requires
            self.wf(),
            1 <= node <= self.spec_size(),
        ensures
            v == self.vertex_values()[node - 1],
    {
        self.vertexes[node - 1]
    }

    /// Stores `value` at `node`.
    pub fn set_vertex_value(&mut self, node: usize, value: u32)
        requires
            old(self).wf(),
            1 <= node <= old(self).spec_size(),
        ensures
            final(self).wf(),
            final(self).spec_size() == old(self).spec_size(),
            final(self).adjacency() == old(self).adjacency(),
            final(self).vertex_values() == old(self).vertex_values().update(
                node - 1,
                value,
            ),
    {
        self.vertexes[node - 1] = value;
    }

    /// The neighbour list of `node`, as recorded in insertion order.
    pub fn neighbors(&self, node: usize) -> (r: Vec<usize>)
        requires
            self.wf(),
            1 <= node <= self.spec_size(),
        ensures
            r@ == self.adjacency()[node - 1],
    {
        copy_row(&self.edges[node - 1])
    }

    /// True exactly when `node_b` appears in `node_a`'s neighbour list.
    pub fn adjacent(&self, node_a: usize, node_b: usize) -> (r: bool)
        requires
            self.wf(),
            1 <= node_a <= self.spec_size(),
            1 <= node_b <= self.spec_size(),
        ensures
            r == self.adjacency()[node_a - 1].contains(node_b),
    {
        row_contains(&self.edges[node_a - 1], node_b)
    }
}

} // verus!
