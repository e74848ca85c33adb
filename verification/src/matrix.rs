//! Dense adjacency matrices: reading a graph out as one, and building a
//! graph from one. Rows and columns follow the existing nodes in id order.

use vstd::prelude::*;
use crate::types::{BaseGraph, GraphConstructor, NodeId, EdgeId, ids};

verus! {

/// The cells of row `r` with column below `j` that `from_adjacency_matrix`
/// turns into edges, left to right: the filled ones, and in undirected
/// graphs only those on or above the diagonal.
pub open spec fn row_cells<W>(row: Seq<Option<W>>, r: int, directed: bool, j: int) -> Seq<(int, int)>
    decreases j,
{
    if j <= 0 {
        seq![]
    } else {
        let prev = row_cells(row, r, directed, j - 1);
        if row[j - 1] is Some && (directed || r <= j - 1) { prev.push((r, j - 1)) } else { prev }
    }
}

/// The cells of the rows below `i` that become edges, row by row.
pub open spec fn matrix_cells<W>(m: Seq<Vec<Option<W>>>, directed: bool, i: int) -> Seq<(int, int)>
    decreases i,
{
    if i <= 0 {
        seq![]
    } else {
        matrix_cells(m, directed, i - 1) + row_cells(m[i - 1]@, i - 1, directed, m[i - 1]@.len() as int)
    }
}

/// Edge `k` of `edges` is made from cell `k` of `cells`: it runs from the
/// cell's row to its column and weighs a clone of the cell's value.
pub open spec fn built_from<W: Clone>(edges: Seq<Option<(usize, usize, W)>>, m: Seq<Vec<Option<W>>>,
    cells: Seq<(int, int)>) -> bool {
    &&& edges.len() == cells.len()
    &&& forall|k: int| 0 <= k < cells.len() ==> (#[trigger] edges[k]) is Some
        && edges[k].unwrap().0 == cells[k].0 && edges[k].unwrap().1 == cells[k].1
        && cloned(m[cells[k].0]@[cells[k].1].unwrap(), edges[k].unwrap().2)
}

/// A row whose filled cells all lie before column `n` gives at most `n` edges.
proof fn lemma_row_cells_bound<W>(row: Seq<Option<W>>, r: int, directed: bool, j: int, n: int)
    requires
        0 <= j <= row.len(),
        0 <= n,
        forall|c: int| n <= c < row.len() ==> !(#[trigger] row[c] is Some),
    ensures
        row_cells(row, r, directed, j).len() <= j,
        row_cells(row, r, directed, j).len() <= n,
        forall|k: int| 0 <= k < row_cells(row, r, directed, j).len() ==> (#[trigger] row_cells(row, r, directed, j)[k]).0 == r
            && 0 <= row_cells(row, r, directed, j)[k].1 < j && row[row_cells(row, r, directed, j)[k].1] is Some,
    decreases j,
{
    if j > 0 {
        lemma_row_cells_bound(row, r, directed, j - 1, n);
    }
}

/// The rows below `i` give at most `i * n` edges.
proof fn lemma_matrix_cells_bound<W>(m: Seq<Vec<Option<W>>>, directed: bool, i: int, n: int)
    requires
        0 <= i <= m.len(),
        0 <= n,
        forall|a: int, c: int| 0 <= a < m.len() && n <= c < m[a]@.len() ==> !(#[trigger] m[a]@[c] is Some),
    ensures
        matrix_cells(m, directed, i).len() <= i * n,
        forall|k: int| 0 <= k < matrix_cells(m, directed, i).len() ==> 0 <= (#[trigger] matrix_cells(m, directed, i)[k]).0 < i
            && 0 <= matrix_cells(m, directed, i)[k].1 < m[matrix_cells(m, directed, i)[k].0]@.len()
            && m[matrix_cells(m, directed, i)[k].0]@[matrix_cells(m, directed, i)[k].1] is Some,
    decreases i,
{
    if i > 0 {
        lemma_matrix_cells_bound(m, directed, i - 1, n);
        let row = m[i - 1]@;
        assert forall|c: int| n <= c < row.len() implies !(#[trigger] row[c] is Some) by {
            assert(!(m[i - 1]@[c] is Some));
        }
        lemma_row_cells_bound(row, i - 1, directed, row.len() as int, n);
        assert((i - 1) * n + n == i * n) by (nonlinear_arith);
        let prev = matrix_cells(m, directed, i - 1);
        let add = row_cells(row, i - 1, directed, row.len() as int);
        assert forall|k: int| 0 <= k < matrix_cells(m, directed, i).len() implies 0 <= (#[trigger] matrix_cells(m, directed, i)[k]).0 < i
            && 0 <= matrix_cells(m, directed, i)[k].1 < m[matrix_cells(m, directed, i)[k].0]@.len()
            && m[matrix_cells(m, directed, i)[k].0]@[matrix_cells(m, directed, i)[k].1] is Some by {
            if k >= prev.len() {
                assert(matrix_cells(m, directed, i)[k] == add[k - prev.len()]);
            } else {
                assert(matrix_cells(m, directed, i)[k] == prev[k]);
            }
        }
    }
}

impl<A, W, Ty: GraphConstructor> BaseGraph<A, W, Ty> {
    /// Edge `e` links `u` to `v`: it runs from `u` to `v`, or, in an
    /// undirected graph, from `v` to `u`.
    pub open spec fn links(&self, e: int, u: usize, v: usize) -> bool {
        &&& self.has_edge(e)
        &&& (self.src(e) == u && self.tgt(e) == v) || (!self.directed() && self.src(e) == v && self.tgt(e) == u)
    }

    /// Edge `e` is the last edge (highest id) below `upto` that links `u` to `v`.
    pub open spec fn last_link(&self, e: int, u: usize, v: usize, upto: int) -> bool {
        &&& e < upto
        &&& self.links(e, u, v)
        &&& forall|f: int| e < f < upto ==> !#[trigger] self.links(f, u, v)
    }

    /// `m` is the adjacency matrix of the edges below `upto`: one row and one
    /// column per existing node, in id order; cell `(i, j)` is empty when no
    /// such edge links node `i` to node `j`, and otherwise holds a clone of
    /// the weight of the last one.
    pub open spec fn matrix_of(&self, m: Seq<Vec<Option<W>>>, upto: int) -> bool where W: Clone {
        let ns = self.spec_node_ids();
        &&& m.len() == ns.len()
        &&& forall|i: int| 0 <= i < m.len() ==> (#[trigger] m[i])@.len() == ns.len()
        &&& forall|i: int, j: int| 0 <= i < ns.len() && 0 <= j < ns.len() ==> {
            &&& ((#[trigger] m[i]@[j]) is Some <==> exists|e: int| e < upto && #[trigger] self.links(e, ns[i], ns[j]))
            &&& m[i]@[j] is Some ==> exists|e: int| #[trigger] self.last_link(e, ns[i], ns[j], upto)
                && cloned(self.weight(e), m[i]@[j].unwrap())
        }
    }

    /// The adjacency matrix of the graph (see `matrix_of`); for undirected
    /// graphs it is symmetric.
    pub fn to_adjacency_matrix(&self) -> (m: Vec<Vec<Option<W>>>)
        where W: Clone
        requires
            self.wf(),
        ensures
            self.matrix_of(m@, self.edge_slots().len() as int),
    {
        let nodes = self.node_ids();
        let n = nodes.len();
        let bound = self.node_bound();
        let ghost ns = self.spec_node_ids();
        proof {
            crate::types::lemma_live_indices(self.node_slots());
            assert(ids(nodes@) == ns);
            assert(ns.len() == n);
        }
        let mut pos: Vec<usize> = Vec::new();
        while pos.len() < bound
            invariant
                pos@.len() <= bound,
            decreases bound - pos@.len(),
        {
            pos.push(0);
        }
        let mut k: usize = 0;
        while k < n
            invariant
                ids(nodes@) == ns,
                ns == self.spec_node_ids(),
                n == ns.len(),
                bound == self.node_slots().len(),
                pos@.len() == bound,
                k <= n,
                forall|i: int| 0 <= i < n ==> (#[trigger] ns[i]) < bound && self.has_node(ns[i] as int),
                forall|i: int, j: int| 0 <= i < j < n ==> (#[trigger] ns[i]) < #[trigger] ns[j],
                forall|i: int| 0 <= i < k ==> #[trigger] pos@[ns[i] as int] == i,
            decreases n - k,
        {
            proof {
                assert(ns[k as int] == nodes@[k as int].0);
            }
            pos.set(nodes[k].0, k);
            proof {
                assert forall|i: int| 0 <= i < k + 1 implies #[trigger] pos@[ns[i] as int] == i by {
                    if i < k {
                        assert(ns[i] < ns[k as int]);
                    }
                }
            }
            k = k + 1;
        }
        let mut m: Vec<Vec<Option<W>>> = Vec::new();
        while m.len() < n
            invariant
                m@.len() <= n,
                forall|i: int| 0 <= i < m@.len() ==> (#[trigger] m@[i])@.len() == n
                    && forall|j: int| 0 <= j < n ==> (#[trigger] m@[i]@[j]) is None,
            decreases n - m@.len(),
        {
            let mut row: Vec<Option<W>> = Vec::new();
            while row.len() < n
                invariant
                    row@.len() <= n,
                    forall|j: int| 0 <= j < row@.len() ==> (#[trigger] row@[j]) is None,
                decreases n - row@.len(),
            {
                row.push(None);
            }
            m.push(row);
        }
        let ebound = self.edge_bound();
        let mut e: usize = 0;
        while e < ebound
            invariant
                self.wf(),
                ns == self.spec_node_ids(),
                n == ns.len(),
                bound == self.node_slots().len(),
                ebound == self.edge_slots().len(),
                pos@.len() == bound,
                e <= ebound,
                forall|i: int| 0 <= i < n ==> (#[trigger] ns[i]) < bound && self.has_node(ns[i] as int),
                forall|i: int, j: int| 0 <= i < j < n ==> (#[trigger] ns[i]) < #[trigger] ns[j],
                forall|i: int| 0 <= i < n ==> #[trigger] pos@[ns[i] as int] == i,
                forall|x: int| #[trigger] self.has_node(x) ==> ns.contains(x as usize),
                self.matrix_of(m@, e as int),
            decreases ebound - e,
        {
            match self.edge_endpoints(EdgeId(e)) {
                Some((u, v)) => {
                    let w = self.edge_weight(EdgeId(e)).unwrap();
                    proof {
                        assert(self.has_node(u.0 as int) && self.has_node(v.0 as int));
                        assert(ns.contains(u.0) && ns.contains(v.0));
                        let pu = choose|p: int| 0 <= p < ns.len() && ns[p] == u.0;
                        let pv = choose|p: int| 0 <= p < ns.len() && ns[p] == v.0;
                        assert(pos@[ns[pu] as int] == pu);
                        assert(pos@[ns[pv] as int] == pv);
                    }
                    let i = pos[u.0];
                    let j = pos[v.0];
                    let ghost m0 = m@;
                    let mut row: Vec<Option<W>> = Vec::new();
                    m.set_and_swap(i, &mut row);
                    row.set(j, Some(w.clone()));
                    m.set_and_swap(i, &mut row);
                    if !Ty::is_directed() {
                        let ghost m1 = m@;
                        let mut row2: Vec<Option<W>> = Vec::new();
                        m.set_and_swap(j, &mut row2);
                        row2.set(i, Some(w.clone()));
                        m.set_and_swap(j, &mut row2);
                    }
                    proof {
                        assert(forall|a: int| 0 <= a < m@.len() ==> (#[trigger] m@[a])@.len() == n);
                        assert forall|a: int, b: int| 0 <= a < n && 0 <= b < n implies {
                            &&& ((#[trigger] m@[a]@[b]) is Some <==> exists|f: int| f < e + 1 && #[trigger] self.links(f, ns[a], ns[b]))
                            &&& m@[a]@[b] is Some ==> exists|f: int| #[trigger] self.last_link(f, ns[a], ns[b], e + 1)
                                && cloned(self.weight(f), m@[a]@[b].unwrap())
                        } by {
                            let hit = self.links(e as int, ns[a], ns[b]);
                            if hit {
                                assert((a == i && b == j) || (!self.directed() && a == j && b == i)) by {
                                    if ns[a] == u.0 {
                                        if a < i { assert(ns[a] < ns[i as int]); }
                                        if i < a { assert(ns[i as int] < ns[a]); }
                                    }
                                    if ns[a] == v.0 {
                                        if a < j { assert(ns[a] < ns[j as int]); }
                                        if j < a { assert(ns[j as int] < ns[a]); }
                                    }
                                    if ns[b] == u.0 {
                                        if b < i { assert(ns[b] < ns[i as int]); }
                                        if i < b { assert(ns[i as int] < ns[b]); }
                                    }
                                    if ns[b] == v.0 {
                                        if b < j { assert(ns[b] < ns[j as int]); }
                                        if j < b { assert(ns[j as int] < ns[b]); }
                                    }
                                }
                                assert(self.last_link(e as int, ns[a], ns[b], e + 1));
                            } else {
                                assert(!((a == i && b == j) || (!self.directed() && a == j && b == i)));
                                assert(m@[a]@[b] == m0[a]@[b]);
                                if m@[a]@[b] is Some {
                                    let f = choose|f: int| #[trigger] self.last_link(f, ns[a], ns[b], e as int)
                                        && cloned(self.weight(f), m0[a]@[b].unwrap());
                                    assert(self.last_link(f, ns[a], ns[b], e + 1));
                                }
                                if exists|f: int| f < e + 1 && #[trigger] self.links(f, ns[a], ns[b]) {
                                    let f = choose|f: int| f < e + 1 && #[trigger] self.links(f, ns[a], ns[b]);
                                    assert(f < e);
                                }
                            }
                        }
                    }
                },
                None => {
                    proof {
                        assert forall|a: int, b: int| 0 <= a < n && 0 <= b < n implies {
                            &&& ((#[trigger] m@[a]@[b]) is Some <==> exists|f: int| f < e + 1 && #[trigger] self.links(f, ns[a], ns[b]))
                            &&& m@[a]@[b] is Some ==> exists|f: int| #[trigger] self.last_link(f, ns[a], ns[b], e + 1)
                                && cloned(self.weight(f), m@[a]@[b].unwrap())
                        } by {
                            if m@[a]@[b] is Some {
                                let f = choose|f: int| #[trigger] self.last_link(f, ns[a], ns[b], e as int)
                                    && cloned(self.weight(f), m@[a]@[b].unwrap());
                                assert(self.last_link(f, ns[a], ns[b], e + 1));
                            }
                            if exists|f: int| f < e + 1 && #[trigger] self.links(f, ns[a], ns[b]) {
                                let f = choose|f: int| f < e + 1 && #[trigger] self.links(f, ns[a], ns[b]);
                                assert(f < e);
                            }
                        }
                    }
                },
            }
            e = e + 1;
        }
        m
    }

    /// The graph of an adjacency matrix: one node per row, each with the
    /// default attribute, and one edge per filled cell (`matrix_cells`), in
    /// row-major order, from the cell's row to its column, weighing a clone
    /// of the cell's value. Undirected graphs read only the cells on or above
    /// the diagonal. A filled cell beyond the last row's index names no node.
    pub fn from_adjacency_matrix(matrix: &[Vec<Option<W>>]) -> (g: Self)
        where A: Default, W: Clone
        requires
            matrix@.len() * matrix@.len() < usize::MAX / 2,
            forall|i: int, j: int| 0 <= i < matrix@.len() && 0 <= j < matrix@[i]@.len()
                && (#[trigger] matrix@[i]@[j]) is Some ==> j < matrix@.len(),
        ensures
            g.wf(),
            g.node_slots().len() == matrix@.len(),
            forall|i: int| 0 <= i < matrix@.len() ==> (#[trigger] g.node_slots()[i]) is Some,
            built_from(g.edge_slots(), matrix@, matrix_cells(matrix@, g.directed(), matrix@.len() as int)),
    {
        let n = matrix.len();
        let ghost m = matrix@;
        let ghost d = Ty::spec_is_directed();
        let mut graph = Self::new();
        let mut k: usize = 0;
        while k < n
            invariant
                graph.wf(),
                k <= n,
                graph.node_slots().len() == k,
                forall|x: int| 0 <= x < k ==> (#[trigger] graph.node_slots()[x]) is Some,
                graph.edge_slots().len() == 0,
            decreases n - k,
        {
            graph.add_node(A::default());
            k = k + 1;
        }
        proof {
            assert forall|a: int, c: int| 0 <= a < m.len() && n <= c < m[a]@.len() implies !(#[trigger] m[a]@[c] is Some) by {}
        }
        let mut i: usize = 0;
        while i < n
            invariant
                graph.wf(),
                m == matrix@,
                n == m.len(),
                d == graph.directed(),
                n * n < usize::MAX / 2,
                i <= n,
                graph.node_slots().len() == n,
                forall|x: int| 0 <= x < n ==> (#[trigger] graph.node_slots()[x]) is Some,
                forall|a: int, c: int| 0 <= a < m.len() && n <= c < m[a]@.len() ==> !(#[trigger] m[a]@[c] is Some),
                built_from(graph.edge_slots(), m, matrix_cells(m, d, i as int)),
            decreases n - i,
        {
            let row = &matrix[i];
            let ghost before = matrix_cells(m, d, i as int);
            proof {
                lemma_matrix_cells_bound(m, d, i as int, n as int);
                assert forall|c: int| n <= c < row@.len() implies !(#[trigger] row@[c] is Some) by {
                    assert(!(m[i as int]@[c] is Some));
                }
                assert((i + 1) * n <= n * n) by (nonlinear_arith) requires i < n;
                assert(i * n + n == (i + 1) * n) by (nonlinear_arith);
                assert(before + row_cells(row@, i as int, d, 0) =~= before);
            }
            let mut j: usize = 0;
            while j < row.len()
                invariant
                    graph.wf(),
                    m == matrix@,
                    n == m.len(),
                    row@ == m[i as int]@,
                    d == graph.directed(),
                    i < n,
                    j <= row@.len(),
                    before.len() + n < usize::MAX / 2,
                    before == matrix_cells(m, d, i as int),
                    graph.node_slots().len() == n,
                    forall|x: int| 0 <= x < n ==> (#[trigger] graph.node_slots()[x]) is Some,
                    forall|c: int| n <= c < row@.len() ==> !(#[trigger] row@[c] is Some),
                    built_from(graph.edge_slots(), m, before + row_cells(row@, i as int, d, j as int)),
                decreases row@.len() - j,
            {
                let ghost cells = before + row_cells(row@, i as int, d, j as int);
                proof {
                    lemma_row_cells_bound(row@, i as int, d, j as int, n as int);
                }
                match &row[j] {
                    Some(w) => {
                        if Ty::is_directed() || i <= j {
                            let c = w.clone();
                            let ghost g0 = graph;
                            graph.add_edge(NodeId(i), NodeId(j), c);
                            proof {
                                let next = before + row_cells(row@, i as int, d, j + 1);
                                assert(next =~= cells.push((i as int, j as int)));
                                assert forall|k: int| 0 <= k < next.len() implies (#[trigger] graph.edge_slots()[k]) is Some
                                    && graph.edge_slots()[k].unwrap().0 == next[k].0 && graph.edge_slots()[k].unwrap().1 == next[k].1
                                    && cloned(m[next[k].0]@[next[k].1].unwrap(), graph.edge_slots()[k].unwrap().2) by {
                                    if k < cells.len() {
                                        assert(graph.edge_slots()[k] == g0.edge_slots()[k]);
                                    }
                                }
                            }
                        } else {
                            proof {
                                assert(before + row_cells(row@, i as int, d, j + 1) =~= cells);
                            }
                        }
                    },
                    None => {
                        proof {
                            assert(before + row_cells(row@, i as int, d, j + 1) =~= cells);
                        }
                    },
                }
                j = j + 1;
            }
            proof {
                assert(matrix_cells(m, d, i + 1) =~= before + row_cells(row@, i as int, d, row@.len() as int));
            }
            i = i + 1;
        }
        graph
    }
}

} // verus!
