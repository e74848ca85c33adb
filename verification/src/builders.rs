//! Graph builders: a validating builder with options for self-loops and
//! parallel edges, and builders for common topologies (complete, cycle, path,
//! star and grid graphs).

use vstd::prelude::*;
use std::marker::PhantomData;
use crate::error::GraphinaError;
use crate::text::{decimal, usize_to_string};
use crate::types::{BaseGraph, Directed, GraphConstructor, NodeId, Undirected, reversed};

verus! {

/// Validating builder for graphs. Edges name nodes by their position among the
/// added nodes. Self-loops and parallel edges are allowed unless switched off.
pub struct AdvancedGraphBuilder<A, W, Ty> {
    capacity_nodes: usize,
    capacity_edges: usize,
    allow_self_loops: bool,
    allow_parallel_edges: bool,
    nodes: Vec<A>,
    edges: Vec<(usize, usize, W)>,
    kind: PhantomData<Ty>,
}

/// Builder for directed graphs.
pub type DirectedGraphBuilder<A, W> = AdvancedGraphBuilder<A, W, Directed>;

/// Builder for undirected graphs.
pub type UndirectedGraphBuilder<A, W> = AdvancedGraphBuilder<A, W, Undirected>;

/// The message for an edge endpoint that names no added node; `prefix` names
/// the endpoint.
pub open spec fn bound_message(prefix: Seq<char>, index: usize, node_count: nat) -> Seq<char> {
    prefix + decimal(index as nat) + " is out of bounds (max: "@
        + (if node_count == 0 { "none"@ } else { decimal((node_count - 1) as nat) }) + ")"@
}

/// Edge `k` of `edges` is a self-loop while self-loops are not allowed.
pub open spec fn loop_forbidden<W>(edges: Seq<(usize, usize, W)>, allow_self_loops: bool, k: int) -> bool {
    !allow_self_loops && edges[k].0 == edges[k].1
}

/// Edge `j` of `edges` joins the same two nodes as edge `k`: the same source
/// and target, or, in an undirected graph, the two swapped.
pub open spec fn same_pair<W>(edges: Seq<(usize, usize, W)>, directed: bool, j: int, k: int) -> bool {
    (edges[j].0 == edges[k].0 && edges[j].1 == edges[k].1)
        || (!directed && edges[j].0 == edges[k].1 && edges[j].1 == edges[k].0)
}

/// Edge `k` of `edges` joins the same two nodes as an earlier edge while
/// parallel edges are not allowed.
pub open spec fn parallel_forbidden<W>(edges: Seq<(usize, usize, W)>, allow_parallel: bool, directed: bool, k: int) -> bool {
    &&& !allow_parallel
    &&& exists|j: int| 0 <= j < k && #[trigger] same_pair(edges, directed, j, k)
}

/// Edge `k` of `edges` breaks one of the two rules.
pub open spec fn breaks_rules<W>(edges: Seq<(usize, usize, W)>, allow_self_loops: bool, allow_parallel: bool,
    directed: bool, k: int) -> bool {
    loop_forbidden(edges, allow_self_loops, k) || parallel_forbidden(edges, allow_parallel, directed, k)
}

/// The message for edge `k` of `edges`, which breaks a rule.
pub open spec fn rule_message<W>(edges: Seq<(usize, usize, W)>, allow_self_loops: bool, k: int) -> Seq<char> {
    if loop_forbidden(edges, allow_self_loops, k) {
        "Self-loops are not allowed in this graph configuration"@
    } else {
        "Parallel edges are not allowed: edge ("@ + decimal(edges[k].0 as nat) + ", "@
            + decimal(edges[k].1 as nat) + ") already exists"@
    }
}

impl<A, W> AdvancedGraphBuilder<A, W, Directed> {
    /// Creates a new builder for a directed graph.
    pub fn directed() -> (b: Self)
        ensures
            b.spec_nodes().len() == 0,
            b.spec_edges().len() == 0,
            b.spec_allow_self_loops(),
            b.spec_allow_parallel_edges(),
    {
        Self::new()
    }
}

impl<A, W> AdvancedGraphBuilder<A, W, Undirected> {
    /// Creates a new builder for an undirected graph.
    pub fn undirected() -> (b: Self)
        ensures
            b.spec_nodes().len() == 0,
            b.spec_edges().len() == 0,
            b.spec_allow_self_loops(),
            b.spec_allow_parallel_edges(),
    {
        Self::new()
    }
}

impl<A, W, Ty: GraphConstructor> AdvancedGraphBuilder<A, W, Ty> {
    /// Node attributes added so far.
    pub closed spec fn spec_nodes(&self) -> Seq<A> {
        self.nodes@
    }

    /// Edges added so far, as `(source position, target position, weight)`.
    pub closed spec fn spec_edges(&self) -> Seq<(usize, usize, W)> {
        self.edges@
    }

    /// Whether self-loops are allowed.
    pub closed spec fn spec_allow_self_loops(&self) -> bool {
        self.allow_self_loops
    }

    /// Whether parallel edges are allowed.
    pub closed spec fn spec_allow_parallel_edges(&self) -> bool {
        self.allow_parallel_edges
    }

    /// The capacity hints `(nodes, edges)`.
    pub closed spec fn spec_capacity(&self) -> (usize, usize) {
        (self.capacity_nodes, self.capacity_edges)
    }

    /// Edge `k` names a node that was not added.
    pub open spec fn out_of_bounds(&self, k: int) -> bool {
        self.spec_edges()[k].0 >= self.spec_nodes().len() || self.spec_edges()[k].1 >= self.spec_nodes().len()
    }

    /// Edge `k` breaks the builder's rules.
    pub open spec fn violates(&self, k: int) -> bool {
        breaks_rules(self.spec_edges(), self.spec_allow_self_loops(), self.spec_allow_parallel_edges(),
            Ty::spec_is_directed(), k)
    }

    /// The message `validate` gives for the out-of-bounds edge `k`.
    pub open spec fn validate_message(&self, k: int) -> Seq<char> {
        if self.spec_edges()[k].0 >= self.spec_nodes().len() {
            bound_message("Edge source index "@, self.spec_edges()[k].0, self.spec_nodes().len())
        } else {
            bound_message("Edge target index "@, self.spec_edges()[k].1, self.spec_nodes().len())
        }
    }

    /// The message `build` gives for the rule-breaking edge `k`.
    pub open spec fn violation_message(&self, k: int) -> Seq<char> {
        rule_message(self.spec_edges(), self.spec_allow_self_loops(), k)
    }

    /// Creates a new builder: no nodes or edges, self-loops and parallel edges allowed.
    pub fn new() -> (b: Self)
        ensures
            b.spec_nodes().len() == 0,
            b.spec_edges().len() == 0,
            b.spec_allow_self_loops(),
            b.spec_allow_parallel_edges(),
            b.spec_capacity() == (0usize, 0usize),
    {
        AdvancedGraphBuilder {
            capacity_nodes: 0,
            capacity_edges: 0,
            allow_self_loops: true,
            allow_parallel_edges: true,
            nodes: Vec::new(),
            edges: Vec::new(),
            kind: PhantomData,
        }
    }

    /// Sets the capacity hints for nodes and edges.
    pub fn with_capacity(self, nodes: usize, edges: usize) -> (b: Self)
        ensures
            b.spec_nodes() == self.spec_nodes(),
            b.spec_edges() == self.spec_edges(),
            b.spec_allow_self_loops() == self.spec_allow_self_loops(),
            b.spec_allow_parallel_edges() == self.spec_allow_parallel_edges(),
            b.spec_capacity() == (nodes, edges),
    {
        let mut s = self;
        s.capacity_nodes = nodes;
        s.capacity_edges = edges;
        s
    }

    /// Sets whether self-loops are allowed.
    pub fn allow_self_loops(self, allow: bool) -> (b: Self)
        ensures
            b.spec_nodes() == self.spec_nodes(),
            b.spec_edges() == self.spec_edges(),
            b.spec_allow_self_loops() == allow,
            b.spec_allow_parallel_edges() == self.spec_allow_parallel_edges(),
            b.spec_capacity() == self.spec_capacity(),
    {
        let mut s = self;
        s.allow_self_loops = allow;
        s
    }

    /// Sets whether parallel edges are allowed.
    pub fn allow_parallel_edges(self, allow: bool) -> (b: Self)
        ensures
            b.spec_nodes() == self.spec_nodes(),
            b.spec_edges() == self.spec_edges(),
            b.spec_allow_self_loops() == self.spec_allow_self_loops(),
            b.spec_allow_parallel_edges() == allow,
            b.spec_capacity() == self.spec_capacity(),
    {
        let mut s = self;
        s.allow_parallel_edges = allow;
        s
    }

    /// Adds a node.
    pub fn add_node(self, attr: A) -> (b: Self)
        ensures
            b.spec_nodes() == self.spec_nodes().push(attr),
            b.spec_edges() == self.spec_edges(),
            b.spec_allow_self_loops() == self.spec_allow_self_loops(),
            b.spec_allow_parallel_edges() == self.spec_allow_parallel_edges(),
            b.spec_capacity() == self.spec_capacity(),
    {
        let mut s = self;
        s.nodes.push(attr);
        s
    }

    /// Adds all the given nodes, in order.
    pub fn add_nodes(self, attrs: Vec<A>) -> (b: Self)
        ensures
            b.spec_nodes() == self.spec_nodes() + attrs@,
            b.spec_edges() == self.spec_edges(),
            b.spec_allow_self_loops() == self.spec_allow_self_loops(),
            b.spec_allow_parallel_edges() == self.spec_allow_parallel_edges(),
            b.spec_capacity() == self.spec_capacity(),
    {
        let ghost start = self.nodes@;
        let mut s = self;
        let mut pending = reversed(attrs);
        let ghost all = pending@.reverse();
        while pending.len() > 0
            invariant
                s.nodes@.len() + pending@.len() == start.len() + all.len(),
                s.nodes@.len() >= start.len(),
                forall|i: int| 0 <= i < pending@.len() ==> pending@[i] == all[all.len() - 1 - i],
                forall|i: int| 0 <= i < s.nodes@.len() ==> #[trigger] s.nodes@[i] == (start + all)[i],
                s.edges@ == self.edges@,
                s.allow_self_loops == self.allow_self_loops,
                s.allow_parallel_edges == self.allow_parallel_edges,
                s.capacity_nodes == self.capacity_nodes,
                s.capacity_edges == self.capacity_edges,
            decreases pending@.len(),
        {
            let a = pending.pop().unwrap();
            s.nodes.push(a);
        }
        assert(all =~= attrs@);
        assert(s.nodes@ =~= start + attrs@);
        s
    }

    /// Adds an edge between the nodes at positions `source` and `target`.
    pub fn add_edge(self, source: usize, target: usize, weight: W) -> (b: Self)
        ensures
            b.spec_nodes() == self.spec_nodes(),
            b.spec_edges() == self.spec_edges().push((source, target, weight)),
            b.spec_allow_self_loops() == self.spec_allow_self_loops(),
            b.spec_allow_parallel_edges() == self.spec_allow_parallel_edges(),
            b.spec_capacity() == self.spec_capacity(),
    {
        let mut s = self;
        s.edges.push((source, target, weight));
        s
    }

    /// Adds all the given edges, in order.
    pub fn add_edges(self, edges: Vec<(usize, usize, W)>) -> (b: Self)
        ensures
            b.spec_nodes() == self.spec_nodes(),
            b.spec_edges() == self.spec_edges() + edges@,
            b.spec_allow_self_loops() == self.spec_allow_self_loops(),
            b.spec_allow_parallel_edges() == self.spec_allow_parallel_edges(),
            b.spec_capacity() == self.spec_capacity(),
    {
        let ghost start = self.edges@;
        let mut s = self;
        let mut pending = reversed(edges);
        let ghost all = pending@.reverse();
        while pending.len() > 0
            invariant
                s.edges@.len() + pending@.len() == start.len() + all.len(),
                s.edges@.len() >= start.len(),
                forall|i: int| 0 <= i < pending@.len() ==> pending@[i] == all[all.len() - 1 - i],
                forall|i: int| 0 <= i < s.edges@.len() ==> #[trigger] s.edges@[i] == (start + all)[i],
                s.nodes@ == self.nodes@,
                s.allow_self_loops == self.allow_self_loops,
                s.allow_parallel_edges == self.allow_parallel_edges,
                s.capacity_nodes == self.capacity_nodes,
                s.capacity_edges == self.capacity_edges,
            decreases pending@.len(),
        {
            let e = pending.pop().unwrap();
            s.edges.push(e);
        }
        assert(all =~= edges@);
        assert(s.edges@ =~= start + edges@);
        s
    }

    /// Checks that every edge names added nodes. On failure, reports the first
    /// edge that does not, source checked before target.
    pub fn validate(&self) -> (r: Result<(), GraphinaError>)
        ensures
            r is Ok <==> forall|k: int| 0 <= k < self.spec_edges().len() ==> !self.out_of_bounds(k),
            r is Err ==> exists|k: int| 0 <= k < self.spec_edges().len() && self.out_of_bounds(k)
                && (forall|j: int| 0 <= j < k ==> !self.out_of_bounds(j))
                && r->Err_0 is InvalidArgument && r->Err_0->InvalidArgument_0@ == self.validate_message(k),
    {
        let len = self.nodes.len();
        let mut k: usize = 0;
        while k < self.edges.len()
            invariant
                k <= self.edges@.len(),
                len == self.nodes@.len(),
                forall|j: int| 0 <= j < k ==> !self.out_of_bounds(j),
            decreases self.edges@.len() - k,
        {
            let source = self.edges[k].0;
            let target = self.edges[k].1;
            if source >= len {
                assert(self.out_of_bounds(k as int));
                let m = bounds_error("Edge source index ", source, len);
                return Err(GraphinaError::InvalidArgument(m));
            }
            if target >= len {
                assert(self.out_of_bounds(k as int));
                let m = bounds_error("Edge target index ", target, len);
                return Err(GraphinaError::InvalidArgument(m));
            }
            k = k + 1;
        }
        Ok(())
    }

    /// Validates the configuration and constructs the graph: node `i` is the
    /// `i`-th added node and edge `k` the `k`-th added edge. Fails on the first
    /// edge that names a missing node (as `validate` reports it), otherwise on
    /// the first edge that is a forbidden self-loop or joins the same two nodes
    /// as an earlier edge (either way round in an undirected graph) while
    /// parallel edges are forbidden.
    pub fn build(self) -> (r: Result<BaseGraph<A, W, Ty>, GraphinaError>)
        requires
            self.spec_edges().len() < usize::MAX / 2,
        ensures
            (exists|k: int| 0 <= k < self.spec_edges().len() && self.out_of_bounds(k)) ==> r is Err
                && exists|k: int| 0 <= k < self.spec_edges().len() && self.out_of_bounds(k)
                    && (forall|j: int| 0 <= j < k ==> !self.out_of_bounds(j))
                    && r->Err_0 is InvalidArgument && r->Err_0->InvalidArgument_0@ == self.validate_message(k),
            (forall|k: int| 0 <= k < self.spec_edges().len() ==> !self.out_of_bounds(k))
                && (exists|k: int| 0 <= k < self.spec_edges().len() && self.violates(k)) ==> r is Err
                && exists|k: int| 0 <= k < self.spec_edges().len() && self.violates(k)
                    && (forall|j: int| 0 <= j < k ==> !self.violates(j))
                    && r->Err_0 is InvalidArgument && r->Err_0->InvalidArgument_0@ == self.violation_message(k),
            r is Ok <==> forall|k: int| 0 <= k < self.spec_edges().len() ==> !self.out_of_bounds(k) && !self.violates(k),
            r is Ok ==> r->Ok_0.wf()
                && r->Ok_0.node_slots() == self.spec_nodes().map_values(|a: A| Some(a))
                && r->Ok_0.edge_slots() == self.spec_edges().map_values(|e: (usize, usize, W)| Some(e)),
    {
        match self.validate() {
            Ok(()) => {},
            Err(e) => {
                return Err(e);
            },
        }
        let ghost ns = self.nodes@;
        let ghost es = self.edges@;
        let allow_self = self.allow_self_loops;
        let allow_par = self.allow_parallel_edges;
        let mut graph: BaseGraph<A, W, Ty> = BaseGraph::with_capacity(
            if self.capacity_nodes > self.nodes.len() { self.capacity_nodes } else { self.nodes.len() },
            if self.capacity_edges > self.edges.len() { self.capacity_edges } else { self.edges.len() },
        );
        let mut pending = reversed(self.nodes);
        while pending.len() > 0
            invariant
                graph.wf(),
                graph.edge_slots().len() == 0,
                graph.node_slots().len() + pending@.len() == ns.len(),
                forall|i: int| 0 <= i < pending@.len() ==> pending@[i] == ns[ns.len() - 1 - i],
                forall|i: int| 0 <= i < graph.node_slots().len() ==> #[trigger] graph.node_slots()[i] == Some(ns[i]),
            decreases pending@.len(),
        {
            let a = pending.pop().unwrap();
            graph.add_node(a);
        }
        assert(graph.node_slots() =~= ns.map_values(|a: A| Some(a)));
        assert forall|k: int| 0 <= k < es.len() implies (#[trigger] es[k]).0 < graph.node_slots().len()
            && es[k].1 < graph.node_slots().len() by {
            assert(!self.out_of_bounds(k));
        }
        let added = add_checked_edges(&mut graph, self.edges, allow_self, allow_par);
        match added {
            Ok(()) => {},
            Err(e) => {
                proof {
                    let k = choose|k: int| 0 <= k < es.len() && breaks_rules(es, allow_self, allow_par, Ty::spec_is_directed(), k)
                        && (forall|j: int| 0 <= j < k ==> !breaks_rules(es, allow_self, allow_par, Ty::spec_is_directed(), j))
                        && e is InvalidArgument && e->InvalidArgument_0@ == rule_message(es, allow_self, k);
                    assert(self.violates(k));
                    assert(forall|j: int| 0 <= j < k ==> !self.violates(j));
                }
                return Err(e);
            },
        }
        assert(graph.edge_slots() =~= es.map_values(|e: (usize, usize, W)| Some(e)));
        Ok(graph)
    }
}

/// Adds `edges` in order to `graph`, which has no edges yet, stopping at the
/// first edge that breaks a rule: a self-loop while they are not allowed, or an
/// edge whose source and target an earlier edge already joins while parallel
/// edges are not allowed.
fn add_checked_edges<A, W, Ty: GraphConstructor>(
    graph: &mut BaseGraph<A, W, Ty>,
    edges: Vec<(usize, usize, W)>,
    allow_self: bool,
    allow_par: bool,
) -> (r: Result<(), GraphinaError>)
    requires
        old(graph).wf(),
        old(graph).edge_slots().len() == 0,
        edges@.len() < usize::MAX / 2,
        forall|i: int| 0 <= i < old(graph).node_slots().len() ==> (#[trigger] old(graph).node_slots()[i]) is Some,
        forall|k: int| 0 <= k < edges@.len() ==> (#[trigger] edges@[k]).0 < old(graph).node_slots().len()
            && edges@[k].1 < old(graph).node_slots().len(),
    ensures
        r is Ok <==> forall|k: int| 0 <= k < edges@.len() ==> !breaks_rules(edges@, allow_self, allow_par, Ty::spec_is_directed(), k),
        r is Err ==> exists|k: int| 0 <= k < edges@.len() && breaks_rules(edges@, allow_self, allow_par, Ty::spec_is_directed(), k)
            && (forall|j: int| 0 <= j < k ==> !breaks_rules(edges@, allow_self, allow_par, Ty::spec_is_directed(), j))
            && r->Err_0 is InvalidArgument && r->Err_0->InvalidArgument_0@ == rule_message(edges@, allow_self, k),
        r is Ok ==> final(graph).wf() && final(graph).node_slots() == old(graph).node_slots()
            && final(graph).edge_slots() == edges@.map_values(|e: (usize, usize, W)| Some(e)),
{
    let ghost es = edges@;
    let ghost ns = graph.node_slots();
    let mut pending = reversed(edges);
    while pending.len() > 0
        invariant
            es == edges@,
            graph.wf(),
            graph.node_slots() == ns,
            graph.edge_slots().len() + pending@.len() == es.len(),
            es.len() < usize::MAX / 2,
            forall|i: int| 0 <= i < ns.len() ==> (#[trigger] ns[i]) is Some,
            forall|k: int| 0 <= k < es.len() ==> (#[trigger] es[k]).0 < ns.len() && es[k].1 < ns.len(),
            forall|i: int| 0 <= i < pending@.len() ==> pending@[i] == es[es.len() - 1 - i],
            forall|i: int| 0 <= i < graph.edge_slots().len() ==> #[trigger] graph.edge_slots()[i] == Some(es[i]),
            forall|k: int| 0 <= k < graph.edge_slots().len() ==> !breaks_rules(es, allow_self, allow_par, Ty::spec_is_directed(), k),
        decreases pending@.len(),
    {
        let e = pending.pop().unwrap();
        let ghost k = graph.edge_slots().len() as int;
        assert(e == es[k]);
        let source = e.0;
        let target = e.1;
        if !allow_self && source == target {
            assert(breaks_rules(es, allow_self, allow_par, Ty::spec_is_directed(), k));
            assert(rule_message(es, allow_self, k) == "Self-loops are not allowed in this graph configuration"@);
            return Err(GraphinaError::InvalidArgument(String::from_str(
                "Self-loops are not allowed in this graph configuration",
            )));
        }
        let twin = graph.contains_edge(NodeId(source), NodeId(target))
            || (!Ty::is_directed() && graph.contains_edge(NodeId(target), NodeId(source)));
        if !allow_par && twin {
            proof {
                if graph.has_edge_between(source, target) {
                    let e2 = choose|e2: int| crate::types::edge_between(graph.edge_slots(), e2, source, target);
                    assert(graph.edge_slots()[e2] == Some(es[e2]));
                    assert(same_pair(es, Ty::spec_is_directed(), e2, k));
                } else {
                    let e2 = choose|e2: int| crate::types::edge_between(graph.edge_slots(), e2, target, source);
                    assert(graph.edge_slots()[e2] == Some(es[e2]));
                    assert(same_pair(es, Ty::spec_is_directed(), e2, k));
                }
                assert(parallel_forbidden(es, allow_par, Ty::spec_is_directed(), k));
                assert(breaks_rules(es, allow_self, allow_par, Ty::spec_is_directed(), k));
            }
            let s = String::from_str("Parallel edges are not allowed: edge (");
            let s = s.concat(usize_to_string(source).as_str());
            let s = s.concat(", ");
            let s = s.concat(usize_to_string(target).as_str());
            let s = s.concat(") already exists");
            assert(s@ == rule_message(es, allow_self, k));
            return Err(GraphinaError::InvalidArgument(s));
        }
        proof {
            assert(!parallel_forbidden(es, allow_par, Ty::spec_is_directed(), k)) by {
                if parallel_forbidden(es, allow_par, Ty::spec_is_directed(), k) {
                    let j = choose|j: int| 0 <= j < k && #[trigger] same_pair(es, Ty::spec_is_directed(), j, k);
                    if es[j].0 == es[k].0 && es[j].1 == es[k].1 {
                        assert(crate::types::edge_between(graph.edge_slots(), j, source, target));
                    } else {
                        assert(crate::types::edge_between(graph.edge_slots(), j, target, source));
                    }
                }
            }
        }
        graph.add_edge(NodeId(source), NodeId(target), e.2);
    }
    assert(graph.edge_slots() =~= es.map_values(|e: (usize, usize, W)| Some(e)));
    Ok(())
}

/// `prefix` followed by `index`, ` is out of bounds (max: `, the largest valid
/// position (or `none`), and `)`.
fn bounds_error(prefix: &str, index: usize, len: usize) -> (s: String)
    ensures
        s@ == bound_message(prefix@, index, len as nat),
{
    let s = String::from_str(prefix);
    let s = s.concat(usize_to_string(index).as_str());
    let s = s.concat(" is out of bounds (max: ");
    let s = if len == 0 {
        s.concat("none")
    } else {
        s.concat(usize_to_string(len - 1).as_str())
    };
    s.concat(")")
}

} // verus!

verus! {

/// Every slot holds a clone of `a`.
pub open spec fn all_clones<A: Clone>(slots: Seq<Option<A>>, a: A) -> bool {
    forall|i: int| 0 <= i < slots.len() ==> (#[trigger] slots[i]) is Some && cloned(a, slots[i].unwrap())
}

/// Every edge slot is live and its weight is a clone of `w`.
pub open spec fn weights_cloned<W: Clone>(slots: Seq<Option<(usize, usize, W)>>, w: W) -> bool {
    forall|k: int| 0 <= k < slots.len() ==> (#[trigger] slots[k]) is Some && cloned(w, slots[k].unwrap().2)
}

/// Lexicographic order on `(source, target)` pairs.
pub open spec fn lex_lt(a: (usize, usize), b: (usize, usize)) -> bool {
    a.0 < b.0 || (a.0 == b.0 && a.1 < b.1)
}

/// The endpoints of an edge slot.
pub open spec fn ends<W>(e: Option<(usize, usize, W)>) -> (usize, usize) {
    (e.unwrap().0, e.unwrap().1)
}

/// The edges come in strictly increasing `(source, target)` order, so no
/// pair occurs twice.
pub open spec fn increasing<W>(slots: Seq<Option<(usize, usize, W)>>) -> bool {
    forall|i: int, j: int| 0 <= i < j < slots.len() ==> lex_lt(ends(#[trigger] slots[i]), ends(#[trigger] slots[j]))
}

/// `(u, v)` joins grid cell `(i, j)` (node `i * cols + j`) to its right or
/// lower neighbour.
pub open spec fn grid_edge(rows: int, cols: int, u: int, v: int) -> bool {
    exists|i: int, j: int| 0 <= i < rows && 0 <= j < cols && u == #[trigger] (i * cols + j)
        && ((j + 1 < cols && v == u + 1) || (i + 1 < rows && v == u + cols))
}

/// The edges come in strictly increasing `(source, target)` order.
pub open spec fn increasing_pairs<W>(es: Seq<(usize, usize, W)>) -> bool {
    forall|i: int, j: int| 0 <= i < j < es.len() ==> lex_lt((#[trigger] es[i].0, es[i].1), (#[trigger] es[j].0, es[j].1))
}

/// Builders for common graph topologies. Every node gets a clone of the given
/// attribute and every edge a clone of the given weight.
pub struct TopologyBuilder;

/// Adds `n` clones of `attr` to a builder that has no nodes yet.
fn fill_nodes<A: Clone, W>(b: AdvancedGraphBuilder<A, W, Undirected>, n: usize, attr: &A)
    -> (r: AdvancedGraphBuilder<A, W, Undirected>)
    requires
        b.spec_nodes().len() == 0,
    ensures
        r.spec_nodes().len() == n,
        forall|i: int| 0 <= i < n ==> cloned(*attr, #[trigger] r.spec_nodes()[i]),
        r.spec_edges() == b.spec_edges(),
        r.spec_allow_self_loops() == b.spec_allow_self_loops(),
        r.spec_allow_parallel_edges() == b.spec_allow_parallel_edges(),
{
    let ghost b0 = b;
    let mut b = b;
    let mut k: usize = 0;
    while k < n
        invariant
            k <= n,
            b.spec_nodes().len() == k,
            forall|i: int| 0 <= i < k ==> cloned(*attr, #[trigger] b.spec_nodes()[i]),
            b.spec_edges() == b0.spec_edges(),
            b.spec_allow_self_loops() == b0.spec_allow_self_loops(),
            b.spec_allow_parallel_edges() == b0.spec_allow_parallel_edges(),
        decreases n - k,
    {
        let a = attr.clone();
        b = b.add_node(a);
        k = k + 1;
    }
    b
}

/// Builds the graph of a builder whose edges all name added nodes while both
/// self-loops and parallel edges are allowed.
fn finish<A: Clone, W: Clone>(b: AdvancedGraphBuilder<A, W, Undirected>, attr: &A, weight: &W)
    -> (g: BaseGraph<A, W, Undirected>)
    requires
        b.spec_allow_self_loops(),
        b.spec_allow_parallel_edges(),
        b.spec_edges().len() < usize::MAX / 2,
        forall|i: int| 0 <= i < b.spec_nodes().len() ==> cloned(*attr, #[trigger] b.spec_nodes()[i]),
        forall|k: int| 0 <= k < b.spec_edges().len() ==> (#[trigger] b.spec_edges()[k]).0 < b.spec_nodes().len()
            && b.spec_edges()[k].1 < b.spec_nodes().len() && cloned(*weight, b.spec_edges()[k].2),
    ensures
        g.wf(),
        g.node_slots().len() == b.spec_nodes().len(),
        all_clones(g.node_slots(), *attr),
        weights_cloned(g.edge_slots(), *weight),
        g.edge_slots() == b.spec_edges().map_values(|e: (usize, usize, W)| Some(e)),
{
    let ghost es = b.spec_edges();
    let ghost ns = b.spec_nodes();
    proof {
        assert forall|k: int| 0 <= k < b.spec_edges().len() implies !b.out_of_bounds(k) && !b.violates(k) by {
            assert(b.spec_edges()[k].0 < b.spec_nodes().len());
        }
    }
    let g = b.build().expect("every edge names an added node");
    proof {
        assert forall|i: int| 0 <= i < g.node_slots().len() implies (#[trigger] g.node_slots()[i]) is Some
            && cloned(*attr, g.node_slots()[i].unwrap()) by {
            assert(g.node_slots()[i] == Some(ns[i]));
        }
        assert forall|k: int| 0 <= k < g.edge_slots().len() implies (#[trigger] g.edge_slots()[k]) is Some
            && cloned(*weight, g.edge_slots()[k].unwrap().2) by {
            assert(g.edge_slots()[k] == Some(es[k]));
        }
    }
    g
}

impl TopologyBuilder {
    /// Creates a path graph with `n` nodes: edge `k` joins node `k` to node `k + 1`.
    pub fn path<A: Clone, W: Clone>(n: usize, node_attr: A, edge_weight: W) -> (g: BaseGraph<A, W, Undirected>)
        requires
            n < usize::MAX / 2,
        ensures
            g.wf(),
            g.node_slots().len() == n,
            all_clones(g.node_slots(), node_attr),
            weights_cloned(g.edge_slots(), edge_weight),
            g.edge_slots().len() == if n == 0 { 0 } else { n - 1 },
            forall|k: int| 0 <= k < g.edge_slots().len() ==> ends(#[trigger] g.edge_slots()[k]) == (k as usize, (k + 1) as usize),
    {
        if n == 0 {
            let b = AdvancedGraphBuilder::<A, W, Undirected>::undirected();
            return finish(b, &node_attr, &edge_weight);
        }
        let b = AdvancedGraphBuilder::undirected().with_capacity(n, n - 1);
        let mut b = fill_nodes(b, n, &node_attr);
        let mut i: usize = 0;
        while i < n - 1
            invariant
                n >= 1,
                i <= n - 1,
                b.spec_nodes().len() == n,
                forall|t: int| 0 <= t < n ==> cloned(node_attr, #[trigger] b.spec_nodes()[t]),
                b.spec_allow_self_loops(),
                b.spec_allow_parallel_edges(),
                b.spec_edges().len() == i,
                forall|k: int| 0 <= k < i ==> (#[trigger] b.spec_edges()[k]).0 == k && b.spec_edges()[k].1 == k + 1
                    && cloned(edge_weight, b.spec_edges()[k].2),
            decreases n - 1 - i,
        {
            b = b.add_edge(i, i + 1, edge_weight.clone());
            i = i + 1;
        }
        let g = finish(b, &node_attr, &edge_weight);
        proof {
            assert forall|k: int| 0 <= k < g.edge_slots().len() implies ends(#[trigger] g.edge_slots()[k]) == (k as usize, (k + 1) as usize) by {
                assert(g.edge_slots()[k] == Some(b.spec_edges()[k]));
            }
        }
        g
    }

    /// Creates a star graph with `n` nodes: node 0 is the centre and edge `k`
    /// joins it to node `k + 1`.
    pub fn star<A: Clone, W: Clone>(n: usize, node_attr: A, edge_weight: W) -> (g: BaseGraph<A, W, Undirected>)
        requires
            n < usize::MAX / 2,
        ensures
            g.wf(),
            g.node_slots().len() == n,
            all_clones(g.node_slots(), node_attr),
            weights_cloned(g.edge_slots(), edge_weight),
            g.edge_slots().len() == if n == 0 { 0 } else { n - 1 },
            forall|k: int| 0 <= k < g.edge_slots().len() ==> ends(#[trigger] g.edge_slots()[k]) == (0usize, (k + 1) as usize),
    {
        if n == 0 {
            let b = AdvancedGraphBuilder::<A, W, Undirected>::undirected();
            return finish(b, &node_attr, &edge_weight);
        }
        let b = AdvancedGraphBuilder::undirected().with_capacity(n, n - 1);
        let mut b = fill_nodes(b, n, &node_attr);
        let mut i: usize = 1;
        while i < n
            invariant
                1 <= i <= n,
                b.spec_nodes().len() == n,
                forall|t: int| 0 <= t < n ==> cloned(node_attr, #[trigger] b.spec_nodes()[t]),
                b.spec_allow_self_loops(),
                b.spec_allow_parallel_edges(),
                b.spec_edges().len() == i - 1,
                forall|k: int| 0 <= k < i - 1 ==> (#[trigger] b.spec_edges()[k]).0 == 0 && b.spec_edges()[k].1 == k + 1
                    && cloned(edge_weight, b.spec_edges()[k].2),
            decreases n - i,
        {
            b = b.add_edge(0, i, edge_weight.clone());
            i = i + 1;
        }
        let g = finish(b, &node_attr, &edge_weight);
        proof {
            assert forall|k: int| 0 <= k < g.edge_slots().len() implies ends(#[trigger] g.edge_slots()[k]) == (0usize, (k + 1) as usize) by {
                assert(g.edge_slots()[k] == Some(b.spec_edges()[k]));
            }
        }
        g
    }

    /// Creates a cycle graph with `n` nodes: edge `k` joins node `k` to node
    /// `(k + 1) % n`. With one node that edge is a self-loop, with two nodes the
    /// two edges are parallel.
    pub fn cycle<A: Clone, W: Clone>(n: usize, node_attr: A, edge_weight: W) -> (g: BaseGraph<A, W, Undirected>)
        requires
            n < usize::MAX / 2,
        ensures
            g.wf(),
            g.node_slots().len() == n,
            all_clones(g.node_slots(), node_attr),
            weights_cloned(g.edge_slots(), edge_weight),
            g.edge_slots().len() == n,
            forall|k: int| 0 <= k < n ==> ends(#[trigger] g.edge_slots()[k]) == (k as usize, ((k + 1) % (n as int)) as usize),
    {
        let b = AdvancedGraphBuilder::undirected().with_capacity(n, n);
        let mut b = fill_nodes(b, n, &node_attr);
        let mut i: usize = 0;
        while i < n
            invariant
                i <= n,
                b.spec_nodes().len() == n,
                forall|t: int| 0 <= t < n ==> cloned(node_attr, #[trigger] b.spec_nodes()[t]),
                b.spec_allow_self_loops(),
                b.spec_allow_parallel_edges(),
                b.spec_edges().len() == i,
                forall|k: int| 0 <= k < i ==> (#[trigger] b.spec_edges()[k]).0 == k
                    && b.spec_edges()[k].1 == (k + 1) % (n as int) && cloned(edge_weight, b.spec_edges()[k].2),
            decreases n - i,
        {
            let next = (i + 1) % n;
            b = b.add_edge(i, next, edge_weight.clone());
            i = i + 1;
        }
        let g = finish(b, &node_attr, &edge_weight);
        proof {
            assert forall|k: int| 0 <= k < n implies ends(#[trigger] g.edge_slots()[k]) == (k as usize, ((k + 1) % (n as int)) as usize) by {
                assert(g.edge_slots()[k] == Some(b.spec_edges()[k]));
            }
        }
        g
    }

    /// Creates a complete graph with `n` nodes: one edge `(u, v)` for each
    /// pair `u < v < n`, in increasing order.
    pub fn complete<A: Clone, W: Clone>(n: usize, node_attr: A, edge_weight: W) -> (g: BaseGraph<A, W, Undirected>)
        requires
            n >= 1,
            n * (n - 1) / 2 < usize::MAX / 2,
        ensures
            g.wf(),
            g.node_slots().len() == n,
            all_clones(g.node_slots(), node_attr),
            weights_cloned(g.edge_slots(), edge_weight),
            g.edge_slots().len() == n * (n - 1) / 2,
            forall|k: int| 0 <= k < g.edge_slots().len()
                ==> ends(#[trigger] g.edge_slots()[k]).0 < ends(g.edge_slots()[k]).1 < n,
            increasing(g.edge_slots()),
    {
        assert(n * (n - 1) <= usize::MAX) by (nonlinear_arith)
            requires
                n >= 1,
                n * (n - 1) / 2 < usize::MAX / 2,
        ;
        let b = AdvancedGraphBuilder::undirected().with_capacity(n, n * (n - 1) / 2);
        let mut b = fill_nodes(b, n, &node_attr);
        let mut i: usize = 0;
        while i < n
            invariant
                i <= n,
                n * (n - 1) / 2 < usize::MAX / 2,
                b.spec_nodes().len() == n,
                forall|t: int| 0 <= t < n ==> cloned(node_attr, #[trigger] b.spec_nodes()[t]),
                b.spec_allow_self_loops(),
                b.spec_allow_parallel_edges(),
                2 * b.spec_edges().len() == i * (2 * n - 1 - i),
                forall|k: int| 0 <= k < b.spec_edges().len() ==> (#[trigger] b.spec_edges()[k]).0 < i
                    && b.spec_edges()[k].0 < b.spec_edges()[k].1 < n && cloned(edge_weight, b.spec_edges()[k].2),
                increasing_pairs(b.spec_edges()),
            decreases n - i,
        {
            let mut j: usize = i + 1;
            while j < n
                invariant
                    i < n,
                    i + 1 <= j <= n,
                    b.spec_nodes().len() == n,
                    forall|t: int| 0 <= t < n ==> cloned(node_attr, #[trigger] b.spec_nodes()[t]),
                    b.spec_allow_self_loops(),
                    b.spec_allow_parallel_edges(),
                    2 * b.spec_edges().len() == i * (2 * n - 1 - i) + 2 * (j - i - 1),
                    forall|k: int| 0 <= k < b.spec_edges().len() ==> ((#[trigger] b.spec_edges()[k]).0 < i
                        || (b.spec_edges()[k].0 == i && b.spec_edges()[k].1 < j))
                        && b.spec_edges()[k].0 < b.spec_edges()[k].1 < n && cloned(edge_weight, b.spec_edges()[k].2),
                    increasing_pairs(b.spec_edges()),
                decreases n - j,
            {
                let ghost before = b.spec_edges();
                b = b.add_edge(i, j, edge_weight.clone());
                proof {
                    let es = b.spec_edges();
                    assert forall|x: int, y: int| 0 <= x < y < es.len()
                        implies lex_lt((#[trigger] es[x].0, es[x].1), (#[trigger] es[y].0, es[y].1)) by {
                        if y < before.len() {
                            assert(es[x] == before[x] && es[y] == before[y]);
                        } else {
                            assert(es[x] == before[x]);
                        }
                    }
                }
                j = j + 1;
            }
            assert((i + 1) * (2 * n - 1 - (i + 1)) == i * (2 * n - 1 - i) + 2 * (n - i - 1)) by (nonlinear_arith);
            i = i + 1;
        }
        let ghost es = b.spec_edges();
        assert(2 * es.len() == n * (n - 1));
        assert(es.len() == n * (n - 1) / 2) by (nonlinear_arith)
            requires 2 * es.len() == n * (n - 1);
        let g = finish(b, &node_attr, &edge_weight);
        proof {
            assert forall|k: int| 0 <= k < g.edge_slots().len()
                implies ends(#[trigger] g.edge_slots()[k]).0 < ends(g.edge_slots()[k]).1 < n by {
                assert(g.edge_slots()[k] == Some(es[k]));
            }
            assert forall|x: int, y: int| 0 <= x < y < g.edge_slots().len()
                implies lex_lt(ends(#[trigger] g.edge_slots()[x]), ends(#[trigger] g.edge_slots()[y])) by {
                assert(g.edge_slots()[x] == Some(es[x]));
                assert(g.edge_slots()[y] == Some(es[y]));
            }
        }
        g
    }

    /// Creates a grid graph with `rows * cols` nodes, node `i * cols + j` for
    /// cell `(i, j)`: each cell is joined to its right neighbour and then to
    /// the one below it, cells taken row by row.
    pub fn grid<A: Clone, W: Clone>(rows: usize, cols: usize, node_attr: A, edge_weight: W)
        -> (g: BaseGraph<A, W, Undirected>)
        requires
            (rows == 0) == (cols == 0),
            2 * rows * cols <= usize::MAX,
            2 * rows * cols - rows - cols < usize::MAX / 2,
        ensures
            g.wf(),
            g.node_slots().len() == rows * cols,
            all_clones(g.node_slots(), node_attr),
            weights_cloned(g.edge_slots(), edge_weight),
            g.edge_slots().len() == (rows - 1) * cols + rows * (cols - 1),
            forall|k: int| 0 <= k < g.edge_slots().len()
                ==> grid_edge(rows as int, cols as int, ends(#[trigger] g.edge_slots()[k]).0 as int,
                    ends(g.edge_slots()[k]).1 as int),
            increasing(g.edge_slots()),
    {
        assert(rows * cols <= 2 * rows * cols) by (nonlinear_arith);
        let n = rows * cols;
        assert(2 * n >= rows + cols && 2 * n == 2 * rows * cols) by (nonlinear_arith)
            requires (rows == 0) == (cols == 0), n == rows * cols;
        let b = AdvancedGraphBuilder::undirected().with_capacity(n, 2 * n - rows - cols);
        let mut b = fill_nodes(b, n, &node_attr);
        let mut i: usize = 0;
        while i < rows
            invariant
                i <= rows,
                n == rows * cols,
                (rows == 0) == (cols == 0),
                2 * rows * cols - rows - cols < usize::MAX / 2,
                b.spec_nodes().len() == n,
                forall|t: int| 0 <= t < n ==> cloned(node_attr, #[trigger] b.spec_nodes()[t]),
                b.spec_allow_self_loops(),
                b.spec_allow_parallel_edges(),
                b.spec_edges().len() == i * (cols - 1) + (if i == rows { (rows - 1) * cols } else { i * cols }),
                forall|k: int| 0 <= k < b.spec_edges().len() ==> (#[trigger] b.spec_edges()[k]).0 < i * cols
                    && grid_edge(rows as int, cols as int, b.spec_edges()[k].0 as int, b.spec_edges()[k].1 as int)
                    && b.spec_edges()[k].1 < n && cloned(edge_weight, b.spec_edges()[k].2),
                increasing_pairs(b.spec_edges()),
            decreases rows - i,
        {
            assert((i + 1) * cols <= rows * cols) by (nonlinear_arith) requires i < rows;
            let mut j: usize = 0;
            while j < cols
                invariant
                    i < rows,
                    j <= cols,
                    n == rows * cols,
                    (i + 1) * cols <= n,
                    b.spec_nodes().len() == n,
                    forall|t: int| 0 <= t < n ==> cloned(node_attr, #[trigger] b.spec_nodes()[t]),
                    b.spec_allow_self_loops(),
                    b.spec_allow_parallel_edges(),
                    b.spec_edges().len() == i * (cols - 1) + i * cols + (if j == cols { cols - 1 } else { j as int })
                        + (if i + 1 < rows { j as int } else { 0int }),
                    forall|k: int| 0 <= k < b.spec_edges().len() ==> (#[trigger] b.spec_edges()[k]).0 < i * cols + j
                        && grid_edge(rows as int, cols as int, b.spec_edges()[k].0 as int, b.spec_edges()[k].1 as int)
                        && b.spec_edges()[k].1 < n && cloned(edge_weight, b.spec_edges()[k].2),
                    increasing_pairs(b.spec_edges()),
                decreases cols - j,
            {
                assert(i * cols + j < (i + 1) * cols) by (nonlinear_arith) requires j < cols;
                let current = i * cols + j;
                assert(current as int == i * cols + j);
                let ghost start = b.spec_edges();
                if j < cols - 1 {
                    assert(current + 1 < n) by (nonlinear_arith)
                        requires current == i * cols + j, j + 1 < cols, (i + 1) * cols <= n;
                    let ghost before = b.spec_edges();
                    b = b.add_edge(current, current + 1, edge_weight.clone());
                    proof {
                        let es = b.spec_edges();
                        assert(grid_edge(rows as int, cols as int, current as int, current + 1));
                        assert forall|x: int, y: int| 0 <= x < y < es.len()
                            implies lex_lt((#[trigger] es[x].0, es[x].1), (#[trigger] es[y].0, es[y].1)) by {
                            assert(es[x] == before[x]);
                            if y < before.len() {
                                assert(es[y] == before[y]);
                            }
                        }
                    }
                }
                if i < rows - 1 {
                    assert((i + 1) * cols + j < rows * cols) by (nonlinear_arith) requires i + 1 < rows, j < cols;
                    assert(current + cols == (i + 1) * cols + j) by (nonlinear_arith) requires current == i * cols + j;
                    let ghost before = b.spec_edges();
                    b = b.add_edge(current, current + cols, edge_weight.clone());
                    proof {
                        let es = b.spec_edges();
                        assert(grid_edge(rows as int, cols as int, current as int, current + cols));
                        assert forall|x: int, y: int| 0 <= x < y < es.len()
                            implies lex_lt((#[trigger] es[x].0, es[x].1), (#[trigger] es[y].0, es[y].1)) by {
                            assert(es[x] == before[x]);
                            if y < before.len() {
                                assert(es[y] == before[y]);
                            }
                        }
                    }
                }
                proof {
                    let es = b.spec_edges();
                    assert forall|k: int| 0 <= k < es.len() implies (#[trigger] es[k]).0 < i * cols + j + 1
                        && grid_edge(rows as int, cols as int, es[k].0 as int, es[k].1 as int)
                        && es[k].1 < n && cloned(edge_weight, es[k].2) by {
                        if k < start.len() {
                            assert(es[k] == start[k]);
                        } else {
                            assert(es[k].0 == current);
                            assert(grid_edge(rows as int, cols as int, es[k].0 as int, es[k].1 as int));
                            assert(es[k].1 < n);
                            assert(cloned(edge_weight, es[k].2));
                        }
                    }
                }
                j = j + 1;
            }
            assert((i + 1) * (cols - 1) == i * (cols - 1) + (cols - 1)) by (nonlinear_arith);
            assert((i + 1) * cols == i * cols + cols) by (nonlinear_arith);
            i = i + 1;
        }
        let ghost es = b.spec_edges();
        assert((rows - 1) * cols + rows * (cols - 1) == 2 * rows * cols - rows - cols) by (nonlinear_arith);
        let g = finish(b, &node_attr, &edge_weight);
        proof {
            assert forall|k: int| 0 <= k < g.edge_slots().len()
                implies grid_edge(rows as int, cols as int, ends(#[trigger] g.edge_slots()[k]).0 as int,
                    ends(g.edge_slots()[k]).1 as int) by {
                assert(g.edge_slots()[k] == Some(es[k]));
            }
            assert forall|x: int, y: int| 0 <= x < y < g.edge_slots().len()
                implies lex_lt(ends(#[trigger] g.edge_slots()[x]), ends(#[trigger] g.edge_slots()[y])) by {
                assert(g.edge_slots()[x] == Some(es[x]));
                assert(g.edge_slots()[y] == Some(es[y]));
            }
        }
        g
    }
}

} // verus!
