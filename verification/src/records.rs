//! Building a graph from records read off a file: each distinct label gets
//! one node, made when the label is first met and carrying the label as its
//! attribute; each record adds an edge between the nodes of its labels.

use vstd::prelude::*;
use std::collections::HashMap;
use crate::types::{BaseGraph, EdgeId, GraphConstructor, NodeId};

verus! {

broadcast use vstd::std_specs::hash::group_hash_axioms;

/// The nodes made so far, by label.
pub struct LabelIndex {
    nodes: HashMap<i32, NodeId>,
}

impl View for LabelIndex {
    type V = Map<i32, NodeId>;

    closed spec fn view(&self) -> Map<i32, NodeId> {
        self.nodes@
    }
}

impl LabelIndex {
    /// Every indexed label names an existing node that carries it.
    pub open spec fn tracks<W, Ty: GraphConstructor>(&self, g: BaseGraph<i32, W, Ty>) -> bool {
        forall|v: i32| #[trigger] self@.contains_key(v) ==> g.has_node(self@[v].0 as int)
            && g.attr(self@[v].0 as int) == v
    }

    /// An index with no labels.
    pub fn new() -> (r: Self)
        ensures
            r@ == Map::<i32, NodeId>::empty(),
    {
        LabelIndex { nodes: HashMap::new() }
    }

    /// The node for `label`: the one already made for it, or a new node,
    /// added to the graph with `label` as its attribute.
    pub fn node_for<W, Ty: GraphConstructor>(&mut self, graph: &mut BaseGraph<i32, W, Ty>, label: i32) -> (n: NodeId)
        requires
            old(graph).wf(),
            old(self).tracks(*old(graph)),
        ensures
            final(graph).wf(),
            final(self).tracks(*final(graph)),
            final(self)@ == old(self)@.insert(label, n),
            final(graph).edge_slots() == old(graph).edge_slots(),
            old(self)@.contains_key(label) ==> n == old(self)@[label]
                && final(graph).node_slots() == old(graph).node_slots(),
            !old(self)@.contains_key(label) ==> n.0 == old(graph).node_slots().len()
                && final(graph).node_slots() == old(graph).node_slots().push(Some(label)),
    {
        match self.nodes.get(&label) {
            Some(n) => {
                let n = *n;
                proof {
                    assert(self@.insert(label, n) =~= self@);
                }
                n
            },
            None => {
                let ghost g0 = *graph;
                let n = graph.add_node(label);
                self.nodes.insert(label, n);
                proof {
                    assert forall|v: i32| #[trigger] self@.contains_key(v) implies graph.has_node(self@[v].0 as int)
                        && graph.attr(self@[v].0 as int) == v by {
                        if v != label {
                            assert(old(self)@.contains_key(v));
                            assert(g0.has_node(old(self)@[v].0 as int));
                            assert(graph.node_slots()[old(self)@[v].0 as int] == g0.node_slots()[old(self)@[v].0 as int]);
                        }
                    }
                }
                n
            },
        }
    }

    /// Adds an edge of weight `weight` from the node for `source` to the node
    /// for `target`, making either node first if its label is new (the
    /// source's first).
    pub fn add_edge_record<W, Ty: GraphConstructor>(&mut self, graph: &mut BaseGraph<i32, W, Ty>, source: i32,
        target: i32, weight: W) -> (e: EdgeId)
        requires
            old(graph).wf(),
            old(self).tracks(*old(graph)),
            old(graph).edge_slots().len() < usize::MAX / 2,
        ensures
            final(graph).wf(),
            final(self).tracks(*final(graph)),
            final(self)@.contains_key(source),
            final(self)@.contains_key(target),
            forall|v: i32| #[trigger] old(self)@.contains_key(v) ==> final(self)@.contains_key(v)
                && final(self)@[v] == old(self)@[v],
            forall|v: i32| #[trigger] final(self)@.contains_key(v) ==> old(self)@.contains_key(v) || v == source
                || v == target,
            e.0 == old(graph).edge_slots().len(),
            final(graph).edge_slots() == old(graph).edge_slots().push(
                Some((final(self)@[source].0, final(self)@[target].0, weight))),
            old(graph).node_slots().is_prefix_of(final(graph).node_slots()),
    {
        let ghost g0 = *graph;
        let s = self.node_for(graph, source);
        let ghost g1 = *graph;
        let t = self.node_for(graph, target);
        proof {
            assert(graph.has_node(s.0 as int));
            assert(graph.has_node(t.0 as int));
        }
        graph.add_edge(s, t, weight)
    }
}

} // verus!
