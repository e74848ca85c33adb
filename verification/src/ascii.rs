//! A plain-text picture of a graph: a summary line, one line per node and per
//! edge, and for small graphs an adjacency matrix.

use vstd::prelude::*;
use crate::graphml::edge_ends;
use crate::text::{decimal, push_decimal};
use crate::types::{ids, lemma_live_indices, BaseGraph, GraphConstructor};

verus! {

/// The decimal rendering of `n`, right-aligned in a field three wide.
pub open spec fn pad3(n: nat) -> Seq<char> {
    if n < 10 {
        "  "@ + decimal(n)
    } else if n < 100 {
        " "@ + decimal(n)
    } else {
        decimal(n)
    }
}

/// The line of node `id` with attribute text `attr` and degree `deg`.
pub open spec fn ascii_node_line(id: nat, attr: Seq<char>, deg: nat) -> Seq<char> {
    "  ["@ + decimal(id) + "] "@ + attr + " (degree: "@ + decimal(deg) + ")\n"@
}

/// The line of an edge from `s` to `t` with weight text `w`.
pub open spec fn ascii_edge_line(directed: bool, s: nat, t: nat, w: Seq<char>) -> Seq<char> {
    "  ["@ + decimal(s) + "] "@ + (if directed { "->"@ } else { "--"@ }) + " ["@ + decimal(t) + "] (weight: "@ + w
        + ")\n"@
}

/// The lines of the first `k` nodes of `g`.
pub open spec fn ascii_node_lines<A, W, Ty: GraphConstructor>(g: BaseGraph<A, W, Ty>, attrs: Seq<Seq<char>>, k: int)
    -> Seq<char>
    decreases k,
{
    if k <= 0 {
        seq![]
    } else {
        let id = g.spec_node_ids()[k - 1];
        ascii_node_lines(g, attrs, k - 1) + ascii_node_line(id as nat, attrs[k - 1], g.spec_degree(id))
    }
}

/// The lines of the first `k` edges.
pub open spec fn ascii_edge_lines(directed: bool, ends: Seq<(usize, usize)>, weights: Seq<Seq<char>>, k: int) -> Seq<
    char,
>
    decreases k,
{
    if k <= 0 {
        seq![]
    } else {
        ascii_edge_lines(directed, ends, weights, k - 1) + ascii_edge_line(
            directed,
            ends[k - 1].0 as nat,
            ends[k - 1].1 as nat,
            weights[k - 1],
        )
    }
}

/// The matrix heading cells of the first `k` node ids.
pub open spec fn matrix_heading(ids: Seq<usize>, k: int) -> Seq<char>
    decreases k,
{
    if k <= 0 { seq![] } else { matrix_heading(ids, k - 1) + pad3(ids[k - 1] as nat) + " "@ }
}

/// The cells of row `s` for the first `k` node ids: `X` where an edge leads
/// from `s` to the node, `.` elsewhere.
pub open spec fn matrix_cells<A, W, Ty: GraphConstructor>(g: BaseGraph<A, W, Ty>, s: usize, k: int) -> Seq<char>
    decreases k,
{
    if k <= 0 {
        seq![]
    } else {
        matrix_cells(g, s, k - 1) + if g.has_edge_between(s, g.spec_node_ids()[k - 1]) { "  X "@ } else { "  . "@ }
    }
}

/// The first `k` rows of the adjacency matrix.
pub open spec fn matrix_rows<A, W, Ty: GraphConstructor>(g: BaseGraph<A, W, Ty>, k: int) -> Seq<char>
    decreases k,
{
    if k <= 0 {
        seq![]
    } else {
        let s = g.spec_node_ids()[k - 1];
        matrix_rows(g, k - 1) + pad3(s as nat) + " "@ + matrix_cells(g, s, g.spec_node_ids().len() as int) + "\n"@
    }
}

/// The picture of `g`, with `attrs[i]` the text of the `i`-th node's
/// attribute and `weights[k]` that of the `k`-th edge's weight: a title, the
/// counts and kind, a rule of fifty `=`, the node lines, the edge lines and,
/// for at most twenty nodes, the adjacency matrix.
pub open spec fn ascii_spec<A, W, Ty: GraphConstructor>(
    g: BaseGraph<A, W, Ty>,
    attrs: Seq<Seq<char>>,
    weights: Seq<Seq<char>>,
) -> Seq<char> {
    let n = g.spec_node_ids().len();
    "Graph Visualization (ASCII)\n"@ + "Nodes: "@ + decimal(g.spec_node_count()) + ", Edges: "@ + decimal(
        g.spec_edge_count(),
    ) + ", Type: "@ + (if g.directed() { "Directed"@ } else { "Undirected"@ }) + "\n"@ + Seq::new(
        50,
        |i: int| '=',
    ) + "\n"@ + "\nNodes:\n"@ + ascii_node_lines(g, attrs, n as int) + "\nEdges:\n"@ + ascii_edge_lines(
        g.directed(),
        edge_ends(g),
        weights,
        edge_ends(g).len() as int,
    ) + if g.spec_node_count() <= 20 {
        "\nAdjacency Matrix:\n"@ + "    "@ + matrix_heading(g.spec_node_ids(), n as int) + "\n"@ + matrix_rows(
            g,
            n as int,
        )
    } else {
        seq![]
    }
}

/// Appends the decimal rendering of `n`, right-aligned in a field three wide.
fn push_pad3(out: &mut String, n: usize)
    ensures
        final(out)@ == old(out)@ + pad3(n as nat),
{
    proof {
        reveal_strlit("  ");
        reveal_strlit(" ");
    }
    if n < 10 {
        out.append("  ");
    } else if n < 100 {
        out.append(" ");
    }
    push_decimal(out, n);
}

impl<A, W, Ty: GraphConstructor> BaseGraph<A, W, Ty> {
    /// The ASCII picture of the graph, given the text of each node attribute
    /// and each edge weight (nodes and edges in increasing id order).
    pub fn to_ascii_art(&self, attr_text: &Vec<String>, weight_text: &Vec<String>) -> (out: String)
        requires
            self.wf(),
            attr_text@.len() == self.spec_node_ids().len(),
            weight_text@.len() == self.spec_edge_ids().len(),
        ensures
            out@ == ascii_spec(*self, attr_text@.map_values(|s: String| s@), weight_text@.map_values(|s: String| s@)),
    {
        let ghost attrs = attr_text@.map_values(|s: String| s@);
        let ghost weights = weight_text@.map_values(|s: String| s@);
        proof {
            self.lemma_node_slots_bound();
            lemma_live_indices(self.node_slots());
        }
        let directed = self.is_directed();
        let mut out = String::new();
        out.append("Graph Visualization (ASCII)\n");
        out.append("Nodes: ");
        let node_count = self.node_count();
        push_decimal(&mut out, node_count);
        out.append(", Edges: ");
        push_decimal(&mut out, self.edge_count());
        out.append(", Type: ");
        if directed {
            out.append("Directed");
        } else {
            out.append("Undirected");
        }
        out.append("\n");
        let mut r: usize = 0;
        let ghost before_rule = out@;
        while r < 50
            invariant
                r <= 50,
                out@ == before_rule + Seq::new(r as nat, |i: int| '='),
            decreases 50 - r,
        {
            proof {
                reveal_strlit("=");
            }
            out.append("=");
            assert(out@ =~= before_rule + Seq::new((r + 1) as nat, |i: int| '='));
            r = r + 1;
        }
        out.append("\n");
        out.append("\nNodes:\n");
        let ghost head = out@;
        let nodes = self.node_ids();
        let mut i: usize = 0;
        while i < nodes.len()
            invariant
                self.wf(),
                ids(nodes@) == self.spec_node_ids(),
                forall|k: int| 0 <= k < self.spec_node_ids().len() ==> self.has_node(
                    #[trigger] self.spec_node_ids()[k] as int,
                ),
                attr_text@.len() == nodes@.len(),
                attrs == attr_text@.map_values(|s: String| s@),
                i <= nodes@.len(),
                out@ == head + ascii_node_lines(*self, attrs, i as int),
            decreases nodes@.len() - i,
        {
            let ghost before = out@;
            let id = nodes[i];
            assert(ids(nodes@)[i as int] == id.0);
            assert(self.has_node(self.spec_node_ids()[i as int] as int));
            let d = match self.degree(id) {
                Some(d) => d,
                None => 0,
            };
            out.append("  [");
            push_decimal(&mut out, id.0);
            out.append("] ");
            out.append(attr_text[i].as_str());
            out.append(" (degree: ");
            push_decimal(&mut out, d);
            out.append(")\n");
            proof {
                assert(attrs[i as int] == attr_text@[i as int]@);
                assert(out@ =~= before + ascii_node_line(id.0 as nat, attrs[i as int], self.spec_degree(id.0)));
            }
            i = i + 1;
        }
        out.append("\nEdges:\n");
        let ghost mid = out@;
        let edges = self.edges();
        let mut k: usize = 0;
        while k < edges.len()
            invariant
                edges@.len() == self.spec_edge_ids().len(),
                forall|j: int| 0 <= j < edges@.len() ==> (#[trigger] edges@[j]).0.0 == self.src(
                    self.spec_edge_ids()[j] as int,
                ) && edges@[j].1.0 == self.tgt(self.spec_edge_ids()[j] as int),
                weight_text@.len() == edges@.len(),
                weights == weight_text@.map_values(|s: String| s@),
                directed == self.directed(),
                k <= edges@.len(),
                out@ == mid + ascii_edge_lines(directed, edge_ends(*self), weights, k as int),
            decreases edges@.len() - k,
        {
            let ghost before = out@;
            let (s, t, _) = edges[k];
            out.append("  [");
            push_decimal(&mut out, s.0);
            out.append("] ");
            if directed {
                out.append("->");
            } else {
                out.append("--");
            }
            out.append(" [");
            push_decimal(&mut out, t.0);
            out.append("] (weight: ");
            out.append(weight_text[k].as_str());
            out.append(")\n");
            proof {
                assert(edge_ends(*self)[k as int] == (s.0, t.0));
                assert(weights[k as int] == weight_text@[k as int]@);
                assert(out@ =~= before + ascii_edge_line(directed, s.0 as nat, t.0 as nat, weights[k as int]));
            }
            k = k + 1;
        }
        let ghost lists = out@;
        assert(edge_ends(*self).len() == edges@.len());
        if node_count <= 20 {
            out.append("\nAdjacency Matrix:\n");
            out.append("    ");
            let ghost pre = out@;
            let mut h: usize = 0;
            while h < nodes.len()
                invariant
                    ids(nodes@) == self.spec_node_ids(),
                    h <= nodes@.len(),
                    out@ == pre + matrix_heading(self.spec_node_ids(), h as int),
                decreases nodes@.len() - h,
            {
                let ghost before = out@;
                assert(ids(nodes@)[h as int] == nodes@[h as int].0);
                push_pad3(&mut out, nodes[h].0);
                out.append(" ");
                assert(out@ =~= before + pad3(nodes@[h as int].0 as nat) + " "@);
                h = h + 1;
            }
            out.append("\n");
            let ghost top = out@;
            let mut a: usize = 0;
            while a < nodes.len()
                invariant
                    ids(nodes@) == self.spec_node_ids(),
                    a <= nodes@.len(),
                    out@ == top + matrix_rows(*self, a as int),
                decreases nodes@.len() - a,
            {
                let ghost before = out@;
                let src = nodes[a];
                assert(ids(nodes@)[a as int] == src.0);
                push_pad3(&mut out, src.0);
                out.append(" ");
                let ghost row_start = out@;
                let mut b: usize = 0;
                while b < nodes.len()
                    invariant
                        ids(nodes@) == self.spec_node_ids(),
                        b <= nodes@.len(),
                        out@ == row_start + matrix_cells(*self, src.0, b as int),
                    decreases nodes@.len() - b,
                {
                    let ghost cell_start = out@;
                    assert(ids(nodes@)[b as int] == nodes@[b as int].0);
                    if self.contains_edge(src, nodes[b]) {
                        out.append("  X ");
                    } else {
                        out.append("  . ");
                    }
                    assert(out@ =~= cell_start + if self.has_edge_between(src.0, self.spec_node_ids()[b as int]) {
                        "  X "@
                    } else {
                        "  . "@
                    });
                    b = b + 1;
                }
                out.append("\n");
                assert(out@ =~= before + pad3(src.0 as nat) + " "@ + matrix_cells(
                    *self,
                    src.0,
                    self.spec_node_ids().len() as int,
                ) + "\n"@);
                a = a + 1;
            }
        }
        assert(out@ =~= ascii_spec(*self, attrs, weights));
        out
    }
}

} // verus!
