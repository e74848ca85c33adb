//! GraphML export: the document text of a graph, given the text of each node
//! attribute and each edge weight.

use vstd::prelude::*;
use crate::text::{decimal, push_decimal};
use crate::types::{BaseGraph, GraphConstructor};

verus! {

/// The document's opening lines, up to and including the `<graph>` element.
pub open spec fn graphml_head(directed: bool) -> Seq<char> {
    "<?xml version=\"1.0\" encoding=\"UTF-8\"?>\n"@
        + "<graphml xmlns=\"http://graphml.graphdrawing.org/xmlns\"\n"@
        + "         xmlns:xsi=\"http://www.w3.org/2001/XMLSchema-instance\"\n"@
        + "         xsi:schemaLocation=\"http://graphml.graphdrawing.org/xmlns\n"@
        + "         http://graphml.graphdrawing.org/xmlns/1.0/graphml.xsd\">\n"@
        + "  <key id=\"d0\" for=\"node\" attr.name=\"value\" attr.type=\"string\"/>\n"@
        + "  <key id=\"d1\" for=\"edge\" attr.name=\"weight\" attr.type=\"double\"/>\n"@
        + "  <graph id=\"G\" edgedefault=\""@ + (if directed { "directed"@ } else { "undirected"@ }) + "\">\n"@
}

/// The element of node `id` with attribute text `attr`.
pub open spec fn node_element(id: nat, attr: Seq<char>) -> Seq<char> {
    "    <node id=\"n"@ + decimal(id) + "\">\n"@
        + "      <data key=\"d0\">"@ + attr + "</data>\n"@
        + "    </node>\n"@
}

/// The element of the `k`-th edge, from `s` to `t`, with weight text `w`.
pub open spec fn edge_element(k: nat, s: nat, t: nat, w: Seq<char>) -> Seq<char> {
    "    <edge id=\"e"@ + decimal(k) + "\" source=\"n"@ + decimal(s) + "\" target=\"n"@ + decimal(t) + "\">\n"@
        + "      <data key=\"d1\">"@ + w + "</data>\n"@
        + "    </edge>\n"@
}

/// The elements of the first `k` nodes.
pub open spec fn node_elements(ids: Seq<usize>, attrs: Seq<Seq<char>>, k: int) -> Seq<char>
    decreases k,
{
    if k <= 0 { seq![] } else { node_elements(ids, attrs, k - 1) + node_element(ids[k - 1] as nat, attrs[k - 1]) }
}

/// The elements of the first `k` edges.
pub open spec fn edge_elements(ends: Seq<(usize, usize)>, weights: Seq<Seq<char>>, k: int) -> Seq<char>
    decreases k,
{
    if k <= 0 {
        seq![]
    } else {
        edge_elements(ends, weights, k - 1)
            + edge_element((k - 1) as nat, ends[k - 1].0 as nat, ends[k - 1].1 as nat, weights[k - 1])
    }
}

/// The GraphML document of a graph: the head, one element per node (with id
/// `ids[i]` and attribute text `attrs[i]`), one element per edge (numbered
/// from zero, with ends `ends[k]` and weight text `weights[k]`), and the
/// closing lines.
pub open spec fn graphml_spec(directed: bool, ids: Seq<usize>, ends: Seq<(usize, usize)>, attrs: Seq<Seq<char>>,
    weights: Seq<Seq<char>>) -> Seq<char> {
    graphml_head(directed) + node_elements(ids, attrs, ids.len() as int) + edge_elements(ends, weights, ends.len() as int)
        + "  </graph>\n"@ + "</graphml>\n"@
}

/// The ends of the existing edges, in increasing id order.
pub open spec fn edge_ends<A, W, Ty: GraphConstructor>(g: BaseGraph<A, W, Ty>) -> Seq<(usize, usize)> {
    g.spec_edge_ids().map_values(|e: usize| (g.src(e as int), g.tgt(e as int)))
}

/// The GraphML document of `graph`, with `attr_text[i]` the text of the
/// `i`-th node's attribute and `weight_text[k]` that of the `k`-th edge's
/// weight (nodes and edges in increasing id order).
pub fn graphml_text<A, W, Ty: GraphConstructor>(graph: &BaseGraph<A, W, Ty>, attr_text: &Vec<String>,
    weight_text: &Vec<String>) -> (doc: String)
    requires
        graph.wf(),
        attr_text@.len() == graph.spec_node_ids().len(),
        weight_text@.len() == graph.spec_edge_ids().len(),
    ensures
        doc@ == graphml_spec(graph.directed(), graph.spec_node_ids(), edge_ends(*graph),
            attr_text@.map_values(|s: String| s@), weight_text@.map_values(|s: String| s@)),
{
    let ghost attrs = attr_text@.map_values(|s: String| s@);
    let ghost weights = weight_text@.map_values(|s: String| s@);
    let mut doc = String::new();
    doc.append("<?xml version=\"1.0\" encoding=\"UTF-8\"?>\n");
    doc.append("<graphml xmlns=\"http://graphml.graphdrawing.org/xmlns\"\n");
    doc.append("         xmlns:xsi=\"http://www.w3.org/2001/XMLSchema-instance\"\n");
    doc.append("         xsi:schemaLocation=\"http://graphml.graphdrawing.org/xmlns\n");
    doc.append("         http://graphml.graphdrawing.org/xmlns/1.0/graphml.xsd\">\n");
    doc.append("  <key id=\"d0\" for=\"node\" attr.name=\"value\" attr.type=\"string\"/>\n");
    doc.append("  <key id=\"d1\" for=\"edge\" attr.name=\"weight\" attr.type=\"double\"/>\n");
    doc.append("  <graph id=\"G\" edgedefault=\"");
    if graph.is_directed() {
        doc.append("directed");
    } else {
        doc.append("undirected");
    }
    doc.append("\">\n");
    let ghost head = doc@;
    proof {
        assert(head =~= graphml_head(graph.directed()));
    }
    let nodes = graph.node_ids();
    let mut i: usize = 0;
    while i < nodes.len()
        invariant
            crate::types::ids(nodes@) == graph.spec_node_ids(),
            attr_text@.len() == nodes@.len(),
            attrs == attr_text@.map_values(|s: String| s@),
            i <= nodes@.len(),
            doc@ == head + node_elements(graph.spec_node_ids(), attrs, i as int),
        decreases nodes@.len() - i,
    {
        let ghost before = doc@;
        doc.append("    <node id=\"n");
        push_decimal(&mut doc, nodes[i].0);
        doc.append("\">\n");
        doc.append("      <data key=\"d0\">");
        doc.append(attr_text[i].as_str());
        doc.append("</data>\n");
        doc.append("    </node>\n");
        proof {
            assert(crate::types::ids(nodes@)[i as int] == nodes@[i as int].0);
            assert(attrs[i as int] == attr_text@[i as int]@);
            assert(doc@ =~= before + node_element(nodes@[i as int].0 as nat, attrs[i as int]));
        }
        i = i + 1;
    }
    let ghost mid = doc@;
    let edges = graph.edges();
    let mut k: usize = 0;
    while k < edges.len()
        invariant
            edges@.len() == graph.spec_edge_ids().len(),
            forall|j: int| 0 <= j < edges@.len() ==> (#[trigger] edges@[j]).0.0 == graph.src(graph.spec_edge_ids()[j] as int)
                && edges@[j].1.0 == graph.tgt(graph.spec_edge_ids()[j] as int),
            weight_text@.len() == edges@.len(),
            weights == weight_text@.map_values(|s: String| s@),
            k <= edges@.len(),
            doc@ == mid + edge_elements(edge_ends(*graph), weights, k as int),
        decreases edges@.len() - k,
    {
        let ghost before = doc@;
        let (s, t, _) = edges[k];
        doc.append("    <edge id=\"e");
        push_decimal(&mut doc, k);
        doc.append("\" source=\"n");
        push_decimal(&mut doc, s.0);
        doc.append("\" target=\"n");
        push_decimal(&mut doc, t.0);
        doc.append("\">\n");
        doc.append("      <data key=\"d1\">");
        doc.append(weight_text[k].as_str());
        doc.append("</data>\n");
        doc.append("    </edge>\n");
        proof {
            assert(edge_ends(*graph)[k as int] == (s.0, t.0));
            assert(weights[k as int] == weight_text@[k as int]@);
            assert(doc@ =~= before + edge_element(k as nat, s.0 as nat, t.0 as nat, weights[k as int]));
        }
        k = k + 1;
    }
    doc.append("  </graph>\n");
    doc.append("</graphml>\n");
    proof {
        assert(nodes@.len() == graph.spec_node_ids().len());
        assert(edge_ends(*graph).len() == edges@.len());
        assert(doc@ =~= graphml_spec(graph.directed(), graph.spec_node_ids(), edge_ends(*graph), attrs, weights));
    }
    doc
}

} // verus!
