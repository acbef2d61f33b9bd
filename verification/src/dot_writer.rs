//! The graph as text in the DOT language of Graphviz.

use vstd::prelude::*;
use crate::file_node::{FileNode, NodeKey, label_of};
use crate::hash_graph::HashGraph;

verus! {

/// The decimal digit for a number below ten.
pub open spec fn digit_char(d: nat) -> char {
    if d == 0 {
        '0'
    } else if d == 1 {
        '1'
    } else if d == 2 {
        '2'
    } else if d == 3 {
        '3'
    } else if d == 4 {
        '4'
    } else if d == 5 {
        '5'
    } else if d == 6 {
        '6'
    } else if d == 7 {
        '7'
    } else if d == 8 {
        '8'
    } else {
        '9'
    }
}

/// A number in decimal, without leading zeros.
pub open spec fn decimal(n: nat) -> Seq<char>
    decreases n,
{
    if n < 10 {
        seq![digit_char(n)]
    } else {
        decimal(n / 10).push(digit_char(n % 10))
    }
}

/// The opening of the graph and the layout directives, which a layout
/// engine needs to draw a graph of some hundred nodes legibly.
pub open spec fn header() -> Seq<char> {
    "digraph {\n    overlap=scale;\n    size=\"80,100\";\n    ratio=\"compress\";\n    fontsize=\"16\";\n    fontname=\"Helvetica\";\n    clusterrank=\"local\";\n"@
}

/// The statement for one node: its handle, and its label.
pub open spec fn node_line(handle: nat, key: NodeKey) -> Seq<char> {
    "    "@ + decimal(handle) + " [label="@ + label_of(key) + "]\n"@
}

/// The statement for one edge, between two handles.
pub open spec fn edge_line(edge: (usize, usize)) -> Seq<char> {
    "    "@ + decimal(edge.0 as nat) + " -> "@ + decimal(edge.1 as nat) + "\n"@
}

/// The statements for the nodes, in the order of their handles.
pub open spec fn node_lines(keys: Seq<NodeKey>) -> Seq<char>
    decreases keys.len(),
{
    if keys.len() == 0 {
        Seq::empty()
    } else {
        node_lines(keys.drop_last()) + node_line((keys.len() - 1) as nat, keys.last())
    }
}

/// The statements for the edges, oldest edge first.
pub open spec fn edge_lines(edges: Seq<(usize, usize)>) -> Seq<char>
    decreases edges.len(),
{
    if edges.len() == 0 {
        Seq::empty()
    } else {
        edge_lines(edges.drop_last()) + edge_line(edges.last())
    }
}

/// A graph in the DOT language: the header, a statement for each node, one
/// for each edge, and the closing brace.
pub open spec fn dot_text(keys: Seq<NodeKey>, edges: Seq<(usize, usize)>) -> Seq<char> {
    header() + node_lines(keys) + edge_lines(edges) + "}\n"@
}

/// The text of one decimal digit.
fn digit_str(d: usize) -> (s: &'static str)
    requires
        d < 10,
    ensures
        s@ == seq![digit_char(d as nat)],
{
    proof {
        reveal_strlit("0");
        reveal_strlit("1");
        reveal_strlit("2");
        reveal_strlit("3");
        reveal_strlit("4");
        reveal_strlit("5");
        reveal_strlit("6");
        reveal_strlit("7");
        reveal_strlit("8");
        reveal_strlit("9");
    }
    let s = if d == 0 {
        "0"
    } else if d == 1 {
        "1"
    } else if d == 2 {
        "2"
    } else if d == 3 {
        "3"
    } else if d == 4 {
        "4"
    } else if d == 5 {
        "5"
    } else if d == 6 {
        "6"
    } else if d == 7 {
        "7"
    } else if d == 8 {
        "8"
    } else {
        "9"
    };
    assert(s@ =~= seq![digit_char(d as nat)]);
    s
}

/// Appends a number in decimal.
pub fn append_decimal(out: &mut String, n: usize)
    ensures
        final(out)@ == old(out)@ + decimal(n as nat),
    decreases n,
{
    if n >= 10 {
        append_decimal(out, n / 10);
    }
    out.append(digit_str(n % 10));
    proof {
        assert(out@ =~= old(out)@ + decimal(n as nat));
    }
}

/// Appends the graph in the DOT language, with the layout header that plain
/// renderers leave out.
pub fn write_dot_with_header(out: &mut String, graph: &HashGraph)
    ensures
        final(out)@ == old(out)@ + dot_text(graph.keys(), graph.edges()),
{
    out.append(
        "digraph {\n    overlap=scale;\n    size=\"80,100\";\n    ratio=\"compress\";\n    fontsize=\"16\";\n    fontname=\"Helvetica\";\n    clusterrank=\"local\";\n",
    );
    let ghost keys = graph.keys();
    let node_count = graph.node_count();
    let mut i: usize = 0;
    proof {
        assert(keys.take(0) =~= Seq::<NodeKey>::empty());
        assert(out@ =~= old(out)@ + header() + node_lines(keys.take(0)));
    }
    while i < node_count
        invariant
            i <= node_count,
            node_count == graph.nodes().len(),
            keys == graph.keys(),
            out@ == old(out)@ + header() + node_lines(keys.take(i as int)),
        decreases node_count - i,
    {
        let ghost before = out@;
        match graph.node(i) {
            Some(node) => {
                let label = node.label();
                out.append("    ");
                append_decimal(out, i);
                out.append(" [label=");
                out.append(label.as_str());
                out.append("]\n");
                proof {
                    assert(node@ == keys[i as int]);
                    assert(keys.take(i + 1).drop_last() =~= keys.take(i as int));
                    assert(keys.take(i + 1).last() == keys[i as int]);
                    assert(out@ =~= before + node_line(i as nat, keys[i as int]));
                    assert(out@ =~= old(out)@ + header() + node_lines(keys.take(i + 1)));
                }
            },
            None => {},
        }
        i += 1;
    }
    let edges = graph.edge_list();
    let mut e: usize = 0;
    proof {
        assert(keys.take(i as int) =~= keys);
        assert(edges@.take(0) =~= Seq::<(usize, usize)>::empty());
        assert(out@ =~= old(out)@ + header() + node_lines(keys) + edge_lines(edges@.take(0)));
    }
    while e < edges.len()
        invariant
            e <= edges.len(),
            out@ == old(out)@ + header() + node_lines(keys) + edge_lines(edges@.take(e as int)),
        decreases edges.len() - e,
    {
        let ghost before = out@;
        let (src_idx, dst_idx) = edges[e];
        out.append("    ");
        append_decimal(out, src_idx);
        out.append(" -> ");
        append_decimal(out, dst_idx);
        out.append("\n");
        proof {
            assert(edges@.take(e + 1).drop_last() =~= edges@.take(e as int));
            assert(edges@.take(e + 1).last() == edges@[e as int]);
            assert(out@ =~= before + edge_line(edges@[e as int]));
            assert(out@ =~= old(out)@ + header() + node_lines(keys) + edge_lines(edges@.take(e + 1)));
        }
        e += 1;
    }
    out.append("}\n");
    proof {
        assert(edges@.take(e as int) =~= edges@);
        assert(out@ =~= old(out)@ + dot_text(graph.keys(), graph.edges()));
    }
}

} // verus!
