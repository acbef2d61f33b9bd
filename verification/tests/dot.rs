use include_graph::dot_writer::{append_decimal, write_dot_with_header};
use include_graph::file_node::FileNode;
use include_graph::hash_graph::HashGraph;

const HEADER: &str = "digraph {\n    overlap=scale;\n    size=\"80,100\";\n    ratio=\"compress\";\n    fontsize=\"16\";\n    fontname=\"Helvetica\";\n    clusterrank=\"local\";\n";

fn decimal(n: usize) -> String {
    let mut out = String::new();
    append_decimal(&mut out, n);
    out
}

#[test]
fn numbers_are_written_in_decimal() {
    assert_eq!(decimal(0), "0");
    assert_eq!(decimal(7), "7");
    assert_eq!(decimal(10), "10");
    assert_eq!(decimal(1234567890), "1234567890");
    assert_eq!(decimal(usize::MAX), usize::MAX.to_string());
    let mut out = String::from("n=");
    append_decimal(&mut out, 42);
    assert_eq!(out, "n=42");
}

#[test]
fn empty_graph_is_header_and_brace() {
    let mut out = String::new();
    write_dot_with_header(&mut out, &HashGraph::new());
    assert_eq!(out, format!("{}}}\n", HEADER));
}

#[test]
fn nodes_and_edges_follow_the_header() {
    let mut graph = HashGraph::new();
    graph.add_edge(FileNode::new("src/a.cpp", false), FileNode::new("src/b.h", false));
    graph.add_edge(FileNode::new("src/a.cpp", false), FileNode::new("vector", true));
    graph.add_edge(FileNode::new("src/b.h", false), FileNode::new("..", false));
    let mut out = String::new();
    write_dot_with_header(&mut out, &graph);
    let expected = format!(
        "{}{}{}{}{}{}{}{}}}\n",
        HEADER,
        "    0 [label=\"a.cpp\"]\n",
        "    1 [label=\"b.h\"]\n",
        "    2 [label=\"vector\"]\n",
        "    3 [label=\"[error getting filename]\"]\n",
        "    0 -> 1\n",
        "    0 -> 2\n",
        "    1 -> 3\n"
    );
    assert_eq!(out, expected);
}

#[test]
fn text_is_appended_to_what_is_there() {
    let mut out = String::from("// graph\n");
    write_dot_with_header(&mut out, &HashGraph::new());
    assert!(out.starts_with("// graph\ndigraph {\n"));
    assert!(out.ends_with("clusterrank=\"local\";\n}\n"));
}
