use include_graph::file_node::FileNode;
use include_graph::hash_graph::HashGraph;

fn user(name: &str) -> FileNode {
    FileNode::new(name, false)
}

fn system(name: &str) -> FileNode {
    FileNode::new(name, true)
}

fn names(graph: &HashGraph) -> Vec<String> {
    let mut out = Vec::new();
    for i in 0..graph.node_count() {
        out.push(graph.node(i).unwrap().path.clone());
    }
    out
}

/// test_1.cpp pulls in set, map, inc_1.h and vector; inc_1.h pulls in vector
/// and is pulled in by a.cpp and b.cpp as well.
fn complex_graph() -> HashGraph {
    let mut graph = HashGraph::new();
    graph.add_edge(user("complex/test_1.cpp"), system("set"));
    graph.add_edge(user("complex/test_1.cpp"), system("map"));
    graph.add_edge(user("complex/test_1.cpp"), user("complex/inc_1.h"));
    graph.add_edge(user("complex/inc_1.h"), system("vector"));
    graph.add_edge(user("complex/a.cpp"), user("complex/inc_1.h"));
    graph.add_edge(user("complex/b.cpp"), user("complex/inc_1.h"));
    graph.add_edge(user("complex/b.cpp"), user("complex/inc_2.h"));
    graph.add_edge(user("complex/c.cpp"), system("string"));
    graph
}

#[test]
fn new_graph_is_empty() {
    let graph = HashGraph::new();
    assert_eq!(graph.node_count(), 0);
    assert_eq!(graph.edge_count(), 0);
    assert!(!graph.contains_node(&user("a.cpp")));
    assert!(graph.node(0).is_none());
    assert!(graph.edge_list().is_empty());
}

#[test]
fn add_edge_creates_both_nodes_once() {
    let mut graph = HashGraph::new();
    graph.add_edge(user("a.cpp"), user("b.h"));
    assert_eq!(graph.node_count(), 2);
    assert_eq!(graph.edge_count(), 1);
    assert_eq!(graph.edge_list(), vec![(0, 1)]);
    assert_eq!(graph.node(0), Some(&user("a.cpp")));
    assert_eq!(graph.node(1), Some(&user("b.h")));
    assert!(graph.node(2).is_none());
    assert!(graph.contains_node(&user("a.cpp")));
    assert!(graph.contains_node(&user("b.h")));
    assert!(!graph.contains_node(&user("c.h")));
}

#[test]
fn node_count_is_number_of_distinct_identities() {
    let mut graph = HashGraph::new();
    graph.add_edge(user("a"), user("b"));
    graph.add_edge(user("b"), user("a"));
    graph.add_edge(user("a"), user("b"));
    graph.add_edge(user("c"), user("a"));
    graph.add_edge(user("a"), user("a"));
    assert_eq!(graph.node_count(), 3);
    assert_eq!(graph.edge_count(), 5);
    assert_eq!(graph.edge_list(), vec![(0, 1), (1, 0), (0, 1), (2, 0), (0, 0)]);

    let mut other = HashGraph::new();
    other.add_edge(user("a"), user("a"));
    other.add_edge(user("c"), user("a"));
    other.add_edge(user("b"), user("a"));
    other.add_edge(user("a"), user("b"));
    other.add_edge(user("a"), user("b"));
    assert_eq!(other.node_count(), 3);
    assert_eq!(other.edge_count(), 5);
}

#[test]
fn same_path_of_two_kinds_is_two_nodes() {
    let mut graph = HashGraph::new();
    graph.add_edge(user("a.cpp"), user("vector"));
    graph.add_edge(user("a.cpp"), system("vector"));
    assert_eq!(graph.node_count(), 3);
    assert!(graph.contains_node(&user("vector")));
    assert!(graph.contains_node(&system("vector")));
    assert!(!graph.contains_node(&system("a.cpp")));
}

#[test]
fn two_spellings_of_one_file_are_two_nodes() {
    let mut graph = HashGraph::new();
    graph.add_edge(user("a.cpp"), user("dir/b.h"));
    graph.add_edge(user("a.cpp"), user("dir/../dir/b.h"));
    assert_eq!(graph.node_count(), 3);
}

#[test]
fn require_node_returns_the_same_handle() {
    let mut graph = HashGraph::new();
    assert_eq!(graph.require_node(user("a")), 0);
    assert_eq!(graph.require_node(user("b")), 1);
    assert_eq!(graph.require_node(user("a")), 0);
    assert_eq!(graph.require_node(system("a")), 2);
    assert_eq!(graph.node_count(), 3);
    assert_eq!(graph.edge_count(), 0);
}

#[test]
fn find_lists_all_matches_in_handle_order() {
    let graph = complex_graph();
    assert_eq!(graph.find(|n| n.is_system), vec![1, 2, 4, 9]);
    assert_eq!(graph.find(|n| n.path.ends_with(".cpp")).len(), 4);
    assert!(graph.find(|n| n.path == "missing").is_empty());
    assert_eq!(graph.find(|_| true).len(), graph.node_count());
}

#[test]
fn cycle_is_traversed_once() {
    let mut graph = HashGraph::new();
    graph.add_edge(user("A"), user("B"));
    graph.add_edge(user("B"), user("A"));

    let down = graph.filter_included_by(0);
    assert_eq!(names(&down), vec!["A", "B"]);
    assert_eq!(down.edge_list(), vec![(0, 1)]);

    let up = graph.filter_that_includes(0);
    assert_eq!(names(&up), vec!["A", "B"]);
    assert_eq!(up.edge_list(), vec![(1, 0)]);

    let around = graph.filter_bidirectional(0);
    assert_eq!(names(&around), vec!["A", "B"]);
    assert_eq!(around.edge_list(), vec![(0, 1), (1, 0)]);
}

#[test]
fn chain_is_followed_in_the_direction_asked_for() {
    let mut graph = HashGraph::new();
    graph.add_edge(user("A"), user("B"));
    graph.add_edge(user("B"), user("C"));

    let down = graph.filter_included_by(0);
    assert_eq!(names(&down), vec!["A", "B", "C"]);
    assert_eq!(down.edge_list(), vec![(0, 1), (1, 2)]);

    let up = graph.filter_that_includes(2);
    assert_eq!(names(&up), vec!["C", "B", "A"]);
    assert_eq!(up.edge_list(), vec![(1, 0), (2, 1)]);

    let leaf = graph.filter_included_by(2);
    assert_eq!(names(&leaf), vec!["C"]);
    assert_eq!(leaf.edge_count(), 0);

    let top = graph.filter_that_includes(0);
    assert_eq!(names(&top), vec!["A"]);
    assert_eq!(top.edge_count(), 0);
}

#[test]
fn newest_edge_is_followed_first() {
    let mut graph = HashGraph::new();
    graph.add_edge(user("R"), user("X"));
    graph.add_edge(user("R"), user("Y"));
    graph.add_edge(user("X"), user("Z"));
    graph.add_edge(user("Y"), user("Z"));
    let down = graph.filter_included_by(0);
    assert_eq!(names(&down), vec!["R", "Y", "X", "Z"]);
    assert_eq!(down.edge_list(), vec![(0, 1), (0, 2), (1, 3)]);
}

#[test]
fn self_reference_adds_no_edge_to_the_tree() {
    let mut graph = HashGraph::new();
    graph.add_edge(user("A"), user("A"));
    graph.add_edge(user("A"), user("B"));
    let down = graph.filter_included_by(0);
    assert_eq!(names(&down), vec!["A", "B"]);
    assert_eq!(down.edge_list(), vec![(0, 1)]);
}

#[test]
fn handle_that_names_no_node_gives_an_empty_graph() {
    let graph = complex_graph();
    let n = graph.node_count();
    assert_eq!(graph.filter_included_by(n).node_count(), 0);
    assert_eq!(graph.filter_that_includes(n + 7).node_count(), 0);
    let around = graph.filter_bidirectional(usize::MAX);
    assert_eq!(around.node_count(), 0);
    assert_eq!(around.edge_count(), 0);
}

#[test]
fn traversals_of_the_neighbourhood_are_independent() {
    let mut graph = HashGraph::new();
    graph.add_edge(user("A"), user("B"));
    graph.add_edge(user("B"), user("A"));
    graph.add_edge(user("C"), user("B"));
    let around = graph.filter_bidirectional(0);
    assert_eq!(names(&around), vec!["A", "B", "C"]);
    assert_eq!(around.edge_list(), vec![(0, 1), (1, 0), (2, 1)]);
}

#[test]
fn subgraph_shares_nothing_with_its_source() {
    let graph = complex_graph();
    let mut sub = graph.filter_included_by(0);
    sub.add_edge(user("extra"), user("complex/test_1.cpp"));
    assert_eq!(sub.node_count(), 6);
    assert_eq!(graph.node_count(), 10);
    assert!(!graph.contains_node(&user("extra")));
}

#[test]
fn filter_included_by_subgraph() {
    let graph = complex_graph();

    let idx_list = graph.find(|n| n.path.ends_with("test_1.cpp"));
    assert_eq!(idx_list.len(), 1);

    let root_idx = idx_list[0];
    assert_eq!(graph.node(root_idx).unwrap().label(), "\"test_1.cpp\"");

    let subgraph = graph.filter_included_by(root_idx);
    assert_eq!(subgraph.node_count(), 5);

    assert!(subgraph.find(|n| n.label() == "\"test_1.cpp\"").len() == 1);
    assert!(subgraph.find(|n| n.label() == "\"set\"").len() == 1);
    assert!(subgraph.find(|n| n.label() == "\"map\"").len() == 1);
    assert!(subgraph.find(|n| n.label() == "\"inc_1.h\"").len() == 1);
    assert!(subgraph.find(|n| n.label() == "\"vector\"").len() == 1);
}

#[test]
fn filter_that_includes_subgraph() {
    let graph = complex_graph();

    let idx_list = graph.find(|n| n.path.ends_with("inc_1.h"));
    assert_eq!(idx_list.len(), 1);

    let root_idx = idx_list[0];
    assert_eq!(graph.node(root_idx).unwrap().label(), "\"inc_1.h\"");

    let subgraph = graph.filter_that_includes(root_idx);
    assert_eq!(subgraph.node_count(), 4);

    assert!(subgraph.find(|n| n.label() == "\"inc_1.h\"").len() == 1);
    assert!(subgraph.find(|n| n.label() == "\"test_1.cpp\"").len() == 1);
    assert!(subgraph.find(|n| n.label() == "\"b.cpp\"").len() == 1);
    assert!(subgraph.find(|n| n.label() == "\"a.cpp\"").len() == 1);
}

#[test]
fn filter_related_to_subgraph() {
    let graph = complex_graph();

    let idx_list = graph.find(|n| n.path.ends_with("inc_1.h"));
    assert_eq!(idx_list.len(), 1);

    let root_idx = idx_list[0];
    assert_eq!(graph.node(root_idx).unwrap().label(), "\"inc_1.h\"");

    let subgraph = graph.filter_bidirectional(root_idx);
    assert_eq!(subgraph.node_count(), 5);

    assert!(subgraph.find(|n| n.label() == "\"inc_1.h\"").len() == 1);
    assert!(subgraph.find(|n| n.label() == "\"test_1.cpp\"").len() == 1);
    assert!(subgraph.find(|n| n.label() == "\"b.cpp\"").len() == 1);
    assert!(subgraph.find(|n| n.label() == "\"a.cpp\"").len() == 1);
    assert!(subgraph.find(|n| n.label() == "\"vector\"").len() == 1);
}

#[test]
fn node_constructors_agree() {
    assert_eq!(FileNode::new("dir/a.h", true), FileNode::from_path("dir/a.h", true));
    assert_ne!(FileNode::new("dir/a.h", true), FileNode::new("dir/a.h", false));
    let node = FileNode::new("dir/a.h", false);
    assert_eq!(node.path, "dir/a.h");
    assert!(!node.is_system);
    assert_eq!(node.clone(), node);
}

#[test]
fn label_is_the_quoted_file_name() {
    assert_eq!(FileNode::new("dir/sub/a.h", false).label(), "\"a.h\"");
    assert_eq!(FileNode::new("vector", true).label(), "\"vector\"");
    assert_eq!(FileNode::new("dir/say \"hi\".h", false).label(), "\"say \\\"hi\\\".h\"");
    assert_eq!(FileNode::new("dir/..", false).label(), "\"[error getting filename]\"");
    assert_eq!(FileNode::new("", false).label(), "\"[error getting filename]\"");
}
