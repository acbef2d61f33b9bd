use include_graph::file_node::FileNode;
use include_graph::find_includes::{
    add_file_includes, find_absolute_include_path, find_includes_in_tree, is_wanted, resolve_reference, SourceFile,
    Unresolved,
};
use include_graph::hash_graph::HashGraph;
use include_graph::name_filter::NameFilter;

fn file(path: &str, text: &str) -> SourceFile {
    SourceFile::new(path.to_string(), text.to_string()).unwrap()
}

#[test]
fn source_file_takes_its_directory_from_its_path() {
    let f = file("/usr/a.cpp", "text");
    assert_eq!(f.path, "/usr/a.cpp");
    assert_eq!(f.dir, "/usr");
    assert_eq!(f.text, "text");
    assert_eq!(file("a.cpp", "").dir, "");
    assert!(SourceFile::new("".to_string(), "".to_string()).is_none());
    assert!(SourceFile::new("/".to_string(), "".to_string()).is_none());
}

#[test]
fn simple_tree() {
    let files = vec![file("/usr/a.cpp", "#include \"bin\"\n"), file("/usr/bin", "")];
    let scan = find_includes_in_tree(&files, &vec![], true, true, &None);
    assert_eq!(scan.graph.node_count(), 2);
    assert_eq!(scan.graph.edge_count(), 1);
    assert_eq!(scan.graph.node(0), Some(&FileNode::new("/usr/a.cpp", false)));
    assert_eq!(scan.graph.node(1), Some(&FileNode::new("/usr/bin", false)));
    assert_eq!(scan.graph.edge_list(), vec![(0, 1)]);
    assert!(scan.unresolved.is_empty());
}

#[test]
fn unresolved_reference_is_kept_and_reported() {
    let files = vec![file("/usr/a.cpp", "#include \"missing.h\"\n")];
    let scan = find_includes_in_tree(&files, &vec!["/no/such/directory".to_string()], true, true, &None);
    assert_eq!(scan.graph.node_count(), 2);
    assert_eq!(scan.graph.edge_count(), 1);
    assert_eq!(scan.graph.node(0), Some(&FileNode::new("/usr/a.cpp", false)));
    assert_eq!(scan.graph.node(1), Some(&FileNode::new("missing.h", false)));
    assert_eq!(
        scan.unresolved,
        vec![Unresolved { file: "/usr/a.cpp".to_string(), reference: "missing.h".to_string() }]
    );
}

#[test]
fn disabled_kind_is_not_followed() {
    let files = vec![file("/usr/a.cpp", "#include <vector>\n")];
    let scan = find_includes_in_tree(&files, &vec![], true, false, &None);
    assert_eq!(scan.graph.node_count(), 1);
    assert_eq!(scan.graph.edge_count(), 0);
    assert_eq!(scan.graph.node(0), Some(&FileNode::new("/usr/a.cpp", false)));
    assert!(scan.unresolved.is_empty());

    let scan = find_includes_in_tree(&files, &vec![], false, true, &None);
    assert_eq!(scan.graph.node_count(), 2);
    assert_eq!(scan.graph.node(1), Some(&FileNode::new("vector", true)));
    assert_eq!(scan.unresolved.len(), 1);
}

#[test]
fn excluded_names_are_not_followed() {
    let files = vec![file("/usr/a.cpp", "#include \"gen_x.h\"\n#include \"y.h\"\n")];
    let filter = Some(NameFilter::new("^gen_").ok().unwrap());
    let scan = find_includes_in_tree(&files, &vec![], true, true, &filter);
    assert_eq!(scan.graph.node_count(), 2);
    assert_eq!(scan.graph.node(1), Some(&FileNode::new("y.h", false)));
    assert_eq!(scan.graph.edge_count(), 1);
}

#[test]
fn resolved_reference_keeps_its_kind() {
    let files = vec![file("/no/such/a.cpp", "#include <bin>\n#include \"bin\"\n#include <bin>\n")];
    let scan = find_includes_in_tree(&files, &vec!["/usr".to_string()], true, true, &None);
    assert_eq!(scan.graph.node_count(), 3);
    assert_eq!(scan.graph.node(1), Some(&FileNode::new("/usr/bin", true)));
    assert_eq!(scan.graph.node(2), Some(&FileNode::new("/usr/bin", false)));
    assert_eq!(scan.graph.edge_list(), vec![(0, 1), (0, 2), (0, 1)]);
    assert!(scan.unresolved.is_empty());
}

#[test]
fn files_of_a_tree_share_their_nodes() {
    let files = vec![
        file("/usr/a.cpp", "#include \"bin\"\n#include <vector>\n"),
        file("/usr/b.cpp", "#include <vector>\n#include \"bin\"\n"),
        file("/usr/c.cpp", "int main() {}\n"),
    ];
    let scan = find_includes_in_tree(&files, &vec![], true, true, &None);
    assert_eq!(scan.graph.node_count(), 5);
    assert_eq!(scan.graph.edge_count(), 4);
    assert_eq!(scan.graph.edge_list(), vec![(0, 1), (0, 2), (3, 2), (3, 1)]);
    assert_eq!(scan.graph.node(4), Some(&FileNode::new("/usr/c.cpp", false)));
    assert_eq!(scan.unresolved.len(), 2);
    assert_eq!(scan.unresolved[0].file, "/usr/a.cpp");
    assert_eq!(scan.unresolved[1].file, "/usr/b.cpp");
}

#[test]
fn empty_tree_gives_an_empty_graph() {
    let scan = find_includes_in_tree(&vec![], &vec![], true, true, &None);
    assert_eq!(scan.graph.node_count(), 0);
    assert_eq!(scan.graph.edge_count(), 0);
    assert!(scan.unresolved.is_empty());
}

#[test]
fn one_file_is_added_to_a_graph_that_holds_others() {
    let mut graph = HashGraph::new();
    graph.add_edge(FileNode::new("x.cpp", false), FileNode::new("/usr/bin", false));
    let mut unresolved = Vec::new();
    add_file_includes(&mut graph, &mut unresolved, &file("/usr/a.cpp", "#include \"bin\"\n"), &vec![], true, true, &None);
    assert_eq!(graph.node_count(), 3);
    assert_eq!(graph.edge_list(), vec![(0, 1), (2, 1)]);
    assert!(unresolved.is_empty());
}

#[test]
fn reference_is_wanted_by_kind_and_name() {
    let user = FileNode::new("a.h", false);
    let system = FileNode::new("vector", true);
    assert!(is_wanted(&user, true, false, &None));
    assert!(!is_wanted(&user, false, true, &None));
    assert!(is_wanted(&system, false, true, &None));
    assert!(!is_wanted(&system, true, false, &None));
    assert!(!is_wanted(&system, false, false, &None));
    let filter = Some(NameFilter::new("vec").ok().unwrap());
    assert!(!is_wanted(&system, true, true, &filter));
    assert!(is_wanted(&user, true, true, &filter));
}

#[test]
fn reference_resolves_to_the_file_found_or_to_itself() {
    let reference = FileNode::new("sub/a.h", true);
    assert_eq!(
        resolve_reference(&reference, Some("/root/sub/a.h".to_string())),
        (FileNode::new("/root/sub/a.h", true), true)
    );
    assert_eq!(resolve_reference(&reference, None), (FileNode::new("sub/a.h", true), false));
}

#[test]
fn reference_is_looked_for_beside_the_file_first() {
    let reference = FileNode::new("bin", false);
    let found = find_absolute_include_path(&reference, "/usr", &vec!["/usr/.".to_string()]);
    assert_eq!(found, (FileNode::new("/usr/bin", false), true));
    let missing = FileNode::new("no/such/file.h", true);
    let found = find_absolute_include_path(&missing, "/usr", &vec![]);
    assert_eq!(found, (missing, false));
}
