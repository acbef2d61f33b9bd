//! The identity of a tracked file.

use vstd::prelude::*;
use crate::platform::{debug_quote, file_name_of, path_file_name, quoted};

verus! {

/// The identity of a tracked file as contracts see it: the characters of its
/// path, and whether it was referenced between angle brackets.
pub type NodeKey = (Seq<char>, bool);

/// A tracked file: the key under which the graph stores a node.
///
/// Two nodes are the same file exactly when both fields agree. No path is
/// canonicalized here: two spellings of one file are two nodes.
#[derive(Debug, PartialEq, Eq, Hash)]
pub struct FileNode {
    pub path: String,
    pub is_system: bool,
}

impl View for FileNode {
    type V = NodeKey;

    open spec fn view(&self) -> NodeKey {
        (self.path@, self.is_system)
    }
}

/// The name under which a file is shown: the final component of its path
/// between double quotes, or a fixed text where the path has none.
pub open spec fn label_of(key: NodeKey) -> Seq<char> {
    match file_name_of(key.0) {
        Some(name) => quoted(name),
        None => quoted("[error getting filename]"@),
    }
}

impl Clone for FileNode {
    fn clone(&self) -> (copy: Self)
        ensures
            copy == *self,
    {
        FileNode { path: self.path.clone(), is_system: self.is_system }
    }
}

impl FileNode {
    /// A node for a file named as it was spelled in a directive.
    pub fn new(name: &str, is_sys: bool) -> (node: FileNode)
        ensures
            node@ == (name@, is_sys),
    {
        FileNode { path: name.to_owned(), is_system: is_sys }
    }

    /// A node for a file found at `path`.
    pub fn from_path(path: &str, is_sys: bool) -> (node: FileNode)
        ensures
            node@ == (path@, is_sys),
    {
        FileNode { path: path.to_owned(), is_system: is_sys }
    }

    /// The name under which the file is shown.
    pub fn label(&self) -> (text: String)
        ensures
            text@ == label_of(self@),
    {
        match path_file_name(self.path.as_str()) {
            Some(name) => debug_quote(name.as_str()),
            None => debug_quote("[error getting filename]"),
        }
    }
}

} // verus!
