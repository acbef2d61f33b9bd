//! Dependency graph engine for C and C++ source trees: extraction of the
//! directives that pull one file into another, resolution of the referenced
//! paths, a graph store keyed by file identity, and the breadth-first
//! extraction of the files above, below and around a given file.

pub mod digraph;
pub mod dot_writer;
pub mod file_node;
pub mod find_includes;
pub mod hash_graph;
pub mod name_filter;
pub mod path_utils;
pub mod platform;
pub mod text;
pub mod traversal;
