//! Fetch and render the dependency tree of a package, up to a bounded depth.
//!
//! The traversal is driven from outside: the fetcher asks for one package at
//! a time, the caller answers with the registry's data, and the fetcher
//! builds a visited cache and a directed graph of (name, url) nodes. Once
//! the traversal is finished the graph renders an indented, color-coded
//! tree of the dependencies.

pub mod cli;
pub mod dependency_graph;
pub mod fetcher;
pub mod package;
