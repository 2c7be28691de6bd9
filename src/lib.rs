//! Bundles a competitive-programming problem together with the library code it
//! uses into a single source file.
//!
//! The library holds the bundler's logic: the index of used module paths and
//! re-export aliases, the crate index, the syntax model of a source file and
//! the three phases that index re-exports, scan the entry file and expand the
//! used modules of each library crate.

pub mod canonical;
pub mod path_index;
pub mod syntax;
pub mod syn_bridge;
pub mod source;
pub mod imports;
pub mod error;
pub mod source_tree;
pub mod crates;
pub mod phases;
pub mod expand;
pub mod rewrite;
pub mod scaffold;
