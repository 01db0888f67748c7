//! An in-memory index of a filesystem subtree, for recursive disk-usage
//! reporting and detection of files with byte-identical content.
//!
//! The index is built once, by driving [`builder::TreeBuilder`] with
//! filesystem observations, and is immutable thereafter. The resulting
//! [`FileTree`] offers a read-only query surface (root, children, recursive
//! aggregate size, file listing, raw entry lookup), traversal policies that
//! render it line by line, and a data-parallel grouper that partitions the
//! files into groups of byte-identical content by their signatures.

pub mod builder;
pub mod duplicates;
pub mod path_map;
pub mod render;
pub mod signature;
pub mod size;
pub mod tree;

pub use size::Size;
pub use tree::EntryNode;
pub use tree::FileTree;
