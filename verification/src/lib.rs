//! Filtered trees of Markdown notes and a line search over them.
//!
//! A caller reads what lies below a directory into a [`snapshot`] and hands
//! it to [`tree::scan_directory`], which builds the tree of the documents
//! below the directory, or to [`search::grep_directory`], which finds the
//! lines of those documents that hold a query. Both go by one policy, in
//! [`filter`]: a document is a file with the extension `md` or `mdc`, and a
//! directory named like a dependency cache, a build output or a
//! version-control store is left out with all beneath it.
//!
//! What holds of every tree is stated in [`tree_laws`], what holds of every
//! search in [`search_laws`], and what the two have in common as to
//! directories that are left out in [`exclusion`].

pub mod commands;
pub mod error;
pub mod exclusion;
pub mod filter;
pub mod matching;
pub mod node;
pub mod order;
pub mod root;
pub mod search;
pub mod search_laws;
pub mod snapshot;
pub mod text;
pub mod tree;
pub mod tree_laws;
pub mod walk;
