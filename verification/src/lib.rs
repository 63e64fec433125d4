//! Reads the tree of an Org document from its dump in Lisp printer syntax,
//! and gives every node the lines and characters of the document that it
//! covers.
//!
//! `sexp` reads the dump into tokens, held to the grammar of `grammar`;
//! `owner_tree` builds the tree from the tokens, held to `tree_model`;
//! `printing` shows that what is written down from tokens reads back as the
//! same tokens.
pub mod error;
pub mod grammar;
pub mod number;
pub mod owner_tree;
pub mod padding;
pub mod parse;
pub mod printing;
pub mod quoting;
pub mod rtrim_iterator;
pub mod sexp;
pub mod slices;
pub mod tree_model;
