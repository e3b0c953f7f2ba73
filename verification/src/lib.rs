//! A library for lossless syntax trees: immutable, structurally shared
//! ("hash-consed") green trees in which every byte of the original text is
//! preserved.
//!
//! The building blocks are [`Token`](green::Token) (a leaf carrying a kind tag
//! and its exact source text) and [`Node`](green::Node) (an interior element
//! carrying a kind tag and an ordered sequence of children). Trees are
//! constructed through [`green::Builder`], which deduplicates structurally
//! equal subtrees, or top-down through [`green::TreeBuilder`].

pub mod green;
mod utils;

pub use crate::utils::{Kind, NodeOrToken, TextSize};
