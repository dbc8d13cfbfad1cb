//! Induction of classification trees from labelled tables of categorical
//! attributes, by entropy and information gain.
//!
//! Entropy and gain are kept as exact quotients of integer products, so
//! every comparison that the induction makes is exact, and the contracts of
//! the library are proved for every table.
//!
//! - `dataset`: the training table and how records become one.
//! - `delimited`: reading the records from comma-separated text.
//! - `bignat`, `information`: exact amounts of information.
//! - `stats`: label counts, most common label, entropy, information gain.
//! - `induce`: the choice of the attribute to split on, and the tree.
//! - `tree`: the tree and its text.
//! - `laws`, `split_laws`, `gain_laws`, `inequality`: what holds of entropy,
//!   of gain and of every grown tree.

pub mod bignat;
pub mod dataset;
pub mod delimited;
pub mod gain_laws;
pub mod induce;
pub mod inequality;
pub mod information;
pub mod laws;
pub mod split_laws;
pub mod stats;
pub mod tree;

pub use crate::dataset::{Attribute, DataError, InputData, Row};
pub use crate::induce::ida3;
pub use crate::tree::{DecisionTree, Node};
