//! A purely functional red-black tree workbench: the tree operations
//! (insert and join-based, fuel-bounded delete), the structural-validity
//! oracle, executable property predicates with proved verdicts, and a
//! parenthesized textual codec, together with two companion workloads:
//! a plain binary search tree and a simply typed lambda calculus.

pub mod rbt_tree;
pub mod rbt_delete;
pub mod rbt_oracle;
pub mod rbt_model;
pub mod rbt_inv;
pub mod rbt_props;
pub mod rbt_codec;
pub mod bst;
pub mod stlc;
pub mod stlc_parser;
pub mod stlc_props;
