//! Bidirectional type checking for higher-rank polymorphism, following the
//! algorithmic system of Dunfield and Krishnaswami, "Complete and Easy
//! Bidirectional Typechecking for Higher-Rank Polymorphism".
#![allow(non_snake_case)]

pub mod types;
pub mod context;
pub mod semantics;
pub mod algorithm;
pub mod bounded;
pub mod syntax;
pub mod laws;
pub mod deep_fresh;
pub mod extension;
pub mod rules;
pub mod instantiation;
