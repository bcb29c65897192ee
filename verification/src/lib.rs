//! Bidirectional type checking for higher-rank polymorphism, after
//! "Complete and Easy Bidirectional Typechecking for Higher-Rank Polymorphism"
//! (Dunfield and Krishnaswami).
pub mod syntax;
pub mod vector;
pub mod context;
pub mod algorithm;
pub mod builders;
pub mod laws;
pub mod render;
pub mod freshness;
pub mod extension;
pub mod rules;
pub mod instantiation;
