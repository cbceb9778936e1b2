//! Partition attributed elements into groups of permitted sizes, maximising
//! the pairwise compatibility score built from declarative rules.
pub mod connections;
pub mod matching;
pub mod rules;
pub mod search;
pub mod text;
