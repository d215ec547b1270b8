//! What holds of every tree: laws that relate insertion and lookup.

pub mod insertion;
pub mod literal;
pub mod lookup;
pub mod wildcard;
