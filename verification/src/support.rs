//! Support collections: integer lookup sets and token-set signatures.

pub mod filter;
pub mod lookup;
pub mod signature;
