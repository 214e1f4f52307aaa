//! The pairing-friendly curve: its scalar field and its first source group.

pub mod fr;
pub mod g1;
pub mod reduction;
