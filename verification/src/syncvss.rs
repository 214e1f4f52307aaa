//! Building blocks of the synchronous variant: non-interactive proofs.

pub mod nizkp;
