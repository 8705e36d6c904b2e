//! Builds a size-bounded context bundle around one target function of a
//! source tree: ranks files by how they relate to the function, collapses
//! unrelated top-level blocks, and assembles the result within a budget.

pub mod text;
pub mod pattern;
pub mod collapse;
pub mod classify;
pub mod assemble;
