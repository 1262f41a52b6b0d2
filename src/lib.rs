//! Read-Log-Update: readers traverse shared objects without blocking while
//! writers work on per-thread copies and publish them in one commit.

pub mod rlu;
pub mod rlu_set;
