//! Mutual exclusion for a kernel that runs on one core.

pub mod mutex;
