//! Freecut: dimension notation and project files for a cut-list optimizer.

pub mod dim;
pub mod domain;
pub mod optimizer;
pub mod project_io;
