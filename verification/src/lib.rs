//! Pipeline-composition library: chains of processing links driven over a
//! dynamic or user-defined context, with middleware hooks and conditional
//! branches between links.

pub mod chains;
pub mod context;
pub mod listeners;
pub mod middleware;

pub use chains::Chain;
