//! Leak severity of an audited decision.
pub mod report;

pub use report::LeakSeverity;
