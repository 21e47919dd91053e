//! Core of a supervisor for a long-lived external detection engine.
//!
//! The library holds the decision logic: resolving the engine's interpreter
//! and entry script, tracking the single engine instance, classifying the
//! engine's output lines, debouncing alert presentation, and keeping a
//! durable per-day trigger ledger with weekly windowed queries. All file,
//! process and window work is left to the surrounding application, which
//! feeds plain values in and carries the decisions out.

pub mod alert;
pub mod date;
pub mod ledger;
pub mod relay;
pub mod resolver;
pub mod shell;
pub mod stats;
pub mod supervisor;
