//! A task-graph execution engine.
//!
//! A directed acyclic graph of tasks is validated (emptiness, closed
//! predecessor references, acyclicity), ordered topologically, and executed;
//! each task receives the output envelopes of its declared predecessors, in
//! declaration order, together with a shared read-only environment.  An
//! engine keeps a named registry of such graphs and runs them singly or in
//! insertion order.

pub mod values;
pub mod env;
pub mod task;
pub mod graph;
pub mod dag;
pub mod engine;
pub mod yaml;

pub use values::{Content, Input, Output};
pub use env::EnvVar;
pub use task::{Complex, ClosureAction, DefaultTask};
pub use dag::Dag;
pub use engine::{DagError, Engine};
pub use yaml::{FileContentError, FileNotFound, RawEntry, YamlParser, YamlTaskError};
