//! Task-tracking engine: a task store with dependency edges, a status state
//! machine, and a readiness view, all behind one facade.
//!
//! Tasks carry monotonically increasing ids, a status drawn from a fixed set
//! of states, and a set of dependency edges that always point at existing,
//! earlier tasks; the facade keeps those invariants across every operation.

pub mod codec;
pub mod graph;
pub mod manager;
pub mod ready;
pub mod status;
pub mod types;
