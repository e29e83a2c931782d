//! Ordered task store: projects, tasks nested under projects, and reusable
//! checklist items linked into tasks, each collection kept in a dense,
//! user-controlled 1..N ordering.

pub mod model;
pub mod sequence;
pub mod store;
