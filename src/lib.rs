//! An in-process publish/subscribe core built from Entities, Environments and
//! Effects, kept in one registry (the Supervisor) and driven by polls.
pub mod effect;
pub mod entity;
pub mod environment;
pub mod errors;
pub mod inbox;
pub mod laws;
pub mod supervisor;
pub mod transform;
