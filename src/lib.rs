//! Interface types held in an index-addressed arena, and a verified
//! compatibility check between two versions of a service interface.

pub mod types;
pub mod subtype;
pub mod target;
pub mod laws;
