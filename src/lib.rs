//! Declarative route registration: validated route descriptors, a one-shot
//! registry, middleware composition and assembly into a dispatch table.

pub mod descriptor;
pub mod compose;
pub mod registry;
pub mod assemble;
pub mod laws;
