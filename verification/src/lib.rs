//! Reachability queries over a GraphQL introspection schema.
//!
//! The schema is modelled as a graph whose nodes are named types and whose
//! edges are object-valued fields.  A breadth-first search finds, for each
//! requested target, the shortest chain of fields that leads from a root
//! operation type ("Query" or "Mutation") to the target, and a small
//! formatting layer turns such chains into display lines, hiding relay
//! pagination scaffolding unless asked to show it.

pub mod render;
pub mod schema;
pub mod search;
pub mod text;
