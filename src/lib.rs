//! Splits a triangle mesh into its connected solids: two triangles belong to
//! the same solid when a chain of triangles, each sharing a vertex with the
//! next, links them.
pub mod mesh;
pub mod chain;
pub mod partition;
pub mod laws;
