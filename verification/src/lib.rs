//! Decoder for a chunk-based binary scene format: a stream of typed,
//! length-tagged records that describes meshes and actor hierarchies.

pub mod support;
