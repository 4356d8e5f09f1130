//! Conversions for dag-pb nodes: between the typed node, its protobuf wire
//! encoding and the generic tree value model.
pub mod ident;
pub mod varint;
pub mod node;
pub mod wire;
pub mod generic;
pub mod convert;
pub mod roundtrip;
