//! Typed property values and their wire form.

pub mod reader;
pub mod serialize;
pub mod unique;
pub mod variant;
pub mod wire;
pub mod writer;
