//! Typed, sortable handles for the GATT attributes (services, characteristics
//! and descriptors) that the BlueZ daemon names by object paths.

pub mod handle;
pub mod path;

pub use handle::{BlueZHandle, BlueZType};
pub use path::ParseError;
