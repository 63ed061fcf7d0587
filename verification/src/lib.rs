//! A cohesive fressian library: values, uuids and persistent vectors.

pub mod memory;
pub mod nibble;
pub mod uuid;
pub mod value;
pub mod vector;

pub use value::Value;

