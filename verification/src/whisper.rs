//! The storage engine: points, retention schemas, the file header and the
//! arithmetic that places a point in an archive.

pub mod endian;
pub mod file;
pub mod point;
pub mod schema;
