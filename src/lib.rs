//! Length-prefixed key/value records laid out in a flat byte region, such as
//! a memory-mapped file shared by one writer and one reader.

mod bytes;
pub mod codec;
pub mod segment;
pub mod workload;
