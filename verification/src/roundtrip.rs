//! What is written is read back: the writer's bytes and the reader's view of them,
//! brought together.

pub mod chunks;
pub mod datasets;
pub mod file;
pub mod header;
pub mod held;
pub mod listing;
pub mod messages;
pub mod objects;
pub mod parts;
pub mod placed;
pub mod references;
pub mod strings;
pub mod table;
pub mod values;
pub mod writer;
