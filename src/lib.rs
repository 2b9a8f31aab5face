//! Recovery of a lost cache-to-origin block mapping by content.
//!
//! The origin device is fingerprinted block by block into a persistent
//! open-addressing hash index; the blocks of a cache device are then
//! fingerprinted again, looked up, and mapped by positional voting.
pub mod digest;
pub mod error;
pub mod index;
pub mod laws;
pub mod layout;
pub mod mapper;
pub mod probe;
pub mod scan;
