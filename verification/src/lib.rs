//! A hierarchical timing wheel, a buddy allocator for I/O buffers and the
//! small pieces of runtime logic around them, with their contracts.

pub mod time;
pub mod num;
pub mod error;
pub mod config;
pub mod task;
pub mod index;
pub mod wheel;
pub mod laws;
pub mod buffer;
pub mod buddy;
pub mod open_options;
pub mod blocking;
pub mod context;
