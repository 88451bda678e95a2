//! The fixed-buffer allocator: an arena cut into segments, segments cut into pages, pages cut
//! into equal blocks, and a cache per processor on top.

pub mod laws;
pub mod page;
pub mod segment;
pub mod arena;
pub mod pool;
pub mod tcache;
