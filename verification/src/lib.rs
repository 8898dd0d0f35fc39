//! A two-level segregated-fit sub-allocator over a fixed byte arena, together
//! with simpler first-fit allocators that hand out offsets of an arena.

pub mod arena;
pub mod block;
pub mod firstfit;
pub mod index;
pub mod invariants;
mod layout;
pub mod mapping;
pub mod measure;
pub mod meta;
pub mod model;
pub mod simple;
pub mod tlsf;
pub mod virtual_malloc;
