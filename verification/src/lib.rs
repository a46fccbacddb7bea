//! Comet: a garbage-collection toolkit.
//!
//! The library keeps the heap-management logic of the collectors (block and line
//! bookkeeping, bump allocation, marking, weak references, thresholds) and the
//! collection types that live on the heap, each stated over a mathematical model.

pub mod align;
pub mod allocation_config;
pub mod array;
pub mod bump_pointer_space;
pub mod card_table;
pub mod fnv;
pub mod gc_base;
pub mod hash_map;
pub mod header;
pub mod heap;
pub mod immix;
pub mod immix_heap;
pub mod immix_space;
pub mod immix_alloc;
pub mod minimark;
pub mod semispace;
pub mod size_classes;
pub mod space;
pub mod str;
pub mod string;
pub mod tlab;
pub mod vector;
