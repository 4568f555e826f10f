//! A trace-driven simulator of multi-level CPU cache hierarchies.

pub mod bits;
pub mod cache;
pub mod cachemeta;
pub mod direct;
pub mod fullassoc;
pub mod hierarchy;
pub mod json_config;
pub mod min_heap;
pub mod n_way;
pub mod results;
pub mod split;
mod tag_map;
pub mod trace;

pub use cache::{Cache, MainMemory};
pub use cachemeta::CacheMeta;
pub use direct::DirectCache;
