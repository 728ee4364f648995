//! A generational arena of strings: values are filed under handles, and a
//! handle goes stale for good when its value is removed, even where a later
//! value takes over the slot.

pub mod arena;
pub mod handle;
pub mod laws;
pub mod model;
pub mod shared;
pub mod store;

pub use arena::StringArena;
pub use handle::Handle;
pub use shared::Shared;
