pub mod priority_function;
pub mod store;
pub mod cache;

pub use cache::{AccessCountAndPriority, Cache, CacheInvalidationError};
pub use store::{CachedFile, FileStats};
pub use priority_function::{default_priority_function, DefaultPriority, PriorityFunction};
