pub mod format;
pub mod laws;
pub mod lru;
pub mod model;
pub mod persist;
