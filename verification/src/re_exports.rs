//! The outside crates whose types the library's stacks use.
pub use heapless;
pub use smallvec;
