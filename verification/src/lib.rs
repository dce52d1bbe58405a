//! An LRU-K eviction policy for a fixed pool of in-memory frames.
//!
//! The replacer tracks, for every frame it knows about, the timestamps of the
//! frame's most recent accesses (at most `k` of them) together with an
//! evictability flag, and answers "which frame should be evicted next?" by
//! picking the evictable frame whose ranking key — the pair (number of
//! retained accesses, least-recent retained timestamp) — is smallest in
//! lexicographic order.

pub mod laws;
pub mod model;
pub mod replacer;

pub use replacer::AccessType;
pub use replacer::LRUKReplacer;
