//! A dynamically tagged value tree together with the two conversion engines
//! that move data between that tree and typed values: a builder that folds a
//! stream of visitor primitives into one tree, and a consumer that replays a
//! tree as primitives, one per node. A positional byte iterator that tracks
//! line and column rounds out the crate.

pub mod de;
pub mod error;
pub mod iter;
pub mod ser;
pub mod value;
