//! A personal time-tracking library.
//!
//! Work intervals ("frames") are labelled with tags. At most one interval is
//! open at a time; stopping it turns it into an immutable frame whose
//! identity is derived from its content. Frames are persisted as whole
//! documents, and can be filtered by time range, ordered, and rendered into
//! several output encodings.

pub mod codec;
pub mod errors;
pub mod frame;
pub mod hashing;
pub mod query;
pub mod render;
pub mod settings;
pub mod storage;
pub mod tags;
pub mod text;
pub mod tracker;
pub mod ts;
