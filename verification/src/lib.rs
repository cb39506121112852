//! Subtitle decomposition into tiles: SRT and WebVTT files become tiles,
//! tiles are transformed, and tiles become SRT or WebVTT again.
pub mod decomposer;
pub mod format;
pub mod laws;
pub mod number;
pub mod text;
pub mod tile;
pub mod timestamp;
pub mod transform;

pub use decomposer::SubtitleDecomposer;
pub use tile::{Metadata, SubFormat, SubtitleTile};
