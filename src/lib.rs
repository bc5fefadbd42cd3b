//! A spatial index: an adaptive partition tree over integer positions, a
//! Z-order codec that turns coordinates into ordered keys, and the window
//! logic that rebuilds an in-memory tree from a scan of stored keys.
pub mod bits;
pub mod error;
pub mod geometry;
pub mod morton;
pub mod spacetree;
pub mod window;
