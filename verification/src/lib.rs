//! A spatial tile streaming cache for large tiled terrain worlds.
//!
//! The library turns a continuous viewpoint position into discrete grid
//! coordinates (coarse tiles and fine cells), computes which tiles must be
//! resident around the viewpoint, reconciles that desired window against the
//! current cache state, integrates asynchronously completed loads, evicts
//! tiles that fall out of range while releasing the presentation resources
//! they own, and maintains a derived lookup from cell coordinates to the
//! resident unit occupying them.

pub mod assoc;
pub mod cache;
pub mod cell_index;
pub mod coordinates;
pub mod materials;
pub mod window;
