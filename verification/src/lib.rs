//! Rust documentation lookup: section extraction from mdBook pages,
//! fuzzy ranking, query routing and Discord-sized rendering.

pub mod text;
pub mod bot;
pub mod docs;
pub mod skills;
pub mod ai;
pub mod config;
pub mod context7;
