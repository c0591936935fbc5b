//! Patching of DMX fixtures: which device sits on which channels of which
//! universe, and what a raw channel byte means for the fixture behind it.

pub mod artnet;
pub mod common_data;
pub mod concurrent;
pub mod degree;
pub mod fixturestore;
pub mod sharing;
pub mod sorted;
pub mod text;
pub mod u9;
