//! Universes, the devices placed in them, and the fixtures the devices are
//! instances of.

pub mod channel;
pub mod fixture;
pub mod universe;
