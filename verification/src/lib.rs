//! Splitting joined artist credits into the individual artists they name.

pub mod text;
pub mod markers;
pub mod artist;
pub mod laws;
pub mod album;
