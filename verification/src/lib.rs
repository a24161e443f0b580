//! Symmetric nearest-neighbour matching of binary feature descriptors under
//! Hamming distance.

pub mod descriptor;
pub mod error;
pub mod index;
pub mod matcher;
pub mod neighbor;
mod linear;
mod ranking;
