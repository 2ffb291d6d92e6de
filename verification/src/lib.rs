//! Verified core of a voxel dungeon game: a randomized generator of connected
//! room layouts, the flood-fill connectivity analysis that drives it, and the
//! conversion of the remaining walls into voxels. Beside it stand a few
//! small pieces of bookkeeping that the game client and server share.

pub mod direction;
pub mod grid;
pub mod connectivity;
pub mod random;
pub mod generator;
pub mod components;
pub mod voxel;
pub mod mapgen;
pub mod emit;
pub mod character;
pub mod fpscounter;
pub mod uid;
