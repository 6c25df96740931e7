//! Terrain and wave-direction core of a top-down naval game.
//!
//! One square chunk of the world is a grid of elevations. A cell is land
//! where its elevation lies above the water level. From the height field a
//! direction field is derived: for every water cell, the mean of the vectors
//! that point to it from the nearest land. World positions map to cells as if
//! the chunk tiled the plane. Both fields are handed to the renderer as
//! textures of binary32 numbers, and the land to the physics engine as one
//! square collider per cell.
//!
//! Numbers that the renderer reads as single-precision floats are held here
//! as their bit patterns; [`single`] gives the patterns their meaning.

pub mod height;
pub mod single;
pub mod texture;
pub mod waves;
