//! Generator of worst-case indexed images for greedy palette-packing
//! heuristics.
//!
//! The library builds, for a requested sub-palette size, an ordered sequence
//! of proto-palettes (the color-index subsets single tiles are allowed to
//! use), expands them into an indexed pixel buffer, and picks a displayable
//! color description for every index. Writing the buffer out as an image
//! file is left to the binary around the library.

pub mod colors;
pub mod combo;
pub mod design;
pub mod render;
pub mod tiles;
