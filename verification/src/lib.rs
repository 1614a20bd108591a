//! Integer core of a voxel diorama renderer: binary PPM images, texture
//! lookups, ASCII tile maps and frame bookkeeping.

pub mod decimal;
pub mod frame;
pub mod image;
pub mod ppm;
pub mod text;
pub mod tilemap;
pub mod utf8;
