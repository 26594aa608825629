//! A texture-atlas packer: places a batch of rectangular images onto a single
//! fixed-size canvas without overlap, using a guillotine binary-split tree over
//! the free regions of the canvas.

pub mod errors;
pub mod node;
pub mod packer;
pub mod rect;
pub mod render;
pub mod sort;
pub mod sprite;
