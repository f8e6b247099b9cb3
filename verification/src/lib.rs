//! Sprite atlases for a 2D game: finding the animation frames that are packed
//! on a magenta background, reading the metadata that an atlas may carry in
//! its pixels, inferring how much transparent border to trim from the frames,
//! and picking the frame and the rectangles for a draw call.
//!
//! The path through the crate: [`grid::PixelGrid`] holds the decoded image,
//! [`scan::find_blobs`] segments it, [`meta::try_parse_as_metablob`] reads
//! metadata, [`padding::infer_blob_padding`] stands in where there is none,
//! and [`frames`] maps a time to a frame and its rectangles. [`anim::Anim`]
//! ties them together.

pub mod anim;
pub mod blob;
pub mod color;
pub mod entity;
pub mod flood;
pub mod frames;
pub mod grid;
pub mod log;
pub mod meta;
pub mod music;
pub mod order;
pub mod padding;
pub mod region;
pub mod rings;
pub mod scan;
pub mod spiral;
pub mod u32_bool;
