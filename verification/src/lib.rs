//! Locating text-like regions in a bitmap.
//!
//! A picture is turned into an activation map of its local contrast
//! (`activation`, with `stats` for a summary of the map). The pixels of
//! the map that reach a threshold are grouped into clusters of neighbours
//! (`components`, over the notions of `connectivity`). Each cluster gets
//! its bounding rectangle (`geometry`); the lines that are too small, too
//! short or too hollow are dropped (`sanitise`); and a line under which
//! the picture shows exactly two tones is taken for text (`classify`).
//! `render` paints lines and rectangles, and `pipeline` states how the
//! stages fit together.
//!
//! Pixels live in a `bitmap::Bitmap`. `window`, `region` and `sequences`
//! hold what several stages share.

pub mod activation;
pub mod bitmap;
pub mod classify;
pub mod components;
pub mod connectivity;
pub mod geometry;
pub mod pipeline;
pub mod region;
pub mod render;
pub mod sanitise;
pub mod sequences;
pub mod stats;
pub mod window;
