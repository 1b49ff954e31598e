//! In-memory RGB raster images: blank canvases, pixel-level mutation,
//! filled circles, compositing, color-keyed recoloring, and PNG
//! decoding/encoding through external codecs.

pub mod codec;
pub mod images;
