//! Conversion of raster images into hardware tile graphics: a small set of
//! palettes, a bounded set of indexed tiles and a tilemap of (tile, palette)
//! pairs.
//!
//! Colours are perceptual (L, a, b) triples held in fixed point: one unit is
//! `1 / COLOR_SCALE` of the perceptual scale. Every stage of the pipeline is a
//! function from plain values to plain values; the clustering step and the
//! conversion from and to sRGB are done by the caller, which hands the
//! cluster assignments back in.
//!
//! - `color`: the colour type, the colour difference, greedy merging of
//!   similar colours.
//! - `tiling`: settings, errors, the partition of an image into tiles.
//! - `palette`: clustering features, candidate colours per cluster,
//!   reduction, ordering of the palettes.
//! - `quantize`: palette choice per tile, dithered quantization, packing.
//! - `tilemap`: unique tiles, the (tile, palette) search, tilemap words.
//! - `output`: the rendered image and the hexadecimal text files.
//! - `metrics`: per-pixel differences and per-channel squared error.
//! - `order`: stable ordering by integer keys.
//! - `gamma`: shift-and-add fits of the gamma curve.
//! - `vdp`: state of the emulated display processor.
pub mod color;
pub mod order;
pub mod gamma;
pub mod tiling;
pub mod palette;
pub mod quantize;
pub mod tilemap;
pub mod output;
pub mod metrics;
pub mod vdp;
