//! Verified core of the ranim animation toolkit: the order-preserving
//! resizing helpers, the morph animation constructor, the command line
//! decisions, the render packet store and render graph, the texture
//! readback layout, the output writer configuration, the timeline grid,
//! the typst text, cache and SVG helpers, the derive path resolution, the
//! example site helpers and the anchors.

pub mod utils;
pub mod morph;
pub mod typst_text;
pub mod text;
pub mod cli;
pub mod file_writer;
pub mod timeline;
pub mod scene;
pub mod examples;
pub mod render;
pub mod typst_cache;
pub mod graph;
pub mod anchor;
pub mod derive_support;
pub mod typst_support;
pub mod readback;
pub mod manifest;
