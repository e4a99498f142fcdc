# ranim, verified core

The decisions and data structures of the ranim animation toolkit, written in
Verus with their contracts proved:

- `utils`: resizing a sequence while preserving its order, with the repeated
  positions and counts, and the laws of that resizing.
- `morph`, `typst_text`, `typst_cache`, `typst_support`: aligning items and
  glyph runs along a text diff, the SVG cache keyed by SHA-1, the SVG
  clean-up and the decoding of typst source files.
- `render`, `graph`, `readback`: the render packet store binned by type,
  the render graph and its topological walk (complete exactly when the
  graph has no cycle), the draw and dispatch decisions of the passes and
  the layout of texture readbacks.
- `cli`, `file_writer`, `scene`, `examples`, `derive_support`, `timeline`,
  `anchor`: the command line decisions, the ffmpeg arguments, the scene
  attributes, the example site, the crate paths of the derives and the
  timeline grid.
- `manifest`: reading the examples and the package name out of a parsed
  `Cargo.toml`.

`app/` holds the program around it: argument parsing with clap, running
cargo and ffmpeg, the file system work of the example site, logging set-up
and the floating-point helpers.
