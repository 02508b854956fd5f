# ogre_core

The headless layer engine of a raster image editor, verified with Verus: tiled
copy-on-write pixel buffers, a document with a tree of raster, group, adjustment and
vector layers, a compositor, selections, paint tools, and an undo/redo history in which
every edit is a command.

- `src/` is the library. Every function in it is verified. A document is modelled by
  `DocView` (`src/document.rs`), a buffer by a map from tile coordinates to pixels
  (`src/buffer.rs`), and what undo and redo give back by `same_picture`
  (`src/picture.rs`).
- `app/` is ordinary Rust around it: the floating-point operations, parallel
  compositing, and what documents look like when they are saved.
- `tests/` runs the library with those operations.

A number is a `u32` that holds the bit pattern of an IEEE single. Comparing, clamping
and converting numbers is done on the pattern (`src/float_bits.rs`). Operations that
round come from the caller through `FloatMath` (`src/arith.rs`), and the contracts hold
whatever they return.

The hash maps, hash sets and the slot map of the outside crates stand behind small
wrappers in `src/buffer.rs`, `src/coord_set.rs` and `src/arena.rs`, and so does one
function on strings in `src/layer.rs`; their contracts are the ones that are not proved
here.
