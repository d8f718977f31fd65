# mc_nbt_viewer

A viewer for Minecraft NBT files: it reads an NBT document (gzip-compressed or
not), shows it as a tree whose values can be edited, and renders it as SNBT.

The library under `src/` is written in Verus and verified:

- `parse.rs`: the NBT format as spec functions over bytes and a position, and
  a reader proved to follow them exactly (every error included).
- `nbt.rs`: tags, payloads and compounds, a compound being a map ordered by key.
- `bytes.rs`, `gzip.rs`, `text.rs`: the calls into `byteorder_lite`, `flate2`
  and std, each behind a small trusted wrapper whose contract is documented.
- `snbt.rs`: SNBT text, as characters and the bit patterns of floats.
- `tree.rs`: the display tree (compounds first, then lists, then the rest,
  each group ordered by lowercased name, with a stable sort).
- `edit.rs`: what an integer field becomes when its text is committed.
- `viewer.rs`: the state kept between frames and how a load changes it.

`app/` is the egui window around the library; it is not verified.
