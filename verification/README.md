# arpentry

The decisions of a 3D map tiler, verified with [Verus](https://github.com/verus-lang/verus).

The tiler turns geographic features into compressed binary tiles, draws roads,
bridges, tunnels and pavements as meshes on the ground, and measures finished
archives for defects. Geometry is floating point; what is decided on it is not.
The library works on integers throughout: plan positions in tile quanta or
billionths of a degree, lengths and heights in micrometres, mesh heights in
millimetres.

## Layout

- `src/` is the verified library.
  - `wire`: the FlatBuffers builder and the Brotli coder, with what is trusted
    of them.
  - `tile_build`, `tileset`, `value`: properties, geometry and the bytes of a
    tile and of a tileset index.
  - `clip`: what a tile keeps of a line.
  - `plane`: lengths, directions, projections and miters in a local plane.
  - `terrain`, `terrain_cdt`: the terrain lattice, its ladder of densities, and
    the mesh constrained by breaklines.
  - `synth`: decks and bores (`structure`), road bands (`surface`) and the disks
    they stop at (`disks`), pavements and paths (`walkway`), and the graph of
    joints that gives them heights (`walkgraph`).
  - `verify`: distributions, silhouettes and marches, and under `checks` one
    module per measured property of a drawn archive.
- `tests/` run the library on concrete scenes, with the real FlatBuffers, Brotli
  and spade crates behind it.
- `app/` is the ordinary Rust around the library: projection, sampling,
  triangulation, archive access and text.

## Reading the contracts

Each module states what its functions return over spec functions of the same
module. Public proof functions named as sentences state what holds of every
input, across calls: that neighbouring tiles share their edge, that a joint is
one height, that what is counted as built is drawn.

A check takes readings: what the drawn meshes answer at the points it asks
about. Its contract says which samples it scores and which offenders it keeps
for every possible reading.
