# slam_core

Primitives for 2D SLAM: occupancy-grid mapping, particle-filter
localization, landmark association and landmark maps.

- `src/` is the verified library. It holds the discrete decisions:
  - `occupancy`: grid storage (row-major cells, reads, bounded writes,
    reset, clamping a cell index into the grid) and Bresenham ray tracing,
    with proofs that a ray stays in the grid, walks through touching cells
    towards its end within half a cell of the straight line, passes
    `max(dx, dy)` cells and hits its end cell when both ends lie in the
    grid.
  - `map`: nearest landmark, landmarks within a radius, the matches that
    map similarity counts and the landmarks a merge takes, over distance
    keys.
  - `landmark`: landmarks and the landmark database: association to the
    best match or creation under the next identifier, lookup by
    identifier.
  - `particle`: the hash that spreads particles, the resampling seed and
    the low-variance resampling walk.
- `app/` is ordinary Rust around it: poses, coordinates, log-odds,
  distances and weights, all floating point. It turns distances and
  weights into integer keys that order them as the floats are ordered
  (`app/keys.rs`) and calls the library for every decision taken on them.
- `tests/` exercises the library.
