# PCBForge

PCBForge turns board files into jobs for a laser: it isolates traces, inverts
copper into regions to ablate, plans passes, cuts boards out, drills, registers
jobs on a bed and writes the files that the machine's program opens.

The library is written in Verus. Its contracts say what each function returns
over mathematical models of rings, polygons, paths and texts, and Verus proves
them; laws that span functions are public proof functions beside them.

## Layout

- `src/` is the library. Coordinates are whole nanometers; numbers that are only
  compared are carried as the bit patterns of doubles.
  - `model`, `num`, `wide`, `counting`, `sorting`, `text`, `bounds`: points,
    polygons and paths, rounding, 256-bit products, order and decimal text.
  - `geom`, `offset`, `ablation`, `noncopper`, `force_clear`, `split`, `drc`,
    `arcs`, `cut`, `cutplan`, `schedule`: the geometry of jobs.
  - `order`, `tiles`, `plan`, `features`, `flip`, `frame`, `emit`, `process`: in
    what order, where and how often a job runs.
  - `lbrn2`, `export`, `grids`, `warp`, `layout`, `choices`: files, calibration
    grids and what a command line asks for.
  - `drillguide`, `capture`, `lightburn`, `marker`, `raster`, `spots`, `peaks`,
    `lattice`: the drill guide, the camera and the machine.
- `tests/` runs the library on concrete values.
- `app/` is the program: files, sockets, threads, images and what is computed in
  floating point (curve offsets, trigonometry, fits).

Polygon booleans are those of `i_overlay`; the library names their result and
proves what it does with it.
