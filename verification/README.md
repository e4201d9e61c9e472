# vi_lib

Value iteration for mobile robots on an (x, y, heading) lattice, with contracts that Verus
proves.

- `src/` is the library. `model` and `bounds` hold the mathematics: the truncated Bellman
  update and its order. `value_iterator` updates one state, `solvers` brings whole fields to
  their fixed point, `solvers/schur` does so through tiles and portals, `solvers/gpu` plans
  the work of a graphics card. `planner`, `path`, `qmdp` and `local` use a solved field,
  `beam` walks along the beams of a laser, and `belief` and `localize` keep track of where
  the robot is.
- `tests/` runs the library on concrete maps.
- `app/` is ordinary Rust around it: poses in metres and radians, laser scans, weights,
  files, and the calls into the graphics card. Kernel sources are passed in by the caller.

Lengths are whole micrometres or nanometres, angles millionths of a degree, costs multiples
of `1 / PROB_BASE`. Each item says which.
