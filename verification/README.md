# windtunnel

A wind tunnel in two dimensions. A grid of cells holds water and air; some cells are walls. The
library finds the objects that the walls form, computes the forces of the fluid on them, builds
ships with stacks of containers as walls, compares them, and draws the grid.

The library, under `src/`, is verified with Verus. It is written for any number type that
implements `scalar::Scalar`; `fixed::Fixed` is one of its own. `app/` shows the simulation in a
window, in single precision, with a solver of the flow that its caller provides.

| Module | What it holds |
| --- | --- |
| `scalar`, `fixed`, `vector` | the numbers of the simulation, fixed-point numbers, vectors |
| `conditions` | the parameters of the simulation |
| `morton`, `grid` | the order of the cells, the grid |
| `topology`, `pressure_computation` | the objects, and the forces on them |
| `report` | what is reported of these forces |
| `stamp`, `pen` | shapes of walls, and drawing them with the mouse |
| `ship`, `boat` | the walls of a ship, and ships built from a few measures |
| `trial` | trials of ships and their ranking |
| `water` | water and air in one grid |
| `display` | the picture of the grid |
| `history` | the forces over time |
| `scenario`, `session` | what the user can set, and a running simulation |
