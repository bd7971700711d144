# VortexMesh

Converts OBJ files into Vortex projects. It can both create a new project and
write to an existing one.

```bash
vortex-mesh model.obj
vortex-mesh model.obj --output scene.json --position 10 0 -5 --scale 2 --color FF8800 --material Wood
vortex-mesh model.obj --project existing-project.json
```

`--scale` takes one value for all axes or three, one for each.

## Layout

`src/` is the verified library.

| Module | Contents |
| --- | --- |
| `rounding` | Rounding of exact quotients and square roots to the binary32 grid. |
| `binary32`, `arithmetic` | Binary32 numbers as bit patterns, their order and their correctly rounded arithmetic. |
| `vector` | Vectors, matrices and rotations of such numbers. |
| `triangle` | Halving a triangle, and the distance from a point to it. |
| `fitting` | Boxes around triangles, and how closely a box follows them. |
| `cluster` | Triangles with their best box, and how a cluster is split. |
| `queue` | A priority queue. |
| `conversion` | The conversion of a mesh into boxes, step by step or at once. |
| `laws` | What holds of every conversion. |
| `refinement` | How clusters are refined, whatever the order: tolerances and ways of splitting compared, and when a conversion ends. |
| `coverage` | How the boxes of a conversion cover its mesh. |
| `exact` | How closely rounded cuts and boxes follow exact coordinates. |
| `nearest` | The nearest point of a triangle in exact arithmetic. |
| `bounds` | Bounds on coordinates that keep computations finite, and rounded normals. |
| `value` | The real values of binary32 numbers, and how far each operation is off. |
| `directions`, `axes`, `rotation` | Unit vectors, the axes of boxes, and rotations as quaternions, up to rounding. |
| `options` | The rules that command-line values must meet. |
| `error` | Why a mesh cannot be converted. |

One function is believed rather than proved: `cluster::select_along`, which
calls `select_nth_unstable_by_key` of the standard library.

`app/` is the command line around the library: arguments, files, progress
reports and binary64 numbers. `tests/` runs the library, among other things
against the arithmetic of the machine.
