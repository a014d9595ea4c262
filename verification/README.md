# voxelization

Turns a triangle mesh into voxel cells at several levels of detail. The mesh is cut into chunks of
32 cells along each side; every chunk that the surface meets becomes a grid of vertices with
materials and encoded positions, and the chunks of all levels form an octree.

The library is written in Verus: its functions state what they compute, and the verifier proves it.

## Layout

| Module | What it holds |
| --- | --- |
| `geometry` | grid points, displacements and boxes of cells |
| `svo` | sparse octrees: building, mapping, leaves |
| `point_map` | maps keyed by grid points |
| `scalar`, `offset` | double-precision numbers by their bits, and the bytes that vertex positions become |
| `probe`, `surface` | the questions that the library asks about a mesh |
| `voxel` | which cells lie inside, outside or on the surface |
| `snap` | snapping a vertex to the vertices, edges and faces of a triangle |
| `fill`, `neighbors` | smoothing: flattening, averaging and relaxing vertices |
| `vertices` | finding the vertices of a chunk that do not rest on their grid corners |
| `grid`, `chunk` | the vertex grid of a chunk, and filling it |
| `shift` | moving a chunk along the grid moves its data |
| `voxelizer` | the octree of all levels of detail |

The library does no floating-point arithmetic. What only a mesh can tell (whether a box meets the
surface, where the nearest point lies) it asks through functions that the caller hands in; its
contracts say what comes out for every way in which these answer. `app` answers them with the
queries of parry, and runs one task per chunk.
