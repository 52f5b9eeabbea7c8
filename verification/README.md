# voxel_rs

The core of a voxel game engine, with its behaviour stated in contracts and
proved with Verus.

`src/` is the verified library:

- `chunk`, `world`: chunks of 32³ blocks, their run-length compression, the
  world made of chunks and the highest opaque block of each column;
- `player`: render distances, the chunks they cover and those chunks sorted by
  distance;
- `light`: the light of a chunk, spread from the sky through the chunks around it;
- `meshing`, `greedy`: ambient occlusion, the blocks and light around a chunk,
  and the greedy meshing of a chunk into rectangles, from the chunks around it
  (`greedy`) or from what is known of its neighbours (`meshing`);
- `model`: the models of items drawn from a texture atlas, and the meshing of
  voxel models, which accepts only models without voxels (a model with voxels
  cannot be meshed: its faces go to a buffer that starts empty);
- `worldgen`: ground from height maps, trees grown by decorators, and the world
  generators;
- `client_world`: the chunks a client keeps and their meshing status;
- `buffers`: placement of meshes in a growing vertex buffer;
- `collections`, `time`: merging of sorted arrays and timing counters;
- `ui`: the state of the game menu and the messages of its buttons.

`app/` is a program around the library: floating-point noise for the ground
heights, player physics, a meshing worker thread, an in-process network and the
debug channel. It runs a game session without a window and prints what it did.

`tests/` exercises the library on concrete values.
