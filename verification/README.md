# diorama

A voxel diorama ray tracer. The scene is laid out from ASCII tile maps, its
cubes are textured with binary PPM (`P6`) images, and each rendered frame is
written as a PPM file under `frames/`.

- `src/` is the verified library (Verus): PPM decoding and encoding with a
  proof that decoding gives back what encoding wrote, texel lookup, tile map
  placement and the level-by-level diorama layout, pixel coordinates and
  frame file names.
- `app/` is the program around it: file reading and writing, the
  floating-point ray tracer, and the parallel pixel loop.
- `tests/` exercises the library on concrete inputs.
