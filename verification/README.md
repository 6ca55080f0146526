# omg_audio

Spatial audio, verified with Verus: how sound travels from sources to a
listener through rooms and through worlds of triangles, and what is heard of it
over headphones.

## Layout

- `src/` is the library. Every item of it is verified.
  - Numbers: `single` (IEEE single-precision numbers as bit patterns: order,
    conversion, sign), `arith` and `geom` (the operations that are asked of the
    host), `exact` (answers that are exact, close, or
    in order), `probe`, `rng`, `rank`.
  - Geometry: `scene` (rooms and panels), `mesh`, `tri`, `bvh`, `boxes` (that the
    hierarchy loses no hit), `diffraction`, `material`.
  - Propagation: `ism` (image sources), `pt` and `pt_mesh` (reflection chains in
    rooms and worlds), `chains` and `unfold` (that chains and image sources are
    the same paths), `paths` (bending around edges and through walls), `bend`
    (that the way bends where it is shortest), `tracer` (the late field),
    `params` and `env` (what the simulation hands to the audio side).
  - Sound: `ambi`, `bands`, `delay`, `fdn`, `filter`, `hrtf`, `level`, `output`,
    `pool`, `renderer`, `smooth`, `signal`, `engine`, and the weather in
    `ambience`, `drops`, `rain`.
  - Devices and files: `layout` and `gpu` (buffers of the trace kernels),
    `import` (samples of files), `json`, `cli`, `walk`.
- `tests/` runs the library with the machine's arithmetic.
- `app/` is the program around it: arguments, files, the sound card, the
  graphics device, the Godot class. The kernels of the device (`shaders/`) and the
  simulation of the walkthrough's world are not in this repository.

## Arithmetic

The library does no floating-point arithmetic of its own. A function that needs
it takes one closure, which answers a question (`arith::Op`) with a number, and
states its result as a function of those answers: in which order which numbers
are added, multiplied and compared. What is proved holds of every host that
answers the same question the same way each time.

## What is trusted

Two wrappers in `gpu` around `bytemuck`, from words to bytes and back. Their doc
comments say what is claimed of it.
