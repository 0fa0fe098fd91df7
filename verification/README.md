# fire

A doom-style fire effect: a 320x200 heat field fed by a noisy bed of coals,
carried upwards by a randomly wind-shifted cascade that cools it against a
scrolling noise map, eased into a display copy with sparks stamped on top,
given a bloom glow, upscaled 3x on the heat itself, dithered, coloured by a
blackbody palette and shown in a window or written to PPM snapshots.

- `src/` is the library, verified with Verus: every integer step of a frame
  (`heat`, `bloom`, `display`, `embers`, `color`, `rng`, `snapshot`,
  `fullscreen`), with contracts that give each output cell exactly, and
  proof functions for the laws the effect relies on (heat only cools as it
  rises, blurs stay within the range of their input, the upscale is exact on
  the source grid, the glow only brightens, ...).
- `app/` is the program: the window, files and macOS fullscreen FFI, and the
  floating-point parts (wind, palette, value-noise texture, spark motion).
- `tests/` runs the library against direct, unverified implementations of each frame step
  and checks the laws on concrete values.
