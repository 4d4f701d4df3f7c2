# ascii_shader

Renders still images and live camera feeds as coloured text in a terminal: as
characters of a brightness ramp, or as half blocks with two pixels to a cell.

- `src/` is the library. It finds the size at which a picture is shown, resamples
  and mirrors it, turns its colours into characters and terminal colours, and
  writes the text. It also picks and lists cameras, decodes their frames, and
  decides what a live session does next and when it is given up. Everything in it
  is verified with Verus; what it takes on trust are the calls into the crates
  `image` and `nokhwa`, and three string functions of the standard library.
- `app/` is the program around it: the command line, files, camera, keyboard and
  terminal. It also decodes the camera frames that are JPEG images, since the
  decoder panics on data that are none. `nokhwa` is built with its backends for
  macOS and Windows.
- `tests/` runs the library, and holds its single-precision arithmetic against
  the hardware's.

The laws that hold of the library as a whole are the functions named `law_...`.
