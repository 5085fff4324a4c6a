# vitals-rain

A Wayland client that draws a live view of the machine's load (per-core CPU
use, memory use, CPU temperature) as a shader on a background layer surface
of every output.

Layout:

- `src/` — the verified library (Verus):
  - `text.rs`: lines, whitespace-separated words, prefixes, trimming,
    substring search and unsigned decimal numbers over `char` sequences,
    each specified after the matching `str` method;
  - `cpu.rs`: reading `/proc/stat` text and keeping the previous counters,
    so that each reading yields the ticks spent since the one before;
  - `mem.rs`: reading `/proc/meminfo` text;
  - `sensor.rs`: choosing the thermal zone to follow;
  - `shader.rs`: the shader sources;
  - `surfaces.rs`: the bookkeeping of the background surfaces.
- `app/` — the program: Wayland and EGL/OpenGL calls, file reading, and the
  floating-point smoothing of the values that the library reads.
- `tests/` — tests of the library.

At start-up the program reads the fragment shader's own code (the
`mainImage` function) from `shader.frag` in the working directory.
