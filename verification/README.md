# rendersloth

A terminal renderer for 3D models: triangles are rasterized into a grid of
charxels (a character and a colour), with several shade samples per cell.

- `src/` is the verified library:
  - `binary32` — the ordering of single-precision numbers read from their
    bit patterns, as the depth test and the colour choice use it;
  - `frame` — the frame and its sample buffer: blanking, filling, the
    sample addressing, the depth test, the scan of a triangle's window, the
    dominant colour of a cell, rendering glyphs into the frame and the order
    it is printed in;
  - `depth` — the depth test and the window scan as functions on sample
    buffers, and the laws of the depth buffer;
  - `scan` — what a scan through a sampling function leaves in the buffer,
    and its laws: only nearer samples are written, drawing a scan twice is
    drawing it once, and two scans leave the same depths in either order;
  - `model` — the loader a file extension selects, and the corner offsets of
    an indexed triangle mesh;
  - `session` — what the viewer does after each frame;
  - `shader` — the threshold shader: the scale of glyphs by shade, and its
    monotonicity.
- `app/` is the program around it: command line, model loading, the
  floating-point geometry and shading, and terminal output.
