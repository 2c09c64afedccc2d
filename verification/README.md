# conway_life

Conway's Game of Life on a toroidal board whose live cells carry a colour,
drawn into a pixel buffer and shown in a raylib window, starting from a logo
image.

- `src/` is the library, verified with Verus:
  - `color.rs`: RGBA colours.
  - `life.rs`: the board (`Grid`), neighbour counting with wrap-round edges,
    one generation of the B3/S23 rule with colour inheritance, and its laws.
  - `framebuffer.rs`: the pixel buffer the board is drawn into, and the
    layout of the status line.
  - `cells.rs`: hash-backed sets of cells and cell-to-colour maps.
  - `logo.rs`: turning a resized logo image into starting cells, and
    dropping isolated cells.
  - `scene.rs`: placing the logo and patterns, the cell colours, the logo
    palette and drawing the board.
- `app/main.rs` opens the window, reads the logo file, does the
  floating-point luminance tests and random thinning, and shows the buffer.
- `tests/` exercises the library on concrete boards and images.
