//! Conway's Game of Life on a toroidal board whose live cells carry a
//! colour, with the pixel buffer it is drawn into, the rules that turn a
//! logo image into starting cells, and the colouring of cells on screen.
pub mod color;
pub mod life;
pub mod framebuffer;
pub mod cells;
pub mod logo;
pub mod scene;
