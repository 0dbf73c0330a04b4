//! Maze generation and grid topology: carving, zone classification, pruning
//! and spatial queries over 2D and 3D grids.

// cells, extents and the row-major layout of a grid
pub mod grid;
// the maze, its walls, neighbour and opening tables, border operations
pub mod maze;
// flood fill into zones of connected cells
pub mod zones;
// keeping the largest zone, clearing dead-end corridors
pub mod prune;
// rooms, their exits, dead rooms
pub mod rooms;
// legal moves and shortest routes
pub mod path;
// the random source
pub mod rng;
// free-cell sampling and search
pub mod spatial;
// randomized carving
pub mod carve;
// opening dead ends towards a passage
pub mod dig;
// colours of wall zones
pub mod colouring;
// the maze of a level
pub mod level;
// menus, controls and settings
pub mod menu;
pub mod resource;
// tile sizes, tube shapes, collision groups, palette
pub mod tile;
pub mod colors;
