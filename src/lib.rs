//! A software raycaster for tile mazes: ray marching over a grid, perspective
//! wall slices with textured floor and ceiling, and depth-tested billboard sprites,
//! all in fixed-point integer arithmetic.
//!
//! Units: positions are integer world units (a cell is `grid::CELL_SIZE` across),
//! angles are integers with `trig::ANGLE_UNITS` to the turn, and sines and cosines are
//! scaled by `trig::TRIG_ONE`. The trigonometric samples come in as data
//! (`trig::TrigTable`), as do the maze, the pose and the texture images.
//!
//! Per frame (`frame::render_frame`): the depth buffer is reset; for every screen
//! column `render` casts a ray (`caster`), records its distance and paints the wall
//! slice, floor and ceiling; then `sprite` composites the enemies against the depth
//! buffer into the `framebuffer`. `level` holds the searches used to place the player
//! and enemies, `minimap` the top-down views.

pub mod fixed;
pub mod color;
pub mod tile;
pub mod grid;
pub mod trig;
pub mod player;
pub mod caster;
pub mod enemy;
pub mod textures;
pub mod framebuffer;
pub mod render;
pub mod sprite;
pub mod frame;
pub mod level;
pub mod minimap;
