use vstd::prelude::*;
use crate::caster::pos_ok;
use crate::fixed::{floor_div, isqrt, isqrt_spec};
use crate::grid::{Grid, CELL_SIZE};
use crate::player::Player;
use crate::tile::Tile;

verus! {

/// Largest speed, in world units per frame, that an enemy may move at.
pub const MAX_ENEMY_SPEED: i64 = 1000;

/// A chasing enemy drawn as an animated billboard sprite.
pub struct Enemy {
    pub x: i64,
    pub y: i64,
    /// Texture keys of the animation frames.
    pub frames: Vec<char>,
    pub current_frame: usize,
    pub step_counter: usize,
    /// Moves per animation frame, at least one.
    pub steps_per_frame: usize,
}

/// Whether an enemy may stand in a tile: open floor and exits only.
pub open spec fn enemy_walkable(t: Tile) -> bool {
    t == Tile::Empty || t == Tile::Exit
}

/// Whether the point `(px, py)` lies in a cell of the maze that an enemy may enter.
pub open spec fn is_free_spec(px: int, py: int, maze: &Grid) -> bool {
    &&& 0 <= px
    &&& 0 <= py
    &&& enemy_walkable(maze.tile(px / (CELL_SIZE as int), py / (CELL_SIZE as int)))
}

/// Component of a step of length `speed` along a vector of length `dist`, rounded
/// toward zero.
pub open spec fn step_component(d: int, speed: int, dist: int) -> int {
    if d >= 0 {
        (d * speed) / dist
    } else {
        -((-d * speed) / dist)
    }
}

impl Enemy {
    pub open spec fn wf(&self) -> bool {
        &&& pos_ok(self.x as int, self.y as int)
        &&& self.steps_per_frame >= 1
        &&& self.step_counter < self.steps_per_frame
        &&& (self.frames@.len() == 0 || self.current_frame < self.frames@.len())
    }

    pub open spec fn key_spec(&self) -> char {
        if self.frames@.len() == 0 {
            'e'
        } else {
            self.frames@[self.current_frame as int]
        }
    }

    /// An enemy at `(x, y)` on its first animation frame.
    pub fn new(x: i64, y: i64, frames: Vec<char>, steps_per_frame: usize) -> (r: Enemy)
        requires
            pos_ok(x as int, y as int),
        ensures
            r.wf(),
            r.x == x,
            r.y == y,
            r.frames@ == frames@,
            r.current_frame == 0,
            r.step_counter == 0,
            r.steps_per_frame == if steps_per_frame < 1 { 1 } else { steps_per_frame },
    {
        Enemy {
            x,
            y,
            frames,
            current_frame: 0,
            step_counter: 0,
            steps_per_frame: if steps_per_frame < 1 {
                1
            } else {
                steps_per_frame
            },
        }
    }

    /// The texture key of the current animation frame (`'e'` with no frames).
    pub fn current_key(&self) -> (c: char)
        requires
            self.wf(),
        ensures
            c == self.key_spec(),
    {
        if self.frames.len() == 0 {
            'e'
        } else {
            self.frames[self.current_frame]
        }
    }

    /// Whether the point `(px, py)` lies in a cell that an enemy may enter.
    pub fn is_free(px: i64, py: i64, maze: &Grid) -> (r: bool)
        requires
            maze.wf(),
        ensures
            r == is_free_spec(px as int, py as int, maze),
    {
        if px < 0 || py < 0 {
            return false;
        }
        let i = floor_div(px, CELL_SIZE);
        let j = floor_div(py, CELL_SIZE);
        match maze.tile_at(i, j) {
            Tile::Empty => true,
            Tile::Exit => true,
            _ => false,
        }
    }

    /// One frame of chasing: a step of `speed` toward the player, tried along x and then
    /// along y so that the enemy slides along walls; each move counts toward the next
    /// animation frame. Returns whether the enemy moved.
    pub fn update(&mut self, player: &Player, maze: &Grid, speed: i64) -> (moved: bool)
        requires
            old(self).wf(),
            player.wf(),
            maze.wf(),
            0 <= speed <= MAX_ENEMY_SPEED,
        ensures
            final(self).wf(),
            final(self).frames@ == old(self).frames@,
            final(self).steps_per_frame == old(self).steps_per_frame,
            ({
                let dx = player.x - old(self).x;
                let dy = player.y - old(self).y;
                let dist = isqrt_spec(dx * dx + dy * dy);
                let sx = step_component(dx, speed as int, dist);
                let sy = step_component(dy, speed as int, dist);
                let move_x = dist >= 1 && is_free_spec(old(self).x + sx, old(self).y as int, maze);
                let nx = if move_x {
                    old(self).x + sx
                } else {
                    old(self).x as int
                };
                let move_y = dist >= 1 && is_free_spec(nx, old(self).y + sy, maze);
                let ny = if move_y {
                    old(self).y + sy
                } else {
                    old(self).y as int
                };
                &&& moved == (move_x || move_y)
                &&& final(self).x == nx
                &&& final(self).y == ny
                &&& final(self).step_counter == if !moved {
                    old(self).step_counter as int
                } else if old(self).step_counter + 1 >= old(self).steps_per_frame {
                    0
                } else {
                    old(self).step_counter + 1
                }
                &&& final(self).current_frame == if moved && old(self).step_counter + 1
                    >= old(self).steps_per_frame && old(self).frames@.len() > 0 {
                    (old(self).current_frame + 1) % (old(self).frames@.len() as int)
                } else {
                    old(self).current_frame as int
                }
            }),
    {
        let dx = player.x - self.x;
        let dy = player.y - self.y;
        proof {
            assert(0 <= dx * dx <= 0x4000_0000_0000_0000 && 0 <= dy * dy <= 0x4000_0000_0000_0000)
                by (nonlinear_arith)
                requires
                    -0x8000_0000 <= dx <= 0x8000_0000,
                    -0x8000_0000 <= dy <= 0x8000_0000,
            {
            }
        }
        let sq = (dx * dx) as u64 + (dy * dy) as u64;
        let dist = isqrt(sq) as i64;
        if dist < 1 {
            return false;
        }
        let adx: i64 = if dx < 0 { -dx } else { dx };
        let ady: i64 = if dy < 0 { -dy } else { dy };
        proof {
            assert(adx * speed <= 0x8000_0000 * 1000 && ady * speed <= 0x8000_0000 * 1000 && 0 <= adx
                * speed && 0 <= ady * speed) by (nonlinear_arith)
                requires
                    0 <= adx <= 0x8000_0000,
                    0 <= ady <= 0x8000_0000,
                    0 <= speed <= 1000,
            {
            }
            vstd::arithmetic::div_mod::lemma_div_is_ordered_by_denominator(adx * speed, 1, dist as int);
            vstd::arithmetic::div_mod::lemma_div_is_ordered_by_denominator(ady * speed, 1, dist as int);
            vstd::arithmetic::div_mod::lemma_div_pos_is_pos(adx * speed, dist as int);
            vstd::arithmetic::div_mod::lemma_div_pos_is_pos(ady * speed, dist as int);
        }
        let sx: i64 = if dx >= 0 { adx * speed / dist } else { -(adx * speed / dist) };
        let sy: i64 = if dy >= 0 { ady * speed / dist } else { -(ady * speed / dist) };
        let mut moved = false;
        if Self::is_free(self.x + sx, self.y, maze) {
            self.x = self.x + sx;
            moved = true;
        }
        if Self::is_free(self.x, self.y + sy, maze) {
            self.y = self.y + sy;
            moved = true;
        }
        if moved {
            self.step_counter = self.step_counter + 1;
            if self.step_counter >= self.steps_per_frame {
                self.step_counter = 0;
                if self.frames.len() > 0 {
                    self.current_frame = (self.current_frame + 1) % self.frames.len();
                }
            }
        }
        moved
    }
}

} // verus!
