use vstd::prelude::*;
use crate::caster::pos_ok;
use crate::fixed::{floor_div, floor_mod};
use crate::grid::{Grid, CELL_SIZE};
use crate::trig::{TrigTable, ANGLE_UNITS, TRIG_ONE};

verus! {

/// Distance walked per frame while a move key is held, in world units.
pub const MOVE_SPEED: i64 = 7;

/// Angle turned per frame while a turn key is held (a fiftieth of a turn).
pub const ROTATION_SPEED: i64 = 82;

/// The viewer: position in world units, facing angle and field of view in angle units.
#[derive(Clone, Copy, PartialEq, Eq, Structural, Debug)]
pub struct Player {
    pub x: i64,
    pub y: i64,
    pub a: i64,
    pub fov: i64,
}

/// Which movement keys are held this frame.
#[derive(Clone, Copy, PartialEq, Eq, Structural, Debug)]
pub struct Controls {
    pub left: bool,
    pub right: bool,
    pub up: bool,
    pub down: bool,
}

impl Player {
    pub open spec fn wf(&self) -> bool {
        &&& pos_ok(self.x as int, self.y as int)
        &&& 0 <= self.a < ANGLE_UNITS
        &&& 0 < self.fov <= ANGLE_UNITS
    }
}

/// The facing angle after this frame's turn keys (left, then right).
pub open spec fn turned(a: int, c: Controls) -> int {
    let a1 = if c.left {
        (a - ROTATION_SPEED) % (ANGLE_UNITS as int)
    } else {
        a
    };
    if c.right {
        (a1 + ROTATION_SPEED) % (ANGLE_UNITS as int)
    } else {
        a1
    }
}

/// The position this frame's move keys aim at (backward wins over forward).
pub open spec fn aimed(p: Player, c: Controls, t: &TrigTable) -> (int, int) {
    let a = turned(p.a as int, c);
    let ddx = (MOVE_SPEED * t.cos_spec(a)) / (TRIG_ONE as int);
    let ddy = (MOVE_SPEED * t.sin_spec(a)) / (TRIG_ONE as int);
    if c.down {
        (p.x - ddx, p.y - ddy)
    } else if c.up {
        (p.x + ddx, p.y + ddy)
    } else {
        (p.x as int, p.y as int)
    }
}

/// The player after one frame of input: turned, and moved where the aimed cell lies in
/// the grid and is walkable.
pub open spec fn after_input(p: Player, c: Controls, maze: &Grid, t: &TrigTable) -> Player {
    let a = turned(p.a as int, c);
    let (nx, ny) = aimed(p, c, t);
    let i = nx / (CELL_SIZE as int);
    let j = ny / (CELL_SIZE as int);
    if 0 <= i < maze.num_cols() && 0 <= j < maze.num_rows() && !(maze.tile(i, j) is Wall) {
        Player { x: nx as i64, y: ny as i64, a: a as i64, fov: p.fov }
    } else {
        Player { a: a as i64, ..p }
    }
}

/// Applies one frame of movement keys to the player.
pub fn process_events(controls: &Controls, player: &mut Player, maze: &Grid, trig: &TrigTable)
    requires
        old(player).wf(),
        maze.wf(),
        trig.wf(),
    ensures
        *final(player) == after_input(*old(player), *controls, maze, trig),
        final(player).wf(),
{
    let mut a = player.a;
    if controls.left {
        a = floor_mod(a - ROTATION_SPEED, ANGLE_UNITS);
    }
    if controls.right {
        a = floor_mod(a + ROTATION_SPEED, ANGLE_UNITS);
    }
    player.a = a;
    let c = trig.cos_of(a);
    let s = trig.sin_of(a);
    let ddx = floor_div(MOVE_SPEED * c, TRIG_ONE);
    let ddy = floor_div(MOVE_SPEED * s, TRIG_ONE);
    proof {
        vstd::arithmetic::div_mod::lemma_div_is_ordered(MOVE_SPEED * c, MOVE_SPEED * TRIG_ONE, TRIG_ONE as int);
        vstd::arithmetic::div_mod::lemma_div_is_ordered(-MOVE_SPEED * TRIG_ONE, MOVE_SPEED * c, TRIG_ONE as int);
        vstd::arithmetic::div_mod::lemma_div_is_ordered(MOVE_SPEED * s, MOVE_SPEED * TRIG_ONE, TRIG_ONE as int);
        vstd::arithmetic::div_mod::lemma_div_is_ordered(-MOVE_SPEED * TRIG_ONE, MOVE_SPEED * s, TRIG_ONE as int);
    }
    let mut new_x = player.x;
    let mut new_y = player.y;
    if controls.down {
        new_x = player.x - ddx;
        new_y = player.y - ddy;
    } else if controls.up {
        new_x = player.x + ddx;
        new_y = player.y + ddy;
    }
    let i = floor_div(new_x, CELL_SIZE);
    let j = floor_div(new_y, CELL_SIZE);
    if i < 0 || j < 0 {
        return;
    }
    if j >= maze.height() as i64 || i >= maze.width() as i64 {
        return;
    }
    if !maze.tile_at(i, j).is_wall() {
        proof {
            vstd::arithmetic::div_mod::lemma_fundamental_div_mod(new_x as int, CELL_SIZE as int);
            vstd::arithmetic::div_mod::lemma_fundamental_div_mod(new_y as int, CELL_SIZE as int);
        }
        player.x = new_x;
        player.y = new_y;
    }
}

} // verus!
