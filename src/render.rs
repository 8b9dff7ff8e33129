use vstd::prelude::*;
use crate::caster::{cast_ray, cast_spec, Intersect, MAX_RAY_DISTANCE};
use crate::color::Color;
use crate::fixed::{floor_div, floor_mod};
use crate::framebuffer::{Framebuffer, pixel_index, lemma_pixel_index, MAX_SCREEN_DIM};
use crate::grid::{Grid, CELL_SIZE};
use crate::player::Player;
use crate::textures::TextureManager;
use crate::tile::wall_texture_key;
use crate::trig::{TrigTable, ANGLE_UNITS, TRIG_ONE};

verus! {

/// Height on screen of a wall at unit perpendicular distance, per half screen height.
pub const PROJECTION: i64 = 70;

pub const FLOOR_KEY: char = 'f';
pub const CEILING_KEY: char = 'c';

/// Floor and ceiling colours are computed on every fifth row, counting away from the
/// wall slice, and repeated on the four rows beyond it: a cheaper, blockier floor and
/// ceiling, and no other effect.
pub const ROW_STRIDE: i64 = 5;

/// A perpendicular distance (fixed point) below this one, a tenth of a unit, is replaced
/// by `PERP_CLAMPED`, a fifth: no division blows up and no sign flips.
pub const PERP_MIN: i64 = 1638;
pub const PERP_CLAMPED: i64 = 3276;

/// Smallest view-angle cosine that floor and ceiling projection divide by.
pub const COS_MIN: i64 = 1024;

/// The value that marks a depth-buffer entry as not yet written.
pub const DEPTH_INFINITY: u64 = 0xffff_ffff_ffff_ffff;

/// Angle of the ray for screen column `i` of `n`: the field of view swept left to right.
pub open spec fn column_angle(p: Player, i: int, n: int) -> int {
    p.a - p.fov / 2 + (p.fov * i) / n
}

/// Where one screen column's wall slice stands.
#[derive(Clone, Copy, PartialEq, Eq, Structural, Debug)]
pub struct ColumnSlice {
    pub angle: i64,
    pub hit: Intersect,
    /// Cosine of the angle between this ray and the view direction.
    pub cos_diff: i64,
    /// First row of the wall slice.
    pub top: i64,
    /// Row after the last of the wall slice.
    pub bottom: i64,
}

/// Perpendicular (fisheye-corrected) distance in fixed point, clamped away from zero.
pub open spec fn perp_distance(distance: int, cos_diff: int) -> int {
    let d = distance * cos_diff;
    if d < PERP_MIN {
        PERP_CLAMPED as int
    } else {
        d
    }
}

/// Height in pixels of a wall slice at a perpendicular distance, on a screen `h` tall.
pub open spec fn stake_height(perp: int, h: int) -> int {
    (h / 2) * PROJECTION * TRIG_ONE / perp
}

#[verifier::opaque]
pub open spec fn slice_spec(
    maze: &Grid,
    p: Player,
    trig: &TrigTable,
    i: int,
    n: int,
    h: int,
) -> ColumnSlice {
    let a = column_angle(p, i, n);
    let hit = cast_spec(maze, p, a, trig);
    let cd = trig.cos_spec(a - p.a);
    let sh = stake_height(perp_distance(hit.distance as int, cd), h);
    let hh = h / 2;
    ColumnSlice {
        angle: a as i64,
        hit,
        cos_diff: cd as i64,
        top: (if sh / 2 >= hh {
            0
        } else {
            hh - sh / 2
        }) as i64,
        bottom: (if hh + sh / 2 > h {
            h
        } else {
            hh + sh / 2
        }) as i64,
    }
}

/// Colour of the floor (or ceiling) seen `off` rows from the horizon along the ray at
/// `angle`: the row's distance is projected onto the ground and wrapped into a cell.
#[verifier::opaque]
pub open spec fn plane_color(
    p: Player,
    trig: &TrigTable,
    textures: &TextureManager,
    angle: int,
    cos_diff: int,
    off: int,
    h: int,
    key: char,
    tw: int,
    th: int,
) -> Color {
    let o = if off < 1 {
        1
    } else {
        off
    };
    let row_dist = (h / 2) * TRIG_ONE / o;
    let c = if cos_diff < COS_MIN {
        COS_MIN as int
    } else {
        cos_diff
    };
    let dist = row_dist * TRIG_ONE / c;
    let fx = p.x + (dist * trig.cos_spec(angle)) / (TRIG_ONE * TRIG_ONE);
    let fy = p.y + (dist * trig.sin_spec(angle)) / (TRIG_ONE * TRIG_ONE);
    textures.sample(
        key,
        (fx % (CELL_SIZE as int)) * tw / (CELL_SIZE as int),
        (fy % (CELL_SIZE as int)) * th / (CELL_SIZE as int),
    )
}

/// Colour of row `y` of a screen column: wall texture inside the slice, floor below it
/// and ceiling above it.
#[verifier::opaque]
pub open spec fn column_color(
    s: ColumnSlice,
    y: int,
    p: Player,
    trig: &TrigTable,
    textures: &TextureManager,
    h: int,
    level: u32,
) -> Color {
    let hh = h / 2;
    if s.top <= y < s.bottom {
        textures.sample(
            wall_texture_key(s.hit.impact, level),
            s.hit.tx * textures.dims(wall_texture_key(s.hit.impact, level)).0 / (CELL_SIZE as int),
            (y - s.top) * textures.dims(wall_texture_key(s.hit.impact, level)).1 / (s.bottom - s.top),
        )
    } else if y >= s.bottom {
        let r = s.bottom + ((y - s.bottom) / (ROW_STRIDE as int)) * ROW_STRIDE;
        plane_color(
            p,
            trig,
            textures,
            s.angle as int,
            s.cos_diff as int,
            r - hh,
            h,
            FLOOR_KEY,
            textures.dims(FLOOR_KEY).0,
            textures.dims(FLOOR_KEY).1,
        )
    } else {
        let r = s.top - 1 - ((s.top - 1 - y) / (ROW_STRIDE as int)) * ROW_STRIDE;
        plane_color(
            p,
            trig,
            textures,
            s.angle as int,
            s.cos_diff as int,
            hh - r,
            h,
            CEILING_KEY,
            textures.dims(CEILING_KEY).0,
            textures.dims(CEILING_KEY).1,
        )
    }
}

/// The wall slice of screen column `i` of `n` on a screen `h` rows tall.
pub fn column_slice(maze: &Grid, player: &Player, trig: &TrigTable, i: u32, n: u32, h: u32) -> (r:
    ColumnSlice)
    requires
        maze.wf(),
        player.wf(),
        trig.wf(),
        i < n <= MAX_SCREEN_DIM,
        1 <= h <= MAX_SCREEN_DIM,
    ensures
        r == slice_spec(maze, *player, trig, i as int, n as int, h as int),
        0 <= r.top <= h / 2 <= r.bottom <= h,
        r.hit.tx < CELL_SIZE,
        r.hit.distance <= MAX_RAY_DISTANCE,
        -TRIG_ONE <= r.cos_diff <= TRIG_ONE,
        -ANGLE_UNITS <= r.angle <= 2 * ANGLE_UNITS,
{
    proof {
        reveal(slice_spec);
        assert(0 <= player.fov * i <= player.fov * n) by (nonlinear_arith)
            requires
                0 < player.fov,
                0 <= i < n,
        {
        }
        assert(player.fov * n <= 4096 * 8192) by (nonlinear_arith)
            requires
                0 < player.fov <= 4096,
                n <= 8192,
        {
        }
        vstd::arithmetic::div_mod::lemma_div_is_ordered(player.fov * i, player.fov * n, n as int);
        vstd::arithmetic::div_mod::lemma_div_multiples_vanish(player.fov as int, n as int);
        assert(player.fov * n == n * player.fov) by (nonlinear_arith);
    }
    let a = player.a - floor_div(player.fov, 2) + floor_div(player.fov * i as i64, n as i64);
    let hit = cast_ray(maze, player, a, trig);
    let cd = trig.cos_of(a - player.a);
    let d = hit.distance as i64;
    proof {
        assert(-(0x2_0000_0000 * 16384) <= d * cd <= 0x2_0000_0000 * 16384) by (nonlinear_arith)
            requires
                0 <= d <= 0x2_0000_0000,
                -16384 <= cd <= 16384,
        {
        }
    }
    let perp0 = d * cd;
    let perp = if perp0 < PERP_MIN {
        PERP_CLAMPED
    } else {
        perp0
    };
    let hh = (h / 2) as i64;
    let sh = hh * PROJECTION * TRIG_ONE / perp;
    proof {
        vstd::arithmetic::div_mod::lemma_div_pos_is_pos(hh * PROJECTION * TRIG_ONE, perp as int);
    }
    let half = sh / 2;
    let top = if half >= hh {
        0
    } else {
        hh - half
    };
    let bottom = if hh + half > h as i64 {
        h as i64
    } else {
        hh + half
    };
    ColumnSlice { angle: a, hit, cos_diff: cd, top, bottom }
}

/// The floor or ceiling colour `off` rows from the horizon, as `plane_color` states.
pub fn plane_color_at(
    player: &Player,
    trig: &TrigTable,
    textures: &TextureManager,
    angle: i64,
    cos_diff: i64,
    off: i64,
    h: u32,
    key: char,
    tw: i64,
    th: i64,
) -> (c: Color)
    requires
        player.wf(),
        trig.wf(),
        textures.wf(),
        -ANGLE_UNITS <= angle <= 2 * ANGLE_UNITS,
        -TRIG_ONE <= cos_diff <= TRIG_ONE,
        -2 * MAX_SCREEN_DIM <= off <= 2 * MAX_SCREEN_DIM,
        1 <= h <= MAX_SCREEN_DIM,
        1 <= tw <= 0x0100_0000,
        1 <= th <= 0x0100_0000,
    ensures
        c == plane_color(
            *player,
            trig,
            textures,
            angle as int,
            cos_diff as int,
            off as int,
            h as int,
            key,
            tw as int,
            th as int,
        ),
{
    proof {
        reveal(plane_color);
    }
    let o = if off < 1 {
        1
    } else {
        off
    };
    let hh = (h / 2) as i64;
    let row_dist = hh * TRIG_ONE / o;
    proof {
        vstd::arithmetic::div_mod::lemma_div_is_ordered_by_denominator(hh * TRIG_ONE, 1, o as int);
    }
    let c = if cos_diff < COS_MIN {
        COS_MIN
    } else {
        cos_diff
    };
    let dist = row_dist * TRIG_ONE / c;
    proof {
        vstd::arithmetic::div_mod::lemma_div_is_ordered_by_denominator(row_dist * TRIG_ONE, COS_MIN as int, c as int);
        assert(dist <= 4096 * 16384 * 16);
    }
    let ca = trig.cos_of(angle);
    let sa = trig.sin_of(angle);
    proof {
        assert(-(4096 * 16384 * 16 * 16384) <= dist * ca <= 4096 * 16384 * 16 * 16384) by (nonlinear_arith)
            requires
                0 <= dist <= 4096 * 16384 * 16,
                -16384 <= ca <= 16384,
        {
        }
        assert(-(4096 * 16384 * 16 * 16384) <= dist * sa <= 4096 * 16384 * 16 * 16384) by (nonlinear_arith)
            requires
                0 <= dist <= 4096 * 16384 * 16,
                -16384 <= sa <= 16384,
        {
        }
        vstd::arithmetic::div_mod::lemma_div_is_ordered(dist * ca, 4096 * 16384 * 16 * 16384int, TRIG_ONE * TRIG_ONE);
        vstd::arithmetic::div_mod::lemma_div_is_ordered(-(4096 * 16384 * 16 * 16384), dist * ca, TRIG_ONE * TRIG_ONE);
        vstd::arithmetic::div_mod::lemma_div_is_ordered(dist * sa, 4096 * 16384 * 16 * 16384int, TRIG_ONE * TRIG_ONE);
        vstd::arithmetic::div_mod::lemma_div_is_ordered(-(4096 * 16384 * 16 * 16384), dist * sa, TRIG_ONE * TRIG_ONE);
    }
    let fx = player.x + floor_div(dist * ca, TRIG_ONE * TRIG_ONE);
    let fy = player.y + floor_div(dist * sa, TRIG_ONE * TRIG_ONE);
    let mx = floor_mod(fx, CELL_SIZE);
    let my = floor_mod(fy, CELL_SIZE);
    proof {
        assert(0 <= mx * tw <= CELL_SIZE * tw && 0 <= my * th <= CELL_SIZE * th) by (nonlinear_arith)
            requires
                0 <= mx < 100,
                0 <= my < 100,
                tw >= 1,
                th >= 1,
        {
        }
        vstd::arithmetic::div_mod::lemma_div_is_ordered(mx * tw, CELL_SIZE * tw, CELL_SIZE as int);
        vstd::arithmetic::div_mod::lemma_div_multiples_vanish(tw as int, CELL_SIZE as int);
        vstd::arithmetic::div_mod::lemma_div_is_ordered(my * th, CELL_SIZE * th, CELL_SIZE as int);
        vstd::arithmetic::div_mod::lemma_div_multiples_vanish(th as int, CELL_SIZE as int);
        vstd::arithmetic::div_mod::lemma_div_pos_is_pos(mx * tw, CELL_SIZE as int);
        vstd::arithmetic::div_mod::lemma_div_pos_is_pos(my * th, CELL_SIZE as int);
        assert(CELL_SIZE * tw == tw * CELL_SIZE) by (nonlinear_arith);
        assert(CELL_SIZE * th == th * CELL_SIZE) by (nonlinear_arith);
    }
    let tx = mx * tw / CELL_SIZE;
    let ty = my * th / CELL_SIZE;
    textures.get_pixel_color(key, tx as u32, ty as u32)
}

/// Bounds that every slice from `column_slice` meets on a screen `h` rows tall.
pub open spec fn slice_ok(s: ColumnSlice, h: int) -> bool {
    &&& 0 <= s.top <= h / 2 <= s.bottom <= h
    &&& s.hit.tx < CELL_SIZE
    &&& -TRIG_ONE <= s.cos_diff <= TRIG_ONE
    &&& -ANGLE_UNITS <= s.angle <= 2 * ANGLE_UNITS
}

/// The colour of row `y` of a column, as `column_color` states.
pub fn column_color_at(
    s: &ColumnSlice,
    y: u32,
    player: &Player,
    trig: &TrigTable,
    textures: &TextureManager,
    h: u32,
    level: u32,
) -> (c: Color)
    requires
        player.wf(),
        trig.wf(),
        textures.wf(),
        1 <= h <= MAX_SCREEN_DIM,
        y < h,
        slice_ok(*s, h as int),
    ensures
        c == column_color(*s, y as int, *player, trig, textures, h as int, level),
{
    proof {
        reveal(column_color);
    }
    let hh = (h / 2) as i64;
    let yy = y as i64;
    if s.top <= yy && yy < s.bottom {
        let key = s.hit.impact.texture_key(level);
        let (tw32, th32) = textures.texture_size(key);
        let tw = tw32 as i64;
        let th = th32 as i64;
        proof {
            assert(0 <= (yy - s.top) * th <= 8192 * 0x0100_0000) by (nonlinear_arith)
                requires
                    0 <= yy - s.top <= 8192,
                    1 <= th <= 0x0100_0000,
            {
            }
            assert(0 <= s.hit.tx * tw <= CELL_SIZE * tw) by (nonlinear_arith)
                requires
                    0 <= s.hit.tx < 100,
                    1 <= tw,
            {
            }
            vstd::arithmetic::div_mod::lemma_div_is_ordered(s.hit.tx * tw, CELL_SIZE * tw, CELL_SIZE as int);
            vstd::arithmetic::div_mod::lemma_div_multiples_vanish(tw as int, CELL_SIZE as int);
            assert(CELL_SIZE * tw == tw * CELL_SIZE) by (nonlinear_arith);
            vstd::arithmetic::div_mod::lemma_div_pos_is_pos(s.hit.tx * tw, CELL_SIZE as int);
            assert(0 <= (yy - s.top) * th <= (s.bottom - s.top) * th) by (nonlinear_arith)
                requires
                    s.top <= yy < s.bottom,
                    1 <= th,
            {
            }
            vstd::arithmetic::div_mod::lemma_div_is_ordered((yy - s.top) * th, (s.bottom - s.top) * th, s.bottom - s.top);
            vstd::arithmetic::div_mod::lemma_div_multiples_vanish(th as int, s.bottom - s.top);
            vstd::arithmetic::div_mod::lemma_div_pos_is_pos((yy - s.top) * th, s.bottom - s.top);
            assert((s.bottom - s.top) * th == th * (s.bottom - s.top)) by (nonlinear_arith);
        }
        let tx = (s.hit.tx as i64) * tw / CELL_SIZE;
        let ty = (yy - s.top) * th / (s.bottom - s.top);
        textures.get_pixel_color(key, tx as u32, ty as u32)
    } else if yy >= s.bottom {
        let (fw, fh) = textures.texture_size(FLOOR_KEY);
        let r = s.bottom + ((yy - s.bottom) / ROW_STRIDE) * ROW_STRIDE;
        proof {
            vstd::arithmetic::div_mod::lemma_fundamental_div_mod(yy - s.bottom, ROW_STRIDE as int);
            vstd::arithmetic::div_mod::lemma_mod_bound(yy - s.bottom, ROW_STRIDE as int);
        }
        plane_color_at(
            player,
            trig,
            textures,
            s.angle,
            s.cos_diff,
            r - hh,
            h,
            FLOOR_KEY,
            fw as i64,
            fh as i64,
        )
    } else {
        let (cw, ch) = textures.texture_size(CEILING_KEY);
        let r = s.top - 1 - ((s.top - 1 - yy) / ROW_STRIDE) * ROW_STRIDE;
        proof {
            vstd::arithmetic::div_mod::lemma_fundamental_div_mod(s.top - 1 - yy, ROW_STRIDE as int);
            vstd::arithmetic::div_mod::lemma_mod_bound(s.top - 1 - yy, ROW_STRIDE as int);
        }
        plane_color_at(
            player,
            trig,
            textures,
            s.angle,
            s.cos_diff,
            hh - r,
            h,
            CEILING_KEY,
            cw as i64,
            ch as i64,
        )
    }
}

/// Paints screen column `x` from a slice, top row to bottom; no other column changes.
pub fn render_column(
    framebuffer: &mut Framebuffer,
    x: u32,
    s: &ColumnSlice,
    player: &Player,
    trig: &TrigTable,
    textures: &TextureManager,
    level: u32,
)
    requires
        old(framebuffer).wf(),
        x < old(framebuffer).width,
        player.wf(),
        trig.wf(),
        textures.wf(),
        slice_ok(*s, old(framebuffer).height as int),
    ensures
        final(framebuffer).wf(),
        final(framebuffer).width == old(framebuffer).width,
        final(framebuffer).height == old(framebuffer).height,
        final(framebuffer).background_color == old(framebuffer).background_color,
        final(framebuffer).overlays@ == old(framebuffer).overlays@,
        final(framebuffer).circle_overlays@ == old(framebuffer).circle_overlays@,
        final(framebuffer).health_to_draw == old(framebuffer).health_to_draw,
        forall|xx: int, yy: int|
            old(framebuffer).in_bounds(xx, yy) && xx != x ==> #[trigger] final(framebuffer).pixel(
                xx,
                yy,
            ) == old(framebuffer).pixel(xx, yy),
        forall|yy: int|
            0 <= yy < old(framebuffer).height ==> #[trigger] final(framebuffer).pixel(x as int, yy)
                == column_color(*s, yy, *player, trig, textures, old(framebuffer).height as int, level),
{
    let h = framebuffer.height;
    let mut y: u32 = 0;
    while y < h
        invariant
            framebuffer.wf(),
            x < framebuffer.width,
            h == framebuffer.height,
            player.wf(),
            trig.wf(),
            textures.wf(),
            slice_ok(*s, h as int),
            0 <= y <= h,
            framebuffer.width == old(framebuffer).width,
            framebuffer.height == old(framebuffer).height,
            framebuffer.background_color == old(framebuffer).background_color,
            framebuffer.overlays@ == old(framebuffer).overlays@,
            framebuffer.circle_overlays@ == old(framebuffer).circle_overlays@,
            framebuffer.health_to_draw == old(framebuffer).health_to_draw,
            forall|xx: int, yy: int|
                old(framebuffer).in_bounds(xx, yy) && xx != x ==> #[trigger] framebuffer.pixel(xx, yy)
                    == old(framebuffer).pixel(xx, yy),
            forall|yy: int|
                0 <= yy < y ==> #[trigger] framebuffer.pixel(x as int, yy) == column_color(
                    *s,
                    yy,
                    *player,
                    trig,
                    textures,
                    h as int,
                    level,
                ),
        decreases h - y,
    {
        let c = column_color_at(s, y, player, trig, textures, h, level);
        let ghost before = *framebuffer;
        framebuffer.set_current_color(c);
        framebuffer.set_pixel(x as i32, y as i32);
        proof {
            let w = framebuffer.width as int;
            lemma_pixel_index(w, h as int, x as int, y as int, 0, 0);
            assert((x as i32) as int == x as int && (y as i32) as int == y as int);
            assert(before.in_bounds(x as int, y as int));
            assert(framebuffer.pixel_data@ == before.pixel_data@.update(pixel_index(w, x as int, y as int), c));
            assert forall|xx: int, yy: int|
                framebuffer.in_bounds(xx, yy) && (xx != x || yy != y) implies #[trigger] framebuffer.pixel(
                    xx,
                    yy,
                ) == before.pixel(xx, yy) by {
                lemma_pixel_index(w, h as int, xx, yy, x as int, y as int);
            }
            lemma_pixel_index(w, h as int, x as int, y as int, 0, 0);
            assert(framebuffer.pixel(x as int, y as int) == c);
        }
        y = y + 1;
    }
}

/// Renders the walls, floor and ceiling of one frame, one column per ray, and records
/// each column's ray distance in the depth buffer.
pub fn render_world(
    framebuffer: &mut Framebuffer,
    player: &Player,
    maze: &Grid,
    texture_cache: &TextureManager,
    depth_buffer: &mut Vec<u64>,
    current_level: u32,
    trig: &TrigTable,
)
    requires
        old(framebuffer).wf(),
        old(depth_buffer)@.len() == old(framebuffer).width,
        player.wf(),
        maze.wf(),
        trig.wf(),
        texture_cache.wf(),
    ensures
        final(framebuffer).wf(),
        final(framebuffer).width == old(framebuffer).width,
        final(framebuffer).height == old(framebuffer).height,
        final(framebuffer).background_color == old(framebuffer).background_color,
        final(framebuffer).overlays@ == old(framebuffer).overlays@,
        final(framebuffer).circle_overlays@ == old(framebuffer).circle_overlays@,
        final(framebuffer).health_to_draw == old(framebuffer).health_to_draw,
        final(depth_buffer)@.len() == old(depth_buffer)@.len(),
        forall|i: int|
            0 <= i < old(framebuffer).width ==> #[trigger] final(depth_buffer)@[i] == slice_spec(
                maze,
                *player,
                trig,
                i,
                old(framebuffer).width as int,
                old(framebuffer).height as int,
            ).hit.distance,
        forall|i: int| 0 <= i < old(framebuffer).width ==> #[trigger] final(depth_buffer)@[i] != DEPTH_INFINITY,
        forall|x: int, y: int|
            old(framebuffer).in_bounds(x, y) ==> #[trigger] final(framebuffer).pixel(x, y) == column_color(
                slice_spec(
                    maze,
                    *player,
                    trig,
                    x,
                    old(framebuffer).width as int,
                    old(framebuffer).height as int,
                ),
                y,
                *player,
                trig,
                texture_cache,
                old(framebuffer).height as int,
                current_level,
            ),
{
    let w = framebuffer.width;
    let h = framebuffer.height;
    let mut x: u32 = 0;
    while x < w
        invariant
            framebuffer.wf(),
            w == framebuffer.width,
            h == framebuffer.height,
            depth_buffer@.len() == w,
            player.wf(),
            maze.wf(),
            trig.wf(),
            texture_cache.wf(),
            0 <= x <= w,
            framebuffer.width == old(framebuffer).width,
            framebuffer.height == old(framebuffer).height,
            framebuffer.background_color == old(framebuffer).background_color,
            framebuffer.overlays@ == old(framebuffer).overlays@,
            framebuffer.circle_overlays@ == old(framebuffer).circle_overlays@,
            framebuffer.health_to_draw == old(framebuffer).health_to_draw,
            forall|i: int|
                0 <= i < x ==> #[trigger] depth_buffer@[i] == slice_spec(
                    maze,
                    *player,
                    trig,
                    i,
                    w as int,
                    h as int,
                ).hit.distance,
            forall|i: int| 0 <= i < x ==> #[trigger] depth_buffer@[i] != DEPTH_INFINITY,
            forall|xx: int, yy: int|
                0 <= xx < x && 0 <= yy < h ==> #[trigger] framebuffer.pixel(xx, yy) == column_color(
                    slice_spec(maze, *player, trig, xx, w as int, h as int),
                    yy,
                    *player,
                    trig,
                    texture_cache,
                    h as int,
                    current_level,
                ),
        decreases w - x,
    {
        let s = column_slice(maze, player, trig, x, w, h);
        depth_buffer.set(x as usize, s.hit.distance);
        let ghost before = *framebuffer;
        render_column(framebuffer, x, &s, player, trig, texture_cache, current_level);
        proof {
            assert forall|xx: int, yy: int|
                0 <= xx < x && 0 <= yy < h implies #[trigger] framebuffer.pixel(xx, yy) == before.pixel(
                    xx,
                    yy,
                ) by {
                assert(before.in_bounds(xx, yy));
            }
        }
        x = x + 1;
    }
}

} // verus!
