use vstd::prelude::*;
use crate::caster::cast_ray;
use crate::color::{Color, white};
use crate::enemy::Enemy;
use crate::fixed::floor_div;
use crate::framebuffer::{Framebuffer, lemma_pixel_index};
use crate::grid::{Grid, CELL_SIZE};
use crate::player::Player;
use crate::tile::Tile;
use crate::trig::{TrigTable, TRIG_ONE};

verus! {

/// Margin around the full-window map, in pixels.
pub const MAP_PAD: i64 = 16;

/// Colour of the walls on the full-window map.
pub open spec fn map_wall_color() -> Color {
    Color { r: 200, g: 40, b: 40, a: 255 }
}

/// Rays drawn on the full-window map.
pub const MAP_RAYS: i64 = 16;

/// Size of the corner minimap and its margin, in pixels.
pub const MINIMAP_W: i64 = 260;
pub const MINIMAP_H: i64 = 160;
pub const MINIMAP_PAD: i64 = 10;

/// A world-to-screen scale `num / den`, the largest that fits both sides.
pub open spec fn fit_scale_spec(avail_w: int, avail_h: int, world_w: int, world_h: int) -> (int, int) {
    if avail_w * world_h <= avail_h * world_w {
        (avail_w, world_w)
    } else {
        (avail_h, world_h)
    }
}

/// The largest scale `num / den` at which a `world_w` by `world_h` world fits in
/// `avail_w` by `avail_h` pixels.
pub fn fit_scale(avail_w: i64, avail_h: i64, world_w: i64, world_h: i64) -> (r: (i64, i64))
    requires
        0 < avail_w <= 0x10000,
        0 < avail_h <= 0x10000,
        0 < world_w <= 0x1000_0000,
        0 < world_h <= 0x1000_0000,
    ensures
        (r.0 as int, r.1 as int) == fit_scale_spec(avail_w as int, avail_h as int, world_w as int, world_h as int),
        0 < r.0 <= 0x10000,
        0 < r.1 <= 0x1000_0000,
{
    proof {
        assert(avail_w * world_h <= 0x10000 * 0x1000_0000 && avail_h * world_w <= 0x10000 * 0x1000_0000)
            by (nonlinear_arith)
            requires
                0 < avail_w <= 0x10000,
                0 < avail_h <= 0x10000,
                0 < world_w <= 0x1000_0000,
                0 < world_h <= 0x1000_0000,
        {
        }
    }
    if avail_w * world_h <= avail_h * world_w {
        (avail_w, world_w)
    } else {
        (avail_h, world_h)
    }
}

/// Screen coordinate of world coordinate `v` at scale `num / den` from offset `off`.
pub fn to_screen(off: i64, v: i64, num: i64, den: i64) -> (r: i64)
    requires
        -0x1_0000_0000 <= off <= 0x1_0000_0000,
        -0x4_0000_0000 <= v <= 0x4_0000_0000,
        0 <= num <= 0x10000,
        0 < den,
    ensures
        r == off + (v * num) / (den as int),
{
    proof {
        assert(-0x4_0000_0000 * 0x10000 <= v * num <= 0x4_0000_0000 * 0x10000) by (nonlinear_arith)
            requires
                -0x4_0000_0000 <= v <= 0x4_0000_0000,
                0 <= num <= 0x10000,
        {
        }
        let n = v * num;
        let d = den as int;
        vstd::arithmetic::div_mod::lemma_fundamental_div_mod(n, d);
        vstd::arithmetic::div_mod::lemma_mod_bound(n, d);
        let q = n / d;
        let r = n % d;
        assert(-0x4_0000_0000 * 0x10000 - 1 <= q <= 0x4_0000_0000 * 0x10000) by (nonlinear_arith)
            requires
                n == d * q + r,
                0 <= r < d,
                1 <= d,
                -0x4_0000_0000 * 0x10000 <= n <= 0x4_0000_0000 * 0x10000,
        {
        }
    }
    off + floor_div(v * num, den)
}

/// Fills the `block_size`-pixel square at `(xo, yo)` in red, unless the cell is open floor.
pub fn draw_cell(framebuffer: &mut Framebuffer, xo: i64, yo: i64, block_size: i64, cell: Tile)
    requires
        old(framebuffer).wf(),
        -0x1000_0000 <= xo <= 0x1000_0000,
        -0x1000_0000 <= yo <= 0x1000_0000,
        0 <= block_size <= 0x1000_0000,
    ensures
        final(framebuffer).wf(),
        final(framebuffer).width == old(framebuffer).width,
        final(framebuffer).height == old(framebuffer).height,
        cell == Tile::Empty ==> final(framebuffer).pixel_data@ == old(framebuffer).pixel_data@
            && final(framebuffer).current_color == old(framebuffer).current_color,
        cell != Tile::Empty ==> final(framebuffer).current_color == (Color { r: 255, g: 0, b: 0, a: 255 }),
        cell != Tile::Empty ==> forall|x: int, y: int|
            old(framebuffer).in_bounds(x, y) ==> #[trigger] final(framebuffer).pixel(x, y) == if xo <= x < xo
                + block_size && yo <= y < yo + block_size {
                Color { r: 255, g: 0, b: 0, a: 255 }
            } else {
                old(framebuffer).pixel(x, y)
            },
{
    if cell == Tile::Empty {
        return;
    }
    framebuffer.set_current_color(Color::new(255, 0, 0, 255));
    framebuffer.fill_rect(xo, yo, xo + block_size, yo + block_size);
}

/// Plots the points `from + (to - from) * s / steps` for `s` in `first..=steps`.
fn draw_segment(framebuffer: &mut Framebuffer, x0: i64, y0: i64, x1: i64, y1: i64, first: i64, steps: i64)
    requires
        old(framebuffer).wf(),
        -0x1_0000_0000 <= x0 <= 0x1_0000_0000,
        -0x1_0000_0000 <= y0 <= 0x1_0000_0000,
        -0x1_0000_0000 <= x1 <= 0x1_0000_0000,
        -0x1_0000_0000 <= y1 <= 0x1_0000_0000,
        0 <= first,
        1 <= steps <= 0x10000,
    ensures
        final(framebuffer).wf(),
        final(framebuffer).width == old(framebuffer).width,
        final(framebuffer).height == old(framebuffer).height,
        final(framebuffer).background_color == old(framebuffer).background_color,
        final(framebuffer).overlays@ == old(framebuffer).overlays@,
        final(framebuffer).circle_overlays@ == old(framebuffer).circle_overlays@,
        final(framebuffer).health_to_draw == old(framebuffer).health_to_draw,
        final(framebuffer).current_color == old(framebuffer).current_color,
        forall|x: int, y: int|
            old(framebuffer).in_bounds(x, y) ==> #[trigger] final(framebuffer).pixel(x, y)
                == old(framebuffer).pixel(x, y) || final(framebuffer).pixel(x, y) == old(framebuffer).current_color,
{
    let mut s = if first > steps + 1 {
        steps + 1
    } else {
        first
    };
    while s <= steps
        invariant
            framebuffer.wf(),
            -0x1_0000_0000 <= x0 <= 0x1_0000_0000,
            -0x1_0000_0000 <= y0 <= 0x1_0000_0000,
            -0x1_0000_0000 <= x1 <= 0x1_0000_0000,
            -0x1_0000_0000 <= y1 <= 0x1_0000_0000,
            0 <= s <= steps + 1,
            1 <= steps <= 0x10000,
            framebuffer.width == old(framebuffer).width,
            framebuffer.height == old(framebuffer).height,
            framebuffer.background_color == old(framebuffer).background_color,
            framebuffer.overlays@ == old(framebuffer).overlays@,
            framebuffer.circle_overlays@ == old(framebuffer).circle_overlays@,
            framebuffer.health_to_draw == old(framebuffer).health_to_draw,
            framebuffer.current_color == old(framebuffer).current_color,
            forall|x: int, y: int|
                old(framebuffer).in_bounds(x, y) ==> #[trigger] framebuffer.pixel(x, y) == old(
                    framebuffer,
                ).pixel(x, y) || framebuffer.pixel(x, y) == old(framebuffer).current_color,
        decreases steps + 1 - s,
    {
        let lx = to_screen(x0, x1 - x0, s, steps);
        let ly = to_screen(y0, y1 - y0, s, steps);
        if -0x8000_0000 <= lx && lx < 0x8000_0000 && -0x8000_0000 <= ly && ly < 0x8000_0000 {
            let ghost before = *framebuffer;
            framebuffer.set_pixel(lx as i32, ly as i32);
            proof {
                let w = framebuffer.width as int;
                let h = framebuffer.height as int;
                assert forall|x: int, y: int|
                    old(framebuffer).in_bounds(x, y) implies #[trigger] framebuffer.pixel(x, y) == before.pixel(
                        x,
                        y,
                    ) || framebuffer.pixel(x, y) == old(framebuffer).current_color by {
                    if before.in_bounds(lx as int, ly as int) {
                        lemma_pixel_index(w, h, x, y, lx as int, ly as int);
                        lemma_pixel_index(w, h, lx as int, ly as int, 0, 0);
                    }
                    assert(before.pixel(x, y) == old(framebuffer).pixel(x, y) || before.pixel(x, y) == old(
                        framebuffer,
                    ).current_color);
                }
            }
        }
        s = s + 1;
    }
}

/// The component `d * c` of a distance along a direction component `c` (fixed point).
fn along(d: i64, c: i64) -> (r: i64)
    requires
        0 <= d <= 0x4_0000_0000,
        -TRIG_ONE <= c <= TRIG_ONE,
    ensures
        r == (d * c) / (TRIG_ONE as int),
        -d <= r <= d,
{
    proof {
        assert(-d * TRIG_ONE <= d * c <= d * TRIG_ONE) by (nonlinear_arith)
            requires
                0 <= d,
                -16384 <= c <= 16384,
        {
        }
        vstd::arithmetic::div_mod::lemma_div_is_ordered(d * c, d * TRIG_ONE, TRIG_ONE as int);
        vstd::arithmetic::div_mod::lemma_div_is_ordered(-d * TRIG_ONE, d * c, TRIG_ONE as int);
        vstd::arithmetic::div_mod::lemma_div_multiples_vanish(d as int, TRIG_ONE as int);
        vstd::arithmetic::div_mod::lemma_div_multiples_vanish(-d, TRIG_ONE as int);
    }
    floor_div(d * c, TRIG_ONE)
}

/// A coordinate brought into `[-2^31, 2^31]`; anything beyond is far off screen.
pub open spec fn clamp_spec(v: int) -> int {
    if v < -0x8000_0000 {
        -0x8000_0000
    } else if v > 0x8000_0000 {
        0x8000_0000
    } else {
        v
    }
}

/// Half of `d`, rounded toward zero.
pub open spec fn half_spec(d: int) -> int {
    if d >= 0 {
        d / 2
    } else {
        -((-d) / 2)
    }
}

fn clamp_coord(v: i64) -> (r: i64)
    ensures
        r == clamp_spec(v as int),
        -0x8000_0000 <= r <= 0x8000_0000,
{
    if v < -0x8000_0000 {
        -0x8000_0000
    } else if v > 0x8000_0000 {
        0x8000_0000
    } else {
        v
    }
}

/// Where the map of a maze lands on screen: world point `v` goes to `off + v * num / den`.
#[derive(Clone, Copy, PartialEq, Eq, Structural, Debug)]
pub struct MapView {
    pub off_x: i64,
    pub off_y: i64,
    pub num: i64,
    pub den: i64,
}

/// The view that `MapView::fit` gives for a non-empty box.
pub open spec fn fit_spec(x: int, y: int, avail_w: int, avail_h: int, cols: int, rows: int) -> MapView {
    let (num, den) = fit_scale_spec(avail_w, avail_h, cols * CELL_SIZE, rows * CELL_SIZE);
    MapView {
        off_x: clamp_spec(x + half_spec(avail_w - (cols * CELL_SIZE * num) / den)) as i64,
        off_y: clamp_spec(y + half_spec(avail_h - (rows * CELL_SIZE * num) / den)) as i64,
        num: num as i64,
        den: den as i64,
    }
}

/// Screen position of world point `(wx, wy)` in a view.
pub open spec fn point_spec(v: MapView, wx: int, wy: int) -> (int, int) {
    (
        clamp_spec(v.off_x + (wx * v.num) / (v.den as int)),
        clamp_spec(v.off_y + (wy * v.num) / (v.den as int)),
    )
}

/// `(x, y)` lies in the screen square of cell `(i, j)` in a view (its right and bottom
/// edges included, so that neighbouring squares meet).
pub open spec fn in_cell_rect(v: MapView, i: int, j: int, x: int, y: int) -> bool {
    let (x0, y0) = point_spec(v, i * CELL_SIZE, j * CELL_SIZE);
    let (x1, y1) = point_spec(v, (i + 1) * CELL_SIZE, (j + 1) * CELL_SIZE);
    x0 <= x < x1 + 1 && y0 <= y < y1 + 1
}

impl MapView {
    pub open spec fn wf(&self) -> bool {
        &&& -0x1_0000_0000 <= self.off_x <= 0x1_0000_0000
        &&& -0x1_0000_0000 <= self.off_y <= 0x1_0000_0000
        &&& 0 < self.num <= 0x10000
        &&& 0 < self.den <= 0x1000_0000
    }

    /// A view that centres a `cols` by `rows` maze, at the largest scale that fits, in
    /// the `avail_w` by `avail_h` box at `(x, y)`; `None` where the box is empty.
    pub fn fit(x: i64, y: i64, avail_w: i64, avail_h: i64, cols: usize, rows: usize) -> (r: Option<MapView>)
        requires
            -0x1000_0000 <= x <= 0x1000_0000,
            -0x1000_0000 <= y <= 0x1000_0000,
            avail_w <= 0x10000,
            avail_h <= 0x10000,
            1 <= cols <= 4096,
            1 <= rows <= 4096,
        ensures
            r is Some <==> (avail_w > 0 && avail_h > 0),
            r matches Some(v) ==> v.wf() && v == fit_spec(
                x as int,
                y as int,
                avail_w as int,
                avail_h as int,
                cols as int,
                rows as int,
            ),
    {
        if avail_w <= 0 || avail_h <= 0 {
            return None;
        }
        let world_w = cols as i64 * CELL_SIZE;
        let world_h = rows as i64 * CELL_SIZE;
        let (num, den) = fit_scale(avail_w, avail_h, world_w, world_h);
        proof {
            assert(0 <= world_w * num <= 409600 * 0x10000 && 0 <= world_h * num <= 409600 * 0x10000)
                by (nonlinear_arith)
                requires
                    0 < world_w <= 409600,
                    0 < world_h <= 409600,
                    0 < num <= 0x10000,
            {
            }
            vstd::arithmetic::div_mod::lemma_div_pos_is_pos(world_w * num, den as int);
            vstd::arithmetic::div_mod::lemma_div_pos_is_pos(world_h * num, den as int);
            vstd::arithmetic::div_mod::lemma_div_is_ordered_by_denominator(world_w * num, 1, den as int);
            vstd::arithmetic::div_mod::lemma_div_is_ordered_by_denominator(world_h * num, 1, den as int);
        }
        let used_w = world_w * num / den;
        let used_h = world_h * num / den;
        let dw = avail_w - used_w;
        let dh = avail_h - used_h;
        let off_x = x + if dw >= 0 {
            dw / 2
        } else {
            -((-dw) / 2)
        };
        let off_y = y + if dh >= 0 {
            dh / 2
        } else {
            -((-dh) / 2)
        };
        let ox = clamp_coord(off_x);
        let oy = clamp_coord(off_y);
        Some(MapView { off_x: ox, off_y: oy, num, den })
    }

    /// Screen position of a world point, clamped far off screen where it overflows.
    pub fn point(&self, wx: i64, wy: i64) -> (r: (i64, i64))
        requires
            self.wf(),
            -0x4_0000_0000 <= wx <= 0x4_0000_0000,
            -0x4_0000_0000 <= wy <= 0x4_0000_0000,
        ensures
            (r.0 as int, r.1 as int) == point_spec(*self, wx as int, wy as int),
            -0x8000_0000 <= r.0 <= 0x8000_0000,
            -0x8000_0000 <= r.1 <= 0x8000_0000,
    {
        (
            clamp_coord(to_screen(self.off_x, wx, self.num, self.den)),
            clamp_coord(to_screen(self.off_y, wy, self.num, self.den)),
        )
    }

    /// Fills, in the current colour, the screen square of every wall cell.
    fn draw_walls(&self, framebuffer: &mut Framebuffer, maze: &Grid)
        requires
            self.wf(),
            old(framebuffer).wf(),
            maze.wf(),
        ensures
            final(framebuffer).wf(),
            final(framebuffer).width == old(framebuffer).width,
            final(framebuffer).height == old(framebuffer).height,
            final(framebuffer).background_color == old(framebuffer).background_color,
            final(framebuffer).overlays@ == old(framebuffer).overlays@,
            final(framebuffer).circle_overlays@ == old(framebuffer).circle_overlays@,
            final(framebuffer).health_to_draw == old(framebuffer).health_to_draw,
            final(framebuffer).current_color == old(framebuffer).current_color,
            forall|x: int, y: int|
                old(framebuffer).in_bounds(x, y) ==> #[trigger] final(framebuffer).pixel(x, y)
                    == old(framebuffer).pixel(x, y) || final(framebuffer).pixel(x, y) == old(framebuffer).current_color,
            forall|ii: int, jj: int, x: int, y: int|
                0 <= ii < maze.num_cols() && 0 <= jj < maze.num_rows() && maze.tile(ii, jj) is Wall
                    && old(framebuffer).in_bounds(x, y) && #[trigger] in_cell_rect(*self, ii, jj, x, y)
                    ==> #[trigger] final(framebuffer).pixel(x, y) == old(framebuffer).current_color,
    {
        let h = maze.height();
        let w = maze.width();
        let mut j: usize = 0;
        while j < h
            invariant
                self.wf(),
                framebuffer.wf(),
                maze.wf(),
                h == maze.num_rows(),
                w == maze.num_cols(),
                0 <= j <= h,
                framebuffer.width == old(framebuffer).width,
                framebuffer.height == old(framebuffer).height,
                framebuffer.background_color == old(framebuffer).background_color,
                framebuffer.overlays@ == old(framebuffer).overlays@,
                framebuffer.circle_overlays@ == old(framebuffer).circle_overlays@,
                framebuffer.health_to_draw == old(framebuffer).health_to_draw,
                framebuffer.current_color == old(framebuffer).current_color,
                forall|x: int, y: int|
                    old(framebuffer).in_bounds(x, y) ==> #[trigger] framebuffer.pixel(x, y) == old(framebuffer).pixel(x, y)
                        || framebuffer.pixel(x, y) == old(framebuffer).current_color,
                forall|ii: int, jj: int, x: int, y: int|
                    0 <= ii < w && 0 <= jj < j && maze.tile(ii, jj) is Wall && old(framebuffer).in_bounds(x, y)
                        && #[trigger] in_cell_rect(*self, ii, jj, x, y) ==> #[trigger] framebuffer.pixel(x, y)
                        == old(framebuffer).current_color,
            decreases h - j,
        {
            let mut i: usize = 0;
            while i < w
                invariant
                    self.wf(),
                    framebuffer.wf(),
                    maze.wf(),
                    h == maze.num_rows(),
                    w == maze.num_cols(),
                    0 <= j < h,
                    0 <= i <= w,
                    framebuffer.width == old(framebuffer).width,
                    framebuffer.height == old(framebuffer).height,
                    framebuffer.background_color == old(framebuffer).background_color,
                    framebuffer.overlays@ == old(framebuffer).overlays@,
                    framebuffer.circle_overlays@ == old(framebuffer).circle_overlays@,
                    framebuffer.health_to_draw == old(framebuffer).health_to_draw,
                    framebuffer.current_color == old(framebuffer).current_color,
                    forall|x: int, y: int|
                        old(framebuffer).in_bounds(x, y) ==> #[trigger] framebuffer.pixel(x, y) == old(framebuffer).pixel(x, y)
                            || framebuffer.pixel(x, y) == old(framebuffer).current_color,
                    forall|ii: int, jj: int, x: int, y: int|
                        0 <= ii < w && 0 <= jj <= j && (jj < j || ii < i) && maze.tile(ii, jj) is Wall
                            && old(framebuffer).in_bounds(x, y) && #[trigger] in_cell_rect(*self, ii, jj, x, y)
                            ==> #[trigger] framebuffer.pixel(x, y) == old(framebuffer).current_color,
                decreases w - i,
            {
                if maze.tile_at(i as i64, j as i64).is_wall() {
                    let (x0, y0) = self.point(i as i64 * CELL_SIZE, j as i64 * CELL_SIZE);
                    let (x1, y1) = self.point((i as i64 + 1) * CELL_SIZE, (j as i64 + 1) * CELL_SIZE);
                    let ghost before = *framebuffer;
                    framebuffer.fill_rect(x0, y0, x1 + 1, y1 + 1);
                    proof {
                        assert forall|x: int, y: int|
                            old(framebuffer).in_bounds(x, y) implies #[trigger] framebuffer.pixel(x, y) == old(
                                framebuffer,
                            ).pixel(x, y) || framebuffer.pixel(x, y) == old(framebuffer).current_color by {
                            assert(before.in_bounds(x, y));
                        }
                        assert forall|ii: int, jj: int, x: int, y: int|
                            0 <= ii < w && 0 <= jj <= j && (jj < j || ii < i + 1) && maze.tile(ii, jj) is Wall
                                && old(framebuffer).in_bounds(x, y) && #[trigger] in_cell_rect(*self, ii, jj, x, y)
                                implies #[trigger] framebuffer.pixel(x, y) == old(framebuffer).current_color by {
                            assert(before.in_bounds(x, y));
                        }
                    }
                }
                i = i + 1;
            }
            j = j + 1;
        }
    }
}

/// The full-window top-down map: walls, the player as a dot, and a fan of rays across
/// the field of view to where they strike.
pub fn render_maze(framebuffer: &mut Framebuffer, maze: &Grid, player: &Player, trig: &TrigTable)
    requires
        old(framebuffer).wf(),
        maze.wf(),
        player.wf(),
        trig.wf(),
    ensures
        final(framebuffer).wf(),
        final(framebuffer).width == old(framebuffer).width,
        final(framebuffer).height == old(framebuffer).height,
        final(framebuffer).background_color == old(framebuffer).background_color,
        final(framebuffer).overlays@ == old(framebuffer).overlays@,
        final(framebuffer).circle_overlays@ == old(framebuffer).circle_overlays@,
        final(framebuffer).health_to_draw == old(framebuffer).health_to_draw,
        old(framebuffer).width > 2 * MAP_PAD && old(framebuffer).height > 2 * MAP_PAD ==> ({
            let v = fit_spec(
                MAP_PAD as int,
                MAP_PAD as int,
                old(framebuffer).width - 2 * MAP_PAD,
                old(framebuffer).height - 2 * MAP_PAD,
                maze.num_cols(),
                maze.num_rows(),
            );
            let (px, py) = point_spec(v, player.x as int, player.y as int);
            &&& forall|x: int, y: int|
                old(framebuffer).in_bounds(x, y) && px - 2 <= x < px + 3 && py - 2 <= y < py + 3
                    ==> #[trigger] final(framebuffer).pixel(x, y) == white()
            &&& forall|ii: int, jj: int, x: int, y: int|
                0 <= ii < maze.num_cols() && 0 <= jj < maze.num_rows() && maze.tile(ii, jj) is Wall
                    && old(framebuffer).in_bounds(x, y) && #[trigger] in_cell_rect(v, ii, jj, x, y)
                    ==> #[trigger] final(framebuffer).pixel(x, y) == map_wall_color() || final(framebuffer).pixel(x, y)
                    == white()
        }),
{
    let fw = framebuffer.width as i64;
    let fh = framebuffer.height as i64;
    let view = match MapView::fit(MAP_PAD, MAP_PAD, fw - 2 * MAP_PAD, fh - 2 * MAP_PAD, maze.width(), maze.height()) {
        Some(v) => v,
        None => {
            return;
        },
    };
    framebuffer.set_current_color(Color::new(200, 40, 40, 255));
    let ghost f0 = *framebuffer;
    view.draw_walls(framebuffer, maze);
    let ghost fw = *framebuffer;
    let (psx, psy) = view.point(player.x, player.y);
    framebuffer.set_current_color(Color::white());
    let ghost f1 = *framebuffer;
    framebuffer.fill_rect(psx - 2, psy - 2, psx + 3, psy + 3);
    proof {
        assert forall|ii: int, jj: int, x: int, y: int|
            0 <= ii < maze.num_cols() && 0 <= jj < maze.num_rows() && maze.tile(ii, jj) is Wall
                && framebuffer.in_bounds(x, y) && #[trigger] in_cell_rect(view, ii, jj, x, y)
                implies #[trigger] framebuffer.pixel(x, y) == map_wall_color() || framebuffer.pixel(x, y) == white() by {
            assert(f0.in_bounds(x, y) && f1.in_bounds(x, y));
            assert(f0.current_color == map_wall_color());
            assert(fw.pixel(x, y) == map_wall_color());
            assert(f1.pixel(x, y) == fw.pixel(x, y));
        }
    }
    let mut k: i64 = 0;
    while k < MAP_RAYS
        invariant
            framebuffer.wf(),
            maze.wf(),
            player.wf(),
            trig.wf(),
            view.wf(),
            -0x8000_0000 <= psx <= 0x8000_0000,
            -0x8000_0000 <= psy <= 0x8000_0000,
            0 <= k <= MAP_RAYS,
            framebuffer.current_color == white(),
            forall|ii: int, jj: int, x: int, y: int|
                0 <= ii < maze.num_cols() && 0 <= jj < maze.num_rows() && maze.tile(ii, jj) is Wall
                    && framebuffer.in_bounds(x, y) && #[trigger] in_cell_rect(view, ii, jj, x, y)
                    ==> #[trigger] framebuffer.pixel(x, y) == map_wall_color() || framebuffer.pixel(x, y) == white(),
            forall|x: int, y: int|
                framebuffer.in_bounds(x, y) && psx - 2 <= x < psx + 3 && psy - 2 <= y < psy + 3
                    ==> #[trigger] framebuffer.pixel(x, y) == white(),
            framebuffer.width == old(framebuffer).width,
            framebuffer.height == old(framebuffer).height,
            framebuffer.background_color == old(framebuffer).background_color,
            framebuffer.overlays@ == old(framebuffer).overlays@,
            framebuffer.circle_overlays@ == old(framebuffer).circle_overlays@,
            framebuffer.health_to_draw == old(framebuffer).health_to_draw,
        decreases MAP_RAYS - k,
    {
        proof {
            assert(0 <= player.fov * k <= player.fov * MAP_RAYS <= 4096 * 16) by (nonlinear_arith)
                requires
                    0 < player.fov <= 4096,
                    0 <= k < 16,
            {
            }
            vstd::arithmetic::div_mod::lemma_div_is_ordered(player.fov * k, player.fov * MAP_RAYS, MAP_RAYS as int);
            vstd::arithmetic::div_mod::lemma_div_multiples_vanish(player.fov as int, MAP_RAYS as int);
            assert(player.fov * MAP_RAYS == MAP_RAYS * player.fov) by (nonlinear_arith);
            vstd::arithmetic::div_mod::lemma_div_pos_is_pos(player.fov * k, MAP_RAYS as int);
        }
        let a = player.a - floor_div(player.fov, 2) + floor_div(player.fov * k, MAP_RAYS);
        let hit = cast_ray(maze, player, a, trig);
        let d = hit.distance as i64;
        let ix = player.x + along(d, trig.cos_of(a));
        let iy = player.y + along(d, trig.sin_of(a));
        let (sx, sy) = view.point(ix, iy);
        let len = to_screen(0, d, view.num, view.den);
        let steps = if len < 4 {
            4
        } else if len > 0x10000 {
            0x10000
        } else {
            len
        };
        draw_segment(framebuffer, psx, psy, sx, sy, 0, steps);
        k = k + 1;
    }
}

pub open spec fn minimap_wall_color() -> Color {
    Color { r: 160, g: 160, b: 160, a: 255 }
}

pub open spec fn minimap_enemy_color() -> Color {
    Color { r: 220, g: 40, b: 40, a: 255 }
}

pub open spec fn minimap_border_color() -> Color {
    Color { r: 220, g: 220, b: 220, a: 180 }
}

/// A colour that a wall square of the minimap may show: the wall, or what is drawn over
/// it (the player and the facing arrow, an enemy, the border).
pub open spec fn minimap_shade(c: Color) -> bool {
    c == minimap_wall_color() || c == white() || c == minimap_enemy_color() || c == minimap_border_color()
}

/// `(x, y)` lies in the square of half-side `r` (in pixels) around `(cx, cy)`.
pub open spec fn in_dot(cx: int, cy: int, r: int, x: int, y: int) -> bool {
    cx - r <= x < cx + r + 1 && cy - r <= y < cy + r + 1
}

/// Left (or top) edge of the corner minimap on a screen `screen` wide (or tall).
pub open spec fn minimap_origin(screen: int, size: int) -> int {
    if screen > MINIMAP_PAD + size {
        screen - (MINIMAP_PAD + size)
    } else {
        0
    }
}

/// `(x, y)` lies on the one-pixel border of the minimap box at `(ox, oy)`.
pub open spec fn on_border(x: int, y: int, ox: int, oy: int) -> bool {
    ||| (ox <= x < ox + MINIMAP_W && (y == oy || y == oy + MINIMAP_H - 1))
    ||| (oy <= y < oy + MINIMAP_H && (x == ox || x == ox + MINIMAP_W - 1))
}

/// The corner minimap: a dark box with the walls, the player with a facing arrow, each
/// enemy as a red dot, and a light border.
pub fn draw_minimap(framebuffer: &mut Framebuffer, maze: &Grid, player: &Player, enemies: &Vec<Enemy>, trig: &TrigTable)
    requires
        old(framebuffer).wf(),
        maze.wf(),
        player.wf(),
        trig.wf(),
        forall|i: int| 0 <= i < enemies@.len() ==> (#[trigger] enemies@[i]).wf(),
    ensures
        final(framebuffer).wf(),
        final(framebuffer).width == old(framebuffer).width,
        final(framebuffer).height == old(framebuffer).height,
        final(framebuffer).background_color == old(framebuffer).background_color,
        final(framebuffer).overlays@ == old(framebuffer).overlays@,
        final(framebuffer).circle_overlays@ == old(framebuffer).circle_overlays@,
        final(framebuffer).health_to_draw == old(framebuffer).health_to_draw,
        ({
            let ox = minimap_origin(old(framebuffer).width as int, MINIMAP_W as int);
            let oy = minimap_origin(old(framebuffer).height as int, MINIMAP_H as int);
            let v = fit_spec(ox, oy, MINIMAP_W as int, MINIMAP_H as int, maze.num_cols(), maze.num_rows());
            &&& forall|x: int, y: int|
                old(framebuffer).in_bounds(x, y) && on_border(x, y, ox, oy)
                    ==> #[trigger] final(framebuffer).pixel(x, y) == minimap_border_color()
            &&& forall|ii: int, jj: int, x: int, y: int|
                0 <= ii < maze.num_cols() && 0 <= jj < maze.num_rows() && maze.tile(ii, jj) is Wall
                    && old(framebuffer).in_bounds(x, y) && #[trigger] in_cell_rect(v, ii, jj, x, y)
                    ==> minimap_shade(#[trigger] final(framebuffer).pixel(x, y))
            &&& forall|k: int, x: int, y: int|
                0 <= k < enemies@.len() && old(framebuffer).in_bounds(x, y) && #[trigger] in_dot(
                    point_spec(v, enemies@[k].x as int, enemies@[k].y as int).0,
                    point_spec(v, enemies@[k].x as int, enemies@[k].y as int).1,
                    1,
                    x,
                    y,
                ) ==> #[trigger] final(framebuffer).pixel(x, y) == minimap_enemy_color() || final(framebuffer).pixel(
                    x,
                    y,
                ) == minimap_border_color()
        }),
{
    let fw = framebuffer.width as i64;
    let fh = framebuffer.height as i64;
    let ox = if fw > MINIMAP_PAD + MINIMAP_W {
        fw - (MINIMAP_PAD + MINIMAP_W)
    } else {
        0
    };
    let oy = if fh > MINIMAP_PAD + MINIMAP_H {
        fh - (MINIMAP_PAD + MINIMAP_H)
    } else {
        0
    };
    let view = match MapView::fit(ox, oy, MINIMAP_W, MINIMAP_H, maze.width(), maze.height()) {
        Some(v) => v,
        None => {
            return;
        },
    };
    framebuffer.set_current_color(Color::new(10, 10, 10, 220));
    framebuffer.fill_rect(ox, oy, ox + MINIMAP_W, oy + MINIMAP_H);
    framebuffer.set_current_color(Color::new(160, 160, 160, 255));
    let ghost g0 = *framebuffer;
    view.draw_walls(framebuffer, maze);
    let ghost g1 = *framebuffer;
    let (px, py) = view.point(player.x, player.y);
    framebuffer.set_current_color(Color::white());
    let ghost g2 = *framebuffer;
    framebuffer.fill_rect(px - 2, py - 2, px + 3, py + 3);
    let arrow = CELL_SIZE;
    let tipx = player.x + along(arrow, trig.cos_of(player.a));
    let tipy = player.y + along(arrow, trig.sin_of(player.a));
    let (ax, ay) = view.point(tipx, tipy);
    let ghost g3 = *framebuffer;
    draw_segment(framebuffer, px, py, ax, ay, 1, 6);
    let ghost g4 = *framebuffer;
    framebuffer.set_current_color(Color::new(220, 40, 40, 255));
    proof {
        assert forall|ii: int, jj: int, x: int, y: int|
            0 <= ii < maze.num_cols() && 0 <= jj < maze.num_rows() && maze.tile(ii, jj) is Wall
                && framebuffer.in_bounds(x, y) && #[trigger] in_cell_rect(view, ii, jj, x, y)
                implies minimap_shade(#[trigger] framebuffer.pixel(x, y)) by {
            assert(g0.in_bounds(x, y));
            assert(g1.pixel(x, y) == minimap_wall_color());
            assert(g2.pixel(x, y) == g1.pixel(x, y));
            assert(g2.in_bounds(x, y));
            assert(g3.pixel(x, y) == white() || g3.pixel(x, y) == g2.pixel(x, y));
            assert(g3.in_bounds(x, y));
            assert(g4.pixel(x, y) == g3.pixel(x, y) || g4.pixel(x, y) == white());
            assert(framebuffer.pixel(x, y) == g4.pixel(x, y));
        }
    }
    let mut k: usize = 0;
    while k < enemies.len()
        invariant
            framebuffer.wf(),
            view.wf(),
            forall|i: int| 0 <= i < enemies@.len() ==> (#[trigger] enemies@[i]).wf(),
            0 <= k <= enemies@.len(),
            maze.wf(),
            framebuffer.current_color == minimap_enemy_color(),
            forall|ii: int, jj: int, x: int, y: int|
                0 <= ii < maze.num_cols() && 0 <= jj < maze.num_rows() && maze.tile(ii, jj) is Wall
                    && framebuffer.in_bounds(x, y) && #[trigger] in_cell_rect(view, ii, jj, x, y)
                    ==> minimap_shade(#[trigger] framebuffer.pixel(x, y)),
            forall|m: int, x: int, y: int|
                0 <= m < k && framebuffer.in_bounds(x, y) && #[trigger] in_dot(
                    point_spec(view, enemies@[m].x as int, enemies@[m].y as int).0,
                    point_spec(view, enemies@[m].x as int, enemies@[m].y as int).1,
                    1,
                    x,
                    y,
                ) ==> #[trigger] framebuffer.pixel(x, y) == minimap_enemy_color(),
            framebuffer.width == old(framebuffer).width,
            framebuffer.height == old(framebuffer).height,
            framebuffer.background_color == old(framebuffer).background_color,
            framebuffer.overlays@ == old(framebuffer).overlays@,
            framebuffer.circle_overlays@ == old(framebuffer).circle_overlays@,
            framebuffer.health_to_draw == old(framebuffer).health_to_draw,
        decreases enemies.len() - k,
    {
        let e = &enemies[k];
        let (ex, ey) = view.point(e.x, e.y);
        let ghost h0 = *framebuffer;
        framebuffer.fill_rect(ex - 1, ey - 1, ex + 2, ey + 2);
        proof {
            assert forall|ii: int, jj: int, x: int, y: int|
                0 <= ii < maze.num_cols() && 0 <= jj < maze.num_rows() && maze.tile(ii, jj) is Wall
                    && framebuffer.in_bounds(x, y) && #[trigger] in_cell_rect(view, ii, jj, x, y)
                    implies minimap_shade(#[trigger] framebuffer.pixel(x, y)) by {
                assert(h0.in_bounds(x, y));
            }
            assert forall|m: int, x: int, y: int|
                0 <= m < k + 1 && framebuffer.in_bounds(x, y) && #[trigger] in_dot(
                    point_spec(view, enemies@[m].x as int, enemies@[m].y as int).0,
                    point_spec(view, enemies@[m].x as int, enemies@[m].y as int).1,
                    1,
                    x,
                    y,
                ) implies #[trigger] framebuffer.pixel(x, y) == minimap_enemy_color() by {
                assert(h0.in_bounds(x, y));
            }
        }
        k = k + 1;
    }
    let ghost fe = *framebuffer;
    let border = Color::new(220, 220, 220, 180);
    framebuffer.set_current_color(border);
    let ghost f0 = *framebuffer;
    framebuffer.fill_rect(ox, oy, ox + MINIMAP_W, oy + 1);
    let ghost f1 = *framebuffer;
    framebuffer.fill_rect(ox, oy + MINIMAP_H - 1, ox + MINIMAP_W, oy + MINIMAP_H);
    let ghost f2 = *framebuffer;
    framebuffer.fill_rect(ox, oy, ox + 1, oy + MINIMAP_H);
    let ghost f3 = *framebuffer;
    framebuffer.fill_rect(ox + MINIMAP_W - 1, oy, ox + MINIMAP_W, oy + MINIMAP_H);
    proof {
        assert forall|x: int, y: int|
            framebuffer.in_bounds(x, y) && on_border(x, y, ox as int, oy as int) implies #[trigger] framebuffer.pixel(
                x,
                y,
            ) == border by {
            assert(f1.in_bounds(x, y) && f2.in_bounds(x, y) && f3.in_bounds(x, y));
        }
        assert forall|ii: int, jj: int, x: int, y: int|
            0 <= ii < maze.num_cols() && 0 <= jj < maze.num_rows() && maze.tile(ii, jj) is Wall
                && framebuffer.in_bounds(x, y) && #[trigger] in_cell_rect(view, ii, jj, x, y)
                implies minimap_shade(#[trigger] framebuffer.pixel(x, y)) by {
            assert(fe.in_bounds(x, y));
            assert(minimap_shade(fe.pixel(x, y)));
            assert(f0.pixel(x, y) == fe.pixel(x, y));
            assert(f0.in_bounds(x, y));
            assert(f1.pixel(x, y) == minimap_border_color() || f1.pixel(x, y) == f0.pixel(x, y));
            assert(f1.in_bounds(x, y));
            assert(f2.pixel(x, y) == minimap_border_color() || f2.pixel(x, y) == f1.pixel(x, y));
            assert(f2.in_bounds(x, y));
            assert(f3.pixel(x, y) == minimap_border_color() || f3.pixel(x, y) == f2.pixel(x, y));
            assert(f3.in_bounds(x, y));
        }
        assert forall|m: int, x: int, y: int|
            0 <= m < enemies@.len() && framebuffer.in_bounds(x, y) && #[trigger] in_dot(
                point_spec(view, enemies@[m].x as int, enemies@[m].y as int).0,
                point_spec(view, enemies@[m].x as int, enemies@[m].y as int).1,
                1,
                x,
                y,
            ) implies #[trigger] framebuffer.pixel(x, y) == minimap_enemy_color() || framebuffer.pixel(x, y)
            == minimap_border_color() by {
            assert(fe.in_bounds(x, y));
            assert(fe.pixel(x, y) == minimap_enemy_color());
            assert(f0.pixel(x, y) == fe.pixel(x, y));
            assert(f0.in_bounds(x, y));
            assert(f1.pixel(x, y) == minimap_border_color() || f1.pixel(x, y) == f0.pixel(x, y));
            assert(f1.in_bounds(x, y));
            assert(f2.pixel(x, y) == minimap_border_color() || f2.pixel(x, y) == f1.pixel(x, y));
            assert(f2.in_bounds(x, y));
            assert(f3.pixel(x, y) == minimap_border_color() || f3.pixel(x, y) == f2.pixel(x, y));
            assert(f3.in_bounds(x, y));
        }
    }
}

} // verus!
