use vstd::prelude::*;
use crate::fixed::{floor_div, isqrt, isqrt_spec, is_isqrt, lemma_isqrt_unique};
use crate::fixed::floor_mod;
use crate::grid::{Grid, CELL_SIZE};
use crate::tile::{Tile, WallKind};
use crate::player::Player;
use crate::trig::{lemma_near_unit_dir, near_unit, TrigTable, ANGLE_UNITS, TRIG_ONE};

verus! {

/// Distance that a ray advances between two samples, in world units.
pub const RAY_STEP: i64 = 10;

/// Largest magnitude of a world coordinate that the marcher accepts.
pub const COORD_LIMIT: i64 = 0x1000_0000;

/// No march reports a longer distance than this.
pub const MAX_RAY_DISTANCE: u64 = 0x1_0000_0000;

/// What a ray struck.
#[derive(Clone, Copy, PartialEq, Eq, Structural, Debug)]
pub struct Intersect {
    /// Straight-line distance from the ray's origin to the point where the march ended
    /// (the first sample in a wall), in whole world units, rounded down.
    pub distance: u64,
    /// The kind of wall struck (`Boundary` where the ray left the grid).
    pub impact: WallKind,
    /// Offset of the impact along the struck face, in `[0, CELL_SIZE)`;
    /// the texture-column fraction is `tx / CELL_SIZE`.
    pub tx: u64,
}

pub open spec fn abs(v: int) -> int {
    if v < 0 {
        -v
    } else {
        v
    }
}

/// A ray direction in fixed point (`TRIG_ONE` is length one): each component at most
/// one, and the whole at least `1/sqrt(2)` long, so the ray always makes progress.
pub open spec fn dir_ok(dx: int, dy: int) -> bool {
    &&& -TRIG_ONE <= dx <= TRIG_ONE
    &&& -TRIG_ONE <= dy <= TRIG_ONE
    &&& dx * dx + dy * dy >= TRIG_ONE * TRIG_ONE / 2
}

pub open spec fn pos_ok(x: int, y: int) -> bool {
    -COORD_LIMIT <= x <= COORD_LIMIT && -COORD_LIMIT <= y <= COORD_LIMIT
}

/// Coordinate of the `k`-th sample of a ray from `p` with direction component `d`.
pub open spec fn sample(p: int, d: int, k: int) -> int {
    p + (k * RAY_STEP * d) / (TRIG_ONE as int)
}

/// Index of the cell that holds a coordinate.
pub open spec fn cell_of(v: int) -> int {
    v / (CELL_SIZE as int)
}

/// The tile under the `k`-th sample.
pub open spec fn tile_under(g: &Grid, x: int, y: int, dx: int, dy: int, k: int) -> Tile {
    g.tile(cell_of(sample(x, dx, k)), cell_of(sample(y, dy, k)))
}

pub open spec fn hit_at(g: &Grid, x: int, y: int, dx: int, dy: int, k: int) -> bool {
    tile_under(g, x, y, dx, dy, k) is Wall
}

/// A number of samples after which every admissible ray has left the grid.
pub open spec fn march_bound(g: &Grid, x: int, y: int) -> int {
    (abs(x) + abs(y) + (g.num_cols() + g.num_rows()) * CELL_SIZE) / 5 + 4
}

/// Index of the first sample at or after `k` that lies in a wall.
pub open spec fn first_hit(g: &Grid, x: int, y: int, dx: int, dy: int, k: int) -> int
    decreases march_bound(g, x, y) - k,
{
    if k >= march_bound(g, x, y) || hit_at(g, x, y, dx, dy, k) {
        k
    } else {
        first_hit(g, x, y, dx, dy, k + 1)
    }
}

/// Offset along the face crossed by the `k`-th sample: where the sample entered a new
/// column the face runs along y, otherwise along x.
pub open spec fn face_offset(x: int, y: int, dx: int, dy: int, k: int) -> int {
    if k <= 0 {
        0
    } else if cell_of(sample(x, dx, k)) != cell_of(sample(x, dx, k - 1)) {
        sample(y, dy, k) % (CELL_SIZE as int)
    } else {
        sample(x, dx, k) % (CELL_SIZE as int)
    }
}

/// Straight-line distance, rounded down, from `(x, y)` to the `k`-th sample.
pub open spec fn end_distance(x: int, y: int, dx: int, dy: int, k: int) -> int {
    let ex = sample(x, dx, k) - x;
    let ey = sample(y, dy, k) - y;
    isqrt_spec(ex * ex + ey * ey)
}

/// The record of a ray marched from `(x, y)` along `(dx, dy)`.
#[verifier::opaque]
pub open spec fn march_spec(g: &Grid, x: int, y: int, dx: int, dy: int) -> Intersect {
    let k = first_hit(g, x, y, dx, dy, 0);
    Intersect {
        distance: end_distance(x, y, dx, dy, k) as u64,
        impact: match tile_under(g, x, y, dx, dy, k) {
            Tile::Wall(w) => w,
            _ => WallKind::Boundary,
        },
        tx: face_offset(x, y, dx, dy, k) as u64,
    }
}

proof fn lemma_sample_bounds(p: int, d: int, k: int)
    requires
        0 <= k,
        -TRIG_ONE <= d <= TRIG_ONE,
    ensures
        p - k * RAY_STEP <= sample(p, d, k) <= p + k * RAY_STEP,
{
    let n = k * RAY_STEP * d;
    assert(-(k * RAY_STEP) * TRIG_ONE <= n <= k * RAY_STEP * TRIG_ONE) by (nonlinear_arith)
        requires
            0 <= k,
            -TRIG_ONE <= d <= TRIG_ONE,
            n == k * RAY_STEP * d,
    {
    }
    vstd::arithmetic::div_mod::lemma_div_is_ordered(n, k * RAY_STEP * TRIG_ONE, TRIG_ONE as int);
    vstd::arithmetic::div_mod::lemma_div_is_ordered(-(k * RAY_STEP) * TRIG_ONE, n, TRIG_ONE as int);
    vstd::arithmetic::div_mod::lemma_div_multiples_vanish(k * RAY_STEP, TRIG_ONE as int);
    vstd::arithmetic::div_mod::lemma_div_multiples_vanish(-(k * RAY_STEP), TRIG_ONE as int);
}

/// Marches a ray from `(x, y)` along the fixed-point direction `(dx, dy)` in steps of
/// `RAY_STEP` until a sample lies in a wall or outside the grid.
pub fn march(maze: &Grid, x: i64, y: i64, dx: i64, dy: i64) -> (r: Intersect)
    requires
        maze.wf(),
        pos_ok(x as int, y as int),
        dir_ok(dx as int, dy as int),
    ensures
        r == march_spec(maze, x as int, y as int, dx as int, dy as int),
        r.distance <= MAX_RAY_DISTANCE,
        r.tx < CELL_SIZE,
{
    proof {
        reveal(march_spec);
    }
    let ax: i64 = if x < 0 { -x } else { x };
    let ay: i64 = if y < 0 { -y } else { y };
    let extent: i64 = (maze.width() as i64 + maze.height() as i64) * CELL_SIZE;
    let bound: i64 = (ax + ay + extent) / 5 + 4;
    assert(bound == march_bound(maze, x as int, y as int));
    let mut k: i64 = 0;
    let mut prev_ci: i64 = floor_div(x, CELL_SIZE);
    loop
        invariant
            maze.wf(),
            pos_ok(x as int, y as int),
            dir_ok(dx as int, dy as int),
            bound == march_bound(maze, x as int, y as int),
            0 <= k <= bound,
            first_hit(maze, x as int, y as int, dx as int, dy as int, 0) == first_hit(
                maze,
                x as int,
                y as int,
                dx as int,
                dy as int,
                k as int,
            ),
            k > 0 ==> prev_ci == cell_of(sample(x as int, dx as int, k - 1)),
        decreases bound - k,
    {
        proof {
            lemma_sample_bounds(x as int, dx as int, k as int);
            lemma_sample_bounds(y as int, dy as int, k as int);
        }
        let sx = x + floor_div(k * RAY_STEP * dx, TRIG_ONE);
        let sy = y + floor_div(k * RAY_STEP * dy, TRIG_ONE);
        let ci = floor_div(sx, CELL_SIZE);
        let cj = floor_div(sy, CELL_SIZE);
        let t = maze.tile_at(ci, cj);
        if k >= bound || t.is_wall() {
            let impact = match t {
                Tile::Wall(w) => w,
                _ => WallKind::Boundary,
            };
            let tx: i64 = if k == 0 {
                0
            } else if ci != prev_ci {
                floor_mod(sy, CELL_SIZE)
            } else {
                floor_mod(sx, CELL_SIZE)
            };
            let ex = sx - x;
            let ey = sy - y;
            proof {
                reveal(march_spec);
                assert(k * RAY_STEP <= 0x8000_0000);
                assert(0 <= ex * ex <= 0x8000_0000 * 0x8000_0000 && 0 <= ey * ey <= 0x8000_0000 * 0x8000_0000)
                    by (nonlinear_arith)
                    requires
                        -0x8000_0000 <= ex <= 0x8000_0000,
                        -0x8000_0000 <= ey <= 0x8000_0000,
                {
                }
            }
            let d = isqrt((ex * ex) as u64 + (ey * ey) as u64);
            proof {
                assert(d < 0x1_0000_0000) by (nonlinear_arith)
                    requires
                        d * d <= 2 * 0x8000_0000 * 0x8000_0000,
                        d >= 0,
                {
                }
            }
            return Intersect { distance: d, impact, tx: tx as u64 };
        }
        prev_ci = ci;
        k = k + 1;
    }
}

/// The record of the ray cast from the player's position at angle `a`.
pub open spec fn cast_spec(maze: &Grid, player: Player, a: int, trig: &TrigTable) -> Intersect {
    march_spec(maze, player.x as int, player.y as int, trig.cos_spec(a), trig.sin_spec(a))
}

/// Casts a ray from the player's position at angle `a`.
pub fn cast_ray(maze: &Grid, player: &Player, a: i64, trig: &TrigTable) -> (r: Intersect)
    requires
        maze.wf(),
        player.wf(),
        trig.wf(),
        i64::MIN + ANGLE_UNITS <= a < i64::MAX - ANGLE_UNITS,
    ensures
        r == cast_spec(maze, *player, a as int, trig),
        r.distance <= MAX_RAY_DISTANCE,
        r.tx < CELL_SIZE,
{
    let c = trig.cos_of(a);
    let s = trig.sin_of(a);
    proof {
        reveal(TrigTable::unit_pairs);
        let n = ANGLE_UNITS as int;
        let k = a as int % n;
        vstd::arithmetic::div_mod::lemma_add_mod_noop(a as int, n / 4, n);
        vstd::arithmetic::div_mod::lemma_small_mod((n / 4) as nat, n as nat);
        vstd::arithmetic::div_mod::lemma_mod_bound(a as int, n);
        assert(near_unit(trig.sin@[(k + n / 4) % n] as int, trig.sin@[k] as int));
        lemma_near_unit_dir(c as int, s as int);
    }
    march(maze, player.x, player.y, c, s)
}

proof fn lemma_cell_shift(v: int, a: int)
    ensures
        cell_of(v + a * CELL_SIZE) == cell_of(v) + a,
        (v + a * CELL_SIZE) % (CELL_SIZE as int) == v % (CELL_SIZE as int),
{
    let c = CELL_SIZE as int;
    vstd::arithmetic::div_mod::lemma_fundamental_div_mod(v, c);
    vstd::arithmetic::div_mod::lemma_mod_bound(v, c);
    assert(v + a * c == (v / c + a) * c + v % c) by (nonlinear_arith)
        requires
            v == c * (v / c) + v % c,
    {
    }
    vstd::arithmetic::div_mod::lemma_fundamental_div_mod_converse(v + a * c, c, v / c + a, v % c);
}

proof fn lemma_first_hit_props(g: &Grid, x: int, y: int, dx: int, dy: int, k: int)
    requires
        0 <= k <= march_bound(g, x, y),
        hit_at(g, x, y, dx, dy, march_bound(g, x, y)),
    ensures
        k <= first_hit(g, x, y, dx, dy, k) <= march_bound(g, x, y),
        hit_at(g, x, y, dx, dy, first_hit(g, x, y, dx, dy, k)),
        forall|kk: int|
            k <= kk < first_hit(g, x, y, dx, dy, k) ==> !#[trigger] hit_at(g, x, y, dx, dy, kk),
    decreases march_bound(g, x, y) - k,
{
    if k < march_bound(g, x, y) && !hit_at(g, x, y, dx, dy, k) {
        lemma_first_hit_props(g, x, y, dx, dy, k + 1);
    }
}

proof fn lemma_first_hit_is(g: &Grid, x: int, y: int, dx: int, dy: int, k: int, kh: int)
    requires
        0 <= k <= kh <= march_bound(g, x, y),
        hit_at(g, x, y, dx, dy, kh),
        forall|kk: int| k <= kk < kh ==> !#[trigger] hit_at(g, x, y, dx, dy, kk),
    ensures
        first_hit(g, x, y, dx, dy, k) == kh,
    decreases kh - k,
{
    if k < kh {
        assert(!hit_at(g, x, y, dx, dy, k));
        lemma_first_hit_is(g, x, y, dx, dy, k + 1, kh);
    }
}

/// Every admissible ray has left the grid, and so struck a wall, by sample
/// `march_bound`: the march never ends for want of steps.
pub proof fn lemma_ray_leaves_grid(g: &Grid, x: int, y: int, dx: int, dy: int)
    requires
        g.wf(),
        pos_ok(x, y),
        dir_ok(dx, dy),
    ensures
        hit_at(g, x, y, dx, dy, march_bound(g, x, y)),
{
    let b = march_bound(g, x, y);
    let c = CELL_SIZE as int;
    let one = TRIG_ONE as int;
    let w = g.num_cols();
    let h = g.num_rows();
    assert(5 * b > abs(x) + abs(y) + (w + h) * c);
    assert(b >= 0);
    if dx >= one / 2 {
        assert(b * RAY_STEP * dx >= (5 * b) * one) by (nonlinear_arith)
            requires
                b >= 0,
                dx >= 8192,
                one == 16384,
        {
        }
        vstd::arithmetic::div_mod::lemma_div_is_ordered((5 * b) * one, b * RAY_STEP * dx, one);
        vstd::arithmetic::div_mod::lemma_div_multiples_vanish(5 * b, one);
        let s = sample(x, dx, b);
        assert(s >= w * c);
        vstd::arithmetic::div_mod::lemma_div_is_ordered(w * c, s, c);
        vstd::arithmetic::div_mod::lemma_div_multiples_vanish(w, c);
    } else if dx <= -(one / 2) {
        assert(b * RAY_STEP * dx <= -(5 * b) * one) by (nonlinear_arith)
            requires
                b >= 0,
                dx <= -8192,
                one == 16384,
        {
        }
        vstd::arithmetic::div_mod::lemma_div_is_ordered(b * RAY_STEP * dx, -(5 * b) * one, one);
        vstd::arithmetic::div_mod::lemma_div_multiples_vanish(-(5 * b), one);
        let s = sample(x, dx, b);
        assert(s <= -1);
        vstd::arithmetic::div_mod::lemma_div_is_ordered(s, -1, c);
    } else if dy >= one / 2 {
        assert(b * RAY_STEP * dy >= (5 * b) * one) by (nonlinear_arith)
            requires
                b >= 0,
                dy >= 8192,
                one == 16384,
        {
        }
        vstd::arithmetic::div_mod::lemma_div_is_ordered((5 * b) * one, b * RAY_STEP * dy, one);
        vstd::arithmetic::div_mod::lemma_div_multiples_vanish(5 * b, one);
        let s = sample(y, dy, b);
        assert(s >= h * c);
        vstd::arithmetic::div_mod::lemma_div_is_ordered(h * c, s, c);
        vstd::arithmetic::div_mod::lemma_div_multiples_vanish(h, c);
    } else {
        assert(dy <= -(one / 2)) by (nonlinear_arith)
            requires
                -8192 < dx < 8192,
                dy < 8192,
                dx * dx + dy * dy >= 16384 * 16384 / 2,
                one == 16384,
        {
        }
        assert(b * RAY_STEP * dy <= -(5 * b) * one) by (nonlinear_arith)
            requires
                b >= 0,
                dy <= -8192,
                one == 16384,
        {
        }
        vstd::arithmetic::div_mod::lemma_div_is_ordered(b * RAY_STEP * dy, -(5 * b) * one, one);
        vstd::arithmetic::div_mod::lemma_div_multiples_vanish(-(5 * b), one);
        let s = sample(y, dy, b);
        assert(s <= -1);
        vstd::arithmetic::div_mod::lemma_div_is_ordered(s, -1, c);
    }
}

proof fn lemma_isqrt_square(v: int)
    requires
        v >= 0,
    ensures
        isqrt_spec(v * v) == v,
{
    assert(is_isqrt(v * v, v)) by (nonlinear_arith)
        requires
            v >= 0,
    {
    }
    lemma_isqrt_unique(v * v, v, isqrt_spec(v * v));
}

proof fn isqrt_witness(n: int) -> (r: int)
    requires
        0 <= n,
    ensures
        is_isqrt(n, r),
    decreases n,
{
    if n == 0 {
        0
    } else {
        let q = isqrt_witness(n - 1);
        if (q + 1) * (q + 1) <= n {
            assert(is_isqrt(n, q + 1)) by (nonlinear_arith)
                requires
                    n - 1 < (q + 1) * (q + 1),
                    (q + 1) * (q + 1) <= n,
                    q >= 0,
            {
            }
            q + 1
        } else {
            assert(is_isqrt(n, q)) by (nonlinear_arith)
                requires
                    q * q <= n - 1,
                    n < (q + 1) * (q + 1),
                    q >= 0,
            {
            }
            q
        }
    }
}

proof fn lemma_isqrt_le(n: int, m: int)
    requires
        0 <= n <= m,
    ensures
        isqrt_spec(n) * isqrt_spec(n) <= m,
        isqrt_spec(n) >= 0,
{
    let w = isqrt_witness(n);
    assert(is_isqrt(n, w));
    assert(is_isqrt(n, isqrt_spec(n)));
}

/// Consecutive samples of a ray are at most one step apart along each axis.
proof fn lemma_sample_step(p: int, d: int, k: int)
    requires
        1 <= k,
        -TRIG_ONE <= d <= TRIG_ONE,
    ensures
        -RAY_STEP <= sample(p, d, k) - sample(p, d, k - 1) <= RAY_STEP,
{
    let one = TRIG_ONE as int;
    let n1 = k * RAY_STEP * d;
    let n2 = (k - 1) * RAY_STEP * d;
    assert(n1 - n2 == 10 * d) by (nonlinear_arith)
        requires
            n1 == k * RAY_STEP * d,
            n2 == (k - 1) * RAY_STEP * d,
    {
    }
    vstd::arithmetic::div_mod::lemma_fundamental_div_mod(n1, one);
    vstd::arithmetic::div_mod::lemma_fundamental_div_mod(n2, one);
    vstd::arithmetic::div_mod::lemma_mod_bound(n1, one);
    vstd::arithmetic::div_mod::lemma_mod_bound(n2, one);
}

/// A coordinate whose cell lies in `[0, n)` lies in `[0, n * CELL_SIZE)`.
proof fn lemma_cell_range(v: int, n: int)
    requires
        0 <= cell_of(v) < n,
    ensures
        0 <= v < n * CELL_SIZE,
{
    let c = CELL_SIZE as int;
    vstd::arithmetic::div_mod::lemma_fundamental_div_mod(v, c);
    vstd::arithmetic::div_mod::lemma_mod_bound(v, c);
    assert(0 <= v < n * c) by (nonlinear_arith)
        requires
            v == c * (v / c) + v % c,
            0 <= v % c < c,
            0 <= v / c < n,
            c == 100,
    {
    }
}

/// Termination: a march takes at most `march_bound` samples and ends on a wall (or on
/// the boundary), never for want of steps; from inside the grid that bound is at most
/// four times the grid's width plus height, over the step size, plus four, and the
/// reported distance is at most the diagonal of the grid widened by one step on each
/// side.
pub proof fn lemma_march_terminates(g: &Grid, x: int, y: int, dx: int, dy: int)
    requires
        g.wf(),
        pos_ok(x, y),
        dir_ok(dx, dy),
    ensures
        march_spec(g, x, y, dx, dy).distance >= 0,
        first_hit(g, x, y, dx, dy, 0) <= march_bound(g, x, y),
        hit_at(g, x, y, dx, dy, first_hit(g, x, y, dx, dy, 0)),
        0 <= x <= g.num_cols() * CELL_SIZE && 0 <= y <= g.num_rows() * CELL_SIZE
            ==> march_bound(g, x, y) <= 4 * (g.num_cols() + g.num_rows()) * CELL_SIZE / (RAY_STEP as int) + 4,
        0 <= x < g.num_cols() * CELL_SIZE && 0 <= y < g.num_rows() * CELL_SIZE ==> march_spec(g, x, y, dx, dy).distance
            * march_spec(g, x, y, dx, dy).distance <= (g.num_cols() * CELL_SIZE + RAY_STEP) * (g.num_cols()
            * CELL_SIZE + RAY_STEP) + (g.num_rows() * CELL_SIZE + RAY_STEP) * (g.num_rows() * CELL_SIZE
            + RAY_STEP),
{
    reveal(march_spec);
    lemma_ray_leaves_grid(g, x, y, dx, dy);
    lemma_first_hit_props(g, x, y, dx, dy, 0);
    let k = first_hit(g, x, y, dx, dy, 0);
    let wc = g.num_cols() * CELL_SIZE;
    let hc = g.num_rows() * CELL_SIZE;
    if 0 <= x < wc && 0 <= y < hc {
        let ex = sample(x, dx, k) - x;
        let ey = sample(y, dy, k) - y;
        if k == 0 {
            assert(0 * RAY_STEP * dx == 0 && 0 * RAY_STEP * dy == 0) by (nonlinear_arith);
            assert(ex == 0 && ey == 0);
        } else {
            assert(!hit_at(g, x, y, dx, dy, k - 1));
            let px = sample(x, dx, k - 1);
            let py = sample(y, dy, k - 1);
            assert(0 <= cell_of(px) < g.num_cols() && 0 <= cell_of(py) < g.num_rows());
            lemma_cell_range(px, g.num_cols());
            lemma_cell_range(py, g.num_rows());
            lemma_sample_step(x, dx, k);
            lemma_sample_step(y, dy, k);
        }
        assert(-(wc + RAY_STEP) <= ex <= wc + RAY_STEP && -(hc + RAY_STEP) <= ey <= hc + RAY_STEP);
        assert(ex * ex + ey * ey <= (wc + RAY_STEP) * (wc + RAY_STEP) + (hc + RAY_STEP) * (hc + RAY_STEP))
            by (nonlinear_arith)
            requires
                -(wc + RAY_STEP) <= ex <= wc + RAY_STEP,
                -(hc + RAY_STEP) <= ey <= hc + RAY_STEP,
        {
        }
        assert(0 <= ex * ex + ey * ey) by (nonlinear_arith);
        let m = (wc + RAY_STEP) * (wc + RAY_STEP) + (hc + RAY_STEP) * (hc + RAY_STEP);
        lemma_isqrt_le(ex * ex + ey * ey, m);
        let r = isqrt_spec(ex * ex + ey * ey);
        assert(r <= m) by (nonlinear_arith)
            requires
                r * r <= m,
                r >= 0,
        {
        }
        assert(m <= 0x1_0000_0000_0000) by (nonlinear_arith)
            requires
                0 <= wc <= 409600,
                0 <= hc <= 409600,
                m == (wc + RAY_STEP) * (wc + RAY_STEP) + (hc + RAY_STEP) * (hc + RAY_STEP),
        {
        }
    }
}

/// Termination for every cast angle: a ray cast from the player at any angle ends on
/// a wall within `march_bound` samples, at a distance of at least zero, and from inside
/// the grid at most the grid's diagonal widened by one step on each side.
pub proof fn lemma_cast_terminates(maze: &Grid, player: Player, a: int, trig: &TrigTable)
    requires
        maze.wf(),
        player.wf(),
        trig.wf(),
    ensures
        cast_spec(maze, player, a, trig).distance >= 0,
        first_hit(maze, player.x as int, player.y as int, trig.cos_spec(a), trig.sin_spec(a), 0) <= march_bound(
            maze,
            player.x as int,
            player.y as int,
        ),
        hit_at(
            maze,
            player.x as int,
            player.y as int,
            trig.cos_spec(a),
            trig.sin_spec(a),
            first_hit(maze, player.x as int, player.y as int, trig.cos_spec(a), trig.sin_spec(a), 0),
        ),
        0 <= player.x < maze.num_cols() * CELL_SIZE && 0 <= player.y < maze.num_rows() * CELL_SIZE
            ==> cast_spec(maze, player, a, trig).distance * cast_spec(maze, player, a, trig).distance <= (
            maze.num_cols() * CELL_SIZE + RAY_STEP) * (maze.num_cols() * CELL_SIZE + RAY_STEP) + (maze.num_rows()
            * CELL_SIZE + RAY_STEP) * (maze.num_rows() * CELL_SIZE + RAY_STEP),
{
    reveal(TrigTable::unit_pairs);
    let n = ANGLE_UNITS as int;
    let k = a % n;
    vstd::arithmetic::div_mod::lemma_add_mod_noop(a, n / 4, n);
    vstd::arithmetic::div_mod::lemma_small_mod((n / 4) as nat, n as nat);
    vstd::arithmetic::div_mod::lemma_mod_bound(a, n);
    assert(near_unit(trig.sin@[(k + n / 4) % n] as int, trig.sin@[k] as int));
    assert(-TRIG_ONE <= trig.sin@[(k + n / 4) % n] <= TRIG_ONE && -TRIG_ONE <= trig.sin@[k] <= TRIG_ONE);
    lemma_near_unit_dir(trig.cos_spec(a), trig.sin_spec(a));
    lemma_march_terminates(maze, player.x as int, player.y as int, trig.cos_spec(a), trig.sin_spec(a));
}

/// A ray cast due east (direction `(TRIG_ONE, 0)`) along a row that is open from the
/// start cell up to a wall in column `wc` reports the distance to that wall's face
/// within one step, and that wall's kind.
pub proof fn lemma_east_ray_hits_known_wall(g: &Grid, x: int, y: int, wc: int)
    requires
        g.wf(),
        pos_ok(x, y),
        cell_of(x) < wc,
        forall|i: int| cell_of(x) <= i < wc ==> !(#[trigger] g.tile(i, cell_of(y)) is Wall),
        g.tile(wc, cell_of(y)) is Wall,
    ensures
        wc * CELL_SIZE - x <= march_spec(g, x, y, TRIG_ONE as int, 0).distance < wc * CELL_SIZE
            - x + RAY_STEP,
        Tile::Wall(march_spec(g, x, y, TRIG_ONE as int, 0).impact) == g.tile(wc, cell_of(y)),
{
    reveal(march_spec);
    let c = CELL_SIZE as int;
    let one = TRIG_ONE as int;
    let x0 = cell_of(x);
    let w = g.num_cols();
    assert(x0 < w && 0 <= x0) by {
        assert(g.tile(x0, cell_of(y)) !is Wall);
    }
    assert(wc <= w) by {
        if wc > w {
            assert(g.tile(w, cell_of(y)) is Wall);
        }
    }
    vstd::arithmetic::div_mod::lemma_fundamental_div_mod(x, c);
    vstd::arithmetic::div_mod::lemma_mod_bound(x, c);
    let kh = (wc * c - x + 9) / 10;
    assert forall|k: int| 0 <= k implies #[trigger] sample(x, one, k) == x + 10 * k && sample(
        y,
        0,
        k,
    ) == y by {
        assert(k * RAY_STEP * one == (10 * k) * one) by (nonlinear_arith);
        vstd::arithmetic::div_mod::lemma_div_multiples_vanish(10 * k, one);
        assert(k * RAY_STEP * 0 == 0) by (nonlinear_arith);
    }
    assert forall|k: int| 0 <= k < kh implies !#[trigger] hit_at(g, x, y, one, 0, k) by {
        assert(sample(x, one, k) == x + 10 * k);
        assert(x + 10 * k < wc * c);
        vstd::arithmetic::div_mod::lemma_div_is_ordered(x, x + 10 * k, c);
        vstd::arithmetic::div_mod::lemma_div_is_ordered(x + 10 * k, wc * c - 1, c);
        vstd::arithmetic::div_mod::lemma_fundamental_div_mod_converse(wc * c - 1, c, wc - 1, c - 1);
        assert(g.tile(cell_of(x + 10 * k), cell_of(y)) !is Wall);
    }
    assert(sample(x, one, kh) == x + 10 * kh);
    assert(wc * c <= x + 10 * kh < wc * c + 10);
    vstd::arithmetic::div_mod::lemma_fundamental_div_mod_converse(
        x + 10 * kh,
        c,
        wc,
        x + 10 * kh - wc * c,
    );
    assert(hit_at(g, x, y, one, 0, kh));
    assert(kh <= march_bound(g, x, y));
    lemma_first_hit_is(g, x, y, one, 0, 0, kh);
    assert(kh >= 0);
    lemma_isqrt_square(10 * kh);
    assert((10 * kh) * (10 * kh) + 0 * 0 == (10 * kh) * (10 * kh)) by (nonlinear_arith);
    assert(end_distance(x, y, one, 0, kh) == 10 * kh);
}

/// A ray cast due south (direction `(0, TRIG_ONE)`) down a column that is open from the
/// start cell to a wall in row `wr` reports the distance to that wall's face within
/// one step, and that wall's kind.
pub proof fn lemma_south_ray_hits_known_wall(g: &Grid, x: int, y: int, wr: int)
    requires
        g.wf(),
        pos_ok(x, y),
        cell_of(y) < wr,
        forall|j: int| cell_of(y) <= j < wr ==> !(#[trigger] g.tile(cell_of(x), j) is Wall),
        g.tile(cell_of(x), wr) is Wall,
    ensures
        wr * CELL_SIZE - y <= march_spec(g, x, y, 0, TRIG_ONE as int).distance < wr * CELL_SIZE
            - y + RAY_STEP,
        Tile::Wall(march_spec(g, x, y, 0, TRIG_ONE as int).impact) == g.tile(cell_of(x), wr),
{
    reveal(march_spec);
    let c = CELL_SIZE as int;
    let one = TRIG_ONE as int;
    let y0 = cell_of(y);
    let h = g.num_rows();
    assert(y0 < h && 0 <= y0) by {
        assert(g.tile(cell_of(x), y0) !is Wall);
    }
    assert(wr <= h) by {
        if wr > h {
            assert(g.tile(cell_of(x), h) is Wall);
        }
    }
    vstd::arithmetic::div_mod::lemma_fundamental_div_mod(y, c);
    vstd::arithmetic::div_mod::lemma_mod_bound(y, c);
    let kh = (wr * c - y + 9) / 10;
    assert forall|k: int| 0 <= k implies #[trigger] sample(y, one, k) == y + 10 * k && sample(
        x,
        0,
        k,
    ) == x by {
        assert(k * RAY_STEP * one == (10 * k) * one) by (nonlinear_arith);
        vstd::arithmetic::div_mod::lemma_div_multiples_vanish(10 * k, one);
        assert(k * RAY_STEP * 0 == 0) by (nonlinear_arith);
    }
    assert forall|k: int| 0 <= k < kh implies !#[trigger] hit_at(g, x, y, 0, one, k) by {
        assert(sample(y, one, k) == y + 10 * k);
        assert(y + 10 * k < wr * c);
        vstd::arithmetic::div_mod::lemma_div_is_ordered(y, y + 10 * k, c);
        vstd::arithmetic::div_mod::lemma_div_is_ordered(y + 10 * k, wr * c - 1, c);
        vstd::arithmetic::div_mod::lemma_fundamental_div_mod_converse(wr * c - 1, c, wr - 1, c - 1);
        assert(g.tile(cell_of(x), cell_of(y + 10 * k)) !is Wall);
    }
    assert(sample(y, one, kh) == y + 10 * kh);
    assert(wr * c <= y + 10 * kh < wr * c + 10);
    vstd::arithmetic::div_mod::lemma_fundamental_div_mod_converse(
        y + 10 * kh,
        c,
        wr,
        y + 10 * kh - wr * c,
    );
    assert(hit_at(g, x, y, 0, one, kh));
    assert(kh <= march_bound(g, x, y));
    lemma_first_hit_is(g, x, y, 0, one, 0, kh);
    assert(kh >= 0);
    lemma_isqrt_square(10 * kh);
    assert(0 * 0 + (10 * kh) * (10 * kh) == (10 * kh) * (10 * kh)) by (nonlinear_arith);
    assert(end_distance(x, y, 0, one, kh) == 10 * kh);
}

/// Periodicity: translating the grid and the ray's origin by whole cells (`a` columns
/// and `b` rows) changes nothing in the record, texture offset included.
pub proof fn lemma_march_translation(
    g: &Grid,
    g2: &Grid,
    x: int,
    y: int,
    dx: int,
    dy: int,
    a: int,
    b: int,
)
    requires
        g.wf(),
        g2.wf(),
        pos_ok(x, y),
        pos_ok(x + a * CELL_SIZE, y + b * CELL_SIZE),
        dir_ok(dx, dy),
        forall|i: int, j: int| #[trigger] g2.tile(i + a, j + b) == g.tile(i, j),
    ensures
        march_spec(g2, x + a * CELL_SIZE, y + b * CELL_SIZE, dx, dy) == march_spec(
            g,
            x,
            y,
            dx,
            dy,
        ),
{
    reveal(march_spec);
    let x2 = x + a * CELL_SIZE;
    let y2 = y + b * CELL_SIZE;
    assert forall|k: int| 0 <= k implies sample(x2, dx, k) == sample(x, dx, k) + a * CELL_SIZE
        && sample(y2, dy, k) == sample(y, dy, k) + b * CELL_SIZE && cell_of(#[trigger] sample(x2, dx, k))
        == cell_of(sample(x, dx, k)) + a && cell_of(sample(y2, dy, k)) == cell_of(sample(y, dy, k))
        + b && sample(x2, dx, k) % (CELL_SIZE as int) == sample(x, dx, k) % (CELL_SIZE as int)
        && sample(y2, dy, k) % (CELL_SIZE as int) == sample(y, dy, k) % (CELL_SIZE as int)
        && tile_under(g2, x2, y2, dx, dy, k) == tile_under(g, x, y, dx, dy, k) by {
        lemma_cell_shift(sample(x, dx, k), a);
        lemma_cell_shift(sample(y, dy, k), b);
        let i = cell_of(sample(x, dx, k));
        let j = cell_of(sample(y, dy, k));
        assert(g2.tile(i + a, j + b) == g.tile(i, j));
    }
    lemma_ray_leaves_grid(g, x, y, dx, dy);
    lemma_ray_leaves_grid(g2, x2, y2, dx, dy);
    lemma_first_hit_props(g, x, y, dx, dy, 0);
    lemma_first_hit_props(g2, x2, y2, dx, dy, 0);
    let f1 = first_hit(g, x, y, dx, dy, 0);
    let f2 = first_hit(g2, x2, y2, dx, dy, 0);
    assert(sample(x2, dx, f2) == sample(x, dx, f2) + a * CELL_SIZE);
    assert(sample(x2, dx, f1) == sample(x, dx, f1) + a * CELL_SIZE);
    if f1 < f2 {
        assert(!hit_at(g2, x2, y2, dx, dy, f1));
    }
    if f2 < f1 {
        assert(!hit_at(g, x, y, dx, dy, f2));
    }
    assert(f1 == f2);
    if f1 > 0 {
        assert(sample(x2, dx, f1 - 1) == sample(x, dx, f1 - 1) + a * CELL_SIZE);
    }
}

/// Periodicity along the ray's path: where the ray strikes a wall inside the grid, a
/// second grid that holds the first one's cells shifted by whole cells (`a` columns and
/// `b` rows), whatever lies around them, gives the same record to the same ray shifted
/// alike, texture offset included.
pub proof fn lemma_march_translation_in_grid(
    g: &Grid,
    g2: &Grid,
    x: int,
    y: int,
    dx: int,
    dy: int,
    a: int,
    b: int,
)
    requires
        g.wf(),
        g2.wf(),
        pos_ok(x, y),
        pos_ok(x + a * CELL_SIZE, y + b * CELL_SIZE),
        dir_ok(dx, dy),
        forall|i: int, j: int|
            0 <= i < g.num_cols() && 0 <= j < g.num_rows() ==> #[trigger] g2.tile(i + a, j + b) == g.tile(i, j),
        0 <= cell_of(sample(x, dx, first_hit(g, x, y, dx, dy, 0))) < g.num_cols(),
        0 <= cell_of(sample(y, dy, first_hit(g, x, y, dx, dy, 0))) < g.num_rows(),
    ensures
        march_spec(g2, x + a * CELL_SIZE, y + b * CELL_SIZE, dx, dy) == march_spec(g, x, y, dx, dy),
{
    reveal(march_spec);
    let x2 = x + a * CELL_SIZE;
    let y2 = y + b * CELL_SIZE;
    lemma_ray_leaves_grid(g, x, y, dx, dy);
    lemma_ray_leaves_grid(g2, x2, y2, dx, dy);
    lemma_first_hit_props(g, x, y, dx, dy, 0);
    lemma_first_hit_props(g2, x2, y2, dx, dy, 0);
    let f1 = first_hit(g, x, y, dx, dy, 0);
    let f2 = first_hit(g2, x2, y2, dx, dy, 0);
    assert forall|k: int| 0 <= k <= f1 implies sample(x2, dx, k) == sample(x, dx, k) + a * CELL_SIZE
        && sample(y2, dy, k) == sample(y, dy, k) + b * CELL_SIZE && cell_of(#[trigger] sample(x2, dx, k))
        == cell_of(sample(x, dx, k)) + a && cell_of(sample(y2, dy, k)) == cell_of(sample(y, dy, k))
        + b && sample(x2, dx, k) % (CELL_SIZE as int) == sample(x, dx, k) % (CELL_SIZE as int)
        && sample(y2, dy, k) % (CELL_SIZE as int) == sample(y, dy, k) % (CELL_SIZE as int)
        && tile_under(g2, x2, y2, dx, dy, k) == tile_under(g, x, y, dx, dy, k) by {
        lemma_cell_shift(sample(x, dx, k), a);
        lemma_cell_shift(sample(y, dy, k), b);
        let i = cell_of(sample(x, dx, k));
        let j = cell_of(sample(y, dy, k));
        if k < f1 {
            assert(!hit_at(g, x, y, dx, dy, k));
        }
        assert(0 <= i < g.num_cols() && 0 <= j < g.num_rows());
        assert(g2.tile(i + a, j + b) == g.tile(i, j));
    }
    if f2 < f1 {
        assert(!hit_at(g, x, y, dx, dy, f2));
        assert(cell_of(sample(x2, dx, f2)) == cell_of(sample(x, dx, f2)) + a);
    }
    if f1 < f2 {
        assert(cell_of(sample(x2, dx, f1)) == cell_of(sample(x, dx, f1)) + a);
        assert(!hit_at(g2, x2, y2, dx, dy, f1));
    }
    assert(f1 == f2);
    assert(cell_of(sample(x2, dx, f1)) == cell_of(sample(x, dx, f1)) + a);
    if f1 > 0 {
        assert(cell_of(sample(x2, dx, f1 - 1)) == cell_of(sample(x, dx, f1 - 1)) + a);
    }
}

} // verus!
