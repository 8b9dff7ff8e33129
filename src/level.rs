use vstd::prelude::*;
use crate::fixed::floor_div;
use crate::grid::{Grid, CELL_SIZE, MAX_GRID_DIM};
use crate::tile::Tile;

verus! {

/// The maze file of a level: the final level has its own, the others alternate.
pub fn maze_filename_for_level(level: i32) -> (r: &'static str)
    ensures
        level == 7 ==> r@ == "maze_final.txt"@,
        level != 7 && level % 2 == 0 ==> r@ == "maze_even.txt"@,
        level != 7 && level % 2 != 0 ==> r@ == "maze_odd.txt"@,
{
    if level == 7 {
        proof {
            reveal_strlit("maze_final.txt");
        }
        "maze_final.txt"
    } else if level % 2 == 0 {
        proof {
            reveal_strlit("maze_even.txt");
        }
        "maze_even.txt"
    } else {
        proof {
            reveal_strlit("maze_odd.txt");
        }
        "maze_odd.txt"
    }
}

/// World position of the centre of cell `(i, j)`.
pub open spec fn center_of(i: int, j: int) -> (int, int) {
    (i * CELL_SIZE + CELL_SIZE / 2, j * CELL_SIZE + CELL_SIZE / 2)
}

/// World position of the centre of cell `(i, j)`.
pub fn tile_center_pos(i: usize, j: usize) -> (r: (i64, i64))
    requires
        i <= MAX_GRID_DIM,
        j <= MAX_GRID_DIM,
    ensures
        (r.0 as int, r.1 as int) == center_of(i as int, j as int),
{
    ((i as i64) * CELL_SIZE + CELL_SIZE / 2, (j as i64) * CELL_SIZE + CELL_SIZE / 2)
}

/// `(i, j)` comes before `(i2, j2)` in row-major order.
pub open spec fn row_major_before(i: int, j: int, i2: int, j2: int) -> bool {
    j < j2 || (j == j2 && i < i2)
}

/// The first cell, in row-major order, that holds the tile `t`.
pub fn find_tile(maze: &Grid, t: Tile) -> (r: Option<(usize, usize)>)
    requires
        maze.wf(),
    ensures
        r matches Some((i, j)) ==> {
            &&& (i as int) < maze.num_cols()
            &&& (j as int) < maze.num_rows()
            &&& maze.tile(i as int, j as int) == t
            &&& forall|ii: int, jj: int|
                0 <= ii < maze.num_cols() && 0 <= jj < maze.num_rows() && row_major_before(
                    ii,
                    jj,
                    i as int,
                    j as int,
                ) ==> #[trigger] maze.tile(ii, jj) != t
        },
        r is None ==> forall|ii: int, jj: int|
            0 <= ii < maze.num_cols() && 0 <= jj < maze.num_rows() ==> #[trigger] maze.tile(ii, jj) != t,
{
    let h = maze.height();
    let w = maze.width();
    let mut j: usize = 0;
    while j < h
        invariant
            maze.wf(),
            h == maze.num_rows(),
            w == maze.num_cols(),
            0 <= j <= h,
            forall|ii: int, jj: int|
                0 <= ii < w && 0 <= jj < j ==> #[trigger] maze.tile(ii, jj) != t,
        decreases h - j,
    {
        let mut i: usize = 0;
        while i < w
            invariant
                maze.wf(),
                h == maze.num_rows(),
                w == maze.num_cols(),
                0 <= j < h,
                0 <= i <= w,
                forall|ii: int, jj: int|
                    0 <= ii < w && 0 <= jj < j ==> #[trigger] maze.tile(ii, jj) != t,
                forall|ii: int| 0 <= ii < i ==> #[trigger] maze.tile(ii, j as int) != t,
            decreases w - i,
        {
            if maze.tile_at(i as i64, j as i64) == t {
                return Some((i, j));
            }
            i = i + 1;
        }
        j = j + 1;
    }
    None
}

pub open spec fn cheb(i: int, j: int, ci: int, cj: int) -> int {
    let a = if i >= ci {
        i - ci
    } else {
        ci - i
    };
    let b = if j >= cj {
        j - cj
    } else {
        cj - j
    };
    if a >= b {
        a
    } else {
        b
    }
}

/// `(i, j)` is the first walkable cell met when rings of growing Chebyshev radius around
/// `(ci, cj)`, out to `max_r`, are searched column by column left to right, each column
/// top to bottom.
pub open spec fn first_free(maze: &Grid, ci: int, cj: int, max_r: int, i: int, j: int) -> bool {
    &&& !(maze.tile(i, j) is Wall)
    &&& cheb(i, j, ci, cj) <= max_r
    &&& forall|ii: int, jj: int| cheb(ii, jj, ci, cj) < cheb(i, j, ci, cj) ==> #[trigger] maze.tile(ii, jj) is Wall
    &&& forall|ii: int, jj: int|
        cheb(ii, jj, ci, cj) == cheb(i, j, ci, cj) && (ii < i || (ii == i && jj < j))
            ==> #[trigger] maze.tile(ii, jj) is Wall
}

/// The cell that the ring search around `(ci, cj)` finds, if any.
pub open spec fn nearest_free_spec(maze: &Grid, ci: int, cj: int, max_r: int) -> Option<(int, int)> {
    if exists|p: (int, int)| first_free(maze, ci, cj, max_r, p.0, p.1) {
        Some(choose|p: (int, int)| first_free(maze, ci, cj, max_r, p.0, p.1))
    } else {
        None
    }
}

proof fn lemma_first_free_unique(maze: &Grid, ci: int, cj: int, max_r: int, i1: int, j1: int, i2: int, j2: int)
    requires
        first_free(maze, ci, cj, max_r, i1, j1),
        first_free(maze, ci, cj, max_r, i2, j2),
    ensures
        i1 == i2 && j1 == j2,
{
    assert(maze.tile(i1, j1) !is Wall);
    assert(maze.tile(i2, j2) !is Wall);
}

/// A walkable cell nearest to `(ci, cj)` in rings of growing Chebyshev radius, up to
/// `max_r`; within a ring the columns are searched left to right, each top to bottom.
pub fn nearest_free_cell(maze: &Grid, ci: i64, cj: i64, max_r: i64) -> (r: Option<(usize, usize)>)
    requires
        maze.wf(),
        -0x1000_0000 <= ci <= 0x1000_0000,
        -0x1000_0000 <= cj <= 0x1000_0000,
        max_r <= 0x1000_0000,
    ensures
        r matches Some((i, j)) ==> first_free(maze, ci as int, cj as int, max_r as int, i as int, j as int)
            && nearest_free_spec(maze, ci as int, cj as int, max_r as int) == Some((i as int, j as int)),
        r is None ==> walled_around(maze, ci as int, cj as int, max_r as int) && nearest_free_spec(
            maze,
            ci as int,
            cj as int,
            max_r as int,
        ) is None,
{
    let mut rad: i64 = 0;
    while rad <= max_r
        invariant
            maze.wf(),
            -0x1000_0000 <= ci <= 0x1000_0000,
            -0x1000_0000 <= cj <= 0x1000_0000,
            max_r <= 0x1000_0000,
            0 <= rad <= 0x1000_0001,
            rad <= max_r + 1 || rad == 0,
            forall|ii: int, jj: int|
                cheb(ii, jj, ci as int, cj as int) < rad ==> #[trigger] maze.tile(ii, jj) is Wall,
        decreases max_r + 1 - rad,
    {
        let mut dx: i64 = -rad;
        while dx <= rad
            invariant
                maze.wf(),
                -0x1000_0000 <= ci <= 0x1000_0000,
                -0x1000_0000 <= cj <= 0x1000_0000,
                0 <= rad <= max_r <= 0x1000_0000,
                -rad <= dx <= rad + 1,
                forall|ii: int, jj: int|
                    cheb(ii, jj, ci as int, cj as int) < rad ==> #[trigger] maze.tile(ii, jj) is Wall,
                forall|ii: int, jj: int|
                    cheb(ii, jj, ci as int, cj as int) == rad && ii - ci < dx ==> #[trigger] maze.tile(
                        ii,
                        jj,
                    ) is Wall,
            decreases rad + 1 - dx,
        {
            let mut dy: i64 = -rad;
            while dy <= rad
                invariant
                    maze.wf(),
                    -0x1000_0000 <= ci <= 0x1000_0000,
                    -0x1000_0000 <= cj <= 0x1000_0000,
                    0 <= rad <= max_r <= 0x1000_0000,
                    -rad <= dx <= rad,
                    -rad <= dy <= rad + 1,
                    forall|ii: int, jj: int|
                        cheb(ii, jj, ci as int, cj as int) < rad ==> #[trigger] maze.tile(ii, jj) is Wall,
                    forall|ii: int, jj: int|
                        cheb(ii, jj, ci as int, cj as int) == rad && ii - ci < dx ==> #[trigger] maze.tile(
                            ii,
                            jj,
                        ) is Wall,
                    forall|jj: int|
                        cheb(ci + dx, jj, ci as int, cj as int) == rad && jj - cj < dy ==> #[trigger] maze.tile(
                            ci + dx,
                            jj,
                        ) is Wall,
                decreases rad + 1 - dy,
            {
                let on_ring = dx == rad || dx == -rad || dy == rad || dy == -rad;
                if on_ring {
                    let t = maze.tile_at(ci + dx, cj + dy);
                    if !t.is_wall() {
                        proof {
                            let (i, j) = ((ci + dx) as int, (cj + dy) as int);
                            assert(cheb(i, j, ci as int, cj as int) == rad);
                            assert(first_free(maze, ci as int, cj as int, max_r as int, i, j));
                            let p = choose|p: (int, int)| first_free(maze, ci as int, cj as int, max_r as int, p.0, p.1);
                            lemma_first_free_unique(maze, ci as int, cj as int, max_r as int, i, j, p.0, p.1);
                        }
                        return Some(((ci + dx) as usize, (cj + dy) as usize));
                    }
                }
                dy = dy + 1;
            }
            dx = dx + 1;
        }
        rad = rad + 1;
    }
    proof {
        assert(!exists|p: (int, int)| first_free(maze, ci as int, cj as int, max_r as int, p.0, p.1)) by {
            if exists|p: (int, int)| first_free(maze, ci as int, cj as int, max_r as int, p.0, p.1) {
                let p = choose|p: (int, int)| first_free(maze, ci as int, cj as int, max_r as int, p.0, p.1);
                assert(maze.tile(p.0, p.1) is Wall);
            }
        }
    }
    None
}

/// `r` is the centre of the cell that the ring search around `(ci, cj)` finds.
pub open spec fn nearest_center(maze: &Grid, r: (i64, i64), ci: int, cj: int, max_r: int) -> bool {
    nearest_free_spec(maze, ci, cj, max_r) matches Some(c) && (r.0 as int, r.1 as int) == center_of(c.0, c.1)
}

/// No walkable cell lies within Chebyshev distance `max_r` of `(ci, cj)`.
pub open spec fn walled_around(maze: &Grid, ci: int, cj: int, max_r: int) -> bool {
    forall|ii: int, jj: int| cheb(ii, jj, ci, cj) <= max_r ==> #[trigger] maze.tile(ii, jj) is Wall
}

/// What `find_nearest_free_to_center` returns: the centre of the cell that the ring
/// search around the middle finds, out to half the larger side plus four, else of cell
/// `(0, 0)`.
pub open spec fn middle_spec(maze: &Grid) -> (int, int) {
    let max_r = (if maze.num_cols() >= maze.num_rows() {
        maze.num_cols()
    } else {
        maze.num_rows()
    }) / 2 + 4;
    match nearest_free_spec(maze, maze.num_cols() / 2, maze.num_rows() / 2, max_r) {
        Some(c) => center_of(c.0, c.1),
        None => center_of(0, 0),
    }
}

/// `r` is what `find_nearest_free_to_center` returns.
pub open spec fn near_middle(maze: &Grid, r: (i64, i64)) -> bool {
    (r.0 as int, r.1 as int) == middle_spec(maze)
}

/// The centre of a walkable cell nearest the middle of the maze, searched in rings as
/// `nearest_free_cell` does; the centre of cell `(0, 0)` where none is found.
pub fn find_nearest_free_to_center(maze: &Grid) -> (r: (i64, i64))
    requires
        maze.wf(),
    ensures
        near_middle(maze, r),
{
    let w = maze.width();
    let h = maze.height();
    let m = if w >= h {
        w
    } else {
        h
    };
    match nearest_free_cell(maze, (w / 2) as i64, (h / 2) as i64, (m / 2) as i64 + 4) {
        Some((i, j)) => tile_center_pos(i, j),
        None => tile_center_pos(0, 0),
    }
}

/// The centre of a walkable cell nearest `(center_i, center_j)` within `max_r` rings,
/// else what `find_nearest_free_to_center` gives.
pub fn find_nearest_free_around(maze: &Grid, center_i: usize, center_j: usize, max_r: usize) -> (r: (
    i64,
    i64,
))
    requires
        maze.wf(),
        center_i <= 0x1000_0000,
        center_j <= 0x1000_0000,
        max_r <= 0x1000_0000,
    ensures
        nearest_center(maze, r, center_i as int, center_j as int, max_r as int) || (walled_around(
            maze,
            center_i as int,
            center_j as int,
            max_r as int,
        ) && near_middle(maze, r)),
{
    match nearest_free_cell(maze, center_i as i64, center_j as i64, max_r as i64) {
        Some((i, j)) => tile_center_pos(i, j),
        None => find_nearest_free_to_center(maze),
    }
}

pub open spec fn open_cell(maze: &Grid, i: int, j: int) -> bool {
    !(maze.tile(i, j) is Wall)
}

/// Cell `(i, j)` can be reached from `(si, sj)` in at most `n` moves between
/// edge-adjacent walkable cells.
pub open spec fn reachable_in(maze: &Grid, si: int, sj: int, i: int, j: int, n: nat) -> bool
    decreases n,
{
    (i == si && j == sj) || (n > 0 && open_cell(maze, i, j) && ((open_cell(maze, i - 1, j)
        && reachable_in(maze, si, sj, i - 1, j, (n - 1) as nat)) || (open_cell(maze, i + 1, j)
        && reachable_in(maze, si, sj, i + 1, j, (n - 1) as nat)) || (open_cell(maze, i, j - 1)
        && reachable_in(maze, si, sj, i, j - 1, (n - 1) as nat)) || (open_cell(maze, i, j + 1)
        && reachable_in(maze, si, sj, i, j + 1, (n - 1) as nat))))
}

proof fn lemma_reachable_mono(maze: &Grid, si: int, sj: int, i: int, j: int, n: nat, m: nat)
    requires
        reachable_in(maze, si, sj, i, j, n),
        n <= m,
    ensures
        reachable_in(maze, si, sj, i, j, m),
    decreases n,
{
    if !(i == si && j == sj) {
        if open_cell(maze, i - 1, j) && reachable_in(maze, si, sj, i - 1, j, (n - 1) as nat) {
            lemma_reachable_mono(maze, si, sj, i - 1, j, (n - 1) as nat, (m - 1) as nat);
        } else if open_cell(maze, i + 1, j) && reachable_in(maze, si, sj, i + 1, j, (n - 1) as nat) {
            lemma_reachable_mono(maze, si, sj, i + 1, j, (n - 1) as nat, (m - 1) as nat);
        } else if open_cell(maze, i, j - 1) && reachable_in(maze, si, sj, i, j - 1, (n - 1) as nat) {
            lemma_reachable_mono(maze, si, sj, i, j - 1, (n - 1) as nat, (m - 1) as nat);
        } else {
            lemma_reachable_mono(maze, si, sj, i, j + 1, (n - 1) as nat, (m - 1) as nat);
        }
    }
}

/// The cell that holds a world coordinate, clamped into `[0, n)`.
pub open spec fn clamped_cell(v: int, n: int) -> int {
    let c = v / (CELL_SIZE as int);
    if c < 0 {
        0
    } else if c >= n {
        n - 1
    } else {
        c
    }
}

/// Twice the distance from cell `(i, j)` to the middle of a `w` by `h` maze, squared.
pub open spec fn center_dist2(i: int, j: int, w: int, h: int) -> int {
    (2 * i - (w - 1)) * (2 * i - (w - 1)) + (2 * j - (h - 1)) * (2 * j - (h - 1))
}

fn center_distance2(i: usize, j: usize, w: usize, h: usize) -> (d: i64)
    requires
        i < w <= MAX_GRID_DIM,
        j < h <= MAX_GRID_DIM,
    ensures
        d == center_dist2(i as int, j as int, w as int, h as int),
{
    let a = 2 * (i as i64) - (w as i64 - 1);
    let b = 2 * (j as i64) - (h as i64 - 1);
    proof {
        assert(0 <= a * a <= 8192 * 8192 && 0 <= b * b <= 8192 * 8192) by (nonlinear_arith)
            requires
                -8192 <= a <= 8192,
                -8192 <= b <= 8192,
        {
        }
    }
    a * a + b * b
}

/// Picks, among `cells`, the one nearest the middle of the maze (the first on ties),
/// keeping to cells at least `min_dist` rings from `(pi, pj)`.
fn pick_central(cells: &Vec<(usize, usize)>, w: usize, h: usize, pi: usize, pj: usize, min_dist: usize) -> (r:
    Option<usize>)
    requires
        w <= MAX_GRID_DIM,
        h <= MAX_GRID_DIM,
        forall|k: int| 0 <= k < cells@.len() ==> (#[trigger] cells@[k]).0 < w && cells@[k].1 < h,
        pi < w,
        pj < h,
    ensures
        r matches Some(k) ==> {
            &&& k < cells@.len()
            &&& cheb(cells@[k as int].0 as int, cells@[k as int].1 as int, pi as int, pj as int) >= min_dist
            &&& forall|kk: int|
                0 <= kk < cells@.len() && cheb(
                    (#[trigger] cells@[kk]).0 as int,
                    cells@[kk].1 as int,
                    pi as int,
                    pj as int,
                ) >= min_dist ==> center_dist2(cells@[kk].0 as int, cells@[kk].1 as int, w as int, h as int)
                    >= center_dist2(cells@[k as int].0 as int, cells@[k as int].1 as int, w as int, h as int)
        },
        r is None ==> forall|kk: int|
            0 <= kk < cells@.len() ==> cheb(
                (#[trigger] cells@[kk]).0 as int,
                cells@[kk].1 as int,
                pi as int,
                pj as int,
            ) < min_dist,
{
    let mut best: Option<usize> = None;
    let mut best_d: i64 = 0;
    let mut k: usize = 0;
    while k < cells.len()
        invariant
            w <= MAX_GRID_DIM,
            h <= MAX_GRID_DIM,
            forall|q: int| 0 <= q < cells@.len() ==> (#[trigger] cells@[q]).0 < w && cells@[q].1 < h,
            pi < w,
            pj < h,
            0 <= k <= cells@.len(),
            best matches Some(b) ==> {
                &&& b < k
                &&& best_d == center_dist2(cells@[b as int].0 as int, cells@[b as int].1 as int, w as int, h as int)
                &&& cheb(cells@[b as int].0 as int, cells@[b as int].1 as int, pi as int, pj as int) >= min_dist
                &&& forall|kk: int|
                    0 <= kk < k && cheb(
                        (#[trigger] cells@[kk]).0 as int,
                        cells@[kk].1 as int,
                        pi as int,
                        pj as int,
                    ) >= min_dist ==> center_dist2(cells@[kk].0 as int, cells@[kk].1 as int, w as int, h as int)
                        >= best_d
            },
            best is None ==> forall|kk: int|
                0 <= kk < k ==> cheb(
                    (#[trigger] cells@[kk]).0 as int,
                    cells@[kk].1 as int,
                    pi as int,
                    pj as int,
                ) < min_dist,
        decreases cells.len() - k,
    {
        let (i, j) = cells[k];
        let di: usize = if i >= pi {
            i - pi
        } else {
            pi - i
        };
        let dj: usize = if j >= pj {
            j - pj
        } else {
            pj - j
        };
        let c = if di >= dj {
            di
        } else {
            dj
        };
        if c >= min_dist {
            let d = center_distance2(i, j, w, h);
            match best {
                None => {
                    best = Some(k);
                    best_d = d;
                },
                Some(_) => {
                    if d < best_d {
                        best = Some(k);
                        best_d = d;
                    }
                },
            }
        }
        k = k + 1;
    }
    best
}

/// Number of `false` entries.
pub open spec fn count_false(s: Seq<bool>) -> nat
    decreases s.len(),
{
    if s.len() == 0 {
        0
    } else {
        count_false(s.drop_last()) + if s.last() {
            0nat
        } else {
            1nat
        }
    }
}

proof fn lemma_count_false_set(s: Seq<bool>, i: int)
    requires
        0 <= i < s.len(),
        !s[i],
    ensures
        count_false(s.update(i, true)) + 1 == count_false(s),
    decreases s.len(),
{
    let t = s.update(i, true);
    if i == s.len() - 1 {
        assert(t.drop_last() =~= s.drop_last());
    } else {
        assert(t.drop_last() =~= s.drop_last().update(i, true));
        lemma_count_false_set(s.drop_last(), i);
    }
}

proof fn lemma_count_false_all(s: Seq<bool>)
    requires
        forall|x: int| 0 <= x < s.len() ==> !#[trigger] s[x],
    ensures
        count_false(s) == s.len(),
    decreases s.len(),
{
    if s.len() > 0 {
        assert forall|x: int| 0 <= x < s.drop_last().len() implies !#[trigger] s.drop_last()[x] by {
            assert(s.drop_last()[x] == s[x]);
        }
        lemma_count_false_all(s.drop_last());
    }
}

/// The `d`-th edge neighbour of `(i, j)`: right, left, down, up.
pub open spec fn neighbour(i: int, j: int, d: int) -> (int, int) {
    if d == 0 {
        (i + 1, j)
    } else if d == 1 {
        (i - 1, j)
    } else if d == 2 {
        (i, j + 1)
    } else {
        (i, j - 1)
    }
}

/// `c` is among the first `n` entries of `q`.
pub open spec fn queued(q: Seq<(usize, usize)>, n: int, c: (int, int)) -> bool {
    exists|k: int| 0 <= k < n && (q[k].0 as int, q[k].1 as int) == c
}

proof fn lemma_bfs_complete(
    maze: &Grid,
    q: Seq<(usize, usize)>,
    visited: Seq<bool>,
    si: int,
    sj: int,
    i: int,
    j: int,
    n: nat,
)
    requires
        maze.wf(),
        q.len() >= 1,
        (q[0].0 as int, q[0].1 as int) == (si, sj),
        visited.len() == maze.num_cols() * maze.num_rows(),
        forall|k: int| 0 <= k < q.len() ==> (#[trigger] q[k]).0 < maze.num_cols() && q[k].1 < maze.num_rows(),
        forall|a: int, b: int|
            0 <= a < maze.num_cols() && 0 <= b < maze.num_rows() && #[trigger] visited[b * maze.num_cols() + a]
                ==> queued(q, q.len() as int, (a, b)),
        forall|k: int, d: int|
            0 <= k < q.len() && 0 <= d < 4 && open_cell(maze, q[k].0 as int, q[k].1 as int)
                && open_cell(maze, (#[trigger] neighbour(q[k].0 as int, q[k].1 as int, d)).0, neighbour(q[k].0 as int, q[k].1 as int, d).1)
                ==> visited[neighbour(q[k].0 as int, q[k].1 as int, d).1 * maze.num_cols() + neighbour(
                q[k].0 as int,
                q[k].1 as int,
                d,
            ).0],
        reachable_in(maze, si, sj, i, j, n),
    ensures
        queued(q, q.len() as int, (i, j)),
    decreases n,
{
    let w = maze.num_cols();
    if i == si && j == sj {
        assert((q[0].0 as int, q[0].1 as int) == (i, j));
    } else {
        let n1 = (n - 1) as nat;
        let (pi, pj, d) = if open_cell(maze, i - 1, j) && reachable_in(maze, si, sj, i - 1, j, n1) {
            (i - 1, j, 0int)
        } else if open_cell(maze, i + 1, j) && reachable_in(maze, si, sj, i + 1, j, n1) {
            (i + 1, j, 1int)
        } else if open_cell(maze, i, j - 1) && reachable_in(maze, si, sj, i, j - 1, n1) {
            (i, j - 1, 2int)
        } else {
            (i, j + 1, 3int)
        };
        lemma_bfs_complete(maze, q, visited, si, sj, pi, pj, n1);
        let k = choose|k: int| 0 <= k < q.len() && (q[k].0 as int, q[k].1 as int) == (pi, pj);
        assert(neighbour(q[k].0 as int, q[k].1 as int, d) == (i, j));
        assert(open_cell(maze, i, j));
        assert(0 <= i < w && 0 <= j < maze.num_rows());
        assert(visited[j * w + i]);
    }
}

/// The walkable cells reachable from `(si, sj)`, found breadth first: every one of
/// them, and nothing else.
pub fn reachable_cells(maze: &Grid, si: usize, sj: usize) -> (r: Vec<(usize, usize)>)
    requires
        maze.wf(),
        si < maze.num_cols(),
        sj < maze.num_rows(),
    ensures
        forall|k: int|
            0 <= k < r@.len() ==> {
                &&& (#[trigger] r@[k]).0 < maze.num_cols()
                &&& r@[k].1 < maze.num_rows()
                &&& open_cell(maze, r@[k].0 as int, r@[k].1 as int)
                &&& reachable_in(maze, si as int, sj as int, r@[k].0 as int, r@[k].1 as int, (maze.num_cols() * maze.num_rows()) as nat)
            },
        forall|i: int, j: int, n: nat|
            open_cell(maze, i, j) && #[trigger] reachable_in(maze, si as int, sj as int, i, j, n)
                ==> exists|k: int| 0 <= k < r@.len() && (r@[k].0 as int, r@[k].1 as int) == (i, j),
        lists_reach(maze, r@, si as int, sj as int),
{
    let w = maze.width();
    let h = maze.height();
    proof {
        assert(w * h <= 4096 * 4096) by (nonlinear_arith)
            requires
                w <= 4096,
                h <= 4096,
        {
        }
        assert(w * h >= 1) by (nonlinear_arith)
            requires
                w >= 1,
                h >= 1,
        {
        }
    }
    let total = w * h;
    let ghost n = total as nat;
    let mut visited: Vec<bool> = Vec::new();
    let mut v: usize = 0;
    while v < total
        invariant
            0 <= v <= total,
            visited@.len() == v,
            forall|x: int| 0 <= x < v ==> !(#[trigger] visited@[x]),
        decreases total - v,
    {
        visited.push(false);
        v = v + 1;
    }
    let mut queue: Vec<(usize, usize)> = Vec::new();
    queue.push((si, sj));
    proof {
        crate::framebuffer::lemma_pixel_index(w as int, h as int, si as int, sj as int, 0, 0);
        lemma_count_false_all(visited@);
        lemma_count_false_set(visited@, (sj * w + si) as int);
        assert forall|a: int, b: int|
            0 <= a < w && 0 <= b < h && #[trigger] visited@.update((sj * w + si) as int, true)[b * w + a]
                implies queued(queue@, queue@.len() as int, (a, b)) by {
            crate::framebuffer::lemma_pixel_index(w as int, h as int, a, b, si as int, sj as int);
            assert((queue@[0].0 as int, queue@[0].1 as int) == (a, b));
        }
    }
    visited.set(sj * w + si, true);
    let mut found: Vec<(usize, usize)> = Vec::new();
    let mut head: usize = 0;
    while head < queue.len()
        invariant
            maze.wf(),
            w == maze.num_cols(),
            h == maze.num_rows(),
            total == w * h,
            n == total,
            total <= 4096 * 4096,
            si < w,
            sj < h,
            visited@.len() == total,
            1 <= queue@.len(),
            head <= queue@.len(),
            queue@[0] == (si, sj),
            forall|k: int|
                0 <= k < queue@.len() ==> {
                    &&& (#[trigger] queue@[k]).0 < w
                    &&& queue@[k].1 < h
                    &&& reachable_in(maze, si as int, sj as int, queue@[k].0 as int, queue@[k].1 as int, k as nat)
                },
            forall|a: int, b: int|
                0 <= a < w && 0 <= b < h && #[trigger] visited@[b * w + a] ==> queued(queue@, queue@.len() as int, (a, b)),
            forall|k: int, d: int|
                0 <= k < head && 0 <= d < 4 && open_cell(maze, queue@[k].0 as int, queue@[k].1 as int)
                    && open_cell(maze, (#[trigger] neighbour(queue@[k].0 as int, queue@[k].1 as int, d)).0, neighbour(queue@[k].0 as int, queue@[k].1 as int, d).1)
                    ==> visited@[neighbour(queue@[k].0 as int, queue@[k].1 as int, d).1 * w + neighbour(
                    queue@[k].0 as int,
                    queue@[k].1 as int,
                    d,
                ).0],
            forall|k: int|
                0 <= k < found@.len() ==> {
                    &&& (#[trigger] found@[k]).0 < w
                    &&& found@[k].1 < h
                    &&& open_cell(maze, found@[k].0 as int, found@[k].1 as int)
                    &&& reachable_in(maze, si as int, sj as int, found@[k].0 as int, found@[k].1 as int, n)
                },
            forall|k: int|
                0 <= k < head && open_cell(maze, (#[trigger] queue@[k]).0 as int, queue@[k].1 as int) ==> exists|m: int|
                    0 <= m < found@.len() && found@[m] == queue@[k],
            queue@.len() + count_false(visited@) <= total,
        decreases 5 * count_false(visited@) + queue@.len() - head,
    {
        let (i, j) = queue[head];
        let ghost kp = head as int;
        let ghost cf0 = count_false(visited@);
        let ghost len0 = queue@.len();
        head = head + 1;
        if !maze.tile_at(i as i64, j as i64).is_wall() {
            let ghost found0 = found@;
            found.push((i, j));
            proof {
                assert forall|k: int|
                    0 <= k < head && open_cell(maze, (#[trigger] queue@[k]).0 as int, queue@[k].1 as int) implies exists|m: int|
                        0 <= m < found@.len() && found@[m] == queue@[k] by {
                    if k < kp {
                        let m = choose|m: int| 0 <= m < found0.len() && found0[m] == queue@[k];
                        assert(found@[m] == queue@[k]);
                    } else {
                        assert(found@[found0.len() as int] == queue@[k]);
                    }
                }
                lemma_reachable_mono(maze, si as int, sj as int, i as int, j as int, kp as nat, n);
            }
            let mut d: usize = 0;
            while d < 4
                invariant
                    maze.wf(),
                    w == maze.num_cols(),
                    h == maze.num_rows(),
                    total == w * h,
                    n == total,
                    total <= 4096 * 4096,
                    si < w,
                    sj < h,
                    i < w,
                    j < h,
                    0 <= d <= 4,
                    open_cell(maze, i as int, j as int),
                    0 <= kp < head,
                    head == kp + 1,
                    queue@[kp] == (i, j),
                    reachable_in(maze, si as int, sj as int, i as int, j as int, kp as nat),
                    visited@.len() == total,
                    1 <= queue@.len(),
                    head <= queue@.len(),
                    queue@[0] == (si, sj),
                    forall|k: int|
                        0 <= k < queue@.len() ==> {
                            &&& (#[trigger] queue@[k]).0 < w
                            &&& queue@[k].1 < h
                            &&& reachable_in(maze, si as int, sj as int, queue@[k].0 as int, queue@[k].1 as int, k as nat)
                        },
                    forall|a: int, b: int|
                        0 <= a < w && 0 <= b < h && #[trigger] visited@[b * w + a] ==> queued(queue@, queue@.len() as int, (a, b)),
                    forall|k: int, dd: int|
                        0 <= k < kp && 0 <= dd < 4 && open_cell(maze, queue@[k].0 as int, queue@[k].1 as int)
                            && open_cell(maze, (#[trigger] neighbour(queue@[k].0 as int, queue@[k].1 as int, dd)).0, neighbour(queue@[k].0 as int, queue@[k].1 as int, dd).1)
                            ==> visited@[neighbour(queue@[k].0 as int, queue@[k].1 as int, dd).1 * w + neighbour(
                            queue@[k].0 as int,
                            queue@[k].1 as int,
                            dd,
                        ).0],
                    forall|dd: int|
                        0 <= dd < d && open_cell(maze, (#[trigger] neighbour(i as int, j as int, dd)).0, neighbour(i as int, j as int, dd).1)
                            ==> visited@[neighbour(i as int, j as int, dd).1 * w + neighbour(i as int, j as int, dd).0],
                    forall|k: int|
                        0 <= k < found@.len() ==> {
                            &&& (#[trigger] found@[k]).0 < w
                            &&& found@[k].1 < h
                            &&& open_cell(maze, found@[k].0 as int, found@[k].1 as int)
                            &&& reachable_in(maze, si as int, sj as int, found@[k].0 as int, found@[k].1 as int, n)
                        },
                    forall|k: int|
                        0 <= k < head && open_cell(maze, (#[trigger] queue@[k]).0 as int, queue@[k].1 as int) ==> exists|m: int|
                            0 <= m < found@.len() && found@[m] == queue@[k],
                    queue@.len() + count_false(visited@) <= total,
                    5 * count_false(visited@) + queue@.len() <= 5 * cf0 + len0,
                decreases 4 - d,
            {
                let ni: i64 = if d == 0 {
                    i as i64 + 1
                } else if d == 1 {
                    i as i64 - 1
                } else {
                    i as i64
                };
                let nj: i64 = if d == 2 {
                    j as i64 + 1
                } else if d == 3 {
                    j as i64 - 1
                } else {
                    j as i64
                };
                assert(neighbour(i as int, j as int, d as int) == (ni as int, nj as int));
                if ni >= 0 && nj >= 0 && (ni as usize) < w && (nj as usize) < h {
                    let nu = ni as usize;
                    let nv = nj as usize;
                    proof {
                        crate::framebuffer::lemma_pixel_index(w as int, h as int, nu as int, nv as int, 0, 0);
                    }
                    let idx = nv * w + nu;
                    if !visited[idx] && !maze.tile_at(ni, nj).is_wall() {
                        let ghost q0 = queue@;
                        let ghost v0 = visited@;
                        proof {
                            let kc = queue@.len() as nat;
                            lemma_reachable_mono(maze, si as int, sj as int, i as int, j as int, kp as nat, (kc - 1) as nat);
                            assert(reachable_in(maze, si as int, sj as int, nu as int, nv as int, kc));
                            lemma_count_false_set(visited@, idx as int);
                        }
                        visited.set(idx, true);
                        queue.push((nu, nv));
                        proof {
                            assert forall|a: int, b: int|
                                0 <= a < w && 0 <= b < h && #[trigger] visited@[b * w + a] implies queued(
                                    queue@,
                                    queue@.len() as int,
                                    (a, b),
                                ) by {
                                crate::framebuffer::lemma_pixel_index(w as int, h as int, a, b, nu as int, nv as int);
                                if a == nu && b == nv {
                                    assert((queue@[q0.len() as int].0 as int, queue@[q0.len() as int].1 as int) == (a, b));
                                } else {
                                    assert(v0[b * w + a]);
                                    let k = choose|k: int| 0 <= k < q0.len() && (q0[k].0 as int, q0[k].1 as int) == (a, b);
                                    assert(queue@[k] == q0[k]);
                                }
                            }
                            assert forall|k: int, dd: int|
                                0 <= k < kp && 0 <= dd < 4 && open_cell(maze, queue@[k].0 as int, queue@[k].1 as int)
                                    && open_cell(maze, (#[trigger] neighbour(queue@[k].0 as int, queue@[k].1 as int, dd)).0, neighbour(queue@[k].0 as int, queue@[k].1 as int, dd).1)
                                    implies visited@[neighbour(queue@[k].0 as int, queue@[k].1 as int, dd).1 * w + neighbour(
                                    queue@[k].0 as int,
                                    queue@[k].1 as int,
                                    dd,
                                ).0] by {
                                assert(queue@[k] == q0[k]);
                                let c = neighbour(q0[k].0 as int, q0[k].1 as int, dd);
                                assert(0 <= c.0 < w && 0 <= c.1 < h);
                                crate::framebuffer::lemma_pixel_index(w as int, h as int, c.0, c.1, 0, 0);
                                assert(v0[c.1 * w + c.0]);
                            }
                            assert forall|dd: int|
                                0 <= dd < d + 1 && open_cell(maze, (#[trigger] neighbour(i as int, j as int, dd)).0, neighbour(i as int, j as int, dd).1)
                                    implies visited@[neighbour(i as int, j as int, dd).1 * w + neighbour(i as int, j as int, dd).0] by {
                                if dd < d {
                                    let c = neighbour(i as int, j as int, dd);
                                    assert(0 <= c.0 < w && 0 <= c.1 < h);
                                    crate::framebuffer::lemma_pixel_index(w as int, h as int, c.0, c.1, 0, 0);
                                    assert(v0[c.1 * w + c.0]);
                                }
                            }
                            assert forall|k: int|
                                0 <= k < head && open_cell(maze, (#[trigger] queue@[k]).0 as int, queue@[k].1 as int) implies exists|m: int|
                                    0 <= m < found@.len() && found@[m] == queue@[k] by {
                                assert(queue@[k] == q0[k]);
                            }
                        }
                    } else {
                        proof {
                            if !visited[idx as int] {
                                assert(!open_cell(maze, ni as int, nj as int));
                            }
                        }
                    }
                } else {
                    proof {
                        assert(maze.tile(ni as int, nj as int) is Wall);
                    }
                }
                d = d + 1;
            }
        }
    }
    proof {
        assert forall|i: int, j: int, nn: nat|
            open_cell(maze, i, j) && #[trigger] reachable_in(maze, si as int, sj as int, i, j, nn)
                implies exists|k: int| 0 <= k < found@.len() && (found@[k].0 as int, found@[k].1 as int) == (i, j) by {
            lemma_bfs_complete(maze, queue@, visited@, si as int, sj as int, i, j, nn);
            let k = choose|k: int| 0 <= k < queue@.len() && (queue@[k].0 as int, queue@[k].1 as int) == (i, j);
            let m = choose|m: int| 0 <= m < found@.len() && found@[m] == queue@[k];
            assert((found@[m].0 as int, found@[m].1 as int) == (i, j));
        }
        lemma_lists_reach(maze, found@, si as int, sj as int);
    }
    found
}


/// `(i, j)` is a walkable cell of the maze that can be reached from `(si, sj)`.
pub open spec fn reaches(maze: &Grid, si: int, sj: int, i: int, j: int) -> bool {
    &&& 0 <= i < maze.num_cols()
    &&& 0 <= j < maze.num_rows()
    &&& open_cell(maze, i, j)
    &&& reachable_in(maze, si, sj, i, j, (maze.num_cols() * maze.num_rows()) as nat)
}

/// `(i, j)` is a best spawn cell for a player in `(si, sj)`: reachable, and nearest the
/// middle of the maze among the reachable cells at least `min_dist` rings from the
/// player, or, where there are none, among all reachable cells.
pub open spec fn best_spawn(maze: &Grid, si: int, sj: int, min_dist: int, i: int, j: int) -> bool {
    let w = maze.num_cols();
    let h = maze.num_rows();
    &&& reaches(maze, si, sj, i, j)
    &&& if exists|a: int, b: int| #[trigger] reaches(maze, si, sj, a, b) && cheb(a, b, si, sj) >= min_dist {
        &&& cheb(i, j, si, sj) >= min_dist
        &&& forall|a: int, b: int|
            #[trigger] reaches(maze, si, sj, a, b) && cheb(a, b, si, sj) >= min_dist ==> center_dist2(a, b, w, h)
                >= center_dist2(i, j, w, h)
    } else {
        forall|a: int, b: int| #[trigger] reaches(maze, si, sj, a, b) ==> center_dist2(a, b, w, h) >= center_dist2(i, j, w, h)
    }
}

/// `cells` lists exactly the cells that `(si, sj)` reaches.
pub open spec fn lists_reach(maze: &Grid, cells: Seq<(usize, usize)>, si: int, sj: int) -> bool {
    &&& forall|k: int| 0 <= k < cells.len() ==> reaches(maze, si, sj, (#[trigger] cells[k]).0 as int, cells[k].1 as int)
    &&& forall|a: int, b: int|
        #[trigger] reaches(maze, si, sj, a, b) ==> exists|k: int|
            0 <= k < cells.len() && (cells[k].0 as int, cells[k].1 as int) == (a, b)
}

proof fn lemma_lists_reach(maze: &Grid, cells: Seq<(usize, usize)>, si: int, sj: int)
    requires
        maze.wf(),
        forall|k: int|
            0 <= k < cells.len() ==> {
                &&& (#[trigger] cells[k]).0 < maze.num_cols()
                &&& cells[k].1 < maze.num_rows()
                &&& open_cell(maze, cells[k].0 as int, cells[k].1 as int)
                &&& reachable_in(maze, si, sj, cells[k].0 as int, cells[k].1 as int, (maze.num_cols() * maze.num_rows()) as nat)
            },
        forall|i: int, j: int, n: nat|
            open_cell(maze, i, j) && #[trigger] reachable_in(maze, si, sj, i, j, n)
                ==> exists|k: int| 0 <= k < cells.len() && (cells[k].0 as int, cells[k].1 as int) == (i, j),
    ensures
        lists_reach(maze, cells, si, sj),
{
    assert forall|a: int, b: int| #[trigger] reaches(maze, si, sj, a, b) implies exists|k: int|
        0 <= k < cells.len() && (cells[k].0 as int, cells[k].1 as int) == (a, b) by {
        assert(reachable_in(maze, si, sj, a, b, (maze.num_cols() * maze.num_rows()) as nat));
    }
}

proof fn lemma_pick_is_best(maze: &Grid, cells: Seq<(usize, usize)>, si: int, sj: int, min_dist: int, k: int)
    requires
        lists_reach(maze, cells, si, sj),
        0 <= k < cells.len(),
        cheb(cells[k].0 as int, cells[k].1 as int, si, sj) >= min_dist,
        forall|kk: int|
            0 <= kk < cells.len() && cheb((#[trigger] cells[kk]).0 as int, cells[kk].1 as int, si, sj) >= min_dist
                ==> center_dist2(cells[kk].0 as int, cells[kk].1 as int, maze.num_cols(), maze.num_rows())
                >= center_dist2(cells[k].0 as int, cells[k].1 as int, maze.num_cols(), maze.num_rows()),
    ensures
        best_spawn(maze, si, sj, min_dist, cells[k].0 as int, cells[k].1 as int),
{
    let (i, j) = (cells[k].0 as int, cells[k].1 as int);
    assert(reaches(maze, si, sj, i, j));
    assert forall|a: int, b: int|
        #[trigger] reaches(maze, si, sj, a, b) && cheb(a, b, si, sj) >= min_dist implies center_dist2(
            a,
            b,
            maze.num_cols(),
            maze.num_rows(),
        ) >= center_dist2(i, j, maze.num_cols(), maze.num_rows()) by {
        let kk = choose|kk: int| 0 <= kk < cells.len() && (cells[kk].0 as int, cells[kk].1 as int) == (a, b);
        assert(cells[kk].0 as int == a && cells[kk].1 as int == b);
    }
}

proof fn lemma_relaxed_pick_is_best(maze: &Grid, cells: Seq<(usize, usize)>, si: int, sj: int, min_dist: int, k: int)
    requires
        lists_reach(maze, cells, si, sj),
        forall|kk: int|
            0 <= kk < cells.len() ==> cheb((#[trigger] cells[kk]).0 as int, cells[kk].1 as int, si, sj) < min_dist,
        0 <= k < cells.len(),
        forall|kk: int|
            0 <= kk < cells.len() && cheb((#[trigger] cells[kk]).0 as int, cells[kk].1 as int, si, sj) >= 0
                ==> center_dist2(cells[kk].0 as int, cells[kk].1 as int, maze.num_cols(), maze.num_rows())
                >= center_dist2(cells[k].0 as int, cells[k].1 as int, maze.num_cols(), maze.num_rows()),
    ensures
        best_spawn(maze, si, sj, min_dist, cells[k].0 as int, cells[k].1 as int),
{
    let (i, j) = (cells[k].0 as int, cells[k].1 as int);
    assert(reaches(maze, si, sj, i, j));
    assert forall|a: int, b: int| #[trigger] reaches(maze, si, sj, a, b) implies cheb(a, b, si, sj) < min_dist
        && center_dist2(a, b, maze.num_cols(), maze.num_rows()) >= center_dist2(i, j, maze.num_cols(), maze.num_rows()) by {
        let kk = choose|kk: int| 0 <= kk < cells.len() && (cells[kk].0 as int, cells[kk].1 as int) == (a, b);
        assert(cells[kk].0 as int == a && cells[kk].1 as int == b);
        assert(cheb(a, b, si, sj) >= 0);
    }
}

proof fn lemma_nothing_reached(maze: &Grid, cells: Seq<(usize, usize)>, si: int, sj: int)
    requires
        lists_reach(maze, cells, si, sj),
        forall|kk: int| 0 <= kk < cells.len() ==> cheb((#[trigger] cells[kk]).0 as int, cells[kk].1 as int, si, sj) < 0,
    ensures
        forall|a: int, b: int| !#[trigger] reaches(maze, si, sj, a, b),
{
    assert forall|a: int, b: int| !#[trigger] reaches(maze, si, sj, a, b) by {
        if reaches(maze, si, sj, a, b) {
            let kk = choose|kk: int| 0 <= kk < cells.len() && (cells[kk].0 as int, cells[kk].1 as int) == (a, b);
            assert(cheb(cells[kk].0 as int, cells[kk].1 as int, si, sj) < 0);
        }
    }
}

/// A spawn point for an enemy: the centre of a best spawn cell for the player's cell
/// (clamped into the maze); where the player's cell reaches no walkable cell, what
/// `find_nearest_free_to_center` gives.
pub fn find_spawn_reachable(maze: &Grid, player_x: i64, player_y: i64, min_dist_cells: usize) -> (r: (
    i64,
    i64,
))
    requires
        maze.wf(),
    ensures
        ({
            let si = clamped_cell(player_x as int, maze.num_cols());
            let sj = clamped_cell(player_y as int, maze.num_rows());
            (exists|i: int, j: int|
                (r.0 as int, r.1 as int) == center_of(i, j) && #[trigger] best_spawn(maze, si, sj, min_dist_cells as int, i, j))
                || ((forall|a: int, b: int| !#[trigger] reaches(maze, si, sj, a, b)) && near_middle(maze, r))
        }),
{
    let w = maze.width();
    let h = maze.height();
    let mut pi = floor_div(player_x, CELL_SIZE);
    let mut pj = floor_div(player_y, CELL_SIZE);
    if pi < 0 {
        pi = 0;
    }
    if pj < 0 {
        pj = 0;
    }
    if pj >= h as i64 {
        pj = h as i64 - 1;
    }
    if pi >= w as i64 {
        pi = w as i64 - 1;
    }
    let si = pi as usize;
    let sj = pj as usize;
    let found = reachable_cells(maze, si, sj);
    let first = pick_central(&found, w, h, si, sj, min_dist_cells);
    match first {
        Some(k) => {
            proof {
                lemma_pick_is_best(maze, found@, si as int, sj as int, min_dist_cells as int, k as int);
            }
            let (bi, bj) = found[k];
            return tile_center_pos(bi, bj);
        },
        None => {},
    }
    match pick_central(&found, w, h, si, sj, 0) {
        Some(k) => {
            proof {
                lemma_relaxed_pick_is_best(maze, found@, si as int, sj as int, min_dist_cells as int, k as int);
            }
            let (bi, bj) = found[k];
            tile_center_pos(bi, bj)
        },
        None => {
            proof {
                lemma_nothing_reached(maze, found@, si as int, sj as int);
            }
            find_nearest_free_to_center(maze)
        },
    }
}

} // verus!
