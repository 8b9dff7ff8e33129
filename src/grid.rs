use vstd::prelude::*;
use crate::tile::{Tile, WallKind, tile_of_symbol};

verus! {

/// Side of a square cell, in world units.
pub const CELL_SIZE: i64 = 100;

/// Largest number of rows, and of columns, that a grid may have.
pub const MAX_GRID_DIM: usize = 4096;

/// A rectangular maze of tiles, indexed `rows[j][i]` (row `j`, column `i`).
pub struct Grid {
    pub rows: Vec<Vec<Tile>>,
}

/// Whether a list of rows has the shape of a grid: non-empty, rectangular, not too large.
pub open spec fn rows_shape_ok<T>(rows: Seq<Vec<T>>) -> bool {
    &&& 1 <= rows.len() <= MAX_GRID_DIM
    &&& 1 <= rows[0]@.len() <= MAX_GRID_DIM
    &&& forall|j: int| 0 <= j < rows.len() ==> (#[trigger] rows[j])@.len() == rows[0]@.len()
}

impl Grid {
    pub open spec fn num_rows(&self) -> int {
        self.rows@.len() as int
    }

    pub open spec fn num_cols(&self) -> int {
        self.rows@[0]@.len() as int
    }

    pub open spec fn wf(&self) -> bool {
        rows_shape_ok(self.rows@)
    }

    /// The tile at column `i`, row `j`; every cell outside the grid is a boundary wall.
    pub open spec fn tile(&self, i: int, j: int) -> Tile {
        if 0 <= j < self.num_rows() && 0 <= i < self.num_cols() {
            self.rows@[j]@[i]
        } else {
            Tile::Wall(WallKind::Boundary)
        }
    }

    /// A grid over the given rows, or `None` where they are empty, ragged or too large.
    pub fn from_rows(rows: Vec<Vec<Tile>>) -> (r: Option<Grid>)
        ensures
            r is Some <==> rows_shape_ok(rows@),
            r matches Some(g) ==> g.rows@ == rows@,
    {
        if rows.len() == 0 || rows.len() > MAX_GRID_DIM {
            return None;
        }
        let w = rows[0].len();
        if w == 0 || w > MAX_GRID_DIM {
            return None;
        }
        let mut j: usize = 0;
        while j < rows.len()
            invariant
                0 <= j <= rows.len(),
                w == rows@[0]@.len(),
                forall|jj: int| 0 <= jj < j ==> (#[trigger] rows@[jj])@.len() == w,
            decreases rows.len() - j,
        {
            if rows[j].len() != w {
                return None;
            }
            j = j + 1;
        }
        Some(Grid { rows })
    }

    /// Reads a maze written one symbol per cell.
    pub fn from_symbols(lines: &Vec<Vec<char>>) -> (r: Option<Grid>)
        ensures
            r is Some <==> rows_shape_ok(lines@),
            r matches Some(g) ==> forall|i: int, j: int|
                0 <= j < lines@.len() && 0 <= i < lines@[j]@.len() ==> #[trigger] g.tile(i, j)
                    == tile_of_symbol(lines@[j]@[i]),
    {
        let mut rows: Vec<Vec<Tile>> = Vec::new();
        let mut j: usize = 0;
        while j < lines.len()
            invariant
                0 <= j <= lines.len(),
                rows@.len() == j,
                forall|jj: int| 0 <= jj < j ==> (#[trigger] rows@[jj])@.len() == lines@[jj]@.len(),
                forall|jj: int, ii: int|
                    0 <= jj < j && 0 <= ii < lines@[jj]@.len() ==> #[trigger] rows@[jj]@[ii]
                        == tile_of_symbol(lines@[jj]@[ii]),
            decreases lines.len() - j,
        {
            let line = &lines[j];
            let mut row: Vec<Tile> = Vec::new();
            let mut i: usize = 0;
            while i < line.len()
                invariant
                    0 <= i <= line.len(),
                    row@.len() == i,
                    forall|ii: int| 0 <= ii < i ==> #[trigger] row@[ii] == tile_of_symbol(line@[ii]),
                decreases line.len() - i,
            {
                row.push(Tile::from_symbol(line[i]));
                i = i + 1;
            }
            rows.push(row);
            j = j + 1;
        }
        proof {
            if rows_shape_ok(lines@) {
                assert forall|jj: int| 0 <= jj < rows@.len() implies (#[trigger] rows@[jj])@.len()
                    == rows@[0]@.len() by {
                    assert(lines@[jj]@.len() == lines@[0]@.len());
                }
            }
            if rows_shape_ok(rows@) {
                assert forall|jj: int| 0 <= jj < lines@.len() implies (#[trigger] lines@[jj])@.len()
                    == lines@[0]@.len() by {
                    assert(rows@[jj]@.len() == rows@[0]@.len());
                }
            }
        }
        Grid::from_rows(rows)
    }

    pub fn width(&self) -> (w: usize)
        requires
            self.wf(),
        ensures
            w == self.num_cols(),
    {
        self.rows[0].len()
    }

    pub fn height(&self) -> (h: usize)
        ensures
            h == self.num_rows(),
    {
        self.rows.len()
    }

    /// The tile at column `i`, row `j`, a boundary wall outside the grid.
    pub fn tile_at(&self, i: i64, j: i64) -> (t: Tile)
        requires
            self.wf(),
        ensures
            t == self.tile(i as int, j as int),
    {
        let h = self.rows.len() as i64;
        let w = self.rows[0].len() as i64;
        if j < 0 || i < 0 || j >= h || i >= w {
            Tile::Wall(WallKind::Boundary)
        } else {
            let row = &self.rows[j as usize];
            row[i as usize]
        }
    }
}

} // verus!
