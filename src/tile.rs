use vstd::prelude::*;

verus! {

/// The kinds of tile that block rays, each with its own wall texture.
#[derive(Clone, Copy, PartialEq, Eq, Structural, Debug)]
pub enum WallKind {
    /// `'+'`
    Corner,
    /// `'|'`
    Vertical,
    /// `'-'`
    Horizontal,
    /// `'L'`: the sign that shows the number of the current level.
    LevelSign,
    /// The implicit wall around the grid: every cell outside it is one.
    Boundary,
    /// Any other symbol that is not walkable; textured by that symbol.
    Other(char),
}

/// One cell of a maze.
#[derive(Clone, Copy, PartialEq, Eq, Structural, Debug)]
pub enum Tile {
    /// `' '`
    Empty,
    /// `'g'`: walkable, leads to the next level.
    Exit,
    /// `'s'`: walkable, where the player starts.
    Spawn,
    Wall(WallKind),
}

/// The tile that a maze symbol stands for.
pub open spec fn tile_of_symbol(c: char) -> Tile {
    if c == ' ' {
        Tile::Empty
    } else if c == 'g' {
        Tile::Exit
    } else if c == 's' {
        Tile::Spawn
    } else if c == '+' {
        Tile::Wall(WallKind::Corner)
    } else if c == '|' {
        Tile::Wall(WallKind::Vertical)
    } else if c == '-' {
        Tile::Wall(WallKind::Horizontal)
    } else if c == 'L' {
        Tile::Wall(WallKind::LevelSign)
    } else {
        Tile::Wall(WallKind::Other(c))
    }
}

/// The character that names the texture of a level's number, or `'L'` past nine.
pub open spec fn level_digit(level: u32) -> char {
    if level == 0 {
        '0'
    } else if level == 1 {
        '1'
    } else if level == 2 {
        '2'
    } else if level == 3 {
        '3'
    } else if level == 4 {
        '4'
    } else if level == 5 {
        '5'
    } else if level == 6 {
        '6'
    } else if level == 7 {
        '7'
    } else if level == 8 {
        '8'
    } else if level == 9 {
        '9'
    } else {
        'L'
    }
}

/// The texture key of a wall kind; the level sign shows the level's digit.
pub open spec fn wall_texture_key(k: WallKind, level: u32) -> char {
    match k {
        WallKind::Corner => '+',
        WallKind::Vertical => '|',
        WallKind::Horizontal => '-',
        WallKind::LevelSign => level_digit(level),
        WallKind::Boundary => '+',
        WallKind::Other(c) => c,
    }
}

impl Tile {
    pub fn from_symbol(c: char) -> (t: Tile)
        ensures
            t == tile_of_symbol(c),
    {
        if c == ' ' {
            Tile::Empty
        } else if c == 'g' {
            Tile::Exit
        } else if c == 's' {
            Tile::Spawn
        } else if c == '+' {
            Tile::Wall(WallKind::Corner)
        } else if c == '|' {
            Tile::Wall(WallKind::Vertical)
        } else if c == '-' {
            Tile::Wall(WallKind::Horizontal)
        } else if c == 'L' {
            Tile::Wall(WallKind::LevelSign)
        } else {
            Tile::Wall(WallKind::Other(c))
        }
    }

    /// Walls block rays and movement; every other tile is walkable.
    pub fn is_wall(&self) -> (r: bool)
        ensures
            r == self is Wall,
    {
        match self {
            Tile::Wall(_) => true,
            _ => false,
        }
    }
}

/// The digit character of a level number (`'L'` for numbers past nine).
pub fn level_digit_char(level: u32) -> (c: char)
    ensures
        c == level_digit(level),
{
    match level {
        0 => '0',
        1 => '1',
        2 => '2',
        3 => '3',
        4 => '4',
        5 => '5',
        6 => '6',
        7 => '7',
        8 => '8',
        9 => '9',
        _ => 'L',
    }
}

impl WallKind {
    pub fn texture_key(&self, level: u32) -> (c: char)
        ensures
            c == wall_texture_key(*self, level),
    {
        match self {
            WallKind::Corner => '+',
            WallKind::Vertical => '|',
            WallKind::Horizontal => '-',
            WallKind::LevelSign => level_digit_char(level),
            WallKind::Boundary => '+',
            WallKind::Other(c) => *c,
        }
    }
}

} // verus!
