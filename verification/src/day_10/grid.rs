//! Tiles, directions and the rectangular grid of pipes, with the redirection
//! rule that sends a travelling walk through a pipe tile.

use vstd::prelude::*;

verus! {

/// A direction of travel between neighbouring grid cells.
#[derive(Clone, Copy, PartialEq, Eq, Structural, Debug)]
pub enum Dir {
    East,
    West,
    North,
    South,
}

pub open spec fn spec_flip(d: Dir) -> Dir {
    match d {
        Dir::East => Dir::West,
        Dir::West => Dir::East,
        Dir::North => Dir::South,
        Dir::South => Dir::North,
    }
}

impl Dir {
    /// The opposite direction.
    pub fn flip(&self) -> (r: Dir)
        ensures
            r == spec_flip(*self),
    {
        match self {
            Dir::East => Dir::West,
            Dir::West => Dir::East,
            Dir::North => Dir::South,
            Dir::South => Dir::North,
        }
    }
}

/// One grid cell's pipe shape. The comments give the character that denotes
/// each shape in the input text.
#[derive(Clone, Copy, PartialEq, Eq, Structural, Debug)]
pub enum Tile {
    /// `|`, joining north and south.
    Vertical,
    /// `-`, joining east and west.
    Horizontal,
    /// `L`, joining north and east.
    BendNE,
    /// `J`, joining north and west.
    BendNW,
    /// `7`, joining south and west.
    BendSW,
    /// `F`, joining south and east.
    BendSE,
    /// `.`, empty ground.
    Ground,
    /// `S`, the start cell of unknown shape.
    Start,
}

/// The tile a character denotes, or `None` outside the tile alphabet.
pub open spec fn tile_of(c: char) -> Option<Tile> {
    match c {
        '|' => Some(Tile::Vertical),
        '-' => Some(Tile::Horizontal),
        'L' => Some(Tile::BendNE),
        'J' => Some(Tile::BendNW),
        '7' => Some(Tile::BendSW),
        'F' => Some(Tile::BendSE),
        '.' => Some(Tile::Ground),
        'S' => Some(Tile::Start),
        _ => None,
    }
}

/// A failure of the redirection rule.
#[derive(Clone, Copy, PartialEq, Eq, Structural, Debug)]
pub enum RedirectError {
    /// The pipe shape has no opening on the side the walk arrives from.
    Incompatible,
    /// The tile is ground or the start: it redirects nothing.
    NonRedirectable,
}

/// A failure of parsing or of tracing the loop.
#[derive(Clone, Copy, PartialEq, Eq, Structural, Debug)]
pub enum GridError {
    /// A character outside the tile alphabet.
    InvalidTile,
    /// No start cell in the grid.
    StartNotFound,
    /// No direction out of the start begins a traceable path.
    NoValidDirection,
    /// The walk left the grid, met an unfit tile, or never returned to the
    /// start.
    LoopNotClosed,
}

/// The exit direction for a pipe shape and the side the walk arrived from,
/// or `None` when the shape has no opening on that side.
pub open spec fn exit_for(t: Tile, arrival: Dir) -> Option<Dir> {
    match t {
        Tile::Vertical => match arrival {
            Dir::North => Some(Dir::South),
            Dir::South => Some(Dir::North),
            _ => None,
        },
        Tile::Horizontal => match arrival {
            Dir::East => Some(Dir::West),
            Dir::West => Some(Dir::East),
            _ => None,
        },
        Tile::BendNE => match arrival {
            Dir::North => Some(Dir::East),
            Dir::East => Some(Dir::North),
            _ => None,
        },
        Tile::BendNW => match arrival {
            Dir::North => Some(Dir::West),
            Dir::West => Some(Dir::North),
            _ => None,
        },
        Tile::BendSW => match arrival {
            Dir::South => Some(Dir::West),
            Dir::West => Some(Dir::South),
            _ => None,
        },
        Tile::BendSE => match arrival {
            Dir::South => Some(Dir::East),
            Dir::East => Some(Dir::South),
            _ => None,
        },
        Tile::Ground => None,
        Tile::Start => None,
    }
}

/// Where a walk travelling in direction `from` leaves tile `t`. The arrival
/// side is the flipped travel direction.
pub open spec fn spec_redirect(t: Tile, from: Dir) -> Result<Dir, RedirectError> {
    match t {
        Tile::Ground => Err(RedirectError::NonRedirectable),
        Tile::Start => Err(RedirectError::NonRedirectable),
        _ => match exit_for(t, spec_flip(from)) {
            Some(d) => Ok(d),
            None => Err(RedirectError::Incompatible),
        },
    }
}

impl Tile {
    /// Classifies a character of the input text.
    pub fn new(tile: char) -> (r: Result<Tile, GridError>)
        ensures
            match tile_of(tile) {
                Some(t) => r == Ok::<Tile, GridError>(t),
                None => r == Err::<Tile, GridError>(GridError::InvalidTile),
            },
    {
        match tile {
            '|' => Ok(Tile::Vertical),
            '-' => Ok(Tile::Horizontal),
            'L' => Ok(Tile::BendNE),
            'J' => Ok(Tile::BendNW),
            '7' => Ok(Tile::BendSW),
            'F' => Ok(Tile::BendSE),
            '.' => Ok(Tile::Ground),
            'S' => Ok(Tile::Start),
            _ => Err(GridError::InvalidTile),
        }
    }

    /// Sends a walk travelling in direction `from` through this tile.
    pub fn redirect(&self, from: &Dir) -> (r: Result<Dir, RedirectError>)
        ensures
            r == spec_redirect(*self, *from),
    {
        let arrival = from.flip();
        match self {
            Tile::Vertical => match arrival {
                Dir::North => Ok(Dir::South),
                Dir::South => Ok(Dir::North),
                _ => Err(RedirectError::Incompatible),
            },
            Tile::Horizontal => match arrival {
                Dir::East => Ok(Dir::West),
                Dir::West => Ok(Dir::East),
                _ => Err(RedirectError::Incompatible),
            },
            Tile::BendNE => match arrival {
                Dir::North => Ok(Dir::East),
                Dir::East => Ok(Dir::North),
                _ => Err(RedirectError::Incompatible),
            },
            Tile::BendNW => match arrival {
                Dir::North => Ok(Dir::West),
                Dir::West => Ok(Dir::North),
                _ => Err(RedirectError::Incompatible),
            },
            Tile::BendSW => match arrival {
                Dir::South => Ok(Dir::West),
                Dir::West => Ok(Dir::South),
                _ => Err(RedirectError::Incompatible),
            },
            Tile::BendSE => match arrival {
                Dir::South => Ok(Dir::East),
                Dir::East => Ok(Dir::South),
                _ => Err(RedirectError::Incompatible),
            },
            Tile::Ground => Err(RedirectError::NonRedirectable),
            Tile::Start => Err(RedirectError::NonRedirectable),
        }
    }
}

/// The grid of tiles: `h` rows of nominal width `w`, row-major.
pub struct Space {
    pub w: usize,
    pub h: usize,
    pub tiles: Vec<Vec<Tile>>,
}

impl Space {
    /// `h` counts the rows and `w` is the width of the first row (zero
    /// without rows). Rows are not required to share one length.
    pub open spec fn wf(&self) -> bool {
        &&& self.h == self.tiles@.len()
        &&& self.w == if self.tiles@.len() == 0 {
            0int
        } else {
            self.tiles@[0]@.len() as int
        }
    }

    /// The tile stored at a coordinate, or `None` where no tile lies.
    pub open spec fn tile_at(&self, r: int, c: int) -> Option<Tile> {
        if 0 <= r < self.tiles@.len() && 0 <= c < self.tiles@[r]@.len() {
            Some(self.tiles@[r]@[c])
        } else {
            None
        }
    }

    /// `tile_at` for a coordinate pair.
    pub open spec fn tile_at_pos(&self, p: (usize, usize)) -> Option<Tile> {
        self.tile_at(p.0 as int, p.1 as int)
    }

    /// The neighbour of `p` in direction `d`, or `None` where it would leave
    /// the `h` by `w` rectangle.
    pub open spec fn spec_move(&self, p: (usize, usize), d: Dir) -> Option<(usize, usize)> {
        let nr: int = match d {
            Dir::East => p.0 as int,
            Dir::West => p.0 as int,
            Dir::North => p.0 as int - 1,
            Dir::South => p.0 as int + 1,
        };
        let nc: int = match d {
            Dir::East => p.1 as int + 1,
            Dir::West => p.1 as int - 1,
            Dir::North => p.1 as int,
            Dir::South => p.1 as int,
        };
        if 0 <= nr < self.h && 0 <= nc < self.w {
            Some((nr as usize, nc as usize))
        } else {
            None
        }
    }

    /// Steps one cell in direction `dir`, or `None` at the rectangle's edge.
    pub fn move_position(&self, position: &(usize, usize), dir: &Dir) -> (r: Option<
        (usize, usize),
    >)
        ensures
            r == self.spec_move(*position, *dir),
    {
        let moved: (usize, usize) = match dir {
            Dir::East => {
                if position.1 == usize::MAX {
                    return None;
                }
                (position.0, position.1 + 1)
            }
            Dir::West => {
                if position.1 == 0 {
                    return None;
                }
                (position.0, position.1 - 1)
            }
            Dir::North => {
                if position.0 == 0 {
                    return None;
                }
                (position.0 - 1, position.1)
            }
            Dir::South => {
                if position.0 == usize::MAX {
                    return None;
                }
                (position.0 + 1, position.1)
            }
        };
        if moved.0 >= self.h || moved.1 >= self.w {
            return None;
        }
        Some(moved)
    }

    /// Looks a tile up; absence, not an error, for coordinates off the grid.
    pub fn get(&self, position: &(usize, usize)) -> (r: Option<&Tile>)
        ensures
            match r {
                Some(t) => self.tile_at_pos(*position) == Some(*t),
                None => self.tile_at_pos(*position) is None,
            },
    {
        if position.0 < self.tiles.len() {
            let row: &Vec<Tile> = &self.tiles[position.0];
            if position.1 < row.len() {
                Some(&row[position.1])
            } else {
                None
            }
        } else {
            None
        }
    }
}

} // verus!
