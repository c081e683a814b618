//! Board geometry and game state: positions, walls, and the two players.

use vstd::prelude::*;

verus! {

/// Width and height of the board in cells.
pub const BOARD_SIZE: i32 = 9;
/// Goal row of the south player.
pub const GOAL_SOUTH: i32 = 0;
/// Goal row of the north player.
pub const GOAL_NORTH: i32 = 8;
/// Width and height of the wall grid (walls anchor at the top-left corner of
/// a 2x2 block of cells).
pub const WALL_GRID: i32 = 8;

/// A cell of the board, 0-indexed from the north-west corner.
#[derive(Clone, Copy, Debug, PartialEq, Eq, Structural)]
pub struct Position {
    pub row: i32,
    pub col: i32,
}

impl Position {
    /// True when the cell lies on the board.
    pub open spec fn in_bounds(self) -> bool {
        0 <= self.row < BOARD_SIZE && 0 <= self.col < BOARD_SIZE
    }
}

/// The axis of a wall segment.
#[derive(Clone, Copy, Debug, PartialEq, Eq, Structural)]
pub enum Orientation {
    Horizontal,
    Vertical,
}

/// A wall anchored at a wall-grid cell, severing two cell-to-cell edges.
#[derive(Clone, Copy, Debug, PartialEq, Eq, Structural)]
pub struct Wall {
    pub row: i32,
    pub col: i32,
    pub orientation: Orientation,
}

/// True when the wall anchor lies on the wall grid.
pub open spec fn wall_in_bounds(w: Wall) -> bool {
    0 <= w.row < WALL_GRID && 0 <= w.col < WALL_GRID
}

/// The two token positions.
#[derive(Clone, Copy, Debug, PartialEq, Eq, Structural)]
pub struct Positions {
    pub north: Position,
    pub south: Position,
}

/// Wall segments still available to each side.
#[derive(Clone, Copy, Debug, PartialEq, Eq, Structural)]
pub struct WallsRemaining {
    pub north: u8,
    pub south: u8,
}

/// The two sides.  South moves toward row 0, north toward row 8.
#[derive(Clone, Copy, Debug, PartialEq, Eq, Structural)]
pub enum Player {
    North,
    South,
}

impl Player {
    /// The other side.
    pub fn opponent(self) -> (r: Player)
        ensures
            r == self.spec_opponent(),
    {
        match self {
            Player::North => Player::South,
            Player::South => Player::North,
        }
    }

    /// The other side, at the specification level.
    pub open spec fn spec_opponent(self) -> Player {
        match self {
            Player::North => Player::South,
            Player::South => Player::North,
        }
    }
}

/// The full state the search explores: both tokens, the placed walls, and
/// the remaining wall supplies.
#[derive(Clone, Debug)]
pub struct GameState {
    pub positions: Positions,
    pub walls: Vec<Wall>,
    pub walls_remaining: WallsRemaining,
}

/// The external state record handed to the engine: identical to
/// [`GameState`], named for its role at the input boundary.
#[derive(Clone, Debug)]
pub struct GameStateInput {
    pub positions: Positions,
    pub walls: Vec<Wall>,
    pub walls_remaining: WallsRemaining,
}

impl GameStateInput {
    /// Both tokens on the board and every listed wall on the wall grid.
    pub open spec fn wf(self) -> bool {
        &&& self.positions.north.in_bounds()
        &&& self.positions.south.in_bounds()
        &&& forall|i: int| 0 <= i < self.walls@.len() ==> wall_in_bounds(#[trigger] self.walls@[i])
    }

    /// The internal state built from the input record.
    pub fn into_state(self) -> (r: GameState)
        ensures
            r.positions == self.positions,
            r.walls@ == self.walls@,
            r.walls_remaining == self.walls_remaining,
    {
        GameState { positions: self.positions, walls: self.walls, walls_remaining: self.walls_remaining }
    }
}

impl GameState {
    /// Both tokens on the board and every placed wall on the wall grid.
    pub open spec fn wf(self) -> bool {
        &&& self.positions.north.in_bounds()
        &&& self.positions.south.in_bounds()
        &&& forall|i: int| 0 <= i < self.walls@.len() ==> wall_in_bounds(#[trigger] self.walls@[i])
    }

    /// The token of the given side.
    pub fn for_player(&self, player: Player) -> (r: Position)
        ensures
            r == self.spec_for_player(player),
    {
        match player {
            Player::North => self.positions.north,
            Player::South => self.positions.south,
        }
    }

    /// The token of the given side, at the specification level.
    pub open spec fn spec_for_player(self, player: Player) -> Position {
        match player {
            Player::North => self.positions.north,
            Player::South => self.positions.south,
        }
    }

    /// The row the given side is trying to reach.
    pub fn goal_row(player: Player) -> (r: i32)
        ensures
            r == GameState::spec_goal_row(player),
    {
        match player {
            Player::North => GOAL_NORTH,
            Player::South => GOAL_SOUTH,
        }
    }

    /// The goal row, at the specification level.
    pub open spec fn spec_goal_row(player: Player) -> i32 {
        match player {
            Player::North => GOAL_NORTH,
            Player::South => GOAL_SOUTH,
        }
    }

    /// Wall segments the given side still holds.
    pub fn walls_left(&self, player: Player) -> (r: u8)
        ensures
            r == self.spec_walls_left(player),
    {
        match player {
            Player::North => self.walls_remaining.north,
            Player::South => self.walls_remaining.south,
        }
    }

    /// Remaining wall count, at the specification level.
    pub open spec fn spec_walls_left(self, player: Player) -> u8 {
        match player {
            Player::North => self.walls_remaining.north,
            Player::South => self.walls_remaining.south,
        }
    }

    /// Moves the given side's token.
    pub fn update_position(&mut self, player: Player, pos: Position)
        ensures
            final(self).positions == match player {
                Player::North => Positions { north: pos, ..old(self).positions },
                Player::South => Positions { south: pos, ..old(self).positions },
            },
            final(self).walls@ == old(self).walls@,
            final(self).walls_remaining == old(self).walls_remaining,
    {
        match player {
            Player::North => self.positions.north = pos,
            Player::South => self.positions.south = pos,
        }
    }

    /// Spends one wall segment of the given side; a supply already at zero
    /// stays at zero.
    pub fn decrement_wall(&mut self, player: Player)
        ensures
            final(self).positions == old(self).positions,
            final(self).walls@ == old(self).walls@,
            final(self).walls_remaining == match player {
                Player::North => WallsRemaining {
                    north: if old(self).walls_remaining.north > 0 { (old(self).walls_remaining.north - 1) as u8 } else { 0u8 },
                    ..old(self).walls_remaining
                },
                Player::South => WallsRemaining {
                    south: if old(self).walls_remaining.south > 0 { (old(self).walls_remaining.south - 1) as u8 } else { 0u8 },
                    ..old(self).walls_remaining
                },
            },
    {
        match player {
            Player::North => {
                if self.walls_remaining.north > 0 {
                    self.walls_remaining.north = self.walls_remaining.north - 1;
                }
            },
            Player::South => {
                if self.walls_remaining.south > 0 {
                    self.walls_remaining.south = self.walls_remaining.south - 1;
                }
            },
        }
    }

    /// A deep copy of the state, used to explore a hypothetical move without
    /// touching the ancestor state.
    pub fn duplicate(&self) -> (r: GameState)
        ensures
            r.positions == self.positions,
            r.walls@ == self.walls@,
            r.walls_remaining == self.walls_remaining,
    {
        GameState {
            positions: self.positions,
            walls: clone_walls(&self.walls),
            walls_remaining: self.walls_remaining,
        }
    }
}

/// The wall supplies after the given side spends one segment; a supply
/// already at zero stays at zero.
pub open spec fn spec_after_wall_spend(wr: WallsRemaining, player: Player) -> WallsRemaining {
    match player {
        Player::North => WallsRemaining {
            north: if wr.north > 0 { (wr.north - 1) as u8 } else { 0u8 },
            ..wr
        },
        Player::South => WallsRemaining {
            south: if wr.south > 0 { (wr.south - 1) as u8 } else { 0u8 },
            ..wr
        },
    }
}

/// A fresh copy of a wall list.
pub fn clone_walls(walls: &Vec<Wall>) -> (r: Vec<Wall>)
    ensures
        r@ == walls@,
{
    let mut r: Vec<Wall> = Vec::new();
    let mut i: usize = 0;
    while i < walls.len()
        invariant
            i <= walls.len(),
            r@ == walls@.subrange(0, i as int),
        decreases walls.len() - i,
    {
        r.push(walls[i]);
        i = i + 1;
    }
    proof {
        assert(r@ =~= walls@);
    }
    r
}

/// A move the search can explore: step the token, or place a wall.
#[derive(Clone, Copy, Debug, PartialEq, Eq, Structural)]
pub enum MoveChoice {
    Pawn(Position),
    Wall(Wall),
}

/// The decision handed back to the host: a token move or a wall placement.
#[derive(Clone, Copy, Debug, PartialEq, Eq, Structural)]
pub enum BestMoveOutput {
    Move { data: Position },
    Wall { data: Wall },
}

} // verus!
