use vstd::prelude::*;

verus! {

/// One position of the board.
#[derive(Clone, Copy, Debug, PartialEq, Eq, Structural)]
pub enum Cell {
    /// Not yet shown; carries the number of mines among its neighbours.
    Hidden { adjacent_mines: usize },
    /// Shown to the player for good.
    Revealed { adjacent_mines: usize },
    /// Hidden under a player's flag; keeps the count it had while hidden.
    Flagged { adjacent_mines: usize },
    /// Holds a mine.
    Mine,
}

impl Cell {
    pub open spec fn is_mine(self) -> bool {
        self is Mine
    }

    pub open spec fn is_hidden(self) -> bool {
        self is Hidden
    }

    /// The neighbour count carried by a cell that is not a mine.
    pub open spec fn count(self) -> int {
        match self {
            Cell::Hidden { adjacent_mines } => adjacent_mines as int,
            Cell::Revealed { adjacent_mines } => adjacent_mines as int,
            Cell::Flagged { adjacent_mines } => adjacent_mines as int,
            Cell::Mine => 0,
        }
    }

    /// What revealing does to a hidden cell; any other cell stays as it is.
    pub open spec fn revealed(self) -> Cell {
        match self {
            Cell::Hidden { adjacent_mines } => Cell::Revealed { adjacent_mines },
            _ => self,
        }
    }

    /// What toggling a flag does to a cell.
    pub open spec fn toggled(self) -> Cell {
        match self {
            Cell::Hidden { adjacent_mines } => Cell::Flagged { adjacent_mines },
            Cell::Flagged { adjacent_mines } => Cell::Hidden { adjacent_mines },
            _ => self,
        }
    }
}

} // verus!
