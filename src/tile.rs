use vstd::prelude::*;

verus! {

/// What a tile holds: a mine, or the number of mines among its neighbours.
#[derive(Debug, Clone, Copy, PartialEq, Eq, Structural)]
pub enum TileValue {
    Bomb,
    Number(u8),
}

/// One cell of the grid.
#[derive(Debug, Clone, Copy, PartialEq, Eq, Structural)]
pub struct Tile {
    pub value: TileValue,
    pub exposed: bool,
    pub flagged: bool,
}

/// The tile every grid starts with: no mine around, hidden, unflagged.
pub open spec fn blank_tile() -> Tile {
    Tile { value: TileValue::Number(0), exposed: false, flagged: false }
}

impl Default for Tile {
    fn default() -> (r: Tile)
        ensures
            r == blank_tile(),
    {
        Tile::new()
    }
}

impl Tile {
    pub fn new() -> (r: Tile)
        ensures
            r == blank_tile(),
    {
        Tile { value: TileValue::Number(0), exposed: false, flagged: false }
    }

    pub fn is_bomb(&self) -> (r: bool)
        ensures
            r == (self.value is Bomb),
    {
        matches!(self.value, TileValue::Bomb)
    }

    pub fn set_bomb(&mut self)
        ensures
            *final(self) == (Tile { value: TileValue::Bomb, ..*old(self) }),
    {
        self.value = TileValue::Bomb;
    }

    pub fn set_number(&mut self, count: u8)
        ensures
            *final(self) == (Tile { value: TileValue::Number(count), ..*old(self) }),
    {
        self.value = TileValue::Number(count);
    }

    pub fn get_number(&self) -> (r: Option<u8>)
        ensures
            r == match self.value {
                TileValue::Number(n) => Some(n),
                TileValue::Bomb => None,
            },
    {
        match self.value {
            TileValue::Number(n) => Some(n),
            TileValue::Bomb => None,
        }
    }
}

} // verus!
