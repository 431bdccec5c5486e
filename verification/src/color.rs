//! Cell colours, players and stones.

use vstd::prelude::*;

verus! {

/// A board coordinate: `(row, column)`.
pub type Coord = (usize, usize);

/// What a cell of the board holds.
#[derive(Debug, PartialEq, Eq, Clone, Copy, Hash, Structural)]
pub enum Color {
    Black,
    White,
    Empty,
}

impl Color {
    /// The colour of the other side; `Empty` has no opponent and maps to itself.
    pub open spec fn opponent_spec(self) -> Color {
        match self {
            Color::Black => Color::White,
            Color::White => Color::Black,
            Color::Empty => Color::Empty,
        }
    }

    /// The slot of this colour in a fingerprint table: 0, 1 or 2.
    pub open spec fn slot(self) -> int {
        match self {
            Color::Black => 0,
            Color::White => 1,
            Color::Empty => 2,
        }
    }

    #[verifier::when_used_as_spec(opponent_spec)]
    pub fn opponent(self) -> (r: Color)
        ensures
            r == self.opponent_spec(),
    {
        match self {
            Color::Black => Color::White,
            Color::White => Color::Black,
            Color::Empty => Color::Empty,
        }
    }

    pub fn is_stone(self) -> (r: bool)
        ensures
            r == (self != Color::Empty),
    {
        match self {
            Color::Black | Color::White => true,
            Color::Empty => false,
        }
    }

    /// The colour as a small number: 0 for Black, 1 for White, 2 for Empty.
    pub fn to_u8(self) -> (r: u8)
        ensures
            r as int == self.slot(),
    {
        match self {
            Color::Black => 0,
            Color::White => 1,
            Color::Empty => 2,
        }
    }
}

/// A coordinate together with the colour that stands (or is looked for) there.
#[derive(Debug, Eq, Clone, Copy, Hash)]
pub struct Stone {
    pub coord: Coord,
    pub color: Color,
}

impl PartialEq for Stone {
    fn eq(&self, other: &Stone) -> (r: bool) {
        self.coord.0 == other.coord.0 && self.coord.1 == other.coord.1 && self.color == other.color
    }
}

impl vstd::std_specs::cmp::PartialEqSpecImpl for Stone {
    open spec fn obeys_eq_spec() -> bool {
        true
    }

    open spec fn eq_spec(&self, other: &Stone) -> bool {
        self.coord.0 == other.coord.0 && self.coord.1 == other.coord.1 && self.color == other.color
    }
}

/// One of the two sides.
#[derive(Debug, PartialEq, Eq, Clone, Copy, Structural)]
pub enum Player {
    Black,
    White,
}

impl Player {
    pub open spec fn color_spec(self) -> Color {
        match self {
            Player::Black => Color::Black,
            Player::White => Color::White,
        }
    }

    pub open spec fn other(self) -> Player {
        match self {
            Player::Black => Player::White,
            Player::White => Player::Black,
        }
    }

    #[verifier::when_used_as_spec(color_spec)]
    pub fn color(self) -> (r: Color)
        ensures
            r == self.color_spec(),
    {
        match self {
            Player::Black => Color::Black,
            Player::White => Color::White,
        }
    }
}

impl vstd::std_specs::ops::NotSpecImpl for Player {
    open spec fn obeys_not_spec() -> bool {
        true
    }

    open spec fn not_req(self) -> bool {
        true
    }

    open spec fn not_spec(self) -> Player {
        self.other()
    }
}

impl std::ops::Not for Player {
    type Output = Player;

    fn not(self) -> (r: Player) {
        match self {
            Player::Black => Player::White,
            Player::White => Player::Black,
        }
    }
}

} // verus!
