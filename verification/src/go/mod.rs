//! The game of Go under Tromp-Taylor rules.

pub mod pos;
pub mod board;
pub mod groups;
pub mod state;
pub mod rules;
pub mod replay;

pub use crate::go::state::{State19, Score};

use vstd::prelude::*;
use crate::go::pos::Pos19;
use crate::sgf::{Move, PointColor, Stone, is_column_letter_point};

verus! {

/// One of the two players.
#[derive(Clone, Copy, Debug, PartialEq, Eq, Structural)]
pub enum Player {
    Black,
    White,
}

/// What a point of the board holds.
#[derive(Clone, Copy, Debug, PartialEq, Eq, Hash, PartialOrd, Ord, Structural)]
pub enum Color {
    Black,
    White,
    Empty,
}

/// The other player.
pub open spec fn other_player(p: Player) -> Player {
    match p {
        Player::Black => Player::White,
        Player::White => Player::Black,
    }
}

/// The colour of a player's stones.
pub open spec fn player_color(p: Player) -> Color {
    match p {
        Player::Black => Color::Black,
        Player::White => Color::White,
    }
}

impl Player {
    /// The other player.
    pub fn other(&self) -> (r: Player)
        ensures
            r == other_player(*self),
    {
        match self {
            Player::Black => Player::White,
            Player::White => Player::Black,
        }
    }

    /// The colour of this player's stones.
    pub fn color(&self) -> (c: Color)
        ensures
            c == player_color(*self),
    {
        match self {
            Player::Black => Color::Black,
            Player::White => Color::White,
        }
    }
}

/// Why a turn was refused.
#[derive(Clone, Copy, Debug, PartialEq, Eq, Structural)]
pub enum IllegalMoveError {
    /// The move would repeat an earlier position.
    PositionalSuperko,
    /// The point already holds a stone of this colour.
    Occupied(Color),
    /// The game has ended.
    GameOver,
}

/// One turn of a game: a pass, a play at a point, or a set-up stone that
/// overwrites a point without any capture.
#[derive(Clone, Copy, Debug, PartialEq, Eq, Structural)]
pub enum Turn {
    Pass,
    Of(Pos19),
    Add(Color, Pos19),
}

/// The turn that an SGF move stands for.
pub open spec fn turn_of_move(m: Move) -> Turn {
    match m {
        Move::Pass => Turn::Pass,
        Move::Of(s) => Turn::Of(Pos19(crate::go::pos::point_index(
            crate::go::pos::letter_column(s.point.0), crate::go::pos::letter_column(s.point.1)) as usize)),
        Move::Add(s) => Turn::Add(
            match s.color {
                PointColor::Black => Color::Black,
                PointColor::White => Color::White,
                PointColor::Empty => Color::Empty,
            },
            Pos19(crate::go::pos::point_index(
                crate::go::pos::letter_column(s.point.0), crate::go::pos::letter_column(s.point.1)) as usize),
        ),
    }
}

/// The move names a point by two letters `a`..`s` (a pass names none).
pub open spec fn move_on_board(m: Move) -> bool {
    match m {
        Move::Pass => true,
        Move::Of(s) => is_column_letter_point(s.point),
        Move::Add(s) => is_column_letter_point(s.point),
    }
}

impl Turn {
    /// The turn that an SGF move stands for.
    pub fn from_sgf(sgf: Move) -> (t: Turn)
        requires
            move_on_board(sgf),
        ensures
            t == turn_of_move(sgf),
    {
        match sgf {
            Move::Pass => Turn::Pass,
            Move::Of(Stone { point, .. }) => Turn::Of(Pos19::from_sgf_coords(point.0, point.1)),
            Move::Add(Stone { color, point }) => Turn::Add(
                match color {
                    PointColor::Black => Color::Black,
                    PointColor::White => Color::White,
                    PointColor::Empty => Color::Empty,
                },
                Pos19::from_sgf_coords(point.0, point.1),
            ),
        }
    }
}

/// A list of turns, as a game record is stored.
#[derive(Clone, Debug)]
pub struct TurnList {
    pub list: Vec<Turn>,
}

} // verus!
