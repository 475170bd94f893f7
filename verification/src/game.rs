//! Game-independent vocabulary shared by the search engine and the games.

use vstd::prelude::*;

verus! {

/// The result of a game as seen from the player who made the last move.
#[derive(Clone, Copy, Debug, PartialEq, Eq, Hash, Structural)]
pub enum GameStatus {
    InProgress,
    NullResult,
    Draw,
    LastPlayerWon,
    LastPlayerLost,
}

impl core::default::Default for GameStatus {
    /// A fresh game is in progress.
    fn default() -> (s: Self)
        ensures
            s == GameStatus::InProgress,
    {
        GameStatus::InProgress
    }
}

/// Whether a participant is driven by a person or by the engine.
#[derive(Debug, Clone, Copy, PartialEq, Eq, Structural)]
pub enum Humanity {
    Human,
    Computer,
}

/// A participant in a game.
pub trait Player: Sized {
    fn humanity(&self) -> Humanity;
}

/// The two players of a game named after the colours of their stones.
#[derive(Debug, Clone, Copy, PartialEq, Eq, Structural)]
pub enum BlackWhite {
    Black,
    White,
}

/// The lower-case name of a colour.
pub open spec fn black_white_name(c: BlackWhite) -> Seq<char> {
    match c {
        BlackWhite::Black => seq!['b', 'l', 'a', 'c', 'k'],
        BlackWhite::White => seq!['w', 'h', 'i', 't', 'e'],
    }
}

impl BlackWhite {
    /// The player's name as it is shown to people: `black` or `white`.
    pub fn to_string(&self) -> (s: String)
        ensures
            s@ == black_white_name(*self),
    {
        match self {
            BlackWhite::Black => {
                let s = String::from_str("black");
                proof { reveal_strlit("black"); }
                s
            },
            BlackWhite::White => {
                let s = String::from_str("white");
                proof { reveal_strlit("white"); }
                s
            },
        }
    }
}

/// A black or white player together with who drives it.
#[derive(Debug, Clone, Copy)]
pub struct BlackWhitePlayer {
    pub id: BlackWhite,
    pub humanity: Humanity,
}

impl BlackWhitePlayer {
    /// The player's name: that of its colour.
    pub fn to_string(&self) -> (s: String)
        ensures
            s@ == black_white_name(self.id),
    {
        self.id.to_string()
    }
}

impl Player for BlackWhitePlayer {
    fn humanity(&self) -> (h: Humanity)
        ensures
            h == self.humanity,
    {
        self.humanity
    }
}

/// A state of a game that can be handed to the expert as a feature vector.
pub trait GameState: Sized {
    /// The bytes that describe the state to the expert.
    fn feature_bytes(&self) -> Vec<u8>;
}

/// The rules of a game, as the search engine sees them: actions are numbered
/// from 0, and each state says which of them may be taken.
pub trait Game {
    type State: GameState;

    /// Action `action` may be taken in `state`.
    spec fn may_take(&self, state: Self::State, action: usize) -> bool;

    /// How many different actions there are.
    fn action_count(&self) -> usize;

    /// For each action, whether it may be taken in `state`.
    fn legal_actions(&self, state: &Self::State) -> Vec<bool>;

    /// The state after taking `action` in `state`.
    fn successor(&self, state: &Self::State, action: usize) -> Self::State
        requires
            self.may_take(*state, action),
    ;

    /// Whether the game in `state` is over, and how.
    fn status(&self, state: &Self::State) -> GameStatus;
}

/// A game played at a text terminal: who is to play, and how a person is asked
/// for an action.
pub trait AsciiInteractive: Game {
    type Player: Player;

    /// The participant who takes the next action in `state`.
    fn to_play(&self, state: &Self::State) -> &Self::Player;

    /// Asks a person for the next action in `state`.
    fn prompt(&self, state: &Self::State) -> usize;
}

} // verus!
