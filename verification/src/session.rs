//! The decisions of an interactive game session between a person and the
//! engine: whose turn it is, who moves it, how a finished game is announced,
//! and how a typed line is read.  Reading and printing are left to the caller.

use vstd::prelude::*;
use crate::game::GameStatus;
use crate::text::{push_char, push_decimal, push_text, decimal, trimmed, trim_text, unsigned_decimal, usize_from_decimal};

verus! {

/// The two seats of a game.
#[derive(Clone, Copy, Debug, PartialEq, Eq, Structural)]
pub enum Player {
    First,
    Second,
}

/// Who sits in a seat.
#[derive(Clone, Copy, Debug, PartialEq, Eq, Structural)]
pub enum PlayerType {
    Computer,
    Human,
}

/// The other seat.
pub open spec fn other_seat(p: Player) -> Player {
    match p {
        Player::First => Player::Second,
        Player::Second => Player::First,
    }
}

impl Player {
    /// The other seat.
    pub fn other(&self) -> (r: Player)
        ensures
            r == other_seat(*self),
    {
        if *self == Player::First {
            Player::Second
        } else {
            Player::First
        }
    }
}

/// The name of a seat.
pub open spec fn seat_name(p: Player) -> Seq<char> {
    match p {
        Player::First => seq!['F', 'i', 'r', 's', 't'],
        Player::Second => seq!['S', 'e', 'c', 'o', 'n', 'd'],
    }
}

/// The name of a kind of player.
pub open spec fn kind_name(t: PlayerType) -> Seq<char> {
    match t {
        PlayerType::Computer => seq!['C', 'o', 'm', 'p', 'u', 't', 'e', 'r'],
        PlayerType::Human => seq!['H', 'u', 'm', 'a', 'n'],
    }
}

/// Appends the name of a seat.
fn push_seat(s: &mut String, p: Player)
    ensures
        final(s)@ == old(s)@ + seat_name(p),
{
    match p {
        Player::First => {
            push_text(s, "First");
            proof { reveal_strlit("First"); }
        }
        Player::Second => {
            push_text(s, "Second");
            proof { reveal_strlit("Second"); }
        }
    }
}

/// How a finished game ended.
#[derive(Clone, Copy, Debug, PartialEq, Eq, Structural)]
pub enum Outcome {
    Won(Player),
    Draw,
}

/// What the session does next.
#[derive(Clone, Copy, Debug, PartialEq, Eq, Structural)]
pub enum Step {
    /// Ask the person for a move.
    HumanMoves,
    /// Let the engine search for a move.
    ComputerMoves,
    /// The game is over.
    Over(Outcome),
}

/// The outcome of a finished game when `next` would move: the player who moved
/// last won, the player to move won, or neither.
pub open spec fn outcome_of(status: GameStatus, next: Player) -> Outcome {
    match status {
        GameStatus::LastPlayerWon => Outcome::Won(other_seat(next)),
        GameStatus::LastPlayerLost => Outcome::Won(next),
        _ => Outcome::Draw,
    }
}

/// The seats of an interactive session and whose turn it is.
#[derive(Clone, Copy, Debug, PartialEq, Eq, Structural)]
pub struct Seats {
    pub player1_type: PlayerType,
    pub player2_type: PlayerType,
    pub next_player: Player,
}

impl Seats {
    /// The engine in the first seat, a person in the second, the first to move.
    pub fn new() -> (s: Seats)
        ensures
            s.player1_type == PlayerType::Computer,
            s.player2_type == PlayerType::Human,
            s.next_player == Player::First,
    {
        Seats { player1_type: PlayerType::Computer, player2_type: PlayerType::Human, next_player: Player::First }
    }

    /// Who sits in the seat to move.
    pub fn next_player_type(&self) -> (t: PlayerType)
        ensures
            t == (if self.next_player == Player::First { self.player1_type } else { self.player2_type }),
    {
        if self.next_player == Player::First {
            self.player1_type
        } else {
            self.player2_type
        }
    }

    /// `"<seat> (<kind>) to move"`.
    pub fn show_next_player(&self) -> (s: String)
        ensures
            s@ == seat_name(self.next_player) + seq![' ', '('] + kind_name(self.next_player_type_spec())
                + seq![')', ' ', 't', 'o', ' ', 'm', 'o', 'v', 'e'],
    {
        let mut s = String::new();
        push_seat(&mut s, self.next_player);
        push_text(&mut s, " (");
        match self.next_player_type() {
            PlayerType::Computer => {
                push_text(&mut s, "Computer");
                proof { reveal_strlit("Computer"); }
            }
            PlayerType::Human => {
                push_text(&mut s, "Human");
                proof { reveal_strlit("Human"); }
            }
        }
        push_text(&mut s, ") to move");
        proof {
            reveal_strlit(" (");
            reveal_strlit(") to move");
        }
        s
    }

    /// Who sits in the seat to move.
    pub open spec fn next_player_type_spec(&self) -> PlayerType {
        if self.next_player == Player::First { self.player1_type } else { self.player2_type }
    }

    /// What to do in a game whose status is `status`: ask whoever sits in the
    /// seat to move while it is in progress, otherwise announce the outcome.
    pub fn next_step(&self, status: GameStatus) -> (st: Step)
        ensures
            st == (if status == GameStatus::InProgress {
                if self.next_player_type_spec() == PlayerType::Human { Step::HumanMoves } else { Step::ComputerMoves }
            } else {
                Step::Over(outcome_of(status, self.next_player))
            }),
    {
        match status {
            GameStatus::InProgress => {
                match self.next_player_type() {
                    PlayerType::Human => Step::HumanMoves,
                    PlayerType::Computer => Step::ComputerMoves,
                }
            }
            GameStatus::LastPlayerWon => Step::Over(Outcome::Won(self.next_player.other())),
            GameStatus::LastPlayerLost => Step::Over(Outcome::Won(self.next_player)),
            _ => Step::Over(Outcome::Draw),
        }
    }

    /// A move was made: the other seat is to move.
    pub fn moved(&mut self)
        ensures
            final(self).next_player == other_seat(old(self).next_player),
            final(self).player1_type == old(self).player1_type,
            final(self).player2_type == old(self).player2_type,
    {
        self.next_player = self.next_player.other();
    }
}

/// How an outcome is announced: `"<seat> won"` or `"Draw."`.
pub open spec fn outcome_text_spec(o: Outcome) -> Seq<char> {
    match o {
        Outcome::Won(p) => seat_name(p) + seq![' ', 'w', 'o', 'n'],
        Outcome::Draw => seq!['D', 'r', 'a', 'w', '.'],
    }
}

/// How an outcome is announced.
pub fn outcome_text(o: Outcome) -> (s: String)
    ensures
        s@ == outcome_text_spec(o),
{
    let mut s = String::new();
    match o {
        Outcome::Won(p) => {
            push_seat(&mut s, p);
            push_text(&mut s, " won");
            proof { reveal_strlit(" won"); }
        }
        Outcome::Draw => {
            push_text(&mut s, "Draw.");
            proof { reveal_strlit("Draw."); }
        }
    }
    s
}

/// The numbered list of actions: `"[i] <label>\n"` for each.
pub open spec fn action_list(labels: Seq<Seq<char>>, n: int) -> Seq<char>
    decreases n,
{
    if n <= 0 {
        Seq::empty()
    } else {
        action_list(labels, n - 1) + seq!['['] + decimal((n - 1) as nat) + seq![']', ' '] + labels[n - 1] + seq!['\n']
    }
}

/// The numbered list of the actions, one per line.
pub fn show_available_actions(labels: &Vec<String>) -> (s: String)
    ensures
        s@ == action_list(labels@.map_values(|l: String| l@), labels@.len() as int),
{
    let ghost ls = labels@.map_values(|l: String| l@);
    let mut s = String::new();
    let mut i: usize = 0;
    while i < labels.len()
        invariant
            i <= labels@.len(),
            ls == labels@.map_values(|l: String| l@),
            s@ == action_list(ls, i as int),
        decreases labels@.len() - i,
    {
        push_char(&mut s, '[');
        push_decimal(&mut s, i);
        push_char(&mut s, ']');
        push_char(&mut s, ' ');
        push_text(&mut s, labels[i].as_str());
        push_char(&mut s, '\n');
        i = i + 1;
        assert(s@ =~= action_list(ls, i as int));
    }
    s
}

/// What a line typed while debugging asks for.
#[derive(Clone, Copy, Debug, PartialEq, Eq, Structural)]
pub enum DebugCommand {
    /// `q`: stop.
    Quit,
    /// An empty line: play what the engine would play.
    Default,
    /// A number: play the candidate with that index.
    Pick(usize),
    /// Anything else.
    Invalid,
}

/// What a typed line asks for once trimmed.
pub open spec fn debug_command_of(line: Seq<char>) -> DebugCommand {
    let t = trimmed(line);
    if t == seq!['q'] {
        DebugCommand::Quit
    } else if t.len() == 0 {
        DebugCommand::Default
    } else {
        match unsigned_decimal(t) {
            Some(v) => DebugCommand::Pick(v as usize),
            None => DebugCommand::Invalid,
        }
    }
}

/// Reads a line typed while debugging.
pub fn read_debug_command(input: &str) -> (c: DebugCommand)
    ensures
        c == debug_command_of(input@),
{
    let t = trim_text(input);
    let cs = crate::text::str_chars(t.as_str());
    if cs.len() == 1 && cs[0] == 'q' {
        assert(t@ =~= seq!['q']);
        return DebugCommand::Quit;
    }
    if cs.len() == 0 {
        return DebugCommand::Default;
    }
    assert(t@ != seq!['q']);
    match usize_from_decimal(t.as_str()) {
        Some(v) => DebugCommand::Pick(v),
        None => DebugCommand::Invalid,
    }
}

/// Reads the number of a listed action from a typed line, once trimmed.
pub fn read_selection(input: &str) -> (r: Option<usize>)
    ensures
        match unsigned_decimal(trimmed(input@)) {
            Some(v) => r == Some(v as usize),
            None => r is None,
        },
{
    let t = trim_text(input);
    usize_from_decimal(t.as_str())
}

/// Which of the two texts a session shows: the debugging text in debug mode,
/// the plain one otherwise, and nothing when that one is empty.
pub fn shown_text<'a>(debug: bool, string: &'a str, debug_string: &'a str) -> (r: Option<&'a str>)
    ensures
        r == (if debug {
            if debug_string@.len() > 0 { Some(debug_string) } else { None }
        } else {
            if string@.len() > 0 { Some(string) } else { None }
        }),
{
    if debug {
        if debug_string.unicode_len() > 0 { Some(debug_string) } else { None }
    } else {
        if string.unicode_len() > 0 { Some(string) } else { None }
    }
}

} // verus!
