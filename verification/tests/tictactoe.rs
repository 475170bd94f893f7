use seraphim::game::{Game, GameStatus};
use seraphim::tictactoe::{MoveError, ParseError, State, TicTacToe};

#[test]
fn parse_empty_board() {
    let _state = State::from_str(
        "\
            _ _ _
            _ _ _
            _ _ _",
    )
    .expect("Couldn't parse an empty board");
}

#[test]
fn parse_a_board() {
    let _state = State::from_str(
        "\
            o x o
            _ x _
            _ o _",
    )
    .expect("Couldn't parse");
}

#[test]
fn o_wins_row() {
    let state = State::from_str(
        "\
            o x x
            _ x x
            o o o",
    )
    .expect("Couldn't parse");
    assert_eq!(state.status, GameStatus::LastPlayerWon);
    assert_eq!(state.next_player, 0);
}

#[test]
fn x_wins_col() {
    let _state = State::from_str(
        "\
            o x o
            _ x _
            _ x _",
    )
    .expect("Couldn't parse");
}

#[test]
fn x_wins_nw_diag() {
    let state = State::from_str(
        "\
            x _ x
            o x o
            _ o x",
    )
    .expect("Couldn't parse");
    assert_eq!(state.status, GameStatus::LastPlayerWon);
    assert_eq!(state.next_player, 1);
}

#[test]
fn o_wins_ne_diag() {
    let state = State::from_str(
        "\
            _ x o
            _ o _
            o x x",
    )
    .expect("Couldn't parse");
    assert_eq!(state.status, GameStatus::LastPlayerWon);
    assert_eq!(state.next_player, 0);
}

#[test]
fn unknown_mark_is_refused() {
    assert_eq!(State::from_str("x o q _ _ _ _ _ _"), Err(ParseError::UnrecognizedCharacter('q')));
}

#[test]
fn too_few_marks_are_refused() {
    assert_eq!(State::from_str("x o _"), Err(ParseError::TooFewMarks(3)));
}

#[test]
fn playing_twice_on_a_cell_is_refused() {
    let mut s = State::new();
    s.play(4).unwrap();
    assert_eq!(s.play(4), Err(MoveError::Occupied));
    assert_eq!(s.plys, 1);
    assert_eq!(s.next_player, 1);
}

#[test]
fn a_full_game_to_a_win() {
    let mut s = State::new();
    for idx in [0, 3, 1, 4, 2] {
        s.play(idx).unwrap();
    }
    assert_eq!(s.status, GameStatus::LastPlayerWon);
    let game = TicTacToe::new();
    assert_eq!(game.status(&s), GameStatus::LastPlayerWon);
}

#[test]
fn legal_actions_are_the_empty_cells() {
    let game = TicTacToe::new();
    let s = State::from_str("x o _ _ x _ _ _ o").unwrap();
    let legal = game.legal_actions(&s);
    assert_eq!(legal, vec![false, false, true, true, false, true, true, true, false]);
    assert_eq!(game.action_count(), 9);
    let next = game.successor(&s, 2);
    assert_eq!(next.plys, s.plys + 1);
}

#[test]
fn board_text_shows_the_marks() {
    let s = State::from_str("x o _ _ x _ _ _ o").unwrap();
    assert_eq!(s.to_string(), "|x|o| |\n| |x| |\n| | |o|");
}
