use seraphim::go::pos::Pos19;
use seraphim::go::replay::{replay, ReplayError};
use seraphim::go::{Color, IllegalMoveError};

#[test]
fn replay_plays_the_main_line() {
    let state = replay("(;GM[1]SZ[19];B[aa];W[ba];B[cc])").unwrap();
    assert_eq!(state.get(&Pos19(0)), Color::Black);
    assert_eq!(state.get(&Pos19(1)), Color::White);
    assert_eq!(state.get(&Pos19(2 + 2 * 19)), Color::Black);
    assert!(state.final_score.is_none());
}

#[test]
fn replay_follows_the_first_variation() {
    let state = replay("(;B[aa](;W[ba])(;W[ca]))").unwrap();
    assert_eq!(state.get(&Pos19(1)), Color::White);
    assert_eq!(state.get(&Pos19(2)), Color::Empty);
}

#[test]
fn replay_lets_white_open_when_the_record_says_so() {
    let state = replay("(;W[aa];B[ba])").unwrap();
    assert_eq!(state.get(&Pos19(0)), Color::White);
    assert_eq!(state.get(&Pos19(1)), Color::Black);
}

#[test]
fn replay_places_set_up_stones() {
    let state = replay("(;AB[dd];B[aa])").unwrap();
    assert_eq!(state.get(&Pos19(3 + 3 * 19)), Color::Black);
    assert_eq!(state.get(&Pos19(0)), Color::Black);
}

#[test]
fn replay_skips_turns_after_the_game_ended() {
    let state = replay("(;B[aa];W[];B[];W[bb])").unwrap();
    assert!(state.final_score.is_some());
    assert_eq!(state.get(&Pos19(1 + 19)), Color::Empty);
}

#[test]
fn replay_stops_at_an_occupied_point() {
    match replay("(;B[aa];W[bb];B[aa])") {
        Err(ReplayError::Illegal(2, IllegalMoveError::Occupied(Color::Black))) => {}
        other => panic!("unexpected {:?}", other.map(|s| s.to_string())),
    }
}

#[test]
fn replay_stops_at_a_repeated_position() {
    // White retakes the ko at b2 at once, which repeats the position.
    let ko = "(;B[ba];W[ca];B[ab];W[db];B[bc];W[cc];B[];W[bb];B[cb];W[bb])";
    match replay(ko) {
        Err(ReplayError::Illegal(9, IllegalMoveError::PositionalSuperko)) => {}
        other => panic!("unexpected {:?}", other.map(|s| s.to_string())),
    }
}

#[test]
fn replay_reports_records_that_cannot_be_read() {
    assert!(matches!(replay("(;B[aa]"), Err(ReplayError::Parse(_))));
    assert!(matches!(replay("(;B[a])"), Err(ReplayError::Unreadable)));
    assert!(matches!(replay("(;B[zz])"), Err(ReplayError::OffBoard)));
}

#[test]
fn set_up_stones_of_the_colour_not_to_move_are_captured_by_the_rules() {
    // White moves first; the black set-up stone in the corner is taken.
    let state = replay("(;AB[aa];W[ba];B[dd];W[ab])").unwrap();
    assert_eq!(state.get(&Pos19(0)), Color::Empty);
    assert_eq!(state.get(&Pos19(1)), Color::White);
    assert_eq!(state.get(&Pos19(19)), Color::White);
    // A white set-up stone next to black stones takes a liberty from them.
    let state = replay("(;B[aa];W[dd];AW[ba];B[pp];W[ab])").unwrap();
    assert_eq!(state.get(&Pos19(0)), Color::Empty);
}
