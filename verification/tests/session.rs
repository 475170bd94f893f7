use seraphim::game::GameStatus;
use seraphim::session::{
    outcome_text, read_debug_command, read_selection, show_available_actions, shown_text,
    DebugCommand, Outcome, Player, PlayerType, Seats, Step,
};

#[test]
fn session_starts_with_the_engine_to_move() {
    let seats = Seats::new();
    assert_eq!(seats.next_player, Player::First);
    assert_eq!(seats.next_player_type(), PlayerType::Computer);
    assert_eq!(seats.show_next_player(), "First (Computer) to move");
}

#[test]
fn seats_alternate_after_each_move() {
    let mut seats = Seats::new();
    seats.moved();
    assert_eq!(seats.next_player, Player::Second);
    assert_eq!(seats.next_player_type(), PlayerType::Human);
    assert_eq!(seats.show_next_player(), "Second (Human) to move");
    seats.moved();
    assert_eq!(seats.next_player, Player::First);
    assert_eq!(Player::First.other(), Player::Second);
    assert_eq!(Player::Second.other(), Player::First);
}

#[test]
fn next_step_asks_the_seat_to_move() {
    let mut seats = Seats::new();
    assert_eq!(seats.next_step(GameStatus::InProgress), Step::ComputerMoves);
    seats.moved();
    assert_eq!(seats.next_step(GameStatus::InProgress), Step::HumanMoves);
}

#[test]
fn next_step_announces_the_outcome() {
    let mut seats = Seats::new();
    seats.moved();
    // Second is to move, so First moved last.
    assert_eq!(
        seats.next_step(GameStatus::LastPlayerWon),
        Step::Over(Outcome::Won(Player::First))
    );
    assert_eq!(
        seats.next_step(GameStatus::LastPlayerLost),
        Step::Over(Outcome::Won(Player::Second))
    );
    assert_eq!(seats.next_step(GameStatus::Draw), Step::Over(Outcome::Draw));
    assert_eq!(seats.next_step(GameStatus::NullResult), Step::Over(Outcome::Draw));
}

#[test]
fn outcomes_are_announced() {
    assert_eq!(outcome_text(Outcome::Won(Player::First)), "First won");
    assert_eq!(outcome_text(Outcome::Won(Player::Second)), "Second won");
    assert_eq!(outcome_text(Outcome::Draw), "Draw.");
}

#[test]
fn actions_are_listed_with_their_numbers() {
    let labels = vec!["a1".to_string(), "b2".to_string(), "pass".to_string()];
    assert_eq!(show_available_actions(&labels), "[0] a1\n[1] b2\n[2] pass\n");
    assert_eq!(show_available_actions(&Vec::new()), "");
}

#[test]
fn debug_lines_are_read() {
    assert_eq!(read_debug_command("q\n"), DebugCommand::Quit);
    assert_eq!(read_debug_command("  q  "), DebugCommand::Quit);
    assert_eq!(read_debug_command("\n"), DebugCommand::Default);
    assert_eq!(read_debug_command(""), DebugCommand::Default);
    assert_eq!(read_debug_command(" 12\n"), DebugCommand::Pick(12));
    assert_eq!(read_debug_command("+3"), DebugCommand::Pick(3));
    assert_eq!(read_debug_command("qq"), DebugCommand::Invalid);
    assert_eq!(read_debug_command("-1"), DebugCommand::Invalid);
    assert_eq!(read_debug_command("1 2"), DebugCommand::Invalid);
}

#[test]
fn selections_are_read() {
    assert_eq!(read_selection("4\n"), Some(4));
    assert_eq!(read_selection("\t 0 \n"), Some(0));
    assert_eq!(read_selection(""), None);
    assert_eq!(read_selection("x"), None);
    assert_eq!(read_selection("99999999999999999999999"), None);
}

#[test]
fn shown_text_follows_the_mode() {
    assert_eq!(shown_text(true, "plain", "detail"), Some("detail"));
    assert_eq!(shown_text(false, "plain", "detail"), Some("plain"));
    assert_eq!(shown_text(true, "plain", ""), None);
    assert_eq!(shown_text(false, "", "detail"), None);
}
