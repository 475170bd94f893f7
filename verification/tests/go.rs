use seraphim::go::pos::Pos19;
use seraphim::go::{Color, IllegalMoveError, Player, State19, Turn};

/// The area scores with the game's komi added to White, as the engine reports them.
fn with_komi(state: &State19) -> (f64, f64) {
    let komi: f64 = state.komi().parse().unwrap();
    let sc = state.score();
    (sc.black as f64, sc.white as f64 + komi)
}

#[test]
fn captures_are_cleared() {
    let moves = vec!["a1", "a2", "c9", "b1"];
    let emoves = vec!["a2", "c9", "b1"];
    let mut actual = State19::new();
    let mut expected = State19::new();
    for mv in moves {
        actual.play_str(mv).unwrap();
    }
    expected.play(Turn::Pass).unwrap();
    for mv in emoves {
        expected.play_str(mv).unwrap();
    }
    assert_eq!(format!("\n{}\n", actual.to_string()), format!("\n{}\n", expected.to_string()));
}

#[test]
fn captures_free_liberties() {
    let moves = vec!["a1", "a2", "c9", "b1"];
    let emoves = vec!["a2", "c9", "b1"];
    let mut actual = State19::new();
    let mut expected = State19::new();
    for mv in moves {
        actual.play_str(mv).unwrap();
    }
    expected.play(Turn::Pass).unwrap();
    for mv in emoves {
        expected.play_str(mv).unwrap();
    }
    let Pos19(a2_usize) = Pos19::parse("a2");
    let a2_group = actual.group_index.get(a2_usize).unwrap().clone();
    let a2_liberties = actual.liberties.get(a2_group).unwrap();
    assert_eq!(a2_liberties.len(), 3);
}

#[test]
fn suicide_cleared() {
    let moves = vec!["a2", "c9", "b1", "a 1"];
    let emoves = moves[0..3].iter().clone().map(|p| Turn::Of(Pos19::parse(p)));
    let mut actual = State19::new();
    let mut expected = State19::new();
    for mv in moves.iter() {
        actual.play_str(mv).unwrap();
    }
    for mv in emoves {
        expected.play(mv).unwrap();
    }
    assert_eq!(format!("\n{}\n", actual.to_string()), format!("\n{}\n", expected.to_string()));
}

#[test]
fn basic_score() {
    let moves = vec!["a2", "c9", "b1", "a 1"];
    let mut actual = State19::new();
    for mv in moves.iter() {
        actual.play_str(mv).unwrap();
    }
    let komi: f64 = actual.komi().parse().unwrap();
    assert_eq!(with_komi(&actual), (2.0, 1.0 + komi));
}

#[test]
fn scoring_expands_around_a_wall() {
    let black_moves = (1..19).map(|i| format!("d {}", i));
    let white_moves = (1..19).map(|i| format!("l {}", i));
    let moves = black_moves.zip(white_moves).flat_map(|(a, b)| vec![a, b]);
    let mut actual = State19::new();
    for mv in moves {
        actual.play_str(&mv).unwrap();
    }
    let komi: f64 = actual.komi().parse().unwrap();
    assert_eq!(with_komi(&actual), (18.0, 18.0 + komi));
}

#[test]
fn scoring_counts_captured_territory() {
    let black_moves = (1..20).map(|i| format!("d {}", i));
    let white_moves = (1..20).map(|i| format!("l {}", i));
    let moves = black_moves.zip(white_moves).flat_map(|(a, b)| vec![a, b]);
    let mut actual = State19::new();
    for mv in moves {
        actual.play_str(&mv).unwrap();
    }
    let komi: f64 = actual.komi().parse().unwrap();
    assert_eq!(with_komi(&actual), (19.0 * 4.0, 19.0 * 8.0 + komi));
}

#[test]
fn occupied_point_is_refused_and_nothing_changes() {
    let mut state = State19::new();
    state.play_str("d4").unwrap();
    let before = state.to_string();
    let p = Pos19::parse("d4");
    assert_eq!(state.play(Turn::Of(p)), Err(IllegalMoveError::Occupied(Color::Black)));
    assert_eq!(state.to_string(), before);
    assert_eq!(state.get(&p), Color::Black);
}

#[test]
fn ko_recapture_is_refused_as_superko() {
    let mut state = State19::new();
    for mv in ["b1", "c1", "a2", "d2", "b3", "c3"] {
        state.play_str(mv).unwrap();
    }
    state.play(Turn::Pass).unwrap();
    state.play_str("b2").unwrap();
    // Black takes the white stone at b2.
    state.play_str("c2").unwrap();
    assert_eq!(state.get(&Pos19::parse("b2")), Color::Empty);
    let before = state.to_string();
    assert_eq!(state.play_str("b2"), Err(IllegalMoveError::PositionalSuperko));
    assert_eq!(state.to_string(), before);
    assert_eq!(state.get(&Pos19::parse("c2")), Color::Black);
}

#[test]
fn two_passes_end_the_game() {
    let mut state = State19::new();
    state.play_str("d4").unwrap();
    state.play(Turn::Pass).unwrap();
    assert!(state.final_score.is_none());
    state.play(Turn::Pass).unwrap();
    let sc = state.final_score.unwrap();
    assert_eq!((sc.black, sc.white), (361, 0));
    assert_eq!(state.play_str("e5"), Err(IllegalMoveError::GameOver));
    assert_eq!(state.play(Turn::Pass), Err(IllegalMoveError::GameOver));
}

#[test]
fn set_up_stone_keeps_the_turn() {
    let mut state = State19::new();
    let p = Pos19::parse("q16");
    state.play(Turn::Add(Color::White, p)).unwrap();
    assert_eq!(state.get(&p), Color::White);
    // Black is still to move: the next play is black.
    state.play_str("d4").unwrap();
    assert_eq!(state.get(&Pos19::parse("d4")), Color::Black);
}

#[test]
fn position_made_by_set_up_turns_cannot_be_played_again() {
    let mut state = State19::new();
    let a1 = Pos19::parse("a1");
    state.play(Turn::Add(Color::Black, a1)).unwrap();
    state.play(Turn::Add(Color::Empty, a1)).unwrap();
    assert_eq!(state.get(&a1), Color::Empty);
    let before = state.to_string();
    assert_eq!(state.play_str("a1"), Err(IllegalMoveError::PositionalSuperko));
    assert_eq!(state.to_string(), before);
}

#[test]
fn text_that_names_no_point_of_the_board_plays_nothing() {
    let mut state = State19::new();
    assert_eq!(state.play_text("d4"), Some(Ok(())));
    assert_eq!(state.get(&Pos19::parse("d4")), Color::Black);
    let before = state.to_string();
    assert_eq!(state.play_text("zz"), None);
    assert_eq!(state.play_text("a 20"), None);
    assert_eq!(state.to_string(), before);
    assert_eq!(state.play_text("d4"), Some(Err(IllegalMoveError::Occupied(Color::Black))));
    assert_eq!(state.play_text("e 5"), Some(Ok(())));
    assert_eq!(state.get(&Pos19::parse("e5")), Color::White);
}

/// The number of liberties of the group that holds the stone at `name`.
fn liberty_count(state: &State19, name: &str) -> usize {
    let Pos19(idx) = Pos19::parse(name);
    let group = *state.group_index.get(idx).unwrap();
    state.liberties.get(group).unwrap().len()
}

#[test]
fn set_up_turns_that_replace_or_clear_stones_keep_the_groups() {
    let mut state = State19::new();
    state.play_str("d4").unwrap();
    state.play_str("d5").unwrap();
    // A white set-up stone replaces the black one: d4 and d5 make one chain.
    state.play(Turn::Add(Color::White, Pos19::parse("d4"))).unwrap();
    let Pos19(d4) = Pos19::parse("d4");
    let Pos19(d5) = Pos19::parse("d5");
    assert_eq!(state.group_index.get(d4), state.group_index.get(d5));
    assert_eq!(liberty_count(&state, "d4"), 6);
    // Clearing d5 leaves d4 alone with four liberties, d5 among them.
    state.play(Turn::Add(Color::Empty, Pos19::parse("d5"))).unwrap();
    assert_eq!(state.get(&Pos19::parse("d5")), Color::Empty);
    assert_eq!(liberty_count(&state, "d4"), 4);
    // Black surrounds d4 and takes it.
    for mv in ["c4", "a19", "e4", "b19", "d3"] {
        state.play_str(mv).unwrap();
    }
    assert_eq!(liberty_count(&state, "d4"), 1);
    state.play_str("c19").unwrap();
    state.play_str("d5").unwrap();
    assert_eq!(state.get(&Pos19::parse("d4")), Color::Empty);
    assert_eq!(liberty_count(&state, "d5"), 4);
}

#[test]
fn players_alternate() {
    assert_eq!(Player::Black.other(), Player::White);
    assert_eq!(Player::White.other(), Player::Black);
    assert_eq!(Player::Black.color(), Color::Black);
    assert_eq!(Player::White.color(), Color::White);
}

#[test]
fn empty_board_text() {
    let state = State19::new();
    let text = state.to_string();
    let lines: Vec<&str> = text.lines().collect();
    assert_eq!(lines[0], "     a b c d e f g h i j k l m n o p q r s");
    assert_eq!(lines[1], format!("    {}", "-".repeat(38)));
    assert_eq!(lines[2], format!(" 1 |{}", " .".repeat(19)));
    assert_eq!(lines[20], format!("19 |{}", " .".repeat(19)));
    assert_eq!(lines.len(), 21);
}

#[test]
fn board_text_shows_stones() {
    let mut state = State19::new();
    state.play_str("a1").unwrap();
    state.play_str("b1").unwrap();
    let text = state.to_string();
    let lines: Vec<&str> = text.lines().collect();
    assert_eq!(lines[2], format!(" 1 | o x{}", " .".repeat(17)));
}

#[test]
fn every_stone_keeps_a_liberty_after_each_play() {
    // Captures, a suicide and a ko fight; after every accepted play each stone's
    // group lists at least one liberty.
    let moves = ["b1", "c1", "a2", "d2", "b3", "c3", "a1", "b2", "c2", "a3", "e1", "d1"];
    let mut state = State19::new();
    for mv in moves.iter() {
        let _ = state.play_str(mv);
        for idx in 0..361 {
            if state.get(&Pos19(idx)) != Color::Empty {
                let group = *state.group_index.get(idx).unwrap();
                assert!(state.liberties.get(group).unwrap().len() > 0, "no liberty at {} after {}", idx, mv);
            }
        }
    }
}

#[test]
fn scores_share_the_board() {
    let mut state = State19::new();
    for mv in ["d4", "q16", "d16", "q4", "k10", "c3"].iter() {
        state.play_str(mv).unwrap();
        let sc = state.score();
        assert!(sc.black + sc.white <= 361);
    }
    let sc = state.score();
    assert_eq!((sc.black, sc.white), (3, 3));
}

#[test]
fn the_komi_is_kept_with_the_game() {
    assert_eq!(State19::new().komi(), "7.5");
    let trees = seraphim::sgf::parse_Collection("(;KM[6.5];B[aa])").unwrap();
    let state = State19::init_from_sgf(&trees[0]);
    assert_eq!(state.komi(), "6.5");
    let trees = seraphim::sgf::parse_Collection("(;B[aa])").unwrap();
    assert_eq!(State19::init_from_sgf(&trees[0]).komi(), "0.0");
}
