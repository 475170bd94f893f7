use seraphim::go::pos::Pos19;
use seraphim::go::{Color, State19, Turn, Player};
use seraphim::sgf::{parse_Collection, Move, Point, PointColor, SgfError, Stone};
use seraphim::sgf_lex::{Token, __Matcher};

#[test]
fn it_works() {
    assert_eq!(2 + 2, 4);
}

#[test]
fn reads_a_small_game() {
    let text = "(;GM[1]SZ[19]KM[6.5]HA[0];B[pd];W[dp];B[tt])";
    let trees = parse_Collection(text).unwrap();
    assert_eq!(trees.len(), 1);
    let t = &trees[0];
    assert_eq!(t.size, 19);
    assert_eq!(t.komi, "6.5");
    assert_eq!(t.handicap, 0);
    assert_eq!(t.sequence.len(), 4);
    assert_eq!(t.sequence[0].properties.get("SZ"), Some(&String::from("19")));
    let moves = t.main_line();
    assert_eq!(
        moves,
        vec![
            Move::Of(Stone { color: PointColor::Black, point: Point('p', 'd') }),
            Move::Of(Stone { color: PointColor::White, point: Point('d', 'p') }),
            Move::Pass,
        ]
    );
}

#[test]
fn defaults_and_variations() {
    let text = "(;AB[dd];W[pp](;B[qq])(;B[cc]))";
    let trees = parse_Collection(text).unwrap();
    let t = &trees[0];
    assert_eq!(t.size, 19);
    assert_eq!(t.komi, "0.0");
    assert_eq!(t.handicap, 0);
    assert_eq!(t.children.len(), 2);
    let moves = t.main_line();
    assert_eq!(
        moves,
        vec![
            Move::Add(Stone { color: PointColor::Black, point: Point('d', 'd') }),
            Move::Of(Stone { color: PointColor::White, point: Point('p', 'p') }),
            Move::Of(Stone { color: PointColor::Black, point: Point('q', 'q') }),
        ]
    );
}

#[test]
fn handicap_from_a_later_node() {
    let trees = parse_Collection("(;SZ[9];HA[2])").unwrap();
    assert_eq!(trees[0].size, 9);
    assert_eq!(trees[0].handicap, 2);
}

#[test]
fn unrecognised_character_is_an_invalid_token() {
    assert_eq!(parse_Collection("(;x)").err(), Some(SgfError::InvalidToken { location: 2 }));
}

#[test]
fn a_token_out_of_place() {
    assert_eq!(
        parse_Collection(")").err(),
        Some(SgfError::UnrecognizedToken { token: Some((0, Token(3, String::from(")")), 1)) })
    );
}

#[test]
fn text_that_ends_early() {
    assert_eq!(parse_Collection("(;B[aa]").err(), Some(SgfError::UnrecognizedToken { token: None }));
}

#[test]
fn size_that_is_not_a_number() {
    assert_eq!(parse_Collection("(;SZ[big])").err(), Some(SgfError::InvalidNumber { value: String::from("big") }));
}

#[test]
fn empty_text_has_no_trees() {
    assert_eq!(parse_Collection("  ").unwrap().len(), 0);
}

#[test]
fn lexer_gives_byte_offsets() {
    let mut m = __Matcher::new("( ;KM[é]");
    assert_eq!(m.next(), Some(Ok((0, Token(2, String::from("(")), 1))));
    assert_eq!(m.next(), Some(Ok((2, Token(1, String::from(";")), 3))));
    assert_eq!(m.next(), Some(Ok((3, Token(0, String::from("KM[é]")), 9))));
    assert_eq!(m.next(), None);
}

#[test]
fn turns_from_a_record() {
    let trees = parse_Collection("(;AB[dd];W[pp];B[])").unwrap();
    let moves = trees[0].main_line();
    let turns: Vec<Turn> = moves.into_iter().map(Turn::from_sgf).collect();
    assert_eq!(
        turns,
        vec![
            Turn::Add(Color::Black, Pos19::from_coords(3, 3)),
            Turn::Of(Pos19::from_coords(15, 15)),
            Turn::Pass,
        ]
    );
    let state = State19::init_from_sgf(&trees[0]);
    // White makes the first play of this record, so White moves first.
    let mut s = state;
    s.play(Turn::Of(Pos19::from_coords(15, 15))).unwrap();
    assert_eq!(s.get(&Pos19::from_coords(15, 15)), Color::White);
    let _ = Player::White;
}

#[test]
fn a_property_may_carry_several_values() {
    let trees = parse_Collection("(;AB[dd][pp])").unwrap();
    assert_eq!(trees.len(), 1);
    assert_eq!(trees[0].sequence.len(), 1);
    assert_eq!(trees[0].sequence[0].properties.get("AB"), Some(&String::from("pp")));
    let trees = parse_Collection("(;AW[aa] [bb]\n[cc]C[x[y];B[dd])").unwrap();
    let props = &trees[0].sequence[0].properties;
    assert_eq!(props.get("AW"), Some(&String::from("cc")));
    assert_eq!(props.get("C"), Some(&String::from("x[y")));
    assert_eq!(trees[0].sequence.len(), 2);
}

#[test]
fn komi_must_be_a_number() {
    assert_eq!(
        parse_Collection("(;KM[abc])").err(),
        Some(SgfError::InvalidNumber { value: String::from("abc") })
    );
    assert_eq!(parse_Collection("(;KM[-0.5])").unwrap()[0].komi, "-0.5");
    assert_eq!(parse_Collection("(;KM[7])").unwrap()[0].komi, "7");
    assert_eq!(parse_Collection("(;KM[.5])").unwrap()[0].komi, ".5");
    assert_eq!(parse_Collection("(;KM[1e1])").unwrap()[0].komi, "1e1");
    assert!(parse_Collection("(;KM[])").is_err());
    assert!(parse_Collection("(;KM[6.5x])").is_err());
    assert!(parse_Collection("(;KM[.])").is_err());
}

#[test]
fn komi_is_read_as_a_float_reader_reads_it() {
    assert_eq!(parse_Collection("(;KM[inf])").unwrap()[0].komi, "inf");
    assert_eq!(parse_Collection("(;KM[-Infinity])").unwrap()[0].komi, "-Infinity");
    assert_eq!(parse_Collection("(;KM[NaN])").unwrap()[0].komi, "NaN");
    for text in [
        "inf", "+INF", "-inf", "infinity", "InFiNiTy", "nan", "-nan", "in", "infinit", "nana", "+", "-",
        "5.", ".5", "-.5e-3", "1E+2", "1e", "e1", "1.2.3", "0x10", " 1", "1 ",
    ] {
        let sgf = format!("(;KM[{}])", text);
        assert_eq!(
            parse_Collection(&sgf).is_ok(),
            text.parse::<f64>().is_ok(),
            "komi {:?}",
            text
        );
    }
}
