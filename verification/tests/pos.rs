use seraphim::go::pos::{Pos, Pos19};

fn neighbors_exactly(pos: Pos19, expected: Vec<Pos19>) {
    assert_eq!(pos.neighbors().into_iter().len(), expected.len());
    for e in &expected {
        assert!(pos.neighbors().into_iter().find(|a| a == e).is_some(), "{:?} not found in {:?}", e, pos.neighbors());
    }
}

fn pos_neighbors_exactly(pos: Pos, expected: Vec<Pos>) {
    assert_eq!(pos.neighbors().into_iter().len(), expected.len());
    for e in &expected {
        assert!(pos.neighbors().into_iter().find(|a| a == e).is_some(), "{:?} not found in {:?}", e, pos.neighbors());
    }
}

#[test]
fn pos_display() {
    let a2 = Pos19::from_coords(0, 1).to_string();
    assert_eq!(a2, "a 2");
    let b2 = Pos19::from_coords(1, 1).to_string();
    assert_eq!(b2, "b 2");
    let m14 = Pos19::from_coords(12, 13).to_string();
    assert_eq!(m14, "m 14");
    let a3 = Pos19::from_coords(0, 0).to_string();
    assert_eq!(a3, "a 1");
    let a4 = Pos19::from_coords(18, 18).to_string();
    assert_eq!(a4, "s 19");
    let a5 = Pos19::from_coords(18, 0).to_string();
    assert_eq!(a5, "s 1");

    let actual = Pos(13, 12).to_string();
    assert_eq!(actual, "m 14");
    let a2 = Pos(1, 1).to_string();
    assert_eq!(a2, "b 2");
    let a3 = Pos(0, 0).to_string();
    assert_eq!(a3, "a 1");
    let a4 = Pos(18, 18).to_string();
    assert_eq!(a4, "s 19");
    let a5 = Pos(0, 18).to_string();
    assert_eq!(a5, "s 1");
}

#[test]
fn display_roundtrips() {
    let expected = Pos19::from_coords(12, 13);
    let format = expected.to_string();
    let parse = Pos19::parse(&format);
    assert_eq!(parse, expected);

    let expected = Pos(13, 12);
    let format = expected.to_string();
    let parse = Pos::parse(&format);
    assert_eq!(parse, expected);
}

#[test]
fn a_parse() {
    let actual = Pos19::parse("e 9");
    assert_eq!(actual, Pos19::from_coords(4, 8));
    let actual = Pos::parse("e 9");
    assert_eq!(actual, Pos(8, 4));
}

#[test]
fn a1_neighbors() {
    let bl = Pos19::parse("a 1");
    let bl_expected = vec![Pos19::parse("a 2"), Pos19::parse("b 1")];
    neighbors_exactly(bl, bl_expected);
    let bl = Pos::parse("a 1");
    let bl_expected = vec![Pos::parse("a 2"), Pos::parse("b 1")];
    pos_neighbors_exactly(bl, bl_expected);
}

#[test]
fn a19_neighbors() {
    let tl = Pos19::parse("a 19");
    let tl_expected = vec![Pos19::parse("b 19"), Pos19::parse("a 18")];
    neighbors_exactly(tl, tl_expected);
    let tl = Pos::parse("a 19");
    let tl_expected = vec![Pos::parse("b 19"), Pos::parse("a 18")];
    pos_neighbors_exactly(tl, tl_expected);
}

#[test]
fn s1_neighbors() {
    let br = Pos19::parse("s 1");
    let br_expected = vec![Pos19::parse("s 2"), Pos19::parse("r 1")];
    neighbors_exactly(br, br_expected);
    let br = Pos::parse("s 1");
    let br_expected = vec![Pos::parse("s 2"), Pos::parse("r 1")];
    pos_neighbors_exactly(br, br_expected);
}

#[test]
fn s19_neighbors() {
    let tr = Pos19::parse("s 19");
    let tr_expected = vec![Pos19::parse("r 19"), Pos19::parse("s 18")];
    neighbors_exactly(tr, tr_expected);
    let tr = Pos::parse("s 19");
    let tr_expected = vec![Pos::parse("r 19"), Pos::parse("s 18")];
    pos_neighbors_exactly(tr, tr_expected);
}

#[test]
fn f15_neighbors() {
    let mid = Pos19::parse("f 15");
    let mid_expected = vec![Pos19::parse("e 15"), Pos19::parse("g 15"), Pos19::parse("f 14"), Pos19::parse("f 16")];
    neighbors_exactly(mid, mid_expected);
    let mid = Pos::parse("f 15");
    let mid_expected = vec![Pos::parse("e 15"), Pos::parse("g 15"), Pos::parse("f 14"), Pos::parse("f 16")];
    pos_neighbors_exactly(mid, mid_expected);
}

#[test]
fn parse_finds_the_point_in_text() {
    assert_eq!(Pos19::try_parse("play at q16 please"), Some(Pos19::from_coords(16, 15)));
    assert_eq!(Pos19::try_parse("z9"), None);
    assert_eq!(Pos19::try_parse("a 0"), None);
    assert_eq!(Pos19::from_sgf_coords('p', 'd'), Pos19::from_coords(15, 3));
    assert_eq!(Pos19::from_coords(15, 3).to_coords(), (15, 3));
    assert_eq!(Pos19::from_coords(4, 8).pretty(), "e 9");
}

#[test]
fn rows_above_the_board_show_their_number() {
    assert_eq!(Pos(-1, 0).to_string(), "a 0");
    assert_eq!(Pos(-5, 2).to_string(), "c -4");
    assert_eq!(Pos(-128, 18).to_string(), "s -127");
}
