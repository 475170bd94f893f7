//! Properties of the Tromp-Taylor rules as the board and the game state carry
//! them out: a play leaves no chain without a liberty, the two areas share the
//! board, and two passes in a row end the game with the board's score.

use vstd::prelude::*;
use crate::go::{Color, Turn, IllegalMoveError, player_color};
use crate::go::replay::play_step;
use crate::go::board::{on_board, adjacent, chain, connected, liberties, closed, cleared, touches,
    lemma_connected_refl, lemma_connected_step, lemma_connected_sym, lemma_connected_trans,
    lemma_chain_same, lemma_chain_closed, lemma_chain_away, lemma_connected_keep,
    lemma_chain_after_clear, lemma_chain_after_clear_set, lemma_liberties_after_clear};
use crate::go::state::{GoState, Score, captured, after_captures, play_board, area, counts_for,
    territory_of, borders, score_of, turn_result, ends_with_pass, turn_fits};

verus! {

/// The chain of the stone at `p` has at least one liberty.
pub open spec fn has_liberty(b: Seq<Color>, p: int) -> bool {
    liberties(b, chain(b, p)) != Set::<int>::empty()
}

/// Every stone on the board belongs to a chain with a liberty.
pub open spec fn all_alive(b: Seq<Color>) -> bool {
    forall|p: int| on_board(p) && b[p] != Color::Empty ==> #[trigger] has_liberty(b, p)
}

/// A stone that is not connected to the new stone and is not captured keeps a
/// liberty once the new stone stands.
proof fn lemma_alive_after_placing(b0: Seq<Color>, pos: int, c: Color, p: int)
    requires
        all_alive(b0),
        b0.len() == 361,
        on_board(pos),
        b0[pos] == Color::Empty,
        c != Color::Empty,
        on_board(p),
        b0.update(pos, c)[p] != Color::Empty,
        !connected(b0.update(pos, c), p, pos),
        !captured(b0.update(pos, c), pos, p),
    ensures
        has_liberty(b0.update(pos, c), p),
{
    let b1 = b0.update(pos, c);
    lemma_connected_refl(b1, pos);
    assert(p != pos);
    lemma_chain_away(b0, pos, c, p);
    let ch = chain(b0, p);
    assert(has_liberty(b0, p));
    let x = choose|x: int| liberties(b0, ch).contains(x);
    if !(exists|x: int| liberties(b0, ch).contains(x)) {
        assert(liberties(b0, ch) =~= Set::<int>::empty());
    }
    if x != pos {
        assert(liberties(b1, chain(b1, p)).contains(x));
    } else {
        assert(touches(ch, pos));
        if b1[p] == c {
            let m = choose|m: int| #![trigger ch.contains(m), adjacent(m, pos)] ch.contains(m) && adjacent(m, pos);
            assert(chain(b1, p).contains(m));
            assert(connected(b1, p, m));
            lemma_connected_step(b1, p, m, pos);
        } else {
            assert(b1[p] != b1[pos]);
            assert(touches(chain(b1, p), pos));
        }
    }
}

/// The captured stones form whole chains.
proof fn lemma_captured_closed(b1: Seq<Color>, pos: int)
    requires
        b1.len() == 361,
    ensures
        closed(b1, Set::new(|x: int| captured(b1, pos, x))),
{
    let k = Set::new(|x: int| captured(b1, pos, x));
    assert forall|x: int, y: int| #![trigger k.contains(x), adjacent(x, y)]
        k.contains(x) && adjacent(x, y) && b1[y] == b1[x] implies k.contains(y) by {
        lemma_connected_refl(b1, x);
        lemma_connected_step(b1, x, x, y);
        lemma_chain_same(b1, x, y);
    }
}

/// After the captures, a stone that is not connected to the new stone has a
/// liberty.
proof fn lemma_alive_after_captures(b0: Seq<Color>, pos: int, c: Color, p: int)
    requires
        all_alive(b0),
        b0.len() == 361,
        on_board(pos),
        b0[pos] == Color::Empty,
        c != Color::Empty,
        on_board(p),
        after_captures(b0.update(pos, c), pos)[p] != Color::Empty,
        !connected(after_captures(b0.update(pos, c), pos), pos, p),
    ensures
        has_liberty(after_captures(b0.update(pos, c), pos), p),
{
    let b1 = b0.update(pos, c);
    let b2 = after_captures(b1, pos);
    let k = Set::new(|x: int| captured(b1, pos, x));
    assert(b2 =~= cleared(b1, k));
    lemma_captured_closed(b1, pos);
    assert(!captured(b1, pos, p));
    if connected(b1, p, pos) {
        lemma_connected_sym(b1, p, pos);
        assert forall|x: int| on_board(x) && b1[x] == b1[p] implies b2[x] == b1[x] by {
        }
        lemma_connected_keep(b1, b2, p, pos);
        lemma_connected_sym(b2, p, pos);
    }
    lemma_alive_after_placing(b0, pos, c, p);
    lemma_chain_after_clear_set(b1, k, p);
    lemma_liberties_after_clear(b1, k, chain(b1, p));
    let l1 = liberties(b1, chain(b1, p));
    if !(exists|x: int| l1.contains(x)) {
        assert(l1 =~= Set::<int>::empty());
    }
    let x = choose|x: int| l1.contains(x);
    assert(liberties(b2, chain(b2, p)).contains(x));
}

/// A play never leaves a chain without a liberty: when every chain of the board
/// has a liberty and a stone is played on an empty point, every chain of the
/// board that results still has one.
pub proof fn law_play_keeps_chains_alive(b0: Seq<Color>, pos: int, c: Color)
    requires
        b0.len() == 361,
        all_alive(b0),
        on_board(pos),
        b0[pos] == Color::Empty,
        c != Color::Empty,
    ensures
        all_alive(play_board(b0, pos, c)),
{
    let b1 = b0.update(pos, c);
    let b2 = after_captures(b1, pos);
    let own = chain(b2, pos);
    let b3 = play_board(b0, pos, c);
    assert(b2.len() == 361);
    assert(!captured(b1, pos, pos));
    assert(b2[pos] == c);
    assert forall|p: int| on_board(p) && b3[p] != Color::Empty implies #[trigger] has_liberty(b3, p) by {
        if liberties(b2, own) == Set::<int>::empty() {
            assert(b3 == cleared(b2, own));
            assert(!own.contains(p));
            assert(!connected(b2, pos, p));
            assert(b2[p] != Color::Empty);
            lemma_alive_after_captures(b0, pos, c, p);
            lemma_chain_after_clear(b2, pos, p);
            assert forall|x: int| chain(b2, p).contains(x) implies !own.contains(x) by {
                if own.contains(x) {
                    lemma_connected_sym(b2, p, x);
                    lemma_connected_trans(b2, pos, x, p);
                }
            }
            assert forall|x: int| own.contains(x) implies on_board(x) by {
                lemma_connected_sym(b2, pos, x);
            }
            lemma_liberties_after_clear(b2, own, chain(b2, p));
            let l2 = liberties(b2, chain(b2, p));
            if !(exists|x: int| l2.contains(x)) {
                assert(l2 =~= Set::<int>::empty());
            }
            let x = choose|x: int| l2.contains(x);
            assert(liberties(b3, chain(b3, p)).contains(x));
        } else {
            assert(b3 == b2);
            if connected(b2, pos, p) {
                lemma_chain_same(b2, pos, p);
            } else {
                lemma_alive_after_captures(b0, pos, c, p);
            }
        }
    }
}

/// Turns keep every chain alive: from a position whose groups are on record and
/// whose chains all have a liberty, a pass or a play, accepted or refused, leads
/// to a position whose chains all have a liberty.  (Set-up stones are placed as
/// they are given and are left out.)
pub proof fn law_turn_keeps_chains_alive(s: GoState, turn: Turn, r: Result<(), IllegalMoveError>, s2: GoState)
    requires
        s.consistent(),
        all_alive(s.board),
        turn_fits(turn),
        !(turn is Add),
        turn_result(s, turn, r, s2),
    ensures
        all_alive(s2.board),
{
    if let Turn::Of(p) = turn {
        let c = player_color(s.next_player);
        if r is Ok {
            law_play_keeps_chains_alive(s.board, p.0 as int, c);
        }
    }
}

/// The group tables follow the board: from a position whose groups and
/// liberties are on record as its chains and their liberties, every turn, taken
/// or refused, leads to a position whose tables again hold exactly its chains
/// and their liberties.
pub proof fn law_turns_keep_groups_on_record(s: GoState, turn: Turn, r: Result<(), IllegalMoveError>, s2: GoState)
    requires
        s.consistent(),
        turn_fits(turn),
        turn_result(s, turn, r, s2),
    ensures
        s2.consistent(),
{
}

/// Every game keeps its groups on record: along any sequence of turns taken by
/// `State19::play` from a position whose tables hold its chains (a new game or
/// one set up from a record), every position reached has tables that hold
/// exactly its chains and their liberties.
pub proof fn law_games_keep_groups_on_record(trace: Seq<GoState>, turns: Seq<Turn>,
    results: Seq<Result<(), IllegalMoveError>>)
    requires
        trace.len() == turns.len() + 1,
        results.len() == turns.len(),
        trace[0].consistent(),
        forall|i: int| 0 <= i < turns.len() ==> #[trigger] play_step(trace[i], turns[i], results[i], trace[i + 1]),
    ensures
        forall|i: int| 0 <= i < trace.len() ==> #[trigger] trace[i].consistent(),
{
    assert forall|i: int| 0 <= i < trace.len() implies #[trigger] trace[i].consistent() by {
        if i > 0 {
            let j = i - 1;
            assert(play_step(trace[j], turns[j], results[j], trace[j + 1]));
            assert(trace[j + 1] == trace[i]);
        }
    }
}

/// No point counts for both players: the areas of Black and White together are
/// at most the number of points counted.
proof fn lemma_areas_share(b: Seq<Color>, n: nat)
    ensures
        area(b, Color::Black, n) + area(b, Color::White, n) <= n,
    decreases n,
{
    if n > 0 {
        lemma_areas_share(b, (n - 1) as nat);
        let x = n - 1;
        if counts_for(b, x, Color::Black) && counts_for(b, x, Color::White) {
            assert(territory_of(b, x, Color::Black));
            assert(territory_of(b, x, Color::White));
            assert(borders(b, chain(b, x), Color::White));
        }
    }
}

/// The two scores share the board: Black's area and White's area together are
/// at most its 361 points.
pub proof fn law_scores_fit(b: Seq<Color>)
    ensures
        score_of(b).black + score_of(b).white <= 361,
{
    lemma_areas_share(b, 361);
}

/// Two passes in a row end the game: when a pass that leaves the game going is
/// answered by a pass, the game is over with the score of the unchanged board.
pub proof fn law_two_passes_end_the_game(
    s0: GoState,
    r1: Result<(), IllegalMoveError>,
    s1: GoState,
    r2: Result<(), IllegalMoveError>,
    s2: GoState,
)
    requires
        turn_result(s0, Turn::Pass, r1, s1),
        turn_result(s1, Turn::Pass, r2, s2),
    ensures
        r1 is Ok && r2 is Ok,
        s2.board == s0.board,
        s2.final_score == Some(score_of(s0.board)),
{
    assert(ends_with_pass(s1.record));
    lemma_areas_share(s0.board, 361);
}

} // verus!
