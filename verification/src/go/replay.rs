//! Replaying a game record: read the SGF text, set up the game that its first
//! tree describes, and play the turns of its main line in order, stopping at the
//! first turn that the rules refuse because its point is taken or because it
//! would repeat a position.

use vstd::prelude::*;
use crate::go::{Color, Player, Turn, IllegalMoveError, move_on_board, turn_of_move};
use crate::go::state::{State19, GoState, turn_result, first_play_color};
use crate::sgf::{parse_Collection, parse_outcome, SgfError, SpecTree, Move, collection_result, lexed_tokens,
    trees_view, tree_view, main_line_of, main_line_readable, PointColor};

verus! {

/// Why a game record could not be replayed to its end.
#[derive(Debug)]
pub enum ReplayError {
    /// The text is no SGF collection.
    Parse(SgfError),
    /// The collection holds no game.
    NoGame,
    /// A node of the main line holds a move value that cannot be read.
    Unreadable,
    /// A move of the main line names a point off the 19x19 board.
    OffBoard,
    /// The main line has more turns than a game can count.
    TooLong,
    /// The turn with this index on the main line was refused.
    Illegal(usize, IllegalMoveError),
}

/// The game that `State19::init_from_sgf` sets up for a record.
pub open spec fn fresh_for(s: GoState, tree: SpecTree) -> bool {
    &&& s.wf()
    &&& s.consistent()
    &&& s.board == Seq::new(361, |i: int| Color::Empty)
    &&& s.record == Seq::<Turn>::empty()
    &&& s.seen == seq![crate::go::state::position_key(Seq::new(361, |i: int| Color::Empty))]
    &&& s.final_score is None
    &&& s.komi == tree.komi
    &&& s.next_player == (if first_play_color(main_line_of(tree)) == Some(PointColor::White) {
        Player::White
    } else {
        Player::Black
    })
}

/// What one call of `State19::play` does to a well-formed game: a finished game
/// refuses the turn unchanged, any other game takes the turn as the rules say.
pub open spec fn play_step(s: GoState, t: Turn, r: Result<(), IllegalMoveError>, s2: GoState) -> bool {
    &&& s2.consistent()
    &&& if s.final_score is Some {
        r == Err::<(), IllegalMoveError>(IllegalMoveError::GameOver) && s2 == s
    } else {
        turn_result(s, t, r, s2)
    }
}

/// A refusal that ends a replay: the point is taken, or the position repeats.
pub open spec fn stops_replay(r: Result<(), IllegalMoveError>) -> bool {
    ||| r matches Err(IllegalMoveError::Occupied(_))
    ||| r == Err::<(), IllegalMoveError>(IllegalMoveError::PositionalSuperko)
}

/// `trace` holds the games and `results` the outcomes of playing the first
/// `results.len()` turns one after another from a game set up for `tree`, none
/// of them but perhaps the last one ending the replay.
pub open spec fn replayed(tree: SpecTree, turns: Seq<Turn>, trace: Seq<GoState>,
    results: Seq<Result<(), IllegalMoveError>>) -> bool
{
    &&& results.len() <= turns.len()
    &&& trace.len() == results.len() + 1
    &&& fresh_for(trace[0], tree)
    &&& forall|i: int| 0 <= i < results.len() ==> #[trigger] play_step(trace[i], turns[i], results[i], trace[i + 1])
    &&& forall|i: int| 0 <= i < results.len() - 1 ==> !stops_replay(#[trigger] results[i])
}

/// The turns of the main line of a record.
pub open spec fn main_line_turns(tree: SpecTree) -> Seq<Turn> {
    main_line_of(tree).map_values(|m: Move| turn_of_move(m))
}

/// Every move of the main line is a pass or names a point of the board.
pub open spec fn main_line_on_board(tree: SpecTree) -> bool {
    forall|i: int| 0 <= i < main_line_of(tree).len() ==> move_on_board(#[trigger] main_line_of(tree)[i])
}

/// The outcome of replaying the record `text`.
pub open spec fn replay_outcome(text: Seq<char>, r: Result<State19, ReplayError>) -> bool {
    match collection_result(lexed_tokens(text)) {
        Err(_) => r matches Err(ReplayError::Parse(e)) && parse_outcome(text, Err(e)),
        Ok(trees) => if trees.len() == 0 {
            r matches Err(ReplayError::NoGame)
        } else if !main_line_readable(trees[0]) {
            r matches Err(ReplayError::Unreadable)
        } else if !main_line_on_board(trees[0]) {
            r matches Err(ReplayError::OffBoard)
        } else if main_line_of(trees[0]).len() + 1 >= usize::MAX {
            r matches Err(ReplayError::TooLong)
        } else {
            let turns = main_line_turns(trees[0]);
            match r {
                Ok(s) => exists|trace: Seq<GoState>, results: Seq<Result<(), IllegalMoveError>>|
                    #[trigger] replayed(trees[0], turns, trace, results)
                    && results.len() == turns.len()
                    && (results.len() > 0 ==> !stops_replay(results.last()))
                    && s@ == trace.last(),
                Err(ReplayError::Illegal(k, e)) => exists|trace: Seq<GoState>, results: Seq<Result<(), IllegalMoveError>>|
                    #[trigger] replayed(trees[0], turns, trace, results)
                    && results.len() == k + 1
                    && results.last() == Err::<(), IllegalMoveError>(e)
                    && stops_replay(results.last()),
                _ => false,
            }
        },
    }
}

/// Reads the record and plays the main line of its first game: the game as it
/// stands after the last turn, or why the replay stopped.  Turns that come after
/// the end of the game are refused and skipped, as `play` refuses them.
pub fn replay(text: &str) -> (r: Result<State19, ReplayError>)
    ensures
        replay_outcome(text@, r),
{
    let trees = match parse_Collection(text) {
        Ok(t) => t,
        Err(e) => {
            return Err(ReplayError::Parse(e));
        }
    };
    let ghost sts = trees_view(trees@);
    assert(collection_result(lexed_tokens(text@)) == Ok::<Seq<SpecTree>, crate::sgf::SpecFail>(sts));
    if trees.len() == 0 {
        return Err(ReplayError::NoGame);
    }
    let tree = &trees[0];
    let ghost t = tree_view(*tree);
    assert(sts[0] == t);
    if !tree.main_line_is_readable() {
        return Err(ReplayError::Unreadable);
    }
    let moves = tree.main_line();
    let mut j: usize = 0;
    while j < moves.len()
        invariant
            collection_result(lexed_tokens(text@)) == Ok::<Seq<SpecTree>, crate::sgf::SpecFail>(sts),
            sts.len() > 0,
            sts[0] == t,
            main_line_readable(t),
            j <= moves@.len(),
            moves@ == main_line_of(t),
            forall|k: int| 0 <= k < j ==> move_on_board(#[trigger] main_line_of(t)[k]),
        decreases moves@.len() - j,
    {
        let fits = match moves[j] {
            Move::Pass => true,
            Move::Of(st) => 'a' <= st.point.0 && st.point.0 <= 's' && 'a' <= st.point.1 && st.point.1 <= 's',
            Move::Add(st) => 'a' <= st.point.0 && st.point.0 <= 's' && 'a' <= st.point.1 && st.point.1 <= 's',
        };
        if !fits {
            assert(!move_on_board(main_line_of(t)[j as int]));
            return Err(ReplayError::OffBoard);
        }
        j = j + 1;
    }
    if moves.len() >= usize::MAX - 1 {
        return Err(ReplayError::TooLong);
    }
    let ghost turns = main_line_turns(t);
    let mut game = State19::init_from_sgf(tree);
    let ghost mut trace: Seq<GoState> = seq![game@];
    let ghost mut results: Seq<Result<(), IllegalMoveError>> = Seq::empty();
    let mut i: usize = 0;
    while i < moves.len()
        invariant
            collection_result(lexed_tokens(text@)) == Ok::<Seq<SpecTree>, crate::sgf::SpecFail>(sts),
            sts.len() > 0,
            sts[0] == t,
            main_line_readable(t),
            i <= moves@.len(),
            moves@.len() + 1 < usize::MAX,
            moves@ == main_line_of(t),
            turns == main_line_turns(t),
            main_line_on_board(t),
            results.len() == i,
            replayed(t, turns, trace, results),
            i > 0 ==> !stops_replay(results.last()),
            game@ == trace.last(),
            game@.consistent(),
            game@.record.len() <= i,
        decreases moves@.len() - i,
    {
        assert(move_on_board(main_line_of(t)[i as int]));
        let turn = Turn::from_sgf(moves[i]);
        assert(turn == turns[i as int]);
        let ghost before = game@;
        let res = game.play(turn);
        proof {
            trace = trace.push(game@);
            results = results.push(res);
            assert(play_step(trace[i as int], turns[i as int], results[i as int], trace[i + 1]));
            assert forall|k: int| 0 <= k < results.len() implies #[trigger] play_step(trace[k], turns[k], results[k], trace[k + 1]) by {
                if k < i {
                    assert(trace[k] == trace.drop_last()[k]);
                }
            }
        }
        match res {
            Err(IllegalMoveError::Occupied(c)) => {
                assert(replayed(t, turns, trace, results));
                assert(results.last() == Err::<(), IllegalMoveError>(IllegalMoveError::Occupied(c)));
                assert(replayed(t, turns, trace, results) && results.len() == i + 1
                    && results.last() == Err::<(), IllegalMoveError>(IllegalMoveError::Occupied(c))
                    && stops_replay(results.last()));
                return Err(ReplayError::Illegal(i, IllegalMoveError::Occupied(c)));
            }
            Err(IllegalMoveError::PositionalSuperko) => {
                assert(replayed(t, turns, trace, results));
                assert(results.last() == Err::<(), IllegalMoveError>(IllegalMoveError::PositionalSuperko));
                assert(replayed(t, turns, trace, results) && results.len() == i + 1
                    && results.last() == Err::<(), IllegalMoveError>(IllegalMoveError::PositionalSuperko)
                    && stops_replay(results.last()));
                return Err(ReplayError::Illegal(i, IllegalMoveError::PositionalSuperko));
            }
            _ => {}
        }
        i = i + 1;
    }
    assert(replayed(t, turns, trace, results));
    Ok(game)
}

} // verus!
