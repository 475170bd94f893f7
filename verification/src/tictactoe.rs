//! Tic Tac Toe: the example game that the engine learns to play.
//!
//! Cells are numbered 0..9 row by row.  `board[0]` holds the cells marked by the
//! first player (`x`) and `board[1]` those marked by the second player (`o`).

use vstd::prelude::*;
use crate::game::{Game, GameState, GameStatus};
use crate::text::{char_is_whitespace, is_white_space, push_char, str_chars};

verus! {

/// Why a mark could not be placed.
#[derive(Clone, Debug, PartialEq, Copy, Eq, Structural)]
pub enum MoveError {
    Occupied,
}

/// Why a textual board could not be read.
#[derive(Clone, Debug, PartialEq, Eq)]
pub enum ParseError {
    /// A mark other than `x`, `o` or `_` among the first nine marks.
    UnrecognizedCharacter(char),
    /// The text held fewer than nine marks; the payload is how many it held.
    TooFewMarks(usize),
}

/// The cells of the `k`-th line: three rows, three columns, two diagonals.
pub open spec fn line(k: int) -> (int, int, int) {
    if k == 0 { (0, 1, 2) }
    else if k == 1 { (3, 4, 5) }
    else if k == 2 { (6, 7, 8) }
    else if k == 3 { (0, 3, 6) }
    else if k == 4 { (1, 4, 7) }
    else if k == 5 { (2, 5, 8) }
    else if k == 6 { (0, 4, 8) }
    else { (2, 4, 6) }
}

/// Every cell of line `k` is marked in `cells`.
pub open spec fn owns_line(cells: [bool; 9], k: int) -> bool {
    let (a, b, c) = line(k);
    cells[a] && cells[b] && cells[c]
}

/// Line `k` passes through cell `idx`.
pub open spec fn line_contains(k: int, idx: int) -> bool {
    let (a, b, c) = line(k);
    idx == a || idx == b || idx == c
}

/// The marks in `cells` complete a line that passes through `idx`.
pub open spec fn wins_through(cells: [bool; 9], idx: int) -> bool {
    exists|k: int| 0 <= k < 8 && line_contains(k, idx) && #[trigger] owns_line(cells, k)
}

/// The marks in `cells` complete some line.
pub open spec fn has_line(cells: [bool; 9]) -> bool {
    exists|k: int| 0 <= k < 8 && #[trigger] owns_line(cells, k)
}

/// A complete tic tac toe position.
#[derive(Clone, Debug, PartialEq, Eq, Copy, Hash)]
pub struct State {
    pub board: [[bool; 9]; 2],
    pub next_player: u8,
    pub status: GameStatus,
    pub plys: usize,
}

/// Cell `idx` holds a mark of either player.
pub open spec fn occupied(s: State, idx: int) -> bool {
    s.board[0][idx] || s.board[1][idx]
}

/// `after` is `before` with one more mark of `player` at `idx` and nothing else changed.
pub open spec fn board_with_mark(before: [[bool; 9]; 2], after: [[bool; 9]; 2], player: int, idx: int) -> bool {
    forall|q: int, j: int| 0 <= q < 2 && 0 <= j < 9 ==>
        #[trigger] after[q][j] == if q == player && j == idx { true } else { before[q][j] }
}

/// What placing a mark of `player` at the empty cell `idx` does to the status and the ply count.
pub open spec fn mark_outcome(before: State, after: State, player: int, idx: int) -> bool {
    &&& board_with_mark(before.board, after.board, player, idx)
    &&& if wins_through(after.board[player], idx) {
        after.status == GameStatus::LastPlayerWon && after.plys == before.plys
    } else {
        &&& after.plys == before.plys + 1
        &&& after.status == if after.plys == 9 { GameStatus::Draw } else { GameStatus::InProgress }
    }
}

/// A mark that completes a line through its cell ends the game as a win for
/// the player who made it, whatever the number of marks on the board, even
/// when it fills the last empty cell; the ply count then stays as it was.  A
/// mark that completes no line counts one more ply, and the game is drawn
/// exactly when that fills the board, and goes on otherwise.  The mark lands
/// in its cell and no other cell changes.
pub proof fn law_completing_a_line_wins(before: State, after: State, player: int, idx: int)
    requires
        mark_outcome(before, after, player, idx),
        0 <= player < 2,
        0 <= idx < 9,
    ensures
        after.board[player][idx],
        forall|q: int, j: int| 0 <= q < 2 && 0 <= j < 9 && (q != player || j != idx)
            ==> after.board[q][j] == before.board[q][j],
        wins_through(after.board[player], idx) ==> after.status == GameStatus::LastPlayerWon
            && after.plys == before.plys,
        !wins_through(after.board[player], idx) ==> after.plys == before.plys + 1
            && (after.status == GameStatus::Draw <==> before.plys + 1 == 9)
            && (after.status == GameStatus::InProgress <==> before.plys + 1 != 9),
{
    assert(after.board[player][idx] == true);
    assert forall|q: int, j: int| 0 <= q < 2 && 0 <= j < 9 && (q != player || j != idx)
        implies after.board[q][j] == before.board[q][j] by {
        assert(after.board[q][j] == if q == player && j == idx { true } else { before.board[q][j] });
    }
}

/// The characters of a textual board that count as marks: all but white space and `|`.
pub open spec fn marks(s: Seq<char>) -> Seq<char>
    decreases s.len(),
{
    if s.len() == 0 {
        Seq::empty()
    } else {
        let rest = marks(s.drop_last());
        if !is_white_space(s.last()) && s.last() != '|' { rest.push(s.last()) } else { rest }
    }
}

/// A mark that `from_str` understands.
pub open spec fn known_mark(c: char) -> bool {
    c == 'x' || c == 'o' || c == '_'
}

/// The first character of `m` that is not a known mark, if any.
pub open spec fn first_unknown(m: Seq<char>) -> Option<char>
    decreases m.len(),
{
    if m.len() == 0 {
        None
    } else if !known_mark(m[0]) {
        Some(m[0])
    } else {
        first_unknown(m.drop_first())
    }
}

/// How many of the marks are `x` or `o`.
pub open spec fn stone_count(m: Seq<char>) -> nat
    decreases m.len(),
{
    if m.len() == 0 {
        0
    } else {
        stone_count(m.drop_last()) + if m.last() == 'x' || m.last() == 'o' { 1nat } else { 0nat }
    }
}

/// The first nine marks of a textual board (or all of them if there are fewer).
pub open spec fn first_marks(s: Seq<char>) -> Seq<char> {
    let m = marks(s);
    if m.len() < 9 { m } else { m.take(9) }
}

/// The state that the nine marks `f` describe.
pub open spec fn describes(st: State, f: Seq<char>) -> bool {
    &&& forall|i: int| 0 <= i < 9 ==> #[trigger] st.board[0][i] == (f[i] == 'x')
    &&& forall|i: int| 0 <= i < 9 ==> #[trigger] st.board[1][i] == (f[i] == 'o')
    &&& st.plys == stone_count(f)
    &&& st.next_player as nat == stone_count(f) % 2
    &&& st.status == if has_line(st.board[0]) || has_line(st.board[1]) {
        GameStatus::LastPlayerWon
    } else if st.plys == 9 {
        GameStatus::Draw
    } else {
        GameStatus::InProgress
    }
}


/// Marking is compositional over concatenation.
proof fn lemma_marks_append(a: Seq<char>, b: Seq<char>)
    ensures
        marks(a + b) == marks(a) + marks(b),
    decreases b.len(),
{
    if b.len() == 0 {
        assert(a + b =~= a);
        assert(marks(b) =~= Seq::<char>::empty());
        assert(marks(a) + marks(b) =~= marks(a));
    } else {
        lemma_marks_append(a, b.drop_last());
        assert((a + b).drop_last() =~= a + b.drop_last());
        assert((a + b).last() == b.last());
        let mb = marks(b.drop_last());
        if !is_white_space(b.last()) && b.last() != '|' {
            assert(marks(a) + mb.push(b.last()) =~= (marks(a) + mb).push(b.last()));
        }
    }
}

/// The first unknown mark of a concatenation is that of the first part, if it has one.
proof fn lemma_first_unknown_append(a: Seq<char>, b: Seq<char>)
    ensures
        first_unknown(a + b) == if first_unknown(a) is Some { first_unknown(a) } else { first_unknown(b) },
    decreases a.len(),
{
    if a.len() == 0 {
        assert(a + b =~= b);
    } else {
        assert((a + b)[0] == a[0]);
        if known_mark(a[0]) {
            assert((a + b).drop_first() =~= a.drop_first() + b);
            lemma_first_unknown_append(a.drop_first(), b);
        }
    }
}

/// Marking one more cell completes a line exactly when a line was complete
/// before or the new cell completes a line through it.
proof fn lemma_has_line_after_mark(before: [bool; 9], after: [bool; 9], idx: int)
    requires
        0 <= idx < 9,
        after[idx],
        forall|j: int| 0 <= j < 9 && j != idx ==> #[trigger] after[j] == before[j],
    ensures
        has_line(after) == (has_line(before) || wins_through(after, idx)),
{
    if has_line(before) {
        let k = choose|k: int| 0 <= k < 8 && #[trigger] owns_line(before, k);
        assert(owns_line(after, k));
    }
    if wins_through(after, idx) {
        let k = choose|k: int| 0 <= k < 8 && line_contains(k, idx) && #[trigger] owns_line(after, k);
        assert(owns_line(after, k));
    }
    if has_line(after) && !wins_through(after, idx) {
        let k = choose|k: int| 0 <= k < 8 && #[trigger] owns_line(after, k);
        assert(!line_contains(k, idx));
        assert(owns_line(before, k));
    }
}

impl State {
    /// The empty board, first player to move.
    pub fn new() -> (s: Self)
        ensures
            forall|q: int, j: int| 0 <= q < 2 && 0 <= j < 9 ==> !(#[trigger] s.board[q][j]),
            s.next_player == 0,
            s.status == GameStatus::InProgress,
            s.plys == 0,
    {
        State { board: [[false; 9]; 2], next_player: 0, status: GameStatus::InProgress, plys: 0 }
    }

    /// The cells of `player` complete a line through `idx`.
    fn check_winner(&self, idx: usize, player: u8) -> (r: bool)
        requires
            idx < 9,
            player < 2,
        ensures
            r == wins_through(self.board[player as int], idx as int),
    {
        let cells = self.board[player as usize];
        let o = (idx / 3) * 3;
        let row = cells[o] && cells[o + 1] && cells[o + 2];
        let c = idx % 3;
        let col = cells[c] && cells[c + 3] && cells[c + 6];
        let diag = (idx == 0 || idx == 4 || idx == 8) && cells[0] && cells[4] && cells[8];
        let anti = (idx == 2 || idx == 4 || idx == 6) && cells[2] && cells[4] && cells[6];
        proof {
            let k_row = (idx / 3) as int;
            let k_col = 3 + (idx % 3) as int;
            assert(line_contains(k_row, idx as int));
            assert(line_contains(k_col, idx as int));
            if row { assert(owns_line(cells, k_row)); }
            if col { assert(owns_line(cells, k_col)); }
            if diag { assert(owns_line(cells, 6)); assert(line_contains(6, idx as int)); }
            if anti { assert(owns_line(cells, 7)); assert(line_contains(7, idx as int)); }
            if wins_through(cells, idx as int) {
                let k = choose|k: int| 0 <= k < 8 && line_contains(k, idx as int) && #[trigger] owns_line(cells, k);
                assert(row || col || diag || anti);
            }
        }
        row || col || diag || anti
    }

    /// Marks `idx` for `player` unless the cell is taken.
    fn place_unchecked(&mut self, idx: usize, player: u8) -> (r: Result<(), MoveError>)
        requires
            idx < 9,
            !occupied(*old(self), idx as int) ==> player < 2,
        ensures
            occupied(*old(self), idx as int) ==> r == Err::<(), MoveError>(MoveError::Occupied) && *final(self) == *old(self),
            !occupied(*old(self), idx as int) ==> {
                &&& r == Ok::<(), MoveError>(())
                &&& board_with_mark(old(self).board, final(self).board, player as int, idx as int)
                &&& final(self).next_player == old(self).next_player
                &&& final(self).status == old(self).status
                &&& final(self).plys == old(self).plys
            },
    {
        if self.board[0][idx] || self.board[1][idx] {
            return Err(MoveError::Occupied);
        }
        self.board[player as usize][idx] = true;
        Ok(())
    }

    /// Marks `idx` for `player` and records whether that ended the game.
    fn place_and_check_winner(&mut self, idx: usize, player: u8) -> (r: Result<(), MoveError>)
        requires
            idx < 9,
            !occupied(*old(self), idx as int) ==> player < 2 && old(self).plys < usize::MAX,
        ensures
            occupied(*old(self), idx as int) ==> r == Err::<(), MoveError>(MoveError::Occupied) && *final(self) == *old(self),
            !occupied(*old(self), idx as int) ==> {
                &&& r == Ok::<(), MoveError>(())
                &&& mark_outcome(*old(self), *final(self), player as int, idx as int)
                &&& final(self).next_player == old(self).next_player
            },
            !occupied(*old(self), idx as int) && wins_through(final(self).board[player as int], idx as int)
                ==> final(self).status == GameStatus::LastPlayerWon,
    {
        self.place_unchecked(idx, player)?;
        if self.check_winner(idx, player) {
            self.status = GameStatus::LastPlayerWon;
            return Ok(());
        }
        self.plys = self.plys + 1;
        self.status = if self.plys == 9 { GameStatus::Draw } else { GameStatus::InProgress };
        Ok(())
    }


    /// Reads a board written as nine marks `x`, `o` or `_`, row by row; white space
    /// and `|` are ignored, as is anything after the ninth mark.  The ply count is
    /// the number of `x` and `o` marks and the player to move follows from it.
    pub fn from_str(s: &str) -> (r: Result<Self, ParseError>)
        ensures
            first_unknown(first_marks(s@)) is Some ==> r == Err::<State, ParseError>(
                ParseError::UnrecognizedCharacter(first_unknown(first_marks(s@))->0)),
            first_unknown(first_marks(s@)) is None && marks(s@).len() < 9 ==> r == Err::<State, ParseError>(
                ParseError::TooFewMarks(marks(s@).len() as usize)),
            first_unknown(first_marks(s@)) is None && marks(s@).len() >= 9 ==> (r matches Ok(st) && describes(st, first_marks(s@))),
    {
        let chars = str_chars(s);
        let mut val = State::new();
        let mut plys: usize = 0;
        let mut count: usize = 0;
        let mut winner = GameStatus::InProgress;
        let mut k: usize = 0;
        while k < chars.len() && count < 9
            invariant
                chars@ == s@,
                k <= chars.len(),
                count <= 9,
                marks(chars@.take(k as int)).len() == count,
                first_unknown(marks(chars@.take(k as int))) is None,
                forall|i: int| 0 <= i < count ==> #[trigger] val.board[0][i] == (marks(chars@.take(k as int))[i] == 'x'),
                forall|i: int| 0 <= i < count ==> #[trigger] val.board[1][i] == (marks(chars@.take(k as int))[i] == 'o'),
                forall|i: int| count <= i < 9 ==> !(#[trigger] val.board[0][i]),
                forall|i: int| count <= i < 9 ==> !(#[trigger] val.board[1][i]),
                plys == stone_count(marks(chars@.take(k as int))),
                plys <= count,
                val.plys <= plys,
                !(has_line(val.board[0]) || has_line(val.board[1])) ==> val.plys == plys,
                winner == if has_line(val.board[0]) || has_line(val.board[1]) {
                    GameStatus::LastPlayerWon
                } else if val.plys == 9 {
                    GameStatus::Draw
                } else {
                    GameStatus::InProgress
                },
                val.next_player == 0,
            decreases chars.len() - k,
        {
            let c = chars[k];
            let ghost m = marks(chars@.take(k as int));
            assert(chars@.take(k + 1) =~= chars@.take(k as int).push(c));
            assert(chars@.take(k as int).push(c).drop_last() =~= chars@.take(k as int));
            if !char_is_whitespace(c) && c != '|' {
                assert(marks(chars@.take(k + 1)) == m.push(c));
                assert(m.push(c).drop_last() =~= m);
                if c == 'x' || c == 'o' {
                    let p: u8 = if c == 'x' { 0 } else { 1 };
                    let ghost before = val;
                    let res = val.place_and_check_winner(count, p);
                    assert(res is Ok);
                    proof {
                        lemma_has_line_after_mark(before.board[p as int], val.board[p as int], count as int);
                        assert(val.board[1 - p as int] =~= before.board[1 - p as int]);
                        assert forall|i: int| count + 1 <= i < 9 implies !(#[trigger] val.board[0][i]) by {
                            assert(val.board[0][i] == before.board[0][i]);
                        }
                        assert forall|i: int| count + 1 <= i < 9 implies !(#[trigger] val.board[1][i]) by {
                            assert(val.board[1][i] == before.board[1][i]);
                        }
                    }
                    if winner == GameStatus::InProgress {
                        winner = val.status;
                    }
                    plys = plys + 1;
                } else if c == '_' {
                } else {
                    proof {
                        let rest = chars@.skip(k + 1);
                        assert(chars@ =~= chars@.take(k + 1) + rest);
                        lemma_marks_append(chars@.take(k + 1), rest);
                        let all = marks(chars@);
                        assert(all.take((count + 1) as int) =~= m.push(c));
                        let f = first_marks(s@);
                        assert(f =~= m.push(c) + f.skip((count + 1) as int));
                        lemma_first_unknown_append(m.push(c), f.skip((count + 1) as int));
                        lemma_first_unknown_append(m, seq![c]);
                        assert(m + seq![c] =~= m.push(c));
                    }
                    return Err(ParseError::UnrecognizedCharacter(c));
                }
                proof {
                    lemma_first_unknown_append(m, seq![c]);
                    assert(m + seq![c] =~= m.push(c));
                    assert(seq![c].drop_first() =~= Seq::<char>::empty());
                    assert(seq![c][0] == c);
                    assert(known_mark(c));
                    assert(first_unknown(Seq::<char>::empty()) is None);
                    assert(first_unknown(seq![c]) is None);
                }
                count = count + 1;
            } else {
                assert(marks(chars@.take(k + 1)) == m);
            }
            k = k + 1;
        }
        proof {
            let m = marks(chars@.take(k as int));
            let rest = chars@.skip(k as int);
            assert(chars@ =~= chars@.take(k as int) + rest);
            lemma_marks_append(chars@.take(k as int), rest);
            if count == 9 {
                assert(marks(s@).take(9) =~= m);
            } else {
                assert(k == chars.len());
                assert(rest =~= Seq::<char>::empty());
                assert(marks(rest) =~= Seq::<char>::empty());
                assert(marks(s@) =~= m);
            }
        }
        if count < 9 {
            return Err(ParseError::TooFewMarks(count));
        }
        val.plys = plys;
        val.status = winner;
        val.next_player = (plys % 2) as u8;
        Ok(val)
    }

    /// The player to move marks `idx`; on success the turn passes to the other player.
    pub fn play(&mut self, idx: usize) -> (r: Result<(), MoveError>)
        requires
            idx < 9,
            !occupied(*old(self), idx as int) ==> old(self).next_player < 2 && old(self).plys < usize::MAX,
        ensures
            occupied(*old(self), idx as int) ==> r == Err::<(), MoveError>(MoveError::Occupied) && *final(self) == *old(self),
            !occupied(*old(self), idx as int) ==> {
                &&& r == Ok::<(), MoveError>(())
                &&& mark_outcome(*old(self), *final(self), old(self).next_player as int, idx as int)
                &&& final(self).next_player == 1 - old(self).next_player
            },
            !occupied(*old(self), idx as int) && wins_through(final(self).board[old(self).next_player as int], idx as int)
                ==> final(self).status == GameStatus::LastPlayerWon,
    {
        let p = self.next_player;
        self.place_and_check_winner(idx, p)?;
        self.next_player = (self.next_player + 1) % 2;
        Ok(())
    }
}

/// The character shown for a cell: `x` for the first player, `o` for the second, a space if empty.
pub open spec fn mark_char(st: State, idx: int) -> char {
    if st.board[0][idx] { 'x' } else if st.board[1][idx] { 'o' } else { ' ' }
}

/// The board as three lines `|a|b|c|` separated by line breaks.
pub open spec fn board_text(st: State) -> Seq<char> {
    seq!['|', mark_char(st, 0), '|', mark_char(st, 1), '|', mark_char(st, 2), '|', '\n',
         '|', mark_char(st, 3), '|', mark_char(st, 4), '|', mark_char(st, 5), '|', '\n',
         '|', mark_char(st, 6), '|', mark_char(st, 7), '|', mark_char(st, 8), '|']
}

/// The bytes handed to the expert: the first player's cells, the second
/// player's cells (1 for a mark, 0 otherwise), then the player to move.
pub open spec fn feature_seq(st: State) -> Seq<u8> {
    Seq::new(19, |i: int| if i < 9 {
        if st.board[0][i] { 1u8 } else { 0u8 }
    } else if i < 18 {
        if st.board[1][i - 9] { 1u8 } else { 0u8 }
    } else {
        st.next_player
    })
}

impl State {
    /// The character shown for cell `idx`.
    fn mark(&self, idx: usize) -> (c: char)
        requires
            idx < 9,
        ensures
            c == mark_char(*self, idx as int),
    {
        if self.board[0][idx] {
            'x'
        } else if self.board[1][idx] {
            'o'
        } else {
            ' '
        }
    }

    /// The board as it is shown to people.
    pub fn to_string(&self) -> (s: String)
        ensures
            s@ == board_text(*self),
    {
        let mut s = String::new();
        let mut row: usize = 0;
        while row < 3
            invariant
                row <= 3,
                s@ == board_text(*self).take(if row == 0 { 0int } else { 8 * row - 1 }),
            decreases 3 - row,
        {
            if row > 0 {
                push_char(&mut s, '\n');
            }
            let o = row * 3;
            push_char(&mut s, '|');
            push_char(&mut s, self.mark(o));
            push_char(&mut s, '|');
            push_char(&mut s, self.mark(o + 1));
            push_char(&mut s, '|');
            push_char(&mut s, self.mark(o + 2));
            push_char(&mut s, '|');
            assert(s@ =~= board_text(*self).take(8 * (row + 1) - 1));
            row = row + 1;
        }
        assert(s@ =~= board_text(*self));
        s
    }
}

impl GameState for State {
    fn feature_bytes(&self) -> (v: Vec<u8>)
        ensures
            v@ == feature_seq(*self),
    {
        let mut v: Vec<u8> = Vec::new();
        let mut q: usize = 0;
        while q < 2
            invariant
                q <= 2,
                v@ =~= feature_seq(*self).take(9 * q),
            decreases 2 - q,
        {
            let mut j: usize = 0;
            while j < 9
                invariant
                    q < 2,
                    j <= 9,
                    v@ =~= feature_seq(*self).take(9 * q + j),
                decreases 9 - j,
            {
                v.push(if self.board[q][j] { 1u8 } else { 0u8 });
                j = j + 1;
            }
            q = q + 1;
        }
        v.push(self.next_player);
        v
    }
}

/// The rules of tic tac toe as the engine sees them.
pub struct TicTacToe {
    all_actions: Vec<usize>,
}

impl TicTacToe {
    pub fn new() -> (t: Self)
        ensures
            t.actions()@ == seq![0usize, 1, 2, 3, 4, 5, 6, 7, 8],
    {
        TicTacToe { all_actions: vec![0, 1, 2, 3, 4, 5, 6, 7, 8] }
    }

    pub closed spec fn actions(&self) -> Vec<usize> {
        self.all_actions
    }

}

impl Game for TicTacToe {
    type State = State;

    /// An empty cell, in a state whose counters are in range.
    open spec fn may_take(&self, state: State, action: usize) -> bool {
        &&& action < 9
        &&& !occupied(state, action as int)
        &&& state.next_player < 2
        &&& state.plys < usize::MAX
    }

    /// The number of distinct actions: one per cell.
    fn action_count(&self) -> (n: usize)
        ensures
            n == 9,
    {
        9
    }

    /// For each cell, whether it may be marked in `state`.
    fn legal_actions(&self, state: &State) -> (v: Vec<bool>)
        ensures
            v@.len() == 9,
            forall|i: int| 0 <= i < 9 ==> #[trigger] v@[i] == !occupied(*state, i),
    {
        let mut v: Vec<bool> = Vec::new();
        let mut i: usize = 0;
        while i < 9
            invariant
                i <= 9,
                v@.len() == i,
                forall|j: int| 0 <= j < i ==> #[trigger] v@[j] == !occupied(*state, j),
            decreases 9 - i,
        {
            v.push(!state.board[0][i] && !state.board[1][i]);
            i = i + 1;
        }
        v
    }

    /// The state after the player to move marks the empty cell `action`.
    fn successor(&self, state: &State, action: usize) -> (next: State)
        ensures
            mark_outcome(*state, next, state.next_player as int, action as int),
            next.next_player == 1 - state.next_player,
            wins_through(next.board[state.next_player as int], action as int)
                ==> next.status == GameStatus::LastPlayerWon,
    {
        let mut next = *state;
        let r = next.play(action);
        next
    }

    /// Whether the game in `state` is over, and how.
    fn status(&self, state: &State) -> (s: GameStatus)
        ensures
            s == state.status,
    {
        state.status
    }
}

/// The empty cells of `state`, in increasing order.
pub open spec fn is_legal_index_list(state: State, v: Seq<usize>) -> bool {
    &&& forall|i: int, j: int| 0 <= i < j < v.len() ==> v[i] < v[j]
    &&& forall|i: int| 0 <= i < v.len() ==> (#[trigger] v[i]) < 9 && !occupied(state, v[i] as int)
    &&& forall|c: int| 0 <= c < 9 && !occupied(state, c) ==> v.contains(c as usize)
}

/// The cells that may be marked in `state`, in increasing order: the actions
/// to which an expert gives a prior.
pub fn legal_action_indices(state: &State) -> (v: Vec<usize>)
    ensures
        is_legal_index_list(*state, v@),
{
    let mut v: Vec<usize> = Vec::new();
    let mut i: usize = 0;
    while i < 9
        invariant
            i <= 9,
            forall|a: int, b: int| 0 <= a < b < v@.len() ==> v@[a] < v@[b],
            forall|a: int| 0 <= a < v@.len() ==> (#[trigger] v@[a]) < i && !occupied(*state, v@[a] as int),
            forall|c: int| 0 <= c < i && !occupied(*state, c) ==> v@.contains(c as usize),
        decreases 9 - i,
    {
        let ghost old_v = v@;
        if !state.board[0][i] && !state.board[1][i] {
            v.push(i);
            assert(v@[v@.len() - 1] == i);
        }
        assert forall|c: int| 0 <= c < i + 1 && !occupied(*state, c) implies v@.contains(c as usize) by {
            if c < i {
                let k = choose|k: int| 0 <= k < old_v.len() && old_v[k] == c as usize;
                assert(v@[k] == c as usize);
            } else {
                assert(v@[v@.len() - 1] == i);
            }
        }
        i = i + 1;
    }
    v
}

/// Options for training the expert (none so far).
pub struct TrainOptions {}

impl TrainOptions {
    pub fn new() -> (t: Self)
        ensures
            t == (TrainOptions {}),
    {
        TrainOptions {}
    }
}

/// An expert that gives every legal move the same prior.
#[derive(Clone, Debug, PartialEq, Copy)]
pub struct DumbGameExpert {}

impl DumbGameExpert {
    pub fn new() -> (e: Self)
        ensures
            e == (DumbGameExpert {}),
    {
        DumbGameExpert {}
    }
}

/// An expert that gives every legal move the same prior.
#[derive(Clone, Debug, PartialEq, Copy)]
pub struct NaiveGameExpert {}

impl NaiveGameExpert {
    pub fn new() -> (e: Self)
        ensures
            e == (NaiveGameExpert {}),
    {
        NaiveGameExpert {}
    }
}

} // verus!
