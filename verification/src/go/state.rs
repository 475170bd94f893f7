//! The state of a game of Go: the board, whose turn it is, the record of turns,
//! the positions seen so far (for positional superko), and the groups of stones
//! with their liberties, kept up to date move by move.

use vstd::prelude::*;
use std::collections::BTreeSet;
use vec_map::VecMap;
use crate::go::{Color, Player, Turn, IllegalMoveError, other_player, player_color};
use crate::go::board::{on_board, adjacent, chain, connected, liberties, closed, neighbor_points,
    lemma_adjacent_sym, lemma_neighbor_points, lemma_connected_refl, lemma_connected_step, lemma_connected_sym,
    lemma_connected_trans, lemma_closed_holds_chain, lemma_chain_closed, lemma_chain_same, lemma_chain_equal,
    lemma_chain_unchanged, touches, grown, empty_around, cleared, lemma_connected_keep, lemma_grown_chain,
    lemma_grown_liberties, lemma_chain_away, lemma_chain_after_clear, lemma_liberties_after_clear,
    lemma_adjacent_irreflexive, lemma_chain_after_clear_set, lemma_closed_not_touching};
use crate::go::groups::{index_entries, member_entries, liberty_entries, index_with_capacity, index_get,
    index_insert, members_with_capacity, members_get, members_insert, members_remove, liberties_with_capacity,
    liberties_get, liberties_insert, liberties_remove, set_append};
use crate::go::pos::{Pos19, neighbor_seq, named_point, point_index, column_letter};
use crate::sgf::{GameTree, Move, PointColor, main_line_of, main_line_readable, tree_view};
use crate::text::{decimal, push_char, push_decimal, push_repeat};

verus! {

broadcast use vstd::laws_cmp::group_laws_cmp;

/// The area of each player at the end of a game, komi not included: stones of
/// the colour plus empty points whose region borders only that colour.
#[derive(Clone, Copy, Debug, PartialEq, Eq, Structural)]
pub struct Score {
    pub black: usize,
    pub white: usize,
}

/// The state of a game on a 19x19 board.
pub struct State19 {
    next_player: Player,
    board: Vec<Color>,
    komap: Vec<Vec<u8>>,
    record: Vec<Turn>,
    pub group_index: VecMap<usize>,
    groups: VecMap<Vec<usize>>,
    pub liberties: VecMap<BTreeSet<usize>>,
    next_id: usize,
    pub final_score: Option<Score>,
    komi: String,
}

/// A state as the specification sees it.
pub struct GoState {
    pub next_player: Player,
    pub board: Seq<Color>,
    pub seen: Seq<Seq<u8>>,
    pub record: Seq<Turn>,
    pub group_of: Map<usize, usize>,
    pub members: Map<usize, Seq<usize>>,
    pub libs: Map<usize, Set<usize>>,
    pub next_id: nat,
    pub final_score: Option<Score>,
    pub komi: Seq<char>,
}

impl View for State19 {
    type V = GoState;

    closed spec fn view(&self) -> GoState {
        GoState {
            next_player: self.next_player,
            board: self.board@,
            seen: self.komap@.map_values(|v: Vec<u8>| v@),
            record: self.record@,
            group_of: index_entries(self.group_index),
            members: member_entries(self.groups),
            libs: liberty_entries(self.liberties),
            next_id: self.next_id as nat,
            final_score: self.final_score,
            komi: self.komi@,
        }
    }
}

/// The points of a list of stones, as integers.
pub open spec fn member_set(s: Seq<usize>) -> Set<int> {
    Set::new(|x: int| exists|k: int| #![trigger s[k]] 0 <= k < s.len() && s[k] as int == x)
}

/// A set of liberties, as integers.
pub open spec fn lib_set(l: Set<usize>) -> Set<int> {
    Set::new(|x: int| 0 <= x <= usize::MAX && l.contains(x as usize))
}

/// The code of a colour in a position key.
pub open spec fn color_code(c: Color) -> u8 {
    match c {
        Color::Black => 0,
        Color::White => 1,
        Color::Empty => 2,
    }
}

/// The key under which a position is remembered.
pub open spec fn position_key(b: Seq<Color>) -> Seq<u8> {
    b.map_values(|c: Color| color_code(c))
}

/// How many of the first `n` marks are set.
pub open spec fn count_marked(a: Seq<bool>, n: nat) -> nat
    decreases n,
{
    if n == 0 {
        0
    } else {
        count_marked(a, (n - 1) as nat) + if a[n - 1] { 1nat } else { 0nat }
    }
}

/// The points of the board that hold a stone.
pub open spec fn stone_marks(b: Seq<Color>) -> Seq<bool> {
    Seq::new(361, |x: int| b[x] != Color::Empty)
}

/// How many stones the board holds.
pub open spec fn stone_count(b: Seq<Color>) -> nat {
    count_marked(stone_marks(b), 361)
}

/// Fewer marks count no more.
proof fn lemma_count_mono(a: Seq<bool>, c: Seq<bool>, n: nat)
    requires
        forall|x: int| 0 <= x < n && #[trigger] a[x] ==> c[x],
    ensures
        count_marked(a, n) <= count_marked(c, n),
    decreases n,
{
    if n > 0 {
        lemma_count_mono(a, c, (n - 1) as nat);
    }
}

/// One more mark, with none taken away, counts one more at least.
proof fn lemma_count_grows(a: Seq<bool>, c: Seq<bool>, n: nat, p: int)
    requires
        forall|x: int| 0 <= x < n && #[trigger] a[x] ==> c[x],
        0 <= p < n,
        c[p],
        !a[p],
    ensures
        count_marked(a, n) + 1 <= count_marked(c, n),
    decreases n,
{
    if p == n - 1 {
        lemma_count_mono(a, c, (n - 1) as nat);
    } else {
        lemma_count_grows(a, c, (n - 1) as nat, p);
    }
}

/// Marks that differ from others only at `p` count at most one more.
proof fn lemma_count_one_more(a: Seq<bool>, c: Seq<bool>, n: nat, p: int)
    requires
        forall|x: int| 0 <= x < n && x != p && #[trigger] c[x] ==> a[x],
    ensures
        count_marked(c, n) <= count_marked(a, n) + 1,
    decreases n,
{
    if n > 0 {
        if n - 1 == p {
            lemma_count_mono(c, a, (n - 1) as nat);
        } else {
            lemma_count_one_more(a, c, (n - 1) as nat, p);
        }
    }
}

/// No marks count nothing.
proof fn lemma_count_none(a: Seq<bool>, n: nat)
    requires
        forall|x: int| 0 <= x < n ==> !#[trigger] a[x],
    ensures
        count_marked(a, n) == 0,
    decreases n,
{
    if n > 0 {
        lemma_count_none(a, (n - 1) as nat);
    }
}

/// A board whose stones all stand where stones stood on `b`, or at `p`, holds
/// at most one stone more than `b`.
proof fn lemma_stones_one_more(b: Seq<Color>, b2: Seq<Color>, p: int)
    requires
        forall|x: int| on_board(x) && x != p && b2[x] != Color::Empty ==> #[trigger] b[x] != Color::Empty,
    ensures
        stone_count(b2) <= stone_count(b) + 1,
{
    let a = stone_marks(b);
    let c = stone_marks(b2);
    assert forall|x: int| 0 <= x < 361 && x != p && #[trigger] c[x] implies a[x] by {
        assert(b2[x] != Color::Empty);
    }
    lemma_count_one_more(a, c, 361, p);
}

/// No more marks are set than there are marks.
proof fn lemma_count_at_most(a: Seq<bool>, n: nat)
    ensures
        count_marked(a, n) <= n,
    decreases n,
{
    if n > 0 {
        lemma_count_at_most(a, (n - 1) as nat);
    }
}

/// Tables under construction give the stone at `x` a group below `id` that
/// lists it and holds exactly its chain and the chain's liberties.
pub open spec fn rebuilt_entry(g: Map<usize, usize>, m: Map<usize, Seq<usize>>, l: Map<usize, Set<usize>>,
    b: Seq<Color>, x: int, id: nat) -> bool {
    let k = x as usize;
    &&& g.contains_key(k)
    &&& g[k] < id
    &&& m.contains_key(g[k])
    &&& l.contains_key(g[k])
    &&& m[g[k]].contains(k)
    &&& member_set(m[g[k]]) == chain(b, x)
    &&& lib_set(l[g[k]]) == liberties(b, chain(b, x))
}

/// Points of one chain have the same chain.
proof fn lemma_same_chain(b: Seq<Color>, p: int, x: int)
    requires
        connected(b, p, x),
    ensures
        chain(b, x) == chain(b, p),
{
    assert forall|y: int| chain(b, x).contains(y) <==> chain(b, p).contains(y) by {
        if connected(b, x, y) {
            lemma_connected_trans(b, p, x, y);
        }
        if connected(b, p, y) {
            lemma_connected_sym(b, p, x);
            lemma_connected_trans(b, x, p, y);
        }
    }
    assert(chain(b, x) =~= chain(b, p));
}

impl GoState {
    /// The stone at `p` is on record: it has a group, and that group lists it and
    /// has a liberty entry.
    pub open spec fn listed(self, p: int) -> bool {
        let k = p as usize;
        &&& self.group_of.contains_key(k)
        &&& self.members.contains_key(self.group_of[k])
        &&& self.libs.contains_key(self.group_of[k])
        &&& self.members[self.group_of[k]].contains(k)
    }

    /// Group ids are below the next id, and group members are points.
    pub open spec fn tables_ok(self) -> bool {
        &&& forall|g: usize| #[trigger] self.members.contains_key(g) ==> g < self.next_id
        &&& forall|g: usize| #[trigger] self.libs.contains_key(g) ==> g < self.next_id
        &&& forall|g: usize, k: int| self.members.contains_key(g) && 0 <= k < self.members[g].len()
            ==> #[trigger] self.members[g][k] < 361
    }

    /// The state is well formed: the board has its points, every stone is on
    /// record, and no position is remembered twice.
    pub open spec fn wf(self) -> bool {
        &&& self.board.len() == 361
        &&& self.next_id <= self.record.len()
        &&& stone_count(self.board) <= self.record.len()
        &&& self.tables_ok()
        &&& forall|p: int| on_board(p) && self.board[p] != Color::Empty ==> #[trigger] self.listed(p)
        &&& self.seen.no_duplicates()
    }

    /// The group of the stone at `p` holds exactly its chain, and the liberties on
    /// record are exactly the chain's liberties.
    pub open spec fn grouped(self, p: int) -> bool {
        let g = self.group_of[p as usize];
        &&& member_set(self.members[g]) == chain(self.board, p)
        &&& lib_set(self.libs[g]) == liberties(self.board, chain(self.board, p))
    }

    /// The groups on record are the chains of the board, with their liberties.
    pub open spec fn consistent(self) -> bool {
        &&& self.wf()
        &&& forall|p: int| on_board(p) && self.board[p] != Color::Empty ==> #[trigger] self.grouped(p)
        &&& forall|p: int, q: int| on_board(p) && self.board[p] != Color::Empty
            && #[trigger] connected(self.board, p, q) ==> self.group_of[p as usize] == self.group_of[q as usize]
    }
}

/// The liberties of the chain of `p` while a play at `pos` is under way: a
/// chain of another colour that touches `pos` still lists it.
pub open spec fn libs_during(b: Seq<Color>, p: int, pos: int) -> Set<int> {
    if b[p] != b[pos] && touches(chain(b, p), pos) {
        liberties(b, chain(b, p)).insert(pos)
    } else {
        liberties(b, chain(b, p))
    }
}

impl GoState {
    /// The same state with other liberty entries.
    pub open spec fn with_libs(self, l: Map<usize, Set<usize>>) -> GoState {
        GoState { libs: l, ..self }
    }

    /// The positions remembered once the one on the board is remembered too.
    pub open spec fn remembered(self) -> Seq<Seq<u8>> {
        let key = position_key(self.board);
        if self.seen.contains(key) { self.seen } else { self.seen.push(key) }
    }

    /// The same state with the position on the board remembered.
    pub open spec fn with_position_remembered(self) -> GoState {
        GoState { seen: self.remembered(), ..self }
    }

    /// The same state on another board.
    pub open spec fn with_board(self, b: Seq<Color>) -> GoState {
        GoState {
            next_player: self.next_player,
            board: b,
            seen: self.seen,
            record: self.record,
            group_of: self.group_of,
            members: self.members,
            libs: self.libs,
            next_id: self.next_id,
            final_score: self.final_score,
            komi: self.komi,
        }
    }

    /// The group of `p` is its chain, with the liberties that it has while a
    /// play at `pos` is under way.
    pub open spec fn grouped_during(self, p: int, pos: int) -> bool {
        let g = self.group_of[p as usize];
        &&& member_set(self.members[g]) == chain(self.board, p)
        &&& lib_set(self.libs[g]) == libs_during(self.board, p, pos)
    }

    /// The groups are the chains of the board; the stones of one chain share a
    /// group; liberties are as `libs_during` gives them.
    pub open spec fn after_merge(self, pos: int) -> bool {
        &&& forall|p: int| on_board(p) && self.board[p] != Color::Empty ==> #[trigger] self.grouped_during(p, pos)
        &&& forall|p: int, q: int| on_board(p) && self.board[p] != Color::Empty
            && #[trigger] connected(self.board, p, q) ==> self.group_of[p as usize] == self.group_of[q as usize]
    }
}

/// A stone of colour `c` has been put at the empty point `pos` of a consistent
/// state.
pub open spec fn merge_ready(s: GoState, pos: int, c: Color) -> bool {
    &&& s.board[pos] == c
    &&& s.with_board(s.board.update(pos, Color::Empty)).consistent()
}

/// The points of a concatenation.
proof fn lemma_member_set_concat(a: Seq<usize>, b: Seq<usize>)
    ensures
        member_set(a + b) == member_set(a).union(member_set(b)),
{
    let c = a + b;
    assert forall|x: int| member_set(c).contains(x) <==> member_set(a).union(member_set(b)).contains(x) by {
        if member_set(c).contains(x) {
            let k = choose|k: int| #![trigger c[k]] 0 <= k < c.len() && c[k] as int == x;
            if k < a.len() {
                assert(a[k] == c[k]);
            } else {
                assert(b[k - a.len()] == c[k]);
            }
        }
        if member_set(a).contains(x) {
            let k = choose|k: int| #![trigger a[k]] 0 <= k < a.len() && a[k] as int == x;
            assert(c[k] == a[k]);
        }
        if member_set(b).contains(x) {
            let k = choose|k: int| #![trigger b[k]] 0 <= k < b.len() && b[k] as int == x;
            assert(c[k + a.len()] == b[k]);
        }
    }
    assert(member_set(c) =~= member_set(a).union(member_set(b)));
}

/// The points of a one-element list.
proof fn lemma_member_set_single(p: usize)
    ensures
        member_set(seq![p]) == set![p as int],
{
    assert forall|x: int| member_set(seq![p]).contains(x) <==> set![p as int].contains(x) by {
        if x == p {
            assert(seq![p][0] == p);
        }
    }
    assert(member_set(seq![p]) =~= set![p as int]);
}

/// A list holds exactly the points of its member set.
proof fn lemma_member_set_contains(s: Seq<usize>, x: usize)
    ensures
        s.contains(x) == member_set(s).contains(x as int),
{
    if s.contains(x) {
        let k = choose|k: int| 0 <= k < s.len() && s[k] == x;
        assert(s[k] as int == x as int);
    }
    if member_set(s).contains(x as int) {
        let k = choose|k: int| #![trigger s[k]] 0 <= k < s.len() && s[k] as int == x as int;
        assert(s[k] == x);
    }
}

/// Liberty sets of a union.
proof fn lemma_lib_set_union(a: Set<usize>, b: Set<usize>)
    ensures
        lib_set(a.union(b)) == lib_set(a).union(lib_set(b)),
{
    assert(lib_set(a.union(b)) =~= lib_set(a).union(lib_set(b)));
}

/// The liberties of a union of points.
proof fn lemma_liberties_union(b: Seq<Color>, s1: Set<int>, s2: Set<int>)
    ensures
        liberties(b, s1.union(s2)) == liberties(b, s1).union(liberties(b, s2)),
{
    let u = s1.union(s2);
    assert forall|x: int| liberties(b, u).contains(x) <==> liberties(b, s1).union(liberties(b, s2)).contains(x) by {
        if liberties(b, u).contains(x) {
            let m = choose|m: int| #![trigger u.contains(m), adjacent(m, x)] u.contains(m) && adjacent(m, x);
            if s1.contains(m) {
                assert(s1.contains(m) && adjacent(m, x));
            } else {
                assert(s2.contains(m) && adjacent(m, x));
            }
        }
        if liberties(b, s1).contains(x) {
            let m = choose|m: int| #![trigger s1.contains(m), adjacent(m, x)] s1.contains(m) && adjacent(m, x);
            assert(u.contains(m) && adjacent(m, x));
        }
        if liberties(b, s2).contains(x) {
            let m = choose|m: int| #![trigger s2.contains(m), adjacent(m, x)] s2.contains(m) && adjacent(m, x);
            assert(u.contains(m) && adjacent(m, x));
        }
    }
    assert(liberties(b, u) =~= liberties(b, s1).union(liberties(b, s2)));
}

/// The points connected to one of the first `n` points of `s`.
pub open spec fn reached(b: Seq<Color>, s: Seq<usize>, n: int) -> Set<int> {
    Set::new(|x: int| exists|i: int| #![trigger s[i]] 0 <= i < n && connected(b, s[i] as int, x))
}

/// After a stone of colour `c` joins its neighbours at `pos`: if the groups of the
/// new chain and of every other stone are as stated, the state is as
/// `after_merge` describes.
#[verifier::spinoff_prover]
proof fn lemma_merge_result(c0: GoState, s: GoState, pos: int, c: Color, id: usize)
    requires
        c0.consistent(),
        on_board(pos),
        c0.board[pos] == Color::Empty,
        c != Color::Empty,
        s.board == c0.board.update(pos, c),
        forall|x: int| #[trigger] chain(s.board, pos).contains(x) ==> s.group_of.contains_key(x as usize)
            && s.group_of[x as usize] == id,
        member_set(s.members[id]) == chain(s.board, pos),
        lib_set(s.libs[id]) == liberties(s.board, chain(s.board, pos)),
        forall|p: int| on_board(p) && s.board[p] != Color::Empty && !chain(s.board, pos).contains(p) ==> {
            &&& #[trigger] s.group_of[p as usize] == c0.group_of[p as usize]
            &&& s.members[c0.group_of[p as usize]] == c0.members[c0.group_of[p as usize]]
            &&& s.libs[c0.group_of[p as usize]] == c0.libs[c0.group_of[p as usize]]
        },
    ensures
        s.after_merge(pos),
{
    let b0 = c0.board;
    let b1 = s.board;
    lemma_connected_refl(b1, pos);
    assert forall|p: int| on_board(p) && b1[p] != Color::Empty implies #[trigger] s.grouped_during(p, pos) by {
        if chain(b1, pos).contains(p) {
            lemma_chain_same(b1, pos, p);
            lemma_connected_sym(b1, pos, p);
            assert(s.group_of[p as usize] == id);
            assert(!(b1[p] != b1[pos]));
        } else {
            assert(p != pos);
            if connected(b1, p, pos) {
                lemma_connected_sym(b1, p, pos);
            }
            lemma_chain_away(b0, pos, c, p);
            assert(c0.grouped(p));
            let ch = chain(b0, p);
            if touches(ch, pos) {
                if b1[p] == b1[pos] {
                    let m = choose|m: int| #![trigger ch.contains(m), adjacent(m, pos)] ch.contains(m) && adjacent(m, pos);
                    lemma_connected_sym(b0, p, m);
                    assert forall|y: int| on_board(y) && b0[y] == b0[p] implies b1[y] == b0[y] by {}
                    lemma_connected_keep(b0, b1, p, m);
                    lemma_connected_step(b1, p, m, pos);
                }
                assert(liberties(b0, ch).contains(pos));
                assert(liberties(b0, ch) =~= liberties(b0, ch).remove(pos).insert(pos));
            } else {
                assert(!liberties(b0, ch).contains(pos));
                assert(liberties(b0, ch) =~= liberties(b0, ch).remove(pos));
            }
        }
    }
    assert forall|p: int, q: int| on_board(p) && b1[p] != Color::Empty && #[trigger] connected(b1, p, q)
        implies s.group_of[p as usize] == s.group_of[q as usize] by {
        lemma_connected_sym(b1, p, q);
        if chain(b1, pos).contains(p) {
            lemma_connected_trans(b1, pos, p, q);
            assert(chain(b1, pos).contains(q));
        } else {
            if chain(b1, pos).contains(q) {
                lemma_connected_trans(b1, pos, q, p);
            }
            assert(p != pos);
            if connected(b1, p, pos) {
                lemma_connected_sym(b1, p, pos);
            }
            lemma_chain_away(b0, pos, c, p);
            assert(chain(b1, p).contains(q));
            assert(connected(b0, p, q));
            assert(c0.group_of[p as usize] == c0.group_of[q as usize]);
        }
    }
}

/// Partway through joining groups at `pos`: group `id` holds the chains of the
/// first `n` allies, and every other stone keeps its group.
pub open spec fn merge_progress(s0: GoState, s: GoState, b0: Seq<Color>, allies: Seq<usize>, n: int, id: usize) -> bool {
    let u = reached(b0, allies, n);
    &&& member_set(s.members[id]) == u
    &&& lib_set(s.libs[id]) == liberties(b0, u)
    &&& forall|x: int| #[trigger] u.contains(x) ==> s.group_of.contains_key(x as usize) && s.group_of[x as usize] == id
    &&& forall|p: int| on_board(p) && b0[p] != Color::Empty && !u.contains(p) ==> {
        &&& #[trigger] s.group_of[p as usize] == s0.group_of[p as usize]
        &&& s0.group_of[p as usize] != id
        &&& s.members[s0.group_of[p as usize]] == s0.members[s0.group_of[p as usize]]
        &&& s.libs[s0.group_of[p as usize]] == s0.libs[s0.group_of[p as usize]]
        &&& s.members.contains_key(s0.group_of[p as usize])
        &&& s.libs.contains_key(s0.group_of[p as usize])
        &&& s.group_of.contains_key(p as usize)
    }
}

/// The neighbours listed in `allies` hold `c` and are adjacent to `pos`.
pub open spec fn allies_ok(b: Seq<Color>, allies: Seq<usize>, pos: int, c: Color) -> bool {
    forall|i: int| 0 <= i < allies.len() ==> adjacent(pos, #[trigger] allies[i] as int) && b[allies[i] as int] == c
}

/// Before the first ally is looked at, its group holds its chain.
#[verifier::spinoff_prover]
proof fn lemma_merge_init(c0: GoState, s0: GoState, allies: Seq<usize>, pos: int, c: Color, id: usize)
    requires
        c0.consistent(),
        c0.members == s0.members,
        c0.libs == s0.libs,
        c0.group_of == s0.group_of,
        allies.len() > 0,
        allies_ok(c0.board, allies, pos, c),
        c != Color::Empty,
        id == s0.group_of[allies[0]],
    ensures
        merge_progress(s0, s0, c0.board, allies, 1, id),
{
    let b0 = c0.board;
    let first = allies[0] as int;
    assert(adjacent(pos, first));
    assert(c0.grouped(first));
    lemma_connected_refl(b0, first);
    let u = reached(b0, allies, 1);
    assert forall|x: int| #[trigger] u.contains(x) == chain(b0, first).contains(x) by {
        if chain(b0, first).contains(x) {
            assert(allies[0] as int == first);
        }
    }
    assert(u =~= chain(b0, first));
    assert forall|x: int| #[trigger] u.contains(x) implies s0.group_of.contains_key(x as usize)
        && s0.group_of[x as usize] == id by {
        lemma_connected_sym(b0, first, x);
        assert(c0.listed(x));
    }
    assert forall|p: int| on_board(p) && b0[p] != Color::Empty && !u.contains(p) implies {
        &&& #[trigger] s0.group_of[p as usize] == s0.group_of[p as usize]
        &&& s0.group_of[p as usize] != id
        &&& s0.members[s0.group_of[p as usize]] == s0.members[s0.group_of[p as usize]]
        &&& s0.libs[s0.group_of[p as usize]] == s0.libs[s0.group_of[p as usize]]
        &&& s0.members.contains_key(s0.group_of[p as usize])
        &&& s0.libs.contains_key(s0.group_of[p as usize])
        &&& s0.group_of.contains_key(p as usize)
    } by {
        assert(c0.listed(p));
        assert(c0.grouped(p));
        lemma_connected_refl(b0, p);
        if s0.group_of[p as usize] == id {
            assert(chain(b0, p).contains(p));
        }
    }
}

/// An ally whose chain is already joined changes nothing.
#[verifier::spinoff_prover]
proof fn lemma_merge_skip(s0: GoState, s: GoState, b0: Seq<Color>, allies: Seq<usize>, j: int, id: usize)
    requires
        0 <= j < allies.len(),
        merge_progress(s0, s, b0, allies, if j == 0 { 1 } else { j }, id),
        reached(b0, allies, if j == 0 { 1 } else { j }).contains(allies[j] as int),
    ensures
        merge_progress(s0, s, b0, allies, j + 1, id),
{
    let n = if j == 0 { 1 } else { j };
    let u_old = reached(b0, allies, n);
    let u_new = reached(b0, allies, j + 1);
    let ally = allies[j] as int;
    let i = choose|i: int| #![trigger allies[i]] 0 <= i < n && connected(b0, allies[i] as int, ally);
    assert forall|x: int| #[trigger] u_new.contains(x) == u_old.contains(x) by {
        if u_new.contains(x) && !u_old.contains(x) {
            let i2 = choose|i2: int| #![trigger allies[i2]] 0 <= i2 < j + 1 && connected(b0, allies[i2] as int, x);
            assert(i2 == j);
            lemma_connected_trans(b0, allies[i] as int, ally, x);
            assert(0 <= i < n && connected(b0, allies[i] as int, x));
        }
        if u_old.contains(x) {
            let i2 = choose|i2: int| #![trigger allies[i2]] 0 <= i2 < n && connected(b0, allies[i2] as int, x);
            assert(0 <= i2 < j + 1 && connected(b0, allies[i2] as int, x));
        }
    }
    assert(u_new =~= u_old);
}

/// Moving the group of an ally whose chain is not yet joined into `id` joins its
/// chain.
#[verifier::spinoff_prover]
proof fn lemma_merge_absorb(c0: GoState, s0: GoState, s1: GoState, s2: GoState, allies: Seq<usize>,
    pos: int, c: Color, j: int, id: usize, gid: usize)
    requires
        c0.consistent(),
        c0.members == s0.members,
        c0.libs == s0.libs,
        c0.group_of == s0.group_of,
        c != Color::Empty,
        allies_ok(c0.board, allies, pos, c),
        0 < j < allies.len(),
        merge_progress(s0, s1, c0.board, allies, j, id),
        !reached(c0.board, allies, j).contains(allies[j] as int),
        gid == s1.group_of[allies[j] as usize],
        s2.members == s1.members.remove(gid).insert(id, s1.members[id] + s1.members[gid]),
        s2.libs == s1.libs.remove(gid).insert(id, s1.libs[id].union(s1.libs[gid])),
        forall|x: usize| #[trigger] s2.group_of.contains_key(x)
            == (s1.group_of.contains_key(x) || s1.members[gid].contains(x)),
        forall|x: usize| s2.group_of.contains_key(x) ==> #[trigger] s2.group_of[x]
            == (if s1.members[gid].contains(x) { id } else { s1.group_of[x] }),
    ensures
        merge_progress(s0, s2, c0.board, allies, j + 1, id),
{
    let b0 = c0.board;
    let ally = allies[j] as int;
    let u_old = reached(b0, allies, j);
    let u_new = reached(b0, allies, j + 1);
    assert(adjacent(pos, ally));
    assert(b0[ally] != Color::Empty);
    assert(gid == s0.group_of[ally as usize]);
    assert(c0.grouped(ally));
    let ch = chain(b0, ally);
    assert(member_set(s1.members[gid]) == ch);
    lemma_member_set_concat(s1.members[id], s1.members[gid]);
    lemma_lib_set_union(s1.libs[id], s1.libs[gid]);
    lemma_liberties_union(b0, u_old, ch);
    assert forall|x: int| #[trigger] u_new.contains(x) == u_old.union(ch).contains(x) by {
        if u_new.contains(x) && !ch.contains(x) {
            let i2 = choose|i2: int| #![trigger allies[i2]] 0 <= i2 < j + 1 && connected(b0, allies[i2] as int, x);
            assert(i2 < j);
        }
        if u_old.contains(x) {
            let i2 = choose|i2: int| #![trigger allies[i2]] 0 <= i2 < j && connected(b0, allies[i2] as int, x);
            assert(0 <= i2 < j + 1 && connected(b0, allies[i2] as int, x));
        }
        if ch.contains(x) {
            assert(allies[j] as int == ally);
            assert(0 <= j < j + 1 && connected(b0, allies[j] as int, x));
        }
    }
    assert(u_new =~= u_old.union(ch));
    assert(member_set(s2.members[id]) == u_new);
    assert(lib_set(s2.libs[id]) == liberties(b0, u_new));
    assert forall|x: int| #[trigger] u_new.contains(x) implies s2.group_of.contains_key(x as usize)
        && s2.group_of[x as usize] == id by {
        lemma_member_set_contains(s1.members[gid], x as usize);
        if ch.contains(x) {
            assert(0 <= x);
            assert(member_set(s1.members[gid]).contains(x));
            assert(s1.members[gid].contains(x as usize));
        } else {
            assert(u_old.contains(x));
        }
    }
    assert forall|p: int| on_board(p) && b0[p] != Color::Empty && !u_new.contains(p) implies {
        &&& #[trigger] s2.group_of[p as usize] == s0.group_of[p as usize]
        &&& s0.group_of[p as usize] != id
        &&& s2.members[s0.group_of[p as usize]] == s0.members[s0.group_of[p as usize]]
        &&& s2.libs[s0.group_of[p as usize]] == s0.libs[s0.group_of[p as usize]]
        &&& s2.members.contains_key(s0.group_of[p as usize])
        &&& s2.libs.contains_key(s0.group_of[p as usize])
        &&& s2.group_of.contains_key(p as usize)
    } by {
        lemma_member_set_contains(s1.members[gid], p as usize);
        assert(!ch.contains(p));
        assert(!u_old.contains(p));
        assert(s1.group_of[p as usize] == s0.group_of[p as usize]);
        assert(s1.group_of.contains_key(p as usize));
        assert(!s1.members[gid].contains(p as usize));
        assert(s2.group_of.contains_key(p as usize));
        assert(s2.group_of[p as usize] == s1.group_of[p as usize]);
        assert(c0.grouped(p));
        lemma_connected_refl(b0, p);
        assert(chain(b0, p).contains(p));
        if s0.group_of[p as usize] == gid {
            assert(s1.members[gid] == s0.members[gid]);
            assert(member_set(s0.members[gid]).contains(p));
            assert(false);
        }
    }
}

/// The stones of the board whose group is `h`.
pub open spec fn stones_of(s: GoState, h: usize) -> Set<int> {
    Set::new(|n: int| on_board(n) && s.board[n] != Color::Empty && s.group_of[n as usize] == h)
}

/// The points of `pts` that a stone of group `h` touches.
pub open spec fn freed_for(s: GoState, pts: Set<int>, h: usize) -> Set<usize> {
    Set::new(|x: usize| pts.contains(x as int) && touches(stones_of(s, h), x as int))
}

/// A stone without neighbours of its colour starts a new group `id`, holding
/// just the stone with its empty neighbours as liberties; that ends the merge as
/// `after_merge` describes.
#[verifier::spinoff_prover]
proof fn lemma_merge_new(c0: GoState, s0: GoState, s2: GoState, pos: usize, c: Color, id: usize, e: Set<usize>)
    requires
        c0.consistent(),
        c0 == s0.with_board(s0.board.update(pos as int, Color::Empty)),
        s0.board.len() == 361,
        s0.board[pos as int] == c,
        on_board(pos as int),
        c != Color::Empty,
        forall|a: int| adjacent(pos as int, a) ==> c0.board[a] != c,
        id == s0.next_id,
        lib_set(e) == empty_around(s0.board, pos as int),
        s2.board == s0.board,
        s2.members == s0.members.insert(id, seq![pos]),
        s2.group_of == s0.group_of.insert(pos, id),
        s2.libs == s0.libs.insert(id, e),
    ensures
        s2.after_merge(pos as int),
{
    let b0 = c0.board;
    let b1 = s0.board;
    lemma_grown_chain(b0, pos as int, c);
    lemma_grown_liberties(b0, pos as int, c);
    assert(b0.update(pos as int, c) =~= b1);
    let ch = chain(b1, pos as int);
    let gr = grown(b0, pos as int, c);
    assert forall|x: int| #[trigger] gr.contains(x) implies x == pos by {
        if x != pos {
            let a = choose|a: int| #![trigger adjacent(pos as int, a), connected(b0, a, x)]
                adjacent(pos as int, a) && b0[a] == c && connected(b0, a, x);
        }
    }
    assert(gr =~= set![pos as int]);
    lemma_member_set_single(pos);
    assert(member_set(s2.members[id]) =~= ch);
    assert(liberties(b0, gr.remove(pos as int)) =~= Set::<int>::empty());
    lemma_adjacent_irreflexive(pos as int);
    assert(empty_around(b1, pos as int).remove(pos as int) =~= empty_around(b1, pos as int));
    assert(lib_set(s2.libs[id]) =~= liberties(b1, ch));
    assert forall|x: int| #[trigger] ch.contains(x) implies s2.group_of.contains_key(x as usize)
        && s2.group_of[x as usize] == id by {
    }
    assert forall|p: int| on_board(p) && s2.board[p] != Color::Empty && !chain(s2.board, pos as int).contains(p) implies {
        &&& #[trigger] s2.group_of[p as usize] == c0.group_of[p as usize]
        &&& s2.members[c0.group_of[p as usize]] == c0.members[c0.group_of[p as usize]]
        &&& s2.libs[c0.group_of[p as usize]] == c0.libs[c0.group_of[p as usize]]
    } by {
        assert(p != pos);
        assert(b0[p] != Color::Empty);
        assert(c0.listed(p));
        assert(c0.members.contains_key(c0.group_of[p as usize]));
        assert(c0.group_of[p as usize] < s0.next_id);
    }
    lemma_merge_result(c0, s2, pos as int, c, id);
}

/// Putting `pos` into group `id`, whose chain has grown to `pos`'s neighbours of
/// the same colour, ends the merge as `after_merge` describes.
#[verifier::spinoff_prover]
proof fn lemma_merge_finish(c0: GoState, s0: GoState, sl: GoState, s2: GoState, allies: Seq<usize>,
    pos: usize, c: Color, id: usize, e: Set<usize>)
    requires
        c0.consistent(),
        c0 == s0.with_board(s0.board.update(pos as int, Color::Empty)),
        s0.board.len() == 361,
        s0.board[pos as int] == c,
        on_board(pos as int),
        c != Color::Empty,
        allies.len() > 0,
        sl.members.contains_key(id),
        sl.libs.contains_key(id),
        merge_progress(s0, sl, c0.board, allies, allies.len() as int, id),
        reached(c0.board, allies, allies.len() as int) == grown(c0.board, pos as int, c).remove(pos as int),
        lib_set(e) == empty_around(s0.board, pos as int),
        s2.board == s0.board,
        s2.members == sl.members.insert(id, sl.members[id] + seq![pos]),
        s2.group_of == sl.group_of.insert(pos, id),
        s2.libs == sl.libs.insert(id, sl.libs[id].union(e).remove(pos)),
    ensures
        s2.after_merge(pos as int),
{
    let b0 = c0.board;
    let b1 = s0.board;
    let u = reached(b0, allies, allies.len() as int);
    lemma_grown_chain(b0, pos as int, c);
    lemma_grown_liberties(b0, pos as int, c);
    assert(b0.update(pos as int, c) =~= b1);
    let ch = chain(b1, pos as int);
    let gr = grown(b0, pos as int, c);
    assert(gr.contains(pos as int));
    assert(ch =~= u.insert(pos as int));
    lemma_member_set_concat(sl.members[id], seq![pos]);
    lemma_member_set_single(pos);
    assert(member_set(s2.members[id]) =~= ch);
    lemma_lib_set_union(sl.libs[id], e);
    assert(lib_set(sl.libs[id].union(e).remove(pos)) =~= lib_set(sl.libs[id].union(e)).remove(pos as int));
    assert(lib_set(s2.libs[id]) =~= liberties(b1, ch));
    assert forall|x: int| #[trigger] ch.contains(x) implies s2.group_of.contains_key(x as usize)
        && s2.group_of[x as usize] == id by {
        if x != pos {
            assert(u.contains(x));
        }
    }
    assert forall|p: int| on_board(p) && s2.board[p] != Color::Empty && !chain(s2.board, pos as int).contains(p) implies {
        &&& #[trigger] s2.group_of[p as usize] == c0.group_of[p as usize]
        &&& s2.members[c0.group_of[p as usize]] == c0.members[c0.group_of[p as usize]]
        &&& s2.libs[c0.group_of[p as usize]] == c0.libs[c0.group_of[p as usize]]
    } by {
        lemma_connected_refl(b1, pos as int);
        assert(p != pos);
        assert(!u.contains(p));
        assert(b0[p] != Color::Empty);
        assert(sl.group_of[p as usize] == s0.group_of[p as usize]);
        assert(s2.group_of[p as usize] == sl.group_of[p as usize]);
    }
    lemma_merge_result(c0, s2, pos as int, c, id);
}

/// A stone that a play at `pos` removes: its chain is of the other colour,
/// touches `pos`, and has no liberty once the stone at `pos` is placed.
pub open spec fn captured(b1: Seq<Color>, pos: int, x: int) -> bool {
    &&& on_board(x)
    &&& b1[x] != Color::Empty
    &&& b1[x] != b1[pos]
    &&& touches(chain(b1, x), pos)
    &&& liberties(b1, chain(b1, x)) == Set::<int>::empty()
}

/// The board once the captured stones are removed.
pub open spec fn after_captures(b1: Seq<Color>, pos: int) -> Seq<Color> {
    Seq::new(b1.len(), |x: int| if captured(b1, pos, x) { Color::Empty } else { b1[x] })
}

/// The board after a play of colour `c` at the empty point `pos`: the stone is
/// placed, the chains of the other colour that touch it and have no liberty are
/// removed, and then its own chain is removed if it has no liberty.
pub open spec fn play_board(b0: Seq<Color>, pos: int, c: Color) -> Seq<Color> {
    let b1 = b0.update(pos, c);
    let b2 = after_captures(b1, pos);
    if liberties(b2, chain(b2, pos)) == Set::<int>::empty() { cleared(b2, chain(b2, pos)) } else { b2 }
}

impl GoState {
    /// The group of `p` holds its chain.
    pub open spec fn member_ok(self, p: int) -> bool {
        member_set(self.members[self.group_of[p as usize]]) == chain(self.board, p)
    }

    /// Every stone's group holds its chain, and connected stones share a group.
    pub open spec fn chains_ok(self) -> bool {
        &&& forall|p: int| on_board(p) && self.board[p] != Color::Empty ==> #[trigger] self.member_ok(p)
        &&& forall|p: int, q: int| on_board(p) && self.board[p] != Color::Empty
            && #[trigger] connected(self.board, p, q) ==> self.group_of[p as usize] == self.group_of[q as usize]
    }

    /// The liberty entry of `p`'s group: the chain's liberties, and `pos` as
    /// well while the chain is of the other colour, touches `pos`, and its group
    /// is not in `done`.
    pub open spec fn libs_ok(self, p: int, pos: int, done: Set<usize>) -> bool {
        let b = self.board;
        let g = self.group_of[p as usize];
        lib_set(self.libs[g]) == (if b[p] != b[pos] && touches(chain(b, p), pos) && !done.contains(g) {
            liberties(b, chain(b, p)).insert(pos)
        } else {
            liberties(b, chain(b, p))
        })
    }

    /// During the captures of a play at `pos`: groups are chains, and the liberty
    /// entries are as `libs_ok` gives them.
    pub open spec fn capture_progress(self, pos: int, done: Set<usize>) -> bool {
        &&& self.chains_ok()
        &&& forall|p: int| on_board(p) && self.board[p] != Color::Empty ==> #[trigger] self.libs_ok(p, pos, done)
    }
}

/// Clearing the group `g`, which holds the whole chain of `k`, keeps every other
/// stone's chain and group, and gives each remaining chain the cleared points it
/// touches.
#[verifier::spinoff_prover]
proof fn lemma_clear_core(s: GoState, s2: GoState, g: usize, k: int)
    requires
        s.chains_ok(),
        s.board.len() == 361,
        on_board(k),
        s.board[k] != Color::Empty,
        g == s.group_of[k as usize],
        s2.board == cleared(s.board, member_set(s.members[g])),
        s2.members == s.members.insert(g, Seq::empty()),
        s2.group_of == s.group_of,
        forall|h: usize| s.libs.contains_key(h) ==> #[trigger] s2.libs[h]
            == s.libs[h].union(freed_for(s2, member_set(s.members[g]), h)),
    ensures
        s2.board == cleared(s.board, chain(s.board, k)),
        s2.chains_ok(),
        forall|p: int| on_board(p) && s2.board[p] != Color::Empty ==> {
            &&& s.board[p] == #[trigger] s2.board[p]
            &&& !chain(s.board, k).contains(p)
            &&& chain(s2.board, p) == chain(s.board, p)
            &&& s.group_of[p as usize] != g
            &&& (s.libs.contains_key(s.group_of[p as usize]) ==>
                lib_set(s2.libs[s.group_of[p as usize]]) == lib_set(s.libs[s.group_of[p as usize]]).union(
                    Set::new(|x: int| chain(s.board, k).contains(x) && touches(chain(s.board, p), x))))
            &&& liberties(s2.board, chain(s2.board, p)) == liberties(s.board, chain(s.board, p)).union(
                    Set::new(|x: int| chain(s.board, k).contains(x) && touches(chain(s.board, p), x)))
        },
{
    let b = s.board;
    let kk = chain(b, k);
    assert(s.member_ok(k));
    assert(member_set(s.members[g]) == kk);
    let b2 = s2.board;
    assert forall|x: int| kk.contains(x) implies on_board(x) by {
        lemma_connected_sym(b, k, x);
    }
    assert forall|p: int| on_board(p) && b2[p] != Color::Empty implies {
        &&& b[p] == #[trigger] b2[p]
        &&& !kk.contains(p)
        &&& chain(b2, p) == chain(b, p)
        &&& s.group_of[p as usize] != g
        &&& (s.libs.contains_key(s.group_of[p as usize]) ==>
            lib_set(s2.libs[s.group_of[p as usize]]) == lib_set(s.libs[s.group_of[p as usize]]).union(
                Set::new(|x: int| kk.contains(x) && touches(chain(b, p), x))))
        &&& liberties(b2, chain(b2, p)) == liberties(b, chain(b, p)).union(
                Set::new(|x: int| kk.contains(x) && touches(chain(b, p), x)))
    } by {
        assert(!kk.contains(p));
        assert(b[p] != Color::Empty);
        lemma_chain_after_clear(b, k, p);
        assert(s.member_ok(p));
        lemma_connected_refl(b, p);
        if s.group_of[p as usize] == g {
            assert(chain(b, p).contains(p));
        }
        let h = s.group_of[p as usize];
        // The stones of `h` on the new board are `p`'s chain.
        assert forall|n: int| #[trigger] stones_of(s2, h).contains(n) <==> chain(b, p).contains(n) by {
            if stones_of(s2, h).contains(n) {
                assert(!kk.contains(n));
                assert(b[n] != Color::Empty);
                assert(s.member_ok(n));
                lemma_connected_refl(b, n);
                assert(chain(b, n).contains(n));
            }
            if chain(b, p).contains(n) {
                lemma_connected_sym(b, p, n);
                if kk.contains(n) {
                    lemma_connected_trans(b, k, n, p);
                }
            }
        }
        assert(stones_of(s2, h) =~= chain(b, p));
        let extra = Set::new(|x: int| kk.contains(x) && touches(chain(b, p), x));
        if s.libs.contains_key(h) {
            let f = freed_for(s2, member_set(s.members[g]), h);
            assert(lib_set(f) =~= extra);
            lemma_lib_set_union(s.libs[h], f);
        }
        assert forall|x: int| chain(b, p).contains(x) implies !kk.contains(x) by {
            if kk.contains(x) {
                lemma_connected_sym(b, p, x);
                lemma_connected_trans(b, k, x, p);
            }
        }
        lemma_liberties_after_clear(b, kk, chain(b, p));
        assert(b2 =~= cleared(b, kk));
    }
    assert(b2 =~= cleared(b, kk));
    assert forall|p: int| on_board(p) && b2[p] != Color::Empty implies #[trigger] s2.member_ok(p) by {
        assert(b[p] == b2[p]);
        assert(s.member_ok(p));
    }
    assert forall|p: int, q: int| on_board(p) && b2[p] != Color::Empty && #[trigger] connected(b2, p, q)
        implies s2.group_of[p as usize] == s2.group_of[q as usize] by {
        assert(b[p] == b2[p]);
        assert(chain(b2, p) == chain(b, p));
        assert(chain(b2, p).contains(q));
    }
}

/// The stones that the captures of a play at `pos` have removed once the groups
/// in `done` are dealt with.
pub open spec fn removed(b1: Seq<Color>, g1: Map<usize, usize>, pos: int, done: Set<usize>) -> Set<int> {
    Set::new(|x: int| captured(b1, pos, x) && done.contains(g1[x as usize]))
}

impl GoState {
    /// Every group's liberty entry holds exactly its chain's liberties.
    pub open spec fn libs_exact(self) -> bool {
        forall|p: int| on_board(p) && self.board[p] != Color::Empty ==>
            lib_set(self.libs[self.group_of[p as usize]]) == #[trigger] liberties(self.board, chain(self.board, p))
    }
}

/// Whether a stone is captured depends only on its chain.
proof fn lemma_captured_chain(b1: Seq<Color>, pos: int, x: int, y: int)
    requires
        connected(b1, x, y),
    ensures
        captured(b1, pos, x) == captured(b1, pos, y),
        chain(b1, x) == chain(b1, y),
{
    lemma_connected_sym(b1, x, y);
    lemma_chain_same(b1, x, y);
}

/// The removed stones form whole chains.
#[verifier::spinoff_prover]
proof fn lemma_removed_closed(sm: GoState, pos: int, done: Set<usize>)
    requires
        sm.chains_ok(),
        sm.board.len() == 361,
    ensures
        closed(sm.board, removed(sm.board, sm.group_of, pos, done)),
        forall|x: int| #[trigger] removed(sm.board, sm.group_of, pos, done).contains(x)
            ==> on_board(x) && sm.board[x] != Color::Empty && sm.board[x] != sm.board[pos],
{
    let b1 = sm.board;
    let r = removed(b1, sm.group_of, pos, done);
    assert forall|x: int, y: int| #![trigger r.contains(x), adjacent(x, y)]
        r.contains(x) && adjacent(x, y) && b1[y] == b1[x] implies r.contains(y) by {
        lemma_connected_refl(b1, x);
        lemma_connected_step(b1, x, x, y);
        lemma_captured_chain(b1, pos, x, y);
    }
}

/// After the merge at `pos`, no group has been dealt with yet.
proof fn lemma_merge_to_capture(s: GoState, pos: int)
    requires
        s.after_merge(pos),
    ensures
        s.capture_progress(pos, Set::empty()),
{
    assert forall|p: int| on_board(p) && s.board[p] != Color::Empty implies #[trigger] s.member_ok(p) by {
        assert(s.grouped_during(p, pos));
    }
    assert forall|p: int| on_board(p) && s.board[p] != Color::Empty implies #[trigger] s.libs_ok(p, pos, Set::empty()) by {
        assert(s.grouped_during(p, pos));
    }
}

/// Taking `pos` out of the liberties of the group of the enemy stone `n`, whose
/// group has not been dealt with: the entry is then the chain's liberties on the
/// board after the merge, and the group is dealt with.
#[verifier::spinoff_prover]
proof fn lemma_capture_step(sm: GoState, s: GoState, s1: GoState, pos: int, done: Set<usize>, n: int, g: usize)
    requires
        sm.chains_ok(),
        sm.board.len() == 361,
        on_board(pos),
        sm.board[pos] != Color::Empty,
        s.capture_progress(pos, done),
        s.board == cleared(sm.board, removed(sm.board, sm.group_of, pos, done)),
        s.group_of == sm.group_of,
        adjacent(pos, n),
        sm.board[n] != Color::Empty,
        sm.board[n] != sm.board[pos],
        g == sm.group_of[n as usize],
        !done.contains(g),
        s1.board == s.board,
        s1.group_of == s.group_of,
        s1.members == s.members,
        s1.libs == s.libs.insert(g, s.libs[g].remove(pos as usize)),
    ensures
        s1.capture_progress(pos, done.insert(g)),
        s.board[n] == sm.board[n],
        s.board[pos] == sm.board[pos],
        chain(s.board, n) == chain(sm.board, n),
        lib_set(s1.libs[g]) == liberties(sm.board, chain(sm.board, n)),
        (liberties(sm.board, chain(sm.board, n)) == Set::<int>::empty()) == captured(sm.board, pos, n),
        !captured(sm.board, pos, n) ==> removed(sm.board, sm.group_of, pos, done.insert(g))
            == removed(sm.board, sm.group_of, pos, done),
        captured(sm.board, pos, n) ==> removed(sm.board, sm.group_of, pos, done.insert(g))
            == removed(sm.board, sm.group_of, pos, done).union(chain(sm.board, n)),
{
    let b1 = sm.board;
    let b = s.board;
    let r = removed(b1, sm.group_of, pos, done);
    lemma_removed_closed(sm, pos, done);
    assert(!r.contains(n));
    assert(!r.contains(pos));
    lemma_chain_after_clear_set(b1, r, n);
    assert(b[n] == b1[n]);
    assert(b[pos] == b1[pos]);
    let ch = chain(b1, n);
    lemma_connected_refl(b1, n);
    lemma_adjacent_sym(pos, n);
    assert(ch.contains(n) && adjacent(n, pos));
    assert(touches(ch, pos));
    // The removed stones do not touch the chain of `n`.
    assert forall|x: int| r.contains(x) implies on_board(x) && b1[x] == b1[n] by {
        let m = x;
        assert(captured(b1, pos, x));
        assert(b1[x] != Color::Empty && b1[x] != b1[pos]);
    }
    lemma_closed_not_touching(b1, r, n);
    lemma_liberties_after_clear(b1, r, ch);
    assert(liberties(b, ch) =~= liberties(b1, ch));
    assert(s.libs_ok(n, pos, done));
    assert(s.member_ok(n));
    assert(!liberties(b, ch).contains(pos));
    assert(lib_set(s1.libs[g]) =~= lib_set(s.libs[g]).remove(pos));
    assert(lib_set(s1.libs[g]) =~= liberties(b1, ch));
    // The other groups keep their entries; `g`'s entry is now exact.
    assert forall|p: int| on_board(p) && s1.board[p] != Color::Empty implies #[trigger] s1.member_ok(p) by {
        assert(s.member_ok(p));
    }
    assert forall|p: int| on_board(p) && s1.board[p] != Color::Empty implies #[trigger] s1.libs_ok(p, pos, done.insert(g)) by {
        assert(s.libs_ok(p, pos, done));
        if s.group_of[p as usize] == g {
            assert(s.member_ok(p));
            assert(chain(b, p) == chain(b, n));
        }
    }
    // Which stones the group `g` removes.
    let r2 = removed(b1, sm.group_of, pos, done.insert(g));
    if captured(b1, pos, n) {
        assert forall|x: int| #[trigger] r2.contains(x) == r.union(ch).contains(x) by {
            if r2.contains(x) && sm.group_of[x as usize] == g {
                assert(sm.member_ok(x));
                assert(sm.member_ok(n));
                lemma_connected_refl(b1, x);
                assert(chain(b1, x).contains(x));
            }
            if ch.contains(x) {
                lemma_captured_chain(b1, pos, n, x);
                lemma_connected_sym(b1, n, x);
            }
        }
        assert(r2 =~= r.union(ch));
    } else {
        assert forall|x: int| #[trigger] r2.contains(x) == r.contains(x) by {
            if r2.contains(x) && sm.group_of[x as usize] == g {
                assert(sm.member_ok(x));
                assert(sm.member_ok(n));
                lemma_connected_refl(b1, x);
                assert(chain(b1, x).contains(x));
                assert(chain(b1, n).contains(x));
                lemma_captured_chain(b1, pos, n, x);
            }
        }
        assert(r2 =~= r);
    }
}

/// Taking `pos` out of the liberty entry of the group `g` of the stone `n` next
/// to it, on a board that stays as it is: the group is then dealt with.
#[verifier::spinoff_prover]
proof fn lemma_liberty_step(s: GoState, s1: GoState, pos: int, done: Set<usize>, n: int, g: usize)
    requires
        s.capture_progress(pos, done),
        s.board.len() == 361,
        on_board(pos),
        s.board[pos] != Color::Empty,
        adjacent(pos, n),
        s.board[n] != Color::Empty,
        s.board[n] != s.board[pos],
        g == s.group_of[n as usize],
        !done.contains(g),
        s1.board == s.board,
        s1.group_of == s.group_of,
        s1.members == s.members,
        s1.libs == s.libs.insert(g, s.libs[g].remove(pos as usize)),
    ensures
        s1.capture_progress(pos, done.insert(g)),
{
    let b = s.board;
    let ch = chain(b, n);
    lemma_connected_refl(b, n);
    lemma_adjacent_sym(pos, n);
    assert(ch.contains(n) && adjacent(n, pos));
    assert(touches(ch, pos));
    assert(s.libs_ok(n, pos, done));
    assert(s.member_ok(n));
    assert(!liberties(b, ch).contains(pos));
    assert(lib_set(s1.libs[g]) =~= lib_set(s.libs[g]).remove(pos));
    assert(lib_set(s1.libs[g]) =~= liberties(b, ch));
    assert forall|p: int| on_board(p) && s1.board[p] != Color::Empty implies #[trigger] s1.member_ok(p) by {
        assert(s.member_ok(p));
    }
    assert forall|p: int| on_board(p) && s1.board[p] != Color::Empty implies #[trigger] s1.libs_ok(p, pos, done.insert(g)) by {
        assert(s.libs_ok(p, pos, done));
        if s.group_of[p as usize] == g {
            assert(s.member_ok(p));
            assert(chain(b, p) == chain(b, n));
        }
    }
}

/// Once every group of the other colour next to `pos` is dealt with, on a board
/// that is kept as it is, every liberty entry is exact.
#[verifier::spinoff_prover]
proof fn lemma_liberties_done(s: GoState, pos: int, done: Set<usize>)
    requires
        s.capture_progress(pos, done),
        s.board.len() == 361,
        on_board(pos),
        s.board[pos] != Color::Empty,
        forall|m: int| adjacent(pos, m) && s.board[m] != Color::Empty && s.board[m] != s.board[pos]
            ==> #[trigger] done.contains(s.group_of[m as usize]),
    ensures
        s.libs_exact(),
        s.chains_ok(),
{
    let b = s.board;
    assert forall|p: int| on_board(p) && b[p] != Color::Empty implies
        lib_set(s.libs[s.group_of[p as usize]]) == #[trigger] liberties(b, chain(b, p)) by {
        assert(s.libs_ok(p, pos, done));
        if b[p] != b[pos] && touches(chain(b, p), pos) {
            let ch = chain(b, p);
            let m = choose|m: int| #![trigger ch.contains(m), adjacent(m, pos)] ch.contains(m) && adjacent(m, pos);
            lemma_connected_sym(b, p, m);
            lemma_adjacent_sym(m, pos);
            assert(done.contains(s.group_of[m as usize]));
            assert(s.group_of[p as usize] == s.group_of[m as usize]);
        }
    }
}

/// Clearing a captured chain that does not hold `pos` keeps the captures on
/// course.
#[verifier::spinoff_prover]
proof fn lemma_capture_clear(s1: GoState, s2: GoState, pos: int, done: Set<usize>, n: int, g: usize)
    requires
        s1.capture_progress(pos, done),
        s1.board.len() == 361,
        on_board(pos),
        on_board(n),
        s1.board[n] != Color::Empty,
        s1.board[pos] != Color::Empty,
        s1.board[n] != s1.board[pos],
        g == s1.group_of[n as usize],
        s2.board == cleared(s1.board, member_set(s1.members[g])),
        s2.members == s1.members.insert(g, Seq::empty()),
        s2.group_of == s1.group_of,
        s2.libs.dom() == s1.libs.dom(),
        forall|h: usize| s1.libs.contains_key(h) ==> #[trigger] s2.libs[h]
            == s1.libs[h].union(freed_for(s2, member_set(s1.members[g]), h)),
        forall|p: int| on_board(p) && s1.board[p] != Color::Empty ==> #[trigger] s1.listed(p),
    ensures
        s2.capture_progress(pos, done),
        s2.board == cleared(s1.board, chain(s1.board, n)),
{
    let b = s1.board;
    lemma_clear_core(s1, s2, g, n);
    lemma_connected_refl(b, pos);
    if chain(b, n).contains(pos) {
        lemma_connected_sym(b, n, pos);
    }
    assert forall|p: int| on_board(p) && s2.board[p] != Color::Empty implies #[trigger] s2.libs_ok(p, pos, done) by {
        assert(s1.libs_ok(p, pos, done));
        assert(s1.listed(p));
        assert(s2.board[pos] == b[pos]);
        let extra = Set::new(|x: int| chain(b, n).contains(x) && touches(chain(b, p), x));
        let l = liberties(b, chain(b, p));
        assert(l.insert(pos).union(extra) =~= l.union(extra).insert(pos));
    }
}

/// Once every enemy group next to `pos` is dealt with, the removed stones are
/// exactly the captured ones and every liberty entry is exact.
#[verifier::spinoff_prover]
proof fn lemma_capture_done(sm: GoState, s: GoState, pos: int, done: Set<usize>)
    requires
        sm.chains_ok(),
        sm.board.len() == 361,
        on_board(pos),
        sm.board[pos] != Color::Empty,
        s.capture_progress(pos, done),
        s.board == cleared(sm.board, removed(sm.board, sm.group_of, pos, done)),
        s.group_of == sm.group_of,
        forall|m: int| adjacent(pos, m) && sm.board[m] != Color::Empty && sm.board[m] != sm.board[pos]
            ==> #[trigger] done.contains(sm.group_of[m as usize]),
    ensures
        s.board == after_captures(sm.board, pos),
        s.libs_exact(),
        s.chains_ok(),
{
    let b1 = sm.board;
    let r = removed(b1, sm.group_of, pos, done);
    lemma_removed_closed(sm, pos, done);
    assert forall|x: int| #[trigger] r.contains(x) == captured(b1, pos, x) by {
        if captured(b1, pos, x) {
            let ch = chain(b1, x);
            let m = choose|m: int| #![trigger ch.contains(m), adjacent(m, pos)] ch.contains(m) && adjacent(m, pos);
            lemma_connected_sym(b1, x, m);
            lemma_adjacent_sym(m, pos);
            assert(done.contains(sm.group_of[m as usize]));
        }
    }
    assert(s.board =~= after_captures(b1, pos));
    assert forall|p: int| on_board(p) && s.board[p] != Color::Empty implies
        lib_set(s.libs[s.group_of[p as usize]]) == #[trigger] liberties(s.board, chain(s.board, p)) by {
        assert(s.libs_ok(p, pos, done));
        let b = s.board;
        if b[p] != b[pos] && touches(chain(b, p), pos) {
            assert(!r.contains(p));
            lemma_chain_after_clear_set(b1, r, p);
            let ch = chain(b, p);
            let m = choose|m: int| #![trigger ch.contains(m), adjacent(m, pos)] ch.contains(m) && adjacent(m, pos);
            lemma_connected_sym(b1, p, m);
            lemma_adjacent_sym(m, pos);
            assert(!r.contains(pos));
            assert(b[pos] == b1[pos]);
            assert(done.contains(sm.group_of[m as usize]));
        }
    }
}

/// Clearing a whole chain from a state whose entries are exact keeps them exact.
#[verifier::spinoff_prover]
proof fn lemma_clear_exact(s: GoState, s2: GoState, n: int, g: usize)
    requires
        s.chains_ok(),
        s.libs_exact(),
        s.board.len() == 361,
        on_board(n),
        s.board[n] != Color::Empty,
        g == s.group_of[n as usize],
        s2.board == cleared(s.board, member_set(s.members[g])),
        s2.members == s.members.insert(g, Seq::empty()),
        s2.group_of == s.group_of,
        forall|h: usize| s.libs.contains_key(h) ==> #[trigger] s2.libs[h]
            == s.libs[h].union(freed_for(s2, member_set(s.members[g]), h)),
        forall|p: int| on_board(p) && s.board[p] != Color::Empty ==> #[trigger] s.listed(p),
    ensures
        s2.board == cleared(s.board, chain(s.board, n)),
        s2.chains_ok(),
        s2.libs_exact(),
{
    lemma_clear_core(s, s2, g, n);
    assert forall|p: int| on_board(p) && s2.board[p] != Color::Empty implies
        lib_set(s2.libs[s2.group_of[p as usize]]) == #[trigger] liberties(s2.board, chain(s2.board, p)) by {
        assert(s.listed(p));
        assert(s.board[p] == s2.board[p]);
        assert(lib_set(s.libs[s.group_of[p as usize]]) == liberties(s.board, chain(s.board, p)));
    }
}

/// Some point of `r` is next to a stone of colour `c`.
pub open spec fn borders(b: Seq<Color>, r: Set<int>, c: Color) -> bool {
    exists|m: int, y: int| #![trigger r.contains(m), adjacent(m, y)] r.contains(m) && adjacent(m, y) && b[y] == c
}

/// The empty point `x` is territory of `c`: its empty region has more than one
/// point and borders stones of colour `c` and of no other colour.
pub open spec fn territory_of(b: Seq<Color>, x: int, c: Color) -> bool {
    &&& b[x] == Color::Empty
    &&& exists|y: int| #[trigger] adjacent(x, y) && b[y] == Color::Empty
    &&& borders(b, chain(b, x), c)
    &&& forall|d: Color| d != c && d != Color::Empty ==> !#[trigger] borders(b, chain(b, x), d)
}

/// The point counts for `c`: a stone of `c`, or territory of `c`.
pub open spec fn counts_for(b: Seq<Color>, x: int, c: Color) -> bool {
    b[x] == c || territory_of(b, x, c)
}

/// The number of points below `n` that count for `c`.
pub open spec fn area(b: Seq<Color>, c: Color, n: nat) -> nat
    decreases n,
{
    if n == 0 {
        0
    } else {
        area(b, c, (n - 1) as nat) + if counts_for(b, n - 1, c) { 1nat } else { 0nat }
    }
}

/// The score of a board: the area of each colour.
pub open spec fn score_of(b: Seq<Color>) -> Score {
    Score { black: area(b, Color::Black, 361) as usize, white: area(b, Color::White, 361) as usize }
}

/// An area is at most the number of points counted.
proof fn lemma_area_bound(b: Seq<Color>, c: Color, n: nat)
    ensures
        area(b, c, n) <= n,
    decreases n,
{
    if n > 0 {
        lemma_area_bound(b, c, (n - 1) as nat);
    }
}

/// The points that have been seen.
pub open spec fn seen_set(seen: Seq<bool>) -> Set<int> {
    Set::new(|x: int| 0 <= x < 361 && seen[x])
}

/// Every point of `s` that is not waiting on the stack has its neighbours of
/// colour `c` in `s`.
pub open spec fn expanded_in(b: Seq<Color>, s: Set<int>, stack: Seq<usize>, c: Color) -> bool {
    forall|x: int, y: int| #![trigger s.contains(x), adjacent(x, y)]
        s.contains(x) && !stack.contains(x as usize) && adjacent(x, y) && b[y] == c ==> s.contains(y)
}

/// Some point of `s` that is not waiting on the stack is next to a stone of `c`.
pub open spec fn done_borders(b: Seq<Color>, s: Set<int>, stack: Seq<usize>, c: Color) -> bool {
    exists|m: int, y: int| #![trigger s.contains(m), adjacent(m, y)]
        s.contains(m) && !stack.contains(m as usize) && adjacent(m, y) && b[y] == c
}

/// The groups of the neighbours of `pos` that hold `c`.
pub open spec fn neighbor_groups(s: GoState, pos: int, c: Color) -> Set<usize> {
    Set::new(|g: usize| exists|n: int| #![trigger s.group_of[n as usize]]
        adjacent(pos, n) && s.board[n] == c && s.group_of[n as usize] == g)
}

/// The record ends with a pass.
pub open spec fn ends_with_pass(record: Seq<Turn>) -> bool {
    record.len() > 0 && record.last() == Turn::Pass
}

/// The point of a turn, if it has one, is on the board.
pub open spec fn turn_fits(t: Turn) -> bool {
    match t {
        Turn::Pass => true,
        Turn::Of(p) => p.0 < 361,
        Turn::Add(_, p) => p.0 < 361,
    }
}

/// The liberty set of a set of points is empty exactly when the set is.
proof fn lemma_lib_set_empty(l: Set<usize>)
    ensures
        (lib_set(l) == Set::<int>::empty()) == (l == Set::<usize>::empty()),
{
    if lib_set(l) == Set::<int>::empty() {
        assert forall|x: usize| !l.contains(x) by {
            assert(!lib_set(l).contains(x as int));
        }
        assert(l =~= Set::<usize>::empty());
    }
    if l == Set::<usize>::empty() {
        assert(lib_set(l) =~= Set::<int>::empty());
    }
}

/// The sets of a prefix of a list, element by element.
proof fn lemma_take_set_push(v: Seq<usize>, t: int)
    requires
        0 <= t < v.len(),
    ensures
        v.take(t + 1).to_set() == v.take(t).to_set().insert(v[t]),
{
    assert(v.take(t + 1) =~= v.take(t).push(v[t]));
    v.take(t).lemma_push_to_set_commute(v[t]);
}

/// The index of the point that a text names.
pub open spec fn named_index(s: Seq<char>) -> int {
    let (c, row) = named_point(s)->0;
    point_index(c, row - 1)
}

/// The text names a point of the 19x19 board.
pub open spec fn named_on_board(s: Seq<char>) -> bool {
    let (c, row) = named_point(s)->0;
    named_point(s) is Some && row <= 19
}

/// The colour of the first play among `moves`, if there is one.
pub open spec fn first_play_color(moves: Seq<Move>) -> Option<PointColor>
    decreases moves.len(),
{
    if moves.len() == 0 {
        None
    } else {
        match moves[0] {
            Move::Of(st) => Some(st.color),
            _ => first_play_color(moves.drop_first()),
        }
    }
}

/// How a point is drawn: a space and `o` for black, `x` for white, `.` for empty.
pub open spec fn point_glyph(c: Color) -> Seq<char> {
    match c {
        Color::Black => seq![' ', 'o'],
        Color::White => seq![' ', 'x'],
        Color::Empty => seq![' ', '.'],
    }
}

/// The points `j..19` of row `i`, drawn.
pub open spec fn row_points(b: Seq<Color>, i: int, j: int) -> Seq<char>
    decreases 19 - j,
{
    if j >= 19 || j < 0 { Seq::empty() } else { point_glyph(b[j + i * 19]) + row_points(b, i, j + 1) }
}

/// A row number right-aligned in two columns.
pub open spec fn row_label(n: nat) -> Seq<char> {
    if n < 10 { seq![' '] + decimal(n) } else { decimal(n) }
}

/// Row `i`, drawn with its number.
pub open spec fn row_text(b: Seq<Color>, i: int) -> Seq<char> {
    row_label((i + 1) as nat) + seq![' ', '|'] + row_points(b, i, 0) + seq!['\n']
}

/// Rows `i..19`, drawn.
pub open spec fn rows_text(b: Seq<Color>, i: int) -> Seq<char>
    decreases 19 - i,
{
    if i >= 19 || i < 0 { Seq::empty() } else { row_text(b, i) + rows_text(b, i + 1) }
}

/// Column letters `a..s` from column `j`, each after a space.
pub open spec fn header_letters(j: int) -> Seq<char>
    decreases 19 - j,
{
    if j >= 19 || j < 0 { Seq::empty() } else { seq![' ', column_letter(j)] + header_letters(j + 1) }
}

/// The board drawn as text: a line of column letters, a rule, then one line per
/// row, numbered from 1.
pub open spec fn board_text(b: Seq<Color>) -> Seq<char> {
    seq![' ', ' ', ' ', ' '] + header_letters(0) + seq!['\n'] + seq![' ', ' ', ' ', ' ']
        + Seq::new(38, |i: int| '-') + seq!['\n'] + rows_text(b, 0)
}

/// What a turn does to a game that has not ended, as `State19::play` performs it.
pub open spec fn turn_result(s: GoState, turn: Turn, r: Result<(), IllegalMoveError>, s2: GoState) -> bool {
    match turn {
        Turn::Pass => {
            &&& r is Ok
            &&& s2.board == s.board
            &&& s2.next_player == other_player(s.next_player)
            &&& s2.record == s.record.push(turn)
            &&& s2.seen == s.seen
            &&& s2.komi == s.komi
            &&& s2.final_score == (if ends_with_pass(s.record) { Some(score_of(s.board)) } else { None::<Score> })
            &&& s2.consistent()
        },
        Turn::Add(color, p) => {
            let key = position_key(s.board.update(p.0 as int, color));
            &&& r is Ok
            &&& s2.board == s.board.update(p.0 as int, color)
            &&& s2.next_player == s.next_player
            &&& s2.record == s.record.push(turn)
            &&& s2.seen == (if s.seen.contains(key) { s.seen } else { s.seen.push(key) })
            &&& s2.komi == s.komi
            &&& s2.final_score is None
            &&& s2.consistent()
        },
        Turn::Of(p) => {
            let c = player_color(s.next_player);
            let key = position_key(play_board(s.board, p.0 as int, c));
            if s.board[p.0 as int] != Color::Empty {
                r == Err::<(), IllegalMoveError>(IllegalMoveError::Occupied(s.board[p.0 as int])) && s2 == s
            } else if s.seen.contains(key) && play_board(s.board, p.0 as int, c) != s.board {
                r == Err::<(), IllegalMoveError>(IllegalMoveError::PositionalSuperko) && s2 == s
            } else {
                &&& r is Ok
                &&& s2.next_player == other_player(s.next_player)
                &&& s2.record == s.record.push(turn)
                &&& s2.komi == s.komi
                &&& s2.seen == (if s.seen.contains(key) { s.seen } else { s.seen.push(key) })
                &&& s2.final_score is None
                &&& s2.board == play_board(s.board, p.0 as int, c)
                &&& s2.consistent()
            }
        },
    }
}

/// The same colour, compared by variant.
fn same_color(a: Color, b: Color) -> (r: bool)
    ensures
        r == (a == b),
{
    match (a, b) {
        (Color::Black, Color::Black) => true,
        (Color::White, Color::White) => true,
        (Color::Empty, Color::Empty) => true,
        _ => false,
    }
}

/// The key of a position: one byte per point.
fn hash(board: &Vec<Color>) -> (key: Vec<u8>)
    ensures
        key@ == position_key(board@),
{
    let mut key: Vec<u8> = Vec::new();
    let mut i: usize = 0;
    while i < board.len()
        invariant
            i <= board@.len(),
            key@ == position_key(board@.take(i as int)),
        decreases board@.len() - i,
    {
        let code: u8 = match board[i] {
            Color::Black => 0,
            Color::White => 1,
            Color::Empty => 2,
        };
        key.push(code);
        i = i + 1;
        assert(key@ =~= position_key(board@.take(i as int)));
    }
    assert(board@.take(i as int) =~= board@);
    key
}

/// Whether two keys are equal.
fn same_key(a: &Vec<u8>, b: &Vec<u8>) -> (r: bool)
    ensures
        r == (a@ == b@),
{
    if a.len() != b.len() {
        return false;
    }
    let mut i: usize = 0;
    while i < a.len()
        invariant
            i <= a@.len(),
            a@.len() == b@.len(),
            a@.take(i as int) == b@.take(i as int),
        decreases a@.len() - i,
    {
        if a[i] != b[i] {
            return false;
        }
        i = i + 1;
        assert(a@.take(i as int) =~= a@.take(i - 1).push(a@[i - 1]));
        assert(b@.take(i as int) =~= b@.take(i - 1).push(b@[i - 1]));
    }
    assert(a@.take(i as int) =~= a@);
    assert(b@.take(i as int) =~= b@);
    true
}

impl State19 {
    /// An empty board with Black to play.
    pub fn new() -> (s: Self)
        ensures
            s@.wf(),
            s@.consistent(),
            s@.board == Seq::new(361, |i: int| Color::Empty),
            s@.next_player == Player::Black,
            s@.record == Seq::<Turn>::empty(),
            s@.seen == seq![position_key(Seq::new(361, |i: int| Color::Empty))],
            s@.final_score is None,
            s@.komi == seq!['7', '.', '5'],
    {
        let mut board: Vec<Color> = Vec::new();
        let mut i: usize = 0;
        while i < 361
            invariant
                i <= 361,
                board@ == Seq::new(i as nat, |k: int| Color::Empty),
            decreases 361 - i,
        {
            board.push(Color::Empty);
            i = i + 1;
            assert(board@ =~= Seq::new(i as nat, |k: int| Color::Empty));
        }
        let start_key = hash(&board);
        let mut komap: Vec<Vec<u8>> = Vec::new();
        komap.push(start_key);
        let s = State19 {
            next_player: Player::Black,
            board,
            komap,
            record: Vec::new(),
            group_index: index_with_capacity(361),
            groups: members_with_capacity(361),
            liberties: liberties_with_capacity(361),
            next_id: 0,
            final_score: None,
            komi: String::from_str("7.5"),
        };
        proof {
            reveal_strlit("7.5");
            lemma_count_none(stone_marks(s@.board), 361);
        }
        assert(s@.seen =~= seq![position_key(Seq::new(361, |i: int| Color::Empty))]);
        s
    }

    /// What the point holds.
    pub fn get_idx(&self, pos: &Pos19) -> (c: Color)
        requires
            self@.wf(),
            pos.0 < 361,
        ensures
            c == self@.board[pos.0 as int],
    {
        self.board[pos.0]
    }

    /// What the point holds.
    pub fn get(&self, pos: &Pos19) -> (c: Color)
        requires
            self@.wf(),
            pos.0 < 361,
        ensures
            c == self@.board[pos.0 as int],
    {
        self.get_idx(pos)
    }

    /// Whether a position has been seen after an earlier play.
    fn seen_before(&self, key: &Vec<u8>) -> (r: bool)
        ensures
            r == self@.seen.contains(key@),
    {
        let mut i: usize = 0;
        while i < self.komap.len()
            invariant
                i <= self.komap@.len(),
                forall|k: int| 0 <= k < i ==> self.komap@[k]@ != key@,
            decreases self.komap@.len() - i,
        {
            if same_key(&self.komap[i], key) {
                assert(self@.seen[i as int] == key@);
                return true;
            }
            i = i + 1;
        }
        assert forall|k: int| 0 <= k < self@.seen.len() implies self@.seen[k] != key@ by {
            assert(self@.seen[k] == self.komap@[k]@);
        }
        false
    }

    /// The stones of the chain through `p`, in board order, and the chain's
    /// liberties.
    fn chain_group(&self, p: usize) -> (r: (Vec<usize>, BTreeSet<usize>))
        requires
            self@.board.len() == 361,
            p < 361,
            self@.board[p as int] != Color::Empty,
        ensures
            member_set(r.0@) == chain(self@.board, p as int),
            forall|k: int| 0 <= k < r.0@.len() ==> #[trigger] r.0@[k] < 361,
            lib_set(r.1@) == liberties(self@.board, chain(self@.board, p as int)),
    {
        let ghost b = self@.board;
        let (seen, _, _) = region(&self.board, p, Color::Empty, Color::Empty);
        let ghost all = seen_set(seen@);
        let mut members: Vec<usize> = Vec::new();
        let mut libs: BTreeSet<usize> = BTreeSet::new();
        let mut q: usize = 0;
        proof {
            assert(member_set(members@) =~= Set::<int>::empty());
            assert(Set::new(|x: int| 0 <= x < 0 && all.contains(x)) =~= Set::<int>::empty());
            assert(liberties(b, Set::<int>::empty()) =~= Set::<int>::empty());
            assert(lib_set(libs@) =~= Set::<int>::empty());
        }
        while q < 361
            invariant
                b == self@.board,
                b.len() == 361,
                seen@.len() == 361,
                all == seen_set(seen@),
                q <= 361,
                member_set(members@) == Set::new(|x: int| 0 <= x < q && all.contains(x)),
                forall|k: int| 0 <= k < members@.len() ==> #[trigger] members@[k] < 361,
                lib_set(libs@) == liberties(b, Set::new(|x: int| 0 <= x < q && all.contains(x))),
            decreases 361 - q,
        {
            let ghost before = Set::new(|x: int| 0 <= x < q && all.contains(x));
            let ghost after = Set::new(|x: int| 0 <= x < q + 1 && all.contains(x));
            if seen[q] {
                let ghost m0 = members@;
                members.push(q);
                let mut e = self.empty_neighbors(q);
                let ghost l0 = libs@;
                let ghost e0 = e@;
                set_append(&mut libs, &mut e);
                proof {
                    assert(after =~= before.union(set![q as int]));
                    assert(members@ =~= m0 + seq![q]);
                    lemma_member_set_concat(m0, seq![q]);
                    lemma_member_set_single(q);
                    lemma_lib_set_union(l0, e0);
                    lemma_liberties_union(b, before, set![q as int]);
                    assert(liberties(b, set![q as int]) =~= empty_around(b, q as int)) by {
                        assert forall|x: int| #[trigger] empty_around(b, q as int).contains(x)
                            implies liberties(b, set![q as int]).contains(x) by {
                            assert(set![q as int].contains(q as int) && adjacent(q as int, x));
                        }
                    }
                    assert forall|k: int| 0 <= k < members@.len() implies #[trigger] members@[k] < 361 by {
                        if k < m0.len() {
                            assert(members@[k] == m0[k]);
                        }
                    }
                }
            } else {
                proof {
                    assert(after =~= before);
                }
            }
            q = q + 1;
        }
        proof {
            assert(Set::new(|x: int| 0 <= x < 361 && all.contains(x)) =~= all);
        }
        (members, libs)
    }

    /// Builds the group tables afresh from the board: one group for each chain,
    /// numbered from 0 in the order of the chains' first points.
    #[verifier::rlimit(50)]
    fn rebuild_groups(&mut self)
        requires
            old(self)@.board.len() == 361,
            stone_count(old(self)@.board) <= old(self)@.record.len(),
            old(self)@.seen.no_duplicates(),
        ensures
            final(self)@.board == old(self)@.board,
            final(self)@.next_player == old(self)@.next_player,
            final(self)@.seen == old(self)@.seen,
            final(self)@.record == old(self)@.record,
            final(self)@.final_score == old(self)@.final_score,
            final(self)@.komi == old(self)@.komi,
            final(self)@.consistent(),
    {
        let ghost s0 = self@;
        let ghost b = self@.board;
        let mut index = index_with_capacity(361);
        let mut groups = members_with_capacity(361);
        let mut libs = liberties_with_capacity(361);
        let mut assigned: Vec<bool> = Vec::new();
        let mut i: usize = 0;
        while i < 361
            invariant
                i <= 361,
                assigned@ == Seq::new(i as nat, |k: int| false),
            decreases 361 - i,
        {
            assigned.push(false);
            i = i + 1;
            assert(assigned@ =~= Seq::new(i as nat, |k: int| false));
        }
        proof {
            lemma_count_none(assigned@, 361);
        }
        let mut id: usize = 0;
        let mut p: usize = 0;
        while p < 361
            invariant
                self@ == s0,
                b == s0.board,
                b.len() == 361,
                stone_count(b) <= s0.record.len(),
                assigned@.len() == 361,
                p <= 361,
                id <= count_marked(assigned@, 361),
                forall|x: int| 0 <= x < 361 && #[trigger] assigned@[x] ==> b[x] != Color::Empty,
                forall|x: int| 0 <= x < p && b[x] != Color::Empty ==> #[trigger] assigned@[x],
                forall|x: int| 0 <= x < 361 && #[trigger] assigned@[x] ==> rebuilt_entry(index_entries(index),
                    member_entries(groups), liberty_entries(libs), b, x, id as nat),
                forall|x: int, y: int| 0 <= x < 361 && #[trigger] assigned@[x] && #[trigger] connected(b, x, y)
                    ==> 0 <= y < 361 && assigned@[y]
                        && index_entries(index)[y as usize] == index_entries(index)[x as usize],
                forall|g: usize| #[trigger] member_entries(groups).contains_key(g) ==> g < id,
                forall|g: usize| #[trigger] liberty_entries(libs).contains_key(g) ==> g < id,
                forall|g: usize, k: int| member_entries(groups).contains_key(g) && 0 <= k < member_entries(groups)[g].len()
                    ==> #[trigger] member_entries(groups)[g][k] < 361,
            decreases 361 - p,
        {
            if !same_color(self.board[p], Color::Empty) && !assigned[p] {
                let (mem, lib) = self.chain_group(p);
                let ghost cp = chain(b, p as int);
                let ghost a0 = assigned@;
                let ghost g0 = index_entries(index);
                proof {
                    lemma_count_at_most(a0, 361);
                    lemma_connected_refl(b, p as int);
                    assert forall|y: int| #[trigger] cp.contains(y) implies !a0[y] by {
                        if 0 <= y < 361 && a0[y] {
                            lemma_connected_sym(b, p as int, y);
                            assert(a0[y] && connected(b, y, p as int));
                        }
                    }
                }
                let mut k: usize = 0;
                while k < mem.len()
                    invariant
                        self@ == s0,
                        b == s0.board,
                        b.len() == 361,
                        cp == chain(b, p as int),
                        member_set(mem@) == cp,
                        forall|j: int| 0 <= j < mem@.len() ==> #[trigger] mem@[j] < 361,
                        k <= mem@.len(),
                        assigned@.len() == 361,
                        forall|x: int| 0 <= x < 361 ==> #[trigger] assigned@[x] == (a0[x]
                            || member_set(mem@.take(k as int)).contains(x)),
                        forall|x: usize| #[trigger] index_entries(index).contains_key(x) == (g0.contains_key(x)
                            || member_set(mem@.take(k as int)).contains(x as int)),
                        forall|x: usize| #[trigger] index_entries(index).contains_key(x) ==> index_entries(index)[x]
                            == if member_set(mem@.take(k as int)).contains(x as int) { id } else { g0[x] },
                    decreases mem@.len() - k,
                {
                    let q = mem[k];
                    let ghost t0 = mem@.take(k as int);
                    proof {
                        assert(mem@.take(k + 1) =~= t0 + seq![q]);
                        lemma_member_set_concat(t0, seq![q]);
                        lemma_member_set_single(q);
                    }
                    index_insert(&mut index, q, id);
                    assigned.set(q, true);
                    k = k + 1;
                }
                let ghost a1 = assigned@;
                let ghost g1 = index_entries(index);
                let ghost m0 = member_entries(groups);
                let ghost l0 = liberty_entries(libs);
                let ghost memv = mem@;
                proof {
                    assert(mem@.take(mem@.len() as int) =~= mem@);
                }
                members_insert(&mut groups, id, mem);
                liberties_insert(&mut libs, id, lib);
                let ghost g = index_entries(index);
                let ghost m = member_entries(groups);
                let ghost l = liberty_entries(libs);
                proof {
                    assert(a1[p as int]) by {
                        assert(cp.contains(p as int));
                    }
                    assert forall|x: int| 0 <= x < 361 && #[trigger] a0[x] implies a1[x] by {}
                    lemma_count_grows(a0, a1, 361, p as int);
                    assert forall|x: int| 0 <= x < 361 && #[trigger] a1[x] implies rebuilt_entry(g, m, l, b, x, (id + 1) as nat) by {
                        let xu = x as usize;
                        if cp.contains(x) {
                            lemma_same_chain(b, p as int, x);
                            lemma_member_set_contains(memv, xu);
                            assert(member_set(mem@.take(mem@.len() as int)).contains(xu as int));
                            assert(g1.contains_key(xu));
                            assert(g[xu] == id);
                            assert(m[id] == memv);
                        } else {
                            assert(a0[x]);
                            assert(rebuilt_entry(g0, m0, l0, b, x, id as nat));
                            assert(!member_set(mem@.take(mem@.len() as int)).contains(xu as int));
                            assert(g1.contains_key(xu));
                            assert(g[xu] == g0[xu]);
                            assert(m[g0[xu]] == m0[g0[xu]]);
                            assert(l[g0[xu]] == l0[g0[xu]]);
                        }
                    }
                    assert forall|x: int, y: int| 0 <= x < 361 && #[trigger] a1[x] && #[trigger] connected(b, x, y)
                        implies 0 <= y < 361 && a1[y] && g[y as usize] == g[x as usize] by {
                        lemma_connected_sym(b, x, y);
                        let xu = x as usize;
                        let yu = y as usize;
                        let whole = member_set(mem@.take(mem@.len() as int));
                        if cp.contains(x) {
                            lemma_connected_trans(b, p as int, x, y);
                            assert(cp.contains(y));
                            assert(whole.contains(xu as int) && whole.contains(yu as int));
                            assert(g1.contains_key(xu) && g1.contains_key(yu));
                        } else {
                            assert(a0[x]);
                            assert(a0[y] && g0[yu] == g0[xu]);
                            assert(!cp.contains(y));
                            assert(rebuilt_entry(g0, m0, l0, b, x, id as nat));
                            assert(rebuilt_entry(g0, m0, l0, b, y, id as nat));
                            assert(!whole.contains(xu as int) && !whole.contains(yu as int));
                            assert(g1.contains_key(xu) && g1.contains_key(yu));
                        }
                    }
                    assert forall|x: int| 0 <= x < 361 && #[trigger] a1[x] implies b[x] != Color::Empty by {
                        if cp.contains(x) {
                            lemma_connected_sym(b, p as int, x);
                        }
                    }
                    assert forall|x: int| 0 <= x < p + 1 && b[x] != Color::Empty implies #[trigger] a1[x] by {
                        if x < p {
                            assert(a0[x]);
                        }
                    }
                    assert forall|x: int| 0 <= x < 361 && #[trigger] a1[x] implies stone_marks(b)[x] by {}
                    lemma_count_mono(a1, stone_marks(b), 361);
                    lemma_count_at_most(a1, 361);
                }
                id = id + 1;
            }
            p = p + 1;
        }
        self.group_index = index;
        self.groups = groups;
        self.liberties = libs;
        self.next_id = id;
        proof {
            let s1 = self@;
            assert forall|x: int| 0 <= x < 361 && #[trigger] assigned@[x] implies stone_marks(b)[x] by {}
            lemma_count_mono(assigned@, stone_marks(b), 361);
            assert forall|x: int| on_board(x) && s1.board[x] != Color::Empty implies #[trigger] s1.listed(x) by {
                assert(assigned@[x]);
            }
            assert forall|x: int| on_board(x) && s1.board[x] != Color::Empty implies #[trigger] s1.grouped(x) by {
                assert(assigned@[x]);
            }
            assert forall|x: int, y: int| on_board(x) && s1.board[x] != Color::Empty
                && #[trigger] connected(s1.board, x, y) implies s1.group_of[x as usize] == s1.group_of[y as usize] by {
                assert(assigned@[x]);
            }
        }
    }

    /// Remembers the position on the board, unless it is remembered already.
    fn remember_position(&mut self)
        requires
            old(self)@.wf(),
        ensures
            final(self)@ == old(self)@.with_position_remembered(),
            final(self)@.wf(),
            old(self)@.consistent() ==> final(self)@.consistent(),
    {
        let ghost s0 = self@;
        let key = hash(&self.board);
        if !self.seen_before(&key) {
            self.komap.push(key);
        }
        proof {
            let s1 = self@;
            assert(s1.seen =~= s0.remembered());
            assert(s1 == s0.with_position_remembered());
            assert forall|p: int| on_board(p) && s1.board[p] != Color::Empty implies #[trigger] s1.listed(p) by {
                assert(s0.listed(p));
            }
            if s0.consistent() {
                assert forall|p: int| on_board(p) && s1.board[p] != Color::Empty implies #[trigger] s1.grouped(p) by {
                    assert(s0.grouped(p));
                }
            }
        }
    }
}


impl State19 {
    /// Moves the stones and liberties of group `gid` into group `id`.
    #[verifier::spinoff_prover]
    fn absorb(&mut self, id: usize, gid: usize)
        requires
            id != gid,
            old(self)@.members.contains_key(id),
            old(self)@.members.contains_key(gid),
            old(self)@.libs.contains_key(id),
            old(self)@.libs.contains_key(gid),
            old(self)@.tables_ok(),
        ensures
            final(self)@.board == old(self)@.board,
            final(self)@.next_player == old(self)@.next_player,
            final(self)@.seen == old(self)@.seen,
            final(self)@.record == old(self)@.record,
            final(self)@.komi == old(self)@.komi,
            final(self)@.final_score == old(self)@.final_score,
            final(self)@.next_id == old(self)@.next_id,
            final(self)@.members == old(self)@.members.remove(gid).insert(id,
                old(self)@.members[id] + old(self)@.members[gid]),
            final(self)@.libs == old(self)@.libs.remove(gid).insert(id,
                old(self)@.libs[id].union(old(self)@.libs[gid])),
            forall|x: usize| #[trigger] final(self)@.group_of.contains_key(x)
                == (old(self)@.group_of.contains_key(x) || old(self)@.members[gid].contains(x)),
            forall|x: usize| final(self)@.group_of.contains_key(x) ==> #[trigger] final(self)@.group_of[x]
                == (if old(self)@.members[gid].contains(x) { id } else { old(self)@.group_of[x] }),
            final(self)@.tables_ok(),
    {
        let ghost s0 = self@;
        let mut source = members_remove(&mut self.groups, gid).unwrap();
        let ghost src = source@;
        assert(src == s0.members[gid]);
        let mut k: usize = 0;
        while k < source.len()
            invariant
                k <= source@.len(),
                source@ == s0.members[gid],
                s0.tables_ok(),
                s0.members.contains_key(gid),
                self@.board == s0.board,
                self@.members == s0.members.remove(gid),
                self@.libs == s0.libs,
                self.next_player == s0.next_player,
                self.komap == old(self).komap,
                self.record == old(self).record,
                self.komi == old(self).komi,
                self.final_score == s0.final_score,
                self.next_id == s0.next_id,
                src == source@,
                forall|x: usize| #[trigger] self@.group_of.contains_key(x)
                    == (s0.group_of.contains_key(x) || src.take(k as int).contains(x)),
                forall|x: usize| self@.group_of.contains_key(x) ==> #[trigger] self@.group_of[x]
                    == (if src.take(k as int).contains(x) { id } else { s0.group_of[x] }),
            decreases source@.len() - k,
        {
            assert(source@[k as int] < 361);
            let ghost before = self@.group_of;
            let ghost t = src.take(k as int);
            index_insert(&mut self.group_index, source[k], id);
            assert(self@.group_of == before.insert(src[k as int], id));
            assert(src.take(k + 1) =~= t.push(src[k as int]));
            assert forall|x: usize| src.take(k + 1).contains(x) == (t.contains(x) || x == src[k as int]) by {
                let t1 = src.take(k + 1);
                if t1.contains(x) && x != src[k as int] {
                    let i = choose|i: int| 0 <= i < t1.len() && #[trigger] t1[i] == x;
                    assert(t[i] == x);
                }
                if x == src[k as int] {
                    assert(src.take(k + 1)[k as int] == x);
                }
                if t.contains(x) {
                    let i = choose|i: int| 0 <= i < t.len() && t[i] == x;
                    assert(src.take(k + 1)[i] == x);
                }
            }
            assert forall|x: usize| #[trigger] self@.group_of.contains_key(x)
                == (s0.group_of.contains_key(x) || src.take(k + 1).contains(x)) by {
                assert(before.contains_key(x) == (s0.group_of.contains_key(x) || t.contains(x)));
                assert(src.take(k + 1).contains(x) == (t.contains(x) || x == src[k as int]));
            }
            assert forall|x: usize| self@.group_of.contains_key(x) implies #[trigger] self@.group_of[x]
                == (if src.take(k + 1).contains(x) { id } else { s0.group_of[x] }) by {
                assert(src.take(k + 1).contains(x) == (t.contains(x) || x == src[k as int]));
                if x != src[k as int] {
                    assert(before.contains_key(x));
                    assert(before[x] == (if t.contains(x) { id } else { s0.group_of[x] }));
                }
            }
            k = k + 1;
        }
        assert(src.take(k as int) =~= src);
        let ghost gmap = self@.group_of;
        assert forall|x: usize| #[trigger] gmap.contains_key(x) == (s0.group_of.contains_key(x) || src.contains(x)) by {
            assert(src.take(k as int).contains(x) == src.contains(x));
        }
        assert forall|x: usize| gmap.contains_key(x) implies #[trigger] gmap[x]
            == (if src.contains(x) { id } else { s0.group_of[x] }) by {
            assert(src.take(k as int).contains(x) == src.contains(x));
        }
        let mut destination = members_remove(&mut self.groups, id).unwrap();
        destination.append(&mut source);
        members_insert(&mut self.groups, id, destination);
        let mut libs = liberties_remove(&mut self.liberties, gid).unwrap();
        let mut dest_libs = liberties_remove(&mut self.liberties, id).unwrap();
        set_append(&mut dest_libs, &mut libs);
        liberties_insert(&mut self.liberties, id, dest_libs);
        assert(self@.members =~= s0.members.remove(gid).insert(id, s0.members[id] + s0.members[gid]));
        assert(self@.libs =~= s0.libs.remove(gid).insert(id, s0.libs[id].union(s0.libs[gid])));
        assert(self@.seen == s0.seen);
        assert(self@.group_of == gmap);
    }
}


impl State19 {
    /// The neighbours of `pos` that hold `color`, in neighbour order.
    #[verifier::spinoff_prover]
    fn neighbors_of_color(&self, pos: usize, color: Color) -> (v: Vec<usize>)
        requires
            self@.board.len() == 361,
            pos < 361,
        ensures
            forall|i: int| 0 <= i < v@.len() ==> adjacent(pos as int, #[trigger] v@[i] as int)
                && self@.board[v@[i] as int] == color,
            forall|a: int| adjacent(pos as int, a) && self@.board[a] == color ==> #[trigger] v@.contains(a as usize),
            v@.no_duplicates(),
    {
        let neighbors = Pos19(pos).neighbors();
        let ghost np = neighbor_points(pos as int);
        proof { lemma_neighbor_points(pos as int); }
        let mut v: Vec<usize> = Vec::new();
        let mut k: usize = 0;
        while k < neighbors.len()
            invariant
                k <= neighbors@.len(),
                self@.board.len() == 361,
                pos < 361,
                np.len() == neighbors@.len(),
                np.no_duplicates(),
                forall|i: int| 0 <= i < np.len() ==> #[trigger] np[i] == neighbors@[i].0 as int,
                forall|i: int| 0 <= i < np.len() ==> adjacent(pos as int, #[trigger] np[i]),
                forall|i: int| 0 <= i < v@.len() ==> adjacent(pos as int, #[trigger] v@[i] as int)
                    && self@.board[v@[i] as int] == color,
                forall|i: int| 0 <= i < v@.len() ==> exists|j: int| 0 <= j < k && #[trigger] np[j] == #[trigger] v@[i] as int,
                forall|i: int| 0 <= i < k && self@.board[np[i]] == color ==> #[trigger] v@.contains(np[i] as usize),
                v@.no_duplicates(),
            decreases neighbors@.len() - k,
        {
            let n = neighbors[k].0;
            assert(np[k as int] == n as int);
            assert(adjacent(pos as int, n as int));
            if same_color(self.board[n], color) {
                let ghost old_v = v@;
                assert forall|i: int| 0 <= i < old_v.len() implies old_v[i] != n by {
                    let j = choose|j: int| 0 <= j < k && #[trigger] np[j] == old_v[i] as int;
                    assert(np[j] != np[k as int]);
                }
                v.push(n);
                assert forall|i: int| 0 <= i < k + 1 && self@.board[np[i]] == color implies #[trigger] v@.contains(np[i] as usize) by {
                    if i < k {
                        assert(old_v.contains(np[i] as usize));
                        let t = choose|t: int| 0 <= t < old_v.len() && old_v[t] == np[i] as usize;
                        assert(v@[t] == np[i] as usize);
                    } else {
                        assert(v@[old_v.len() as int] == np[i] as usize);
                    }
                }
                assert forall|i: int| 0 <= i < v@.len() implies exists|j: int| 0 <= j < k + 1 && #[trigger] np[j] == #[trigger] v@[i] as int by {
                    if i < old_v.len() {
                        let j = choose|j: int| 0 <= j < k && #[trigger] np[j] == old_v[i] as int;
                        assert(np[j] == v@[i] as int);
                    } else {
                        assert(np[k as int] == v@[i] as int);
                    }
                }
            }
            k = k + 1;
        }
        assert forall|a: int| adjacent(pos as int, a) && self@.board[a] == color implies #[trigger] v@.contains(a as usize) by {
            assert(np.contains(a));
            let i = choose|i: int| 0 <= i < np.len() && np[i] == a;
            assert(self@.board[np[i]] == color);
        }
        v
    }

    /// The empty neighbours of `pos`, as a set.
    #[verifier::spinoff_prover]
    fn empty_neighbors(&self, pos: usize) -> (r: BTreeSet<usize>)
        requires
            self@.board.len() == 361,
            pos < 361,
        ensures
            lib_set(r@) == empty_around(self@.board, pos as int),
            forall|x: usize| #[trigger] r@.contains(x) ==> x < 361,
    {
        let v = self.neighbors_of_color(pos, Color::Empty);
        let mut r: BTreeSet<usize> = BTreeSet::new();
        let mut k: usize = 0;
        while k < v.len()
            invariant
                k <= v@.len(),
                forall|x: usize| #[trigger] r@.contains(x) == v@.take(k as int).contains(x),
            decreases v@.len() - k,
        {
            let ghost before = r@;
            r.insert(v[k]);
            assert(v@.take(k + 1) =~= v@.take(k as int).push(v@[k as int]));
            assert forall|x: usize| #[trigger] r@.contains(x) == v@.take(k + 1).contains(x) by {
                let t = v@.take(k as int);
                if t.contains(x) {
                    let i = choose|i: int| 0 <= i < t.len() && t[i] == x;
                    assert(v@.take(k + 1)[i] == x);
                }
                if v@.take(k + 1).contains(x) && x != v@[k as int] {
                    let t1 = v@.take(k + 1);
                    let i = choose|i: int| 0 <= i < t1.len() && #[trigger] t1[i] == x;
                    assert(t[i] == x);
                }
                if x == v@[k as int] {
                    assert(v@.take(k + 1)[k as int] == x);
                }
            }
            k = k + 1;
        }
        assert(v@.take(k as int) =~= v@);
        assert forall|x: int| lib_set(r@).contains(x) <==> empty_around(self@.board, pos as int).contains(x) by {
            if lib_set(r@).contains(x) {
                let i = choose|i: int| 0 <= i < v@.len() && v@[i] == x as usize;
                assert(adjacent(pos as int, v@[i] as int));
            }
            if empty_around(self@.board, pos as int).contains(x) {
                assert(v@.contains(x as usize));
            }
        }
        assert(lib_set(r@) =~= empty_around(self@.board, pos as int));
        assert forall|x: usize| #[trigger] r@.contains(x) implies x < 361 by {
            let i = choose|i: int| 0 <= i < v@.len() && v@[i] == x;
            assert(adjacent(pos as int, v@[i] as int));
        }
        r
    }
}


impl State19 {
    /// Puts the stone at `pos` into a group: the group of its first neighbour of
    /// `color`, into which the groups of its other neighbours of `color` are
    /// moved, or a new group when it has no such neighbour.  The group's
    /// liberties gain the empty neighbours of `pos` and lose `pos`.  Returns the
    /// group's id.
    #[verifier::spinoff_prover]
    fn merge_groups(&mut self, color: Color, pos: usize) -> (id: usize)
        requires
            old(self)@.board.len() == 361,
            pos < 361,
            color != Color::Empty,
            old(self)@.tables_ok(),
            old(self)@.next_id < usize::MAX,
            forall|p: int| on_board(p) && p != pos && old(self)@.board[p] != Color::Empty
                ==> #[trigger] old(self)@.listed(p),
        ensures
            final(self)@.board == old(self)@.board,
            final(self)@.next_player == old(self)@.next_player,
            final(self)@.seen == old(self)@.seen,
            final(self)@.record == old(self)@.record,
            final(self)@.komi == old(self)@.komi,
            final(self)@.final_score == old(self)@.final_score,
            final(self)@.tables_ok(),
            final(self)@.next_id == old(self)@.next_id || final(self)@.next_id == old(self)@.next_id + 1,
            forall|p: int| on_board(p) && (p == pos || final(self)@.board[p] != Color::Empty)
                ==> #[trigger] final(self)@.listed(p),
            final(self)@.group_of[pos] == id,
            merge_ready(old(self)@, pos as int, color) ==> final(self)@.after_merge(pos as int),
    {
        let ghost s0 = self@;
        let ghost b1 = s0.board;
        let ghost b0 = b1.update(pos as int, Color::Empty);
        let ghost c0 = s0.with_board(b0);
        let ghost sem = merge_ready(s0, pos as int, color);
        let allies = self.neighbors_of_color(pos, color);
        let id: usize;
        if allies.len() > 0 {
            let first = allies[0];
            assert(adjacent(pos as int, first as int));
            assert(s0.listed(first as int));
            id = index_get(&self.group_index, first).unwrap();
            proof {
                if sem {
                    lemma_merge_init(c0, s0, allies@, pos as int, color, id);
                }
            }
            let mut j: usize = 0;
            while j < allies.len()
                invariant
                    0 <= j <= allies@.len(),
                    allies@.len() > 0,
                    b1 == s0.board,
                    b0 == b1.update(pos as int, Color::Empty),
                    c0 == s0.with_board(b0),
                    sem == merge_ready(s0, pos as int, color),
                    b1.len() == 361,
                    pos < 361,
                    color != Color::Empty,
                    forall|i: int| 0 <= i < allies@.len() ==> adjacent(pos as int, #[trigger] allies@[i] as int)
                        && b1[allies@[i] as int] == color,
                    self@.board == b1,
                    self@.next_player == s0.next_player,
                    self@.seen == s0.seen,
                    self@.record == s0.record,
                    self@.komi == s0.komi,
                    self@.final_score == s0.final_score,
                    self@.next_id == s0.next_id,
                    self@.tables_ok(),
                    self@.members.contains_key(id),
                    self@.libs.contains_key(id),
                    forall|p: int| on_board(p) && p != pos && b1[p] != Color::Empty ==> #[trigger] self@.listed(p),
                    sem ==> c0.consistent() && allies_ok(b0, allies@, pos as int, color)
                        && merge_progress(s0, self@, b0, allies@, if j == 0 { 1int } else { j as int }, id),
                decreases allies@.len() - j,
            {
                let ally = allies[j];
                assert(adjacent(pos as int, ally as int));
                assert(self@.listed(ally as int));
                let gid = index_get(&self.group_index, ally).unwrap();
                let ghost s1 = self@;
                let ghost n = if j == 0 { 1int } else { j as int };
                proof {
                    if sem {
                        if j == 0 {
                            lemma_connected_refl(b0, ally as int);
                            assert(reached(b0, allies@, 1).contains(ally as int));
                        }
                        assert(b0[ally as int] != Color::Empty);
                        if !reached(b0, allies@, n).contains(ally as int) {
                            assert(s1.group_of[ally as usize] == s0.group_of[ally as usize]);
                        }
                    }
                }
                if gid != id {
                    self.absorb(id, gid);
                    proof {
                        // Every stone stays on record.
                        assert forall|p: int| on_board(p) && p != pos && b1[p] != Color::Empty implies #[trigger] self@.listed(p) by {
                            assert(s1.listed(p));
                            let k = p as usize;
                            lemma_member_set_concat(s1.members[id], s1.members[gid]);
                            lemma_member_set_contains(s1.members[id], k);
                            lemma_member_set_contains(s1.members[gid], k);
                            lemma_member_set_contains(s1.members[id] + s1.members[gid], k);
                        }
                        if sem {
                            lemma_merge_absorb(c0, s0, s1, self@, allies@, pos as int, color, j as int, id, gid);
                        }
                    }
                } else {
                    proof {
                        if sem {
                            lemma_merge_skip(s0, s1, b0, allies@, j as int, id);
                        }
                    }
                }
                j = j + 1;
            }
            let ghost sl = self@;
            // The chain that the stone joins.
            let ghost u = reached(b0, allies@, allies@.len() as int);
            proof {
                if sem {
                    assert(allies@.len() as int == (if j == 0 { 1int } else { j as int }));
                    assert forall|x: int| #[trigger] u.contains(x) == grown(b0, pos as int, color).remove(pos as int).contains(x) by {
                        if u.contains(x) {
                            let i = choose|i: int| #![trigger allies@[i]] 0 <= i < allies@.len() && connected(b0, allies@[i] as int, x);
                            let a = allies@[i] as int;
                            lemma_connected_sym(b0, a, x);
                            assert(adjacent(pos as int, a) && b0[a] == color && connected(b0, a, x));
                        }
                        if grown(b0, pos as int, color).remove(pos as int).contains(x) {
                            let a = choose|a: int| #![trigger adjacent(pos as int, a), connected(b0, a, x)]
                                adjacent(pos as int, a) && b0[a] == color && connected(b0, a, x);
                            assert(b1[a] == color);
                            assert(allies@.contains(a as usize));
                            let i = choose|i: int| 0 <= i < allies@.len() && allies@[i] == a as usize;
                            assert(allies@[i] as int == a);
                        }
                    }
                    assert(u =~= grown(b0, pos as int, color).remove(pos as int));
                }
            }
            let mut destination = members_remove(&mut self.groups, id).unwrap();
            destination.push(pos);
            members_insert(&mut self.groups, id, destination);
            index_insert(&mut self.group_index, pos, id);
            let empty = self.empty_neighbors(pos);
            let ghost e_view = empty@;
            let mut dest_libs = liberties_remove(&mut self.liberties, id).unwrap();
            let mut e = empty;
            set_append(&mut dest_libs, &mut e);
            dest_libs.remove(&pos);
            liberties_insert(&mut self.liberties, id, dest_libs);
            proof {
                let s2 = self@;
                assert(s2.members =~= sl.members.insert(id, sl.members[id].push(pos)));
                assert(s2.group_of == sl.group_of.insert(pos, id));
                assert(s2.libs =~= sl.libs.insert(id, sl.libs[id].union(e_view).remove(pos)));
                assert(sl.members[id].push(pos) =~= sl.members[id] + seq![pos]);
                assert(s2.members =~= sl.members.insert(id, sl.members[id] + seq![pos]));
                assert(s2.board == s0.board);
                lemma_member_set_concat(sl.members[id], seq![pos]);
                lemma_member_set_single(pos);
                assert forall|p: int| on_board(p) && (p == pos || s2.board[p] != Color::Empty) implies #[trigger] s2.listed(p) by {
                    if p != pos {
                        assert(sl.listed(p));
                        let k = p as usize;
                        if sl.group_of[k] == id {
                            lemma_member_set_contains(sl.members[id], k);
                            lemma_member_set_contains(sl.members[id] + seq![pos], k);
                        }
                    } else {
                        lemma_member_set_contains(sl.members[id] + seq![pos], pos);
                    }
                }
                assert forall|g: usize, k: int| s2.members.contains_key(g) && 0 <= k < s2.members[g].len()
                    implies #[trigger] s2.members[g][k] < 361 by {
                    if g == id && k < sl.members[id].len() {
                        assert(s2.members[g][k] == sl.members[id][k]);
                    }
                }
                if sem {
                    lemma_merge_finish(c0, s0, sl, s2, allies@, pos, color, id, e_view);
                }
            }
            return id;
        } else {
            id = self.next_id;
            self.next_id = self.next_id + 1;
            let mut v: Vec<usize> = Vec::new();
            v.push(pos);
            members_insert(&mut self.groups, id, v);
            index_insert(&mut self.group_index, pos, id);
            let libs = self.empty_neighbors(pos);
            let ghost e_view = libs@;
            liberties_insert(&mut self.liberties, id, libs);
            proof {
                let s2 = self@;
                assert(s2.members == s0.members.insert(id, seq![pos]));
                assert(s2.group_of == s0.group_of.insert(pos, id));
                assert(s2.libs == s0.libs.insert(id, e_view));
                assert(s2.board == b1);
                lemma_member_set_single(pos);
                assert forall|p: int| on_board(p) && (p == pos || s2.board[p] != Color::Empty) implies #[trigger] s2.listed(p) by {
                    if p != pos {
                        assert(s0.listed(p));
                        assert(s0.members.contains_key(s0.group_of[p as usize]));
                    } else {
                        assert(seq![pos][0] == pos);
                    }
                }
                assert forall|g: usize, k: int| s2.members.contains_key(g) && 0 <= k < s2.members[g].len()
                    implies #[trigger] s2.members[g][k] < 361 by {
                }
                if sem {
                    assert forall|a: int| adjacent(pos as int, a) implies b0[a] != color by {
                        if b0[a] == color {
                            assert(b1[a] == color);
                            assert(allies@.contains(a as usize));
                        }
                    }
                    lemma_merge_new(c0, s0, s2, pos, color, id, e_view);
                }
            }
            return id;
        }
    }
}


impl State19 {
    /// Gives the point `idx` to the liberties of every group with a stone next
    /// to it.
    #[verifier::spinoff_prover]
    fn give_liberty(&mut self, idx: usize)
        requires
            old(self)@.board.len() == 361,
            idx < 361,
            old(self)@.tables_ok(),
            forall|p: int| on_board(p) && old(self)@.board[p] != Color::Empty ==> #[trigger] old(self)@.listed(p),
        ensures
            final(self)@.board == old(self)@.board,
            final(self)@.next_player == old(self)@.next_player,
            final(self)@.seen == old(self)@.seen,
            final(self)@.record == old(self)@.record,
            final(self)@.komi == old(self)@.komi,
            final(self)@.final_score == old(self)@.final_score,
            final(self)@.next_id == old(self)@.next_id,
            final(self)@.group_of == old(self)@.group_of,
            final(self)@.members == old(self)@.members,
            final(self)@.libs.dom() == old(self)@.libs.dom(),
            forall|h: usize| old(self)@.libs.contains_key(h) ==> #[trigger] final(self)@.libs[h]
                == (if touches(stones_of(old(self)@, h), idx as int) { old(self)@.libs[h].insert(idx) } else { old(self)@.libs[h] }),
    {
        let ghost s0 = self@;
        let neighbors = Pos19(idx).neighbors();
        let ghost np = neighbor_points(idx as int);
        proof { lemma_neighbor_points(idx as int); }
        let mut k: usize = 0;
        while k < neighbors.len()
            invariant
                k <= neighbors@.len(),
                idx < 361,
                np.len() == neighbors@.len(),
                forall|i: int| 0 <= i < np.len() ==> #[trigger] np[i] == neighbors@[i].0 as int,
                forall|i: int| 0 <= i < np.len() ==> adjacent(idx as int, #[trigger] np[i]),
                s0.board.len() == 361,
                s0.tables_ok(),
                forall|p: int| on_board(p) && s0.board[p] != Color::Empty ==> #[trigger] s0.listed(p),
                self@.board == s0.board,
                self@.next_player == s0.next_player,
                self@.seen == s0.seen,
                self@.record == s0.record,
                self@.komi == s0.komi,
                self@.final_score == s0.final_score,
                self@.next_id == s0.next_id,
                self@.group_of == s0.group_of,
                self@.members == s0.members,
                self@.libs.dom() == s0.libs.dom(),
                forall|h: usize| s0.libs.contains_key(h) ==> #[trigger] self@.libs[h]
                    == (if exists|t: int| 0 <= t < k && #[trigger] stones_of(s0, h).contains(np[t]) { s0.libs[h].insert(idx) } else { s0.libs[h] }),
            decreases neighbors@.len() - k,
        {
            let n = neighbors[k].0;
            assert(np[k as int] == n as int);
            if !same_color(self.board[n], Color::Empty) {
                assert(s0.listed(n as int));
                let gid = index_get(&self.group_index, n).unwrap();
                let ghost before = self@.libs;
                let mut l = liberties_remove(&mut self.liberties, gid).unwrap();
                l.insert(idx);
                liberties_insert(&mut self.liberties, gid, l);
                assert(self@.libs == before.insert(gid, before[gid].insert(idx)));
                assert forall|h: usize| s0.libs.contains_key(h) implies #[trigger] self@.libs[h]
                    == (if exists|t: int| 0 <= t < k + 1 && #[trigger] stones_of(s0, h).contains(np[t]) { s0.libs[h].insert(idx) } else { s0.libs[h] }) by {
                    if h == gid {
                        assert(stones_of(s0, h).contains(np[k as int]));
                        if exists|t: int| 0 <= t < k && #[trigger] stones_of(s0, h).contains(np[t]) {
                            assert(s0.libs[h].insert(idx).insert(idx) =~= s0.libs[h].insert(idx));
                        }
                    } else {
                        if exists|t: int| 0 <= t < k + 1 && #[trigger] stones_of(s0, h).contains(np[t]) {
                            let t = choose|t: int| 0 <= t < k + 1 && #[trigger] stones_of(s0, h).contains(np[t]);
                            if t == k {
                                assert(s0.group_of[n] == gid);
                            }
                        }
                    }
                }
            } else {
                assert forall|h: usize| s0.libs.contains_key(h) implies #[trigger] self@.libs[h]
                    == (if exists|t: int| 0 <= t < k + 1 && #[trigger] stones_of(s0, h).contains(np[t]) { s0.libs[h].insert(idx) } else { s0.libs[h] }) by {
                    if exists|t: int| 0 <= t < k + 1 && #[trigger] stones_of(s0, h).contains(np[t]) {
                        let t = choose|t: int| 0 <= t < k + 1 && #[trigger] stones_of(s0, h).contains(np[t]);
                        assert(t != k);
                    }
                }
            }
            k = k + 1;
        }
        assert forall|h: usize| s0.libs.contains_key(h) implies
            (exists|t: int| 0 <= t < np.len() && #[trigger] stones_of(s0, h).contains(np[t])) == touches(stones_of(s0, h), idx as int) by {
            let st = stones_of(s0, h);
            if exists|t: int| 0 <= t < np.len() && #[trigger] st.contains(np[t]) {
                let t = choose|t: int| 0 <= t < np.len() && #[trigger] st.contains(np[t]);
                lemma_adjacent_sym(idx as int, np[t]);
                assert(st.contains(np[t]) && adjacent(np[t], idx as int));
            }
            if touches(st, idx as int) {
                let m = choose|m: int| #![trigger st.contains(m), adjacent(m, idx as int)] st.contains(m) && adjacent(m, idx as int);
                lemma_adjacent_sym(m, idx as int);
                assert(np.contains(m));
                let t = choose|t: int| 0 <= t < np.len() && np[t] == m;
                assert(st.contains(np[t]));
            }
        }
    }
}


impl State19 {
    /// Empties the points of group `id`, gives each of them to the liberties of
    /// the groups next to it, and leaves the group without stones.
    #[verifier::spinoff_prover]
    fn clear_group(&mut self, id: usize)
        requires
            old(self)@.board.len() == 361,
            old(self)@.tables_ok(),
            old(self)@.members.contains_key(id),
            forall|p: int| on_board(p) && old(self)@.board[p] != Color::Empty ==> #[trigger] old(self)@.listed(p),
        ensures
            final(self)@.board == cleared(old(self)@.board, member_set(old(self)@.members[id])),
            final(self)@.members == old(self)@.members.insert(id, Seq::empty()),
            final(self)@.group_of == old(self)@.group_of,
            final(self)@.libs.dom() == old(self)@.libs.dom(),
            forall|h: usize| old(self)@.libs.contains_key(h) ==> #[trigger] final(self)@.libs[h]
                == old(self)@.libs[h].union(freed_for(final(self)@, member_set(old(self)@.members[id]), h)),
            final(self)@.next_player == old(self)@.next_player,
            final(self)@.seen == old(self)@.seen,
            final(self)@.record == old(self)@.record,
            final(self)@.komi == old(self)@.komi,
            final(self)@.final_score == old(self)@.final_score,
            final(self)@.next_id == old(self)@.next_id,
            final(self)@.tables_ok(),
            forall|p: int| on_board(p) && final(self)@.board[p] != Color::Empty ==> #[trigger] final(self)@.listed(p),
    {
        let ghost s0 = self@;
        let members = members_remove(&mut self.groups, id).unwrap();
        let ghost ms = members@;
        let mut i: usize = 0;
        while i < members.len()
            invariant
                i <= members@.len(),
                members@ == ms,
                ms == s0.members[id],
                s0.tables_ok(),
                s0.members.contains_key(id),
                self@.board.len() == 361,
                forall|x: int| 0 <= x < 361 ==> #[trigger] self@.board[x]
                    == (if member_set(ms.take(i as int)).contains(x) { Color::Empty } else { s0.board[x] }),
                self@.members == s0.members.remove(id),
                self@.group_of == s0.group_of,
                self@.libs == s0.libs,
                self@.next_player == s0.next_player,
                self@.seen == s0.seen,
                self@.record == s0.record,
                self@.komi == s0.komi,
                self@.final_score == s0.final_score,
                self@.next_id == s0.next_id,
            decreases members@.len() - i,
        {
            let m = members[i];
            assert(ms[i as int] == s0.members[id][i as int]);
            assert(m < 361);
            self.board.set(m, Color::Empty);
            proof {
                assert(ms.take(i + 1) =~= ms.take(i as int) + seq![m]);
                lemma_member_set_concat(ms.take(i as int), seq![m]);
                lemma_member_set_single(m);
            }
            i = i + 1;
        }
        assert(ms.take(i as int) =~= ms);
        let ghost s1 = self@;
        assert(s1.board =~= cleared(s0.board, member_set(ms)));
        proof {
            assert forall|p: int| on_board(p) && s1.board[p] != Color::Empty implies #[trigger] s1.listed(p) by {
                assert(s0.listed(p));
                assert(!member_set(ms).contains(p));
                lemma_member_set_contains(ms, p as usize);
            }
        }
        let mut i: usize = 0;
        while i < members.len()
            invariant
                i <= members@.len(),
                members@ == ms,
                ms == s0.members[id],
                s0.tables_ok(),
                s0.members.contains_key(id),
                s1.board.len() == 361,
                s1.tables_ok(),
                forall|p: int| on_board(p) && s1.board[p] != Color::Empty ==> #[trigger] s1.listed(p),
                self@.board == s1.board,
                self@.members == s1.members,
                self@.group_of == s1.group_of,
                self@.next_player == s0.next_player,
                self@.seen == s0.seen,
                self@.record == s0.record,
                self@.komi == s0.komi,
                self@.final_score == s0.final_score,
                self@.next_id == s0.next_id,
                self@.libs.dom() == s0.libs.dom(),
                s1.libs == s0.libs,
                s1.next_id == s0.next_id,
                forall|h: usize| s0.libs.contains_key(h) ==> #[trigger] self@.libs[h]
                    == s0.libs[h].union(freed_for(s1, member_set(ms.take(i as int)), h)),
            decreases members@.len() - i,
        {
            let m = members[i];
            assert(ms[i as int] == s0.members[id][i as int]);
            assert(m < 361);
            let ghost sc = self@;
            proof {
                assert forall|p: int| on_board(p) && sc.board[p] != Color::Empty implies #[trigger] sc.listed(p) by {
                    assert(s1.listed(p));
                }
            }
            self.give_liberty(m);
            proof {
                lemma_member_set_concat(ms.take(i as int), seq![m]);
                lemma_member_set_single(m);
                assert(ms.take(i + 1) =~= ms.take(i as int) + seq![m]);
                assert forall|h: usize| s0.libs.contains_key(h) implies #[trigger] self@.libs[h]
                    == s0.libs[h].union(freed_for(s1, member_set(ms.take(i + 1)), h)) by {
                    assert(stones_of(sc, h) =~= stones_of(s1, h));
                    let f0 = freed_for(s1, member_set(ms.take(i as int)), h);
                    let f1 = freed_for(s1, member_set(ms.take(i + 1)), h);
                    if touches(stones_of(s1, h), m as int) {
                        assert(f1 =~= f0.insert(m));
                    } else {
                        assert(f1 =~= f0);
                    }
                }
            }
            i = i + 1;
        }
        assert(ms.take(i as int) =~= ms);
        members_insert(&mut self.groups, id, Vec::new());
        proof {
            let s2 = self@;
            assert(s2.members =~= s0.members.insert(id, Seq::empty()));
            assert forall|h: usize| s0.libs.contains_key(h) implies #[trigger] s2.libs[h]
                == s0.libs[h].union(freed_for(s2, member_set(ms), h)) by {
                assert(stones_of(s2, h) =~= stones_of(s1, h));
                assert(freed_for(s2, member_set(ms), h) =~= freed_for(s1, member_set(ms), h));
            }
            assert forall|p: int| on_board(p) && s2.board[p] != Color::Empty implies #[trigger] s2.listed(p) by {
                assert(s1.listed(p));
            }
            assert forall|g: usize, k: int| s2.members.contains_key(g) && 0 <= k < s2.members[g].len()
                implies #[trigger] s2.members[g][k] < 361 by {
            }
        }
    }
}


impl State19 {
    /// Whether the point has an empty neighbour.
    fn has_empty_neighbor(&self, x: usize) -> (r: bool)
        requires
            self@.board.len() == 361,
            x < 361,
        ensures
            r == exists|y: int| #[trigger] adjacent(x as int, y) && self@.board[y] == Color::Empty,
    {
        let v = self.neighbors_of_color(x, Color::Empty);
        if v.len() > 0 {
            assert(adjacent(x as int, v@[0] as int));
            true
        } else {
            assert forall|y: int| !(#[trigger] adjacent(x as int, y) && self@.board[y] == Color::Empty) by {
                if adjacent(x as int, y) && self@.board[y] == Color::Empty {
                    assert(v@.contains(y as usize));
                }
            }
            false
        }
    }

    /// The empty region of the empty point `start`, and whether it borders black
    /// and white stones.
    /// The empty region of the empty point `start`, and whether it borders black
    /// and white stones.
    fn empty_region(&self, start: usize) -> (r: (Vec<bool>, bool, bool))
        requires
            self@.board.len() == 361,
            start < 361,
            self@.board[start as int] == Color::Empty,
        ensures
            r.0@.len() == 361,
            seen_set(r.0@) == chain(self@.board, start as int),
            r.1 == borders(self@.board, chain(self@.board, start as int), Color::Black),
            r.2 == borders(self@.board, chain(self@.board, start as int), Color::White),
    {
        region(&self.board, start, Color::Black, Color::White)
    }
}

/// A set of points has no liberty exactly when none of its points borders an
/// empty point.
proof fn lemma_no_liberty(b: Seq<Color>, s: Set<int>)
    ensures
        (liberties(b, s) == Set::<int>::empty()) == !borders(b, s, Color::Empty),
{
    if borders(b, s, Color::Empty) {
        let (m, y) = choose|m: int, y: int| #![trigger s.contains(m), adjacent(m, y)]
            s.contains(m) && adjacent(m, y) && b[y] == Color::Empty;
        assert(liberties(b, s).contains(y));
    } else {
        assert forall|x: int| !liberties(b, s).contains(x) by {
            if liberties(b, s).contains(x) {
                let m = choose|m: int| #![trigger s.contains(m), adjacent(m, x)] s.contains(m) && adjacent(m, x);
                assert(s.contains(m) && adjacent(m, x) && b[x] == Color::Empty);
            }
        }
        assert(liberties(b, s) =~= Set::<int>::empty());
    }
}

/// The stone at `x` belongs to the chain of the neighbour `n` of `pos`, and that
/// chain is of the other colour and has no liberty.
pub open spec fn captured_via(b1: Seq<Color>, pos: int, n: int, x: int) -> bool {
    &&& b1[n] != Color::Empty
    &&& b1[n] != b1[pos]
    &&& liberties(b1, chain(b1, n)) == Set::<int>::empty()
    &&& chain(b1, n).contains(x)
}

/// A stone is captured exactly when it is in a libertyless chain of the other
/// colour next to the new stone.
proof fn lemma_captured_via(b1: Seq<Color>, pos: int, x: int)
    requires
        b1.len() == 361,
        on_board(pos),
    ensures
        captured(b1, pos, x) == exists|i: int| 0 <= i < neighbor_points(pos).len()
            && #[trigger] captured_via(b1, pos, neighbor_points(pos)[i], x),
{
    let np = neighbor_points(pos);
    lemma_neighbor_points(pos);
    if captured(b1, pos, x) {
        let ch = chain(b1, x);
        let m = choose|m: int| #![trigger ch.contains(m), adjacent(m, pos)] ch.contains(m) && adjacent(m, pos);
        lemma_adjacent_sym(m, pos);
        assert(np.contains(m));
        let i = choose|i: int| 0 <= i < np.len() && np[i] == m;
        lemma_connected_sym(b1, x, m);
        lemma_chain_same(b1, x, m);
        lemma_connected_refl(b1, x);
        assert(captured_via(b1, pos, np[i], x));
    }
    if exists|i: int| 0 <= i < np.len() && #[trigger] captured_via(b1, pos, np[i], x) {
        let i = choose|i: int| 0 <= i < np.len() && #[trigger] captured_via(b1, pos, np[i], x);
        let n = np[i];
        assert(adjacent(pos, n));
        lemma_adjacent_sym(pos, n);
        assert(connected(b1, n, x));
        lemma_connected_sym(b1, n, x);
        lemma_chain_same(b1, n, x);
        lemma_connected_refl(b1, n);
        assert(chain(b1, x).contains(n) && adjacent(n, pos));
        assert(touches(chain(b1, x), pos));
    }
}

/// Whether two boards hold the same colours.
fn same_board(a: &Vec<Color>, b: &Vec<Color>) -> (r: bool)
    ensures
        r == (a@ == b@),
{
    if a.len() != b.len() {
        return false;
    }
    let mut i: usize = 0;
    while i < a.len()
        invariant
            i <= a@.len(),
            a@.len() == b@.len(),
            forall|k: int| 0 <= k < i ==> a@[k] == b@[k],
        decreases a@.len() - i,
    {
        if !same_color(a[i], b[i]) {
            return false;
        }
        i = i + 1;
    }
    assert(a@ =~= b@);
    true
}

/// A copy of a board.
fn copy_board(board: &Vec<Color>) -> (v: Vec<Color>)
    ensures
        v@ == board@,
{
    let mut v: Vec<Color> = Vec::new();
    let mut i: usize = 0;
    while i < board.len()
        invariant
            i <= board@.len(),
            v@ == board@.take(i as int),
        decreases board@.len() - i,
    {
        v.push(board[i]);
        i = i + 1;
        assert(v@ =~= board@.take(i as int));
    }
    assert(board@.take(i as int) =~= board@);
    v
}

/// The board with the points of `mask` emptied.
fn clear_marked(board: &Vec<Color>, mask: &Vec<bool>) -> (v: Vec<Color>)
    requires
        board@.len() == 361,
        mask@.len() == 361,
    ensures
        v@ == Seq::new(361, |x: int| if mask@[x] { Color::Empty } else { board@[x] }),
{
    let mut v: Vec<Color> = Vec::new();
    let mut i: usize = 0;
    while i < 361
        invariant
            i <= 361,
            board@.len() == 361,
            mask@.len() == 361,
            v@ == Seq::new(i as nat, |x: int| if mask@[x] { Color::Empty } else { board@[x] }),
        decreases 361 - i,
    {
        if mask[i] {
            v.push(Color::Empty);
        } else {
            v.push(board[i]);
        }
        i = i + 1;
        assert(v@ =~= Seq::new(i as nat, |x: int| if mask@[x] { Color::Empty } else { board@[x] }));
    }
    v
}

/// The board after a play of colour `c` at the empty point `pos`, computed from
/// the board alone: the stone, then the captures, then the stone's own chain if
/// it has no liberty.
#[verifier::spinoff_prover]
fn board_after_play(board: &Vec<Color>, pos: usize, c: Color) -> (nb: Vec<Color>)
    requires
        board@.len() == 361,
        pos < 361,
        board@[pos as int] == Color::Empty,
        c != Color::Empty,
    ensures
        nb@ == play_board(board@, pos as int, c),
{
    let ghost b0 = board@;
    let mut b1 = copy_board(board);
    b1.set(pos, c);
    let ghost g1 = b1@;
    assert(g1 == b0.update(pos as int, c));
    let mut cap: Vec<bool> = Vec::new();
    let mut i: usize = 0;
    while i < 361
        invariant
            i <= 361,
            cap@ == Seq::new(i as nat, |x: int| false),
        decreases 361 - i,
    {
        cap.push(false);
        i = i + 1;
        assert(cap@ =~= Seq::new(i as nat, |x: int| false));
    }
    let neighbors = Pos19(pos).neighbors();
    let ghost np = neighbor_points(pos as int);
    proof {
        lemma_neighbor_points(pos as int);
    }
    let mut k: usize = 0;
    while k < neighbors.len()
        invariant
            k <= neighbors@.len(),
            g1 == b1@,
            g1.len() == 361,
            pos < 361,
            g1[pos as int] == c,
            c != Color::Empty,
            np == neighbor_points(pos as int),
            np.len() == neighbors@.len(),
            forall|j: int| 0 <= j < np.len() ==> #[trigger] np[j] == neighbors@[j].0 as int,
            forall|j: int| 0 <= j < np.len() ==> on_board(#[trigger] np[j]),
            cap@.len() == 361,
            forall|x: int| 0 <= x < 361 ==> (#[trigger] cap@[x] <==>
                exists|j: int| 0 <= j < k && #[trigger] captured_via(g1, pos as int, np[j], x)),
        decreases neighbors@.len() - k,
    {
        let n = neighbors[k].0;
        assert(np[k as int] == n as int);
        let bn = b1[n];
        let ghost cap0 = cap@;
        if !same_color(bn, Color::Empty) && !same_color(bn, c) {
            let (seen, lib, _) = region(&b1, n, Color::Empty, Color::Empty);
            proof {
                lemma_no_liberty(g1, chain(g1, n as int));
            }
            if !lib {
                let mut x: usize = 0;
                while x < 361
                    invariant
                        x <= 361,
                        cap@.len() == 361,
                        seen@.len() == 361,
                        forall|y: int| 0 <= y < 361 ==> #[trigger] cap@[y] ==
                            (cap0[y] || (y < x && seen@[y])),
                    decreases 361 - x,
                {
                    if seen[x] {
                        cap.set(x, true);
                    }
                    x = x + 1;
                }
                proof {
                    assert forall|y: int| 0 <= y < 361 implies (#[trigger] cap@[y] <==>
                        exists|j: int| 0 <= j < k + 1 && #[trigger] captured_via(g1, pos as int, np[j], y)) by {
                        assert(seen_set(seen@).contains(y) == seen@[y]);
                        if cap@[y] && !cap0[y] {
                            assert(captured_via(g1, pos as int, np[k as int], y));
                        }
                        if exists|j: int| 0 <= j < k + 1 && #[trigger] captured_via(g1, pos as int, np[j], y) {
                            let j = choose|j: int| 0 <= j < k + 1 && #[trigger] captured_via(g1, pos as int, np[j], y);
                            if j == k {
                                assert(chain(g1, n as int).contains(y));
                            }
                        }
                    }
                }
            } else {
                proof {
                    assert forall|y: int| 0 <= y < 361 implies (#[trigger] cap@[y] <==>
                        exists|j: int| 0 <= j < k + 1 && #[trigger] captured_via(g1, pos as int, np[j], y)) by {
                        if exists|j: int| 0 <= j < k + 1 && #[trigger] captured_via(g1, pos as int, np[j], y) {
                            let j = choose|j: int| 0 <= j < k + 1 && #[trigger] captured_via(g1, pos as int, np[j], y);
                            if j == k {
                                assert(false);
                            }
                        }
                    }
                }
            }
        } else {
            proof {
                assert forall|y: int| 0 <= y < 361 implies (#[trigger] cap@[y] <==>
                    exists|j: int| 0 <= j < k + 1 && #[trigger] captured_via(g1, pos as int, np[j], y)) by {
                    if exists|j: int| 0 <= j < k + 1 && #[trigger] captured_via(g1, pos as int, np[j], y) {
                        let j = choose|j: int| 0 <= j < k + 1 && #[trigger] captured_via(g1, pos as int, np[j], y);
                        if j == k {
                            assert(false);
                        }
                    }
                }
            }
        }
        k = k + 1;
    }
    let b2 = clear_marked(&b1, &cap);
    let ghost g2 = b2@;
    proof {
        assert forall|x: int| 0 <= x < 361 implies #[trigger] g2[x] == after_captures(g1, pos as int)[x] by {
            lemma_captured_via(g1, pos as int, x);
        }
        assert(g2 =~= after_captures(g1, pos as int));
        assert(!captured(g1, pos as int, pos as int));
    }
    let (own, lib2, _) = region(&b2, pos, Color::Empty, Color::Empty);
    proof {
        lemma_no_liberty(g2, chain(g2, pos as int));
    }
    if lib2 {
        b2
    } else {
        let b3 = clear_marked(&b2, &own);
        proof {
            assert forall|x: int| 0 <= x < 361 implies #[trigger] b3@[x] == cleared(g2, chain(g2, pos as int))[x] by {
                assert(seen_set(own@).contains(x) == own@[x]);
            }
            assert(b3@ =~= cleared(g2, chain(g2, pos as int)));
        }
        b3
    }
}

/// The chain of the point `start`, and whether it borders points of colour
/// `t1` and of colour `t2` (neither of them the chain's own colour).
#[verifier::spinoff_prover]
pub(crate) fn region(board: &Vec<Color>, start: usize, t1: Color, t2: Color) -> (r: (Vec<bool>, bool, bool))
    requires
        board@.len() == 361,
        start < 361,
        t1 != board@[start as int],
        t2 != board@[start as int],
    ensures
        r.0@.len() == 361,
        seen_set(r.0@) == chain(board@, start as int),
        r.1 == borders(board@, chain(board@, start as int), t1),
        r.2 == borders(board@, chain(board@, start as int), t2),
{
    let ghost b = board@;
    let c0 = board[start];
    let ghost st = start as int;
    let mut seen: Vec<bool> = Vec::new();
    let mut i: usize = 0;
    while i < 361
        invariant
            i <= 361,
            seen@ == Seq::new(i as nat, |k: int| k == st),
            st == start as int,
        decreases 361 - i,
    {
        seen.push(i == start);
        i = i + 1;
        assert(seen@ =~= Seq::new(i as nat, |k: int| k == st));
    }
    let mut stack: Vec<usize> = Vec::new();
    stack.push(start);
    let mut visited: usize = 1;
    let mut black = false;
    let mut white = false;
    proof {
        lemma_connected_refl(b, st);
        assert(seen_set(seen@) =~= set![st]);
        assert(stack@[0] == start);
        assert(stack@.contains(start));
        let s0 = seen_set(seen@);
        assert forall|z: int| s0.contains(z) implies stack@.contains(z as usize) by {}
    }
    while stack.len() > 0
        invariant
            b == board@,
            b.len() == 361,
            on_board(st),
            b[st] == c0,
            t1 != c0,
            t2 != c0,
            seen@.len() == 361,
            seen_set(seen@).contains(st),
            seen_set(seen@).finite(),
            seen_set(seen@).len() == visited,
            visited <= 361,
            forall|z: int| #[trigger] seen_set(seen@).contains(z) ==> connected(b, st, z),
            forall|j: int| 0 <= j < stack@.len() ==> #[trigger] seen_set(seen@).contains(stack@[j] as int),
            stack@.no_duplicates(),
            stack@.len() <= visited,
            expanded_in(b, seen_set(seen@), stack@, c0),
            black == done_borders(b, seen_set(seen@), stack@, t1),
            white == done_borders(b, seen_set(seen@), stack@, t2),
        decreases 2 * (361 - visited) + stack@.len(),
    {
        let ghost s0 = seen_set(seen@);
        let ghost stack0 = stack@;
        let ghost visited0 = visited;
        let x = stack.pop().unwrap();
        let ghost rest = stack@;
        assert(stack0 == rest.push(x));
        assert(stack0[stack0.len() - 1] == x);
        assert(s0.contains(x as int));
        assert(!rest.contains(x)) by {
            if rest.contains(x) {
                let j = choose|j: int| 0 <= j < rest.len() && rest[j] == x;
                assert(stack0[j] == stack0[stack0.len() - 1]);
            }
        }
        let neighbors = Pos19(x).neighbors();
        let ghost np = neighbor_points(x as int);
        proof {
            lemma_connected_sym(b, st, x as int);
            lemma_neighbor_points(x as int);
        }
        let ghost black0 = black;
        let ghost white0 = white;
        let mut k: usize = 0;
        while k < neighbors.len()
            invariant
                b == board@,
                b.len() == 361,
                on_board(st),
                b[x as int] == c0,
                t1 != c0,
                t2 != c0,
                on_board(x as int),
                connected(b, st, x as int),
                k <= neighbors@.len(),
                np.len() == neighbors@.len(),
                forall|i: int| 0 <= i < np.len() ==> #[trigger] np[i] == neighbors@[i].0 as int,
                forall|i: int| 0 <= i < np.len() ==> adjacent(x as int, #[trigger] np[i]),
                seen@.len() == 361,
                s0.subset_of(seen_set(seen@)),
                s0.contains(x as int),
                seen_set(seen@).finite(),
                seen_set(seen@).len() == visited,
                visited <= 361,
                visited - visited0 == stack@.len() - rest.len(),
                forall|z: int| #[trigger] seen_set(seen@).contains(z) ==> connected(b, st, z),
                forall|j: int| 0 <= j < stack@.len() ==> #[trigger] seen_set(seen@).contains(stack@[j] as int),
                stack@.no_duplicates(),
                rest.len() <= stack@.len(),
                stack@.subrange(0, rest.len() as int) == rest,
                forall|j: int| rest.len() <= j < stack@.len() ==> !s0.contains(#[trigger] stack@[j] as int),
                forall|z: int| #[trigger] seen_set(seen@).contains(z) && !s0.contains(z) ==> stack@.contains(z as usize),
                forall|i: int| 0 <= i < k && b[np[i]] == c0 ==> #[trigger] seen_set(seen@).contains(np[i]),
                black == (black0 || exists|i: int| 0 <= i < k && #[trigger] b[np[i]] == t1),
                white == (white0 || exists|i: int| 0 <= i < k && #[trigger] b[np[i]] == t2),
            decreases neighbors@.len() - k,
        {
            let n = neighbors[k].0;
            assert(np[k as int] == n as int);
            assert(adjacent(x as int, n as int));
            let bn = board[n];
            if same_color(bn, c0) {
                {
                    if !seen[n] {
                        let ghost sb = seen_set(seen@);
                        let ghost stk = stack@;
                        seen.set(n, true);
                        proof {
                            assert(seen_set(seen@) =~= sb.insert(n as int));
                            lemma_connected_step(b, st, x as int, n as int);
                            assert(!sb.contains(n as int));
                            assert(!stk.contains(n)) by {
                                if stk.contains(n) {
                                    let j = choose|j: int| 0 <= j < stk.len() && stk[j] == n;
                                    assert(sb.contains(stk[j] as int));
                                }
                            }
                            vstd::set_lib::lemma_int_range(0, 361);
                            assert(sb.insert(n as int).subset_of(vstd::set_lib::set_int_range(0, 361)));
                            vstd::set_lib::lemma_len_subset(sb.insert(n as int), vstd::set_lib::set_int_range(0, 361));
                        }
                        stack.push(n);
                        visited = visited + 1;
                        proof {
                            assert forall|j: int| 0 <= j < stack@.len() implies #[trigger] seen_set(seen@).contains(stack@[j] as int) by {
                                if j < stk.len() {
                                    assert(stack@[j] == stk[j]);
                                }
                            }
                            assert(stack@.subrange(0, rest.len() as int) =~= stk.subrange(0, rest.len() as int));
                            assert forall|j: int| rest.len() <= j < stack@.len() implies !s0.contains(#[trigger] stack@[j] as int) by {
                                if j < stk.len() {
                                    assert(stack@[j] == stk[j]);
                                }
                            }
                            assert forall|z: int| #[trigger] seen_set(seen@).contains(z) && !s0.contains(z) implies stack@.contains(z as usize) by {
                                if z == n {
                                    assert(stack@[stk.len() as int] == n);
                                } else {
                                    assert(stk.contains(z as usize));
                                    let j = choose|j: int| 0 <= j < stk.len() && stk[j] == z as usize;
                                    assert(stack@[j] == z as usize);
                                }
                            }
                        }
                    }
                }
            } else {
                if same_color(bn, t1) {
                    black = true;
                }
                if same_color(bn, t2) {
                    white = true;
                }
            }
            k = k + 1;
        }
        proof {
            let s1 = seen_set(seen@);
            let stk = stack@;
            // The stack holds the rest of the old stack and the new points.
            assert forall|z: int| s1.contains(z) && !stk.contains(z as usize) implies
                (z == x || (s0.contains(z) && !stack0.contains(z as usize))) by {
                if z != x {
                    assert(s0.contains(z));
                    if stack0.contains(z as usize) {
                        let j = choose|j: int| 0 <= j < stack0.len() && stack0[j] == z as usize;
                        assert(j < rest.len());
                        assert(stk[j] == rest[j]);
                    }
                }
            }
            assert forall|z: int| s0.contains(z) && !stack0.contains(z as usize) implies !stk.contains(z as usize) by {
                if stk.contains(z as usize) {
                    let j = choose|j: int| 0 <= j < stk.len() && stk[j] == z as usize;
                    if j < rest.len() {
                        assert(rest[j] == stk[j]);
                        assert(stack0[j] == rest[j]);
                    }
                }
            }
            assert(!stk.contains(x)) by {
                if stk.contains(x) {
                    let j = choose|j: int| 0 <= j < stk.len() && stk[j] == x;
                    if j < rest.len() {
                        assert(rest[j] == stk[j]);
                    }
                }
            }
            assert forall|y: int| adjacent(x as int, y) implies #[trigger] np.contains(y) by {}
            assert forall|z: int, y: int| #![trigger s1.contains(z), adjacent(z, y)]
                s1.contains(z) && !stk.contains(z as usize) && adjacent(z, y) && b[y] == c0 implies s1.contains(y) by {
                if z != x {
                    assert(s0.contains(z) && !stack0.contains(z as usize));
                } else {
                    assert(np.contains(y));
                    let i = choose|i: int| 0 <= i < np.len() && np[i] == y;
                    assert(b[np[i]] == c0);
                }
            }
            assert(expanded_in(b, s1, stk, c0));
            assert forall|c: Color| c == t1 || c == t2 implies
                done_borders(b, s1, stk, c) == (done_borders(b, s0, stack0, c)
                    || exists|i: int| 0 <= i < np.len() && #[trigger] b[np[i]] == c) by {
                if done_borders(b, s1, stk, c) {
                    let (m, y) = choose|m: int, y: int| #![trigger s1.contains(m), adjacent(m, y)]
                        s1.contains(m) && !stk.contains(m as usize) && adjacent(m, y) && b[y] == c;
                    if m == x {
                        assert(np.contains(y));
                        let i = choose|i: int| 0 <= i < np.len() && np[i] == y;
                        assert(b[np[i]] == c);
                    } else {
                        assert(s0.contains(m) && !stack0.contains(m as usize));
                    }
                }
                if done_borders(b, s0, stack0, c) {
                    let (m, y) = choose|m: int, y: int| #![trigger s0.contains(m), adjacent(m, y)]
                        s0.contains(m) && !stack0.contains(m as usize) && adjacent(m, y) && b[y] == c;
                    assert(s1.contains(m) && !stk.contains(m as usize));
                }
                if exists|i: int| 0 <= i < np.len() && #[trigger] b[np[i]] == c {
                    let i = choose|i: int| 0 <= i < np.len() && #[trigger] b[np[i]] == c;
                    assert(s1.contains(x as int) && !stk.contains(x) && adjacent(x as int, np[i]) && b[np[i]] == c);
                }
            }
            assert(stk.len() <= visited);
        }
    }
    proof {
        let s1 = seen_set(seen@);
        assert forall|z: int, y: int| #![trigger s1.contains(z), adjacent(z, y)]
            s1.contains(z) && adjacent(z, y) && b[y] == b[z] implies s1.contains(y) by {
            assert(!stack@.contains(z as usize));
            lemma_connected_sym(b, st, z);
        }
        assert forall|z: int| s1.contains(z) implies connected(b, st, z) by {}
        lemma_chain_equal(b, s1, st);
        assert forall|c: Color| c == t1 || c == t2 implies
            done_borders(b, s1, stack@, c) == borders(b, chain(b, st), c) by {
            if borders(b, chain(b, st), c) {
                let (m, y) = choose|m: int, y: int| #![trigger chain(b, st).contains(m), adjacent(m, y)]
                    chain(b, st).contains(m) && adjacent(m, y) && b[y] == c;
                assert(s1.contains(m) && !stack@.contains(m as usize) && adjacent(m, y) && b[y] == c);
            }
        }
    }
    (seen, black, white)
}

impl State19 {
    /// The area of each player: the points of its colour plus the empty points
    /// whose region has more than one point and borders only its colour.  Komi
    /// is not included.
    #[verifier::spinoff_prover]
    pub fn score(&self) -> (sc: Score)
        requires
            self@.board.len() == 361,
        ensures
            sc == score_of(self@.board),
    {
        let ghost b = self@.board;
        let mut black: usize = 0;
        let mut white: usize = 0;
        let mut idx: usize = 0;
        while idx < 361
            invariant
                idx <= 361,
                b == self@.board,
                b.len() == 361,
                black == area(b, Color::Black, idx as nat),
                white == area(b, Color::White, idx as nat),
            decreases 361 - idx,
        {
            proof {
                lemma_area_bound(b, Color::Black, idx as nat);
                lemma_area_bound(b, Color::White, idx as nat);
            }
            let ghost x = idx as int;
            match self.board[idx] {
                Color::Black => {
                    black = black + 1;
                }
                Color::White => {
                    white = white + 1;
                }
                Color::Empty => {
                    if self.has_empty_neighbor(idx) {
                        let (_region, touches_black, touches_white) = self.empty_region(idx);
                        if touches_black && !touches_white {
                            black = black + 1;
                            proof {
                                assert forall|d: Color| d != Color::Black && d != Color::Empty implies
                                    !#[trigger] borders(b, chain(b, x), d) by {
                                    assert(d == Color::White);
                                }
                                assert(territory_of(b, x, Color::Black));
                            }
                        } else if touches_white && !touches_black {
                            white = white + 1;
                            proof {
                                assert forall|d: Color| d != Color::White && d != Color::Empty implies
                                    !#[trigger] borders(b, chain(b, x), d) by {
                                    assert(d == Color::Black);
                                }
                                assert(territory_of(b, x, Color::White));
                            }
                        } else {
                            proof {
                                if territory_of(b, x, Color::Black) {
                                    assert(!borders(b, chain(b, x), Color::White));
                                }
                                if territory_of(b, x, Color::White) {
                                    assert(!borders(b, chain(b, x), Color::Black));
                                }
                            }
                        }
                    }
                }
            }
            idx = idx + 1;
        }
        Score { black, white }
    }
}


/// Whether a list of group ids holds `x`.
fn ids_contain(v: &Vec<usize>, x: usize) -> (r: bool)
    ensures
        r == v@.contains(x),
{
    let mut i: usize = 0;
    while i < v.len()
        invariant
            i <= v@.len(),
            forall|j: int| 0 <= j < i ==> v@[j] != x,
        decreases v@.len() - i,
    {
        if v[i] == x {
            return true;
        }
        i = i + 1;
    }
    false
}

impl State19 {
    /// The groups of the neighbours of `pos` that hold `color`, each once, in
    /// neighbour order.
    #[verifier::spinoff_prover]
    fn nearby_groups(&self, pos: usize, color: Color) -> (v: Vec<usize>)
        requires
            self@.board.len() == 361,
            pos < 361,
            color != Color::Empty,
            forall|p: int| on_board(p) && self@.board[p] != Color::Empty ==> #[trigger] self@.listed(p),
        ensures
            v@.no_duplicates(),
            v@.to_set() == neighbor_groups(self@, pos as int, color),
    {
        let nbrs = self.neighbors_of_color(pos, color);
        let mut v: Vec<usize> = Vec::new();
        let mut k: usize = 0;
        while k < nbrs.len()
            invariant
                k <= nbrs@.len(),
                self@.board.len() == 361,
                color != Color::Empty,
                forall|i: int| 0 <= i < nbrs@.len() ==> adjacent(pos as int, #[trigger] nbrs@[i] as int)
                    && self@.board[nbrs@[i] as int] == color,
                forall|p: int| on_board(p) && self@.board[p] != Color::Empty ==> #[trigger] self@.listed(p),
                v@.no_duplicates(),
                forall|g: usize| v@.contains(g) <==> exists|i: int| 0 <= i < k
                    && #[trigger] self@.group_of[nbrs@[i] as usize] == g,
            decreases nbrs@.len() - k,
        {
            let n = nbrs[k];
            assert(adjacent(pos as int, n as int));
            assert(self@.listed(n as int));
            let g = index_get(&self.group_index, n).unwrap();
            if !ids_contain(&v, g) {
                let ghost old_v = v@;
                v.push(g);
                assert forall|h: usize| v@.contains(h) <==> exists|i: int| 0 <= i < k + 1
                    && #[trigger] self@.group_of[nbrs@[i] as usize] == h by {
                    if v@.contains(h) && h != g {
                        let j = choose|j: int| 0 <= j < v@.len() && v@[j] == h;
                        assert(old_v[j] == h);
                        assert(old_v.contains(h));
                        let i = choose|i: int| 0 <= i < k && #[trigger] self@.group_of[nbrs@[i] as usize] == h;
                        assert(0 <= i < k + 1);
                    }
                    if exists|i: int| 0 <= i < k + 1 && #[trigger] self@.group_of[nbrs@[i] as usize] == h {
                        if h == g {
                            assert(v@[old_v.len() as int] == h);
                        } else {
                            let i = choose|i: int| 0 <= i < k + 1 && #[trigger] self@.group_of[nbrs@[i] as usize] == h;
                            assert(i < k);
                            assert(exists|i2: int| 0 <= i2 < k && #[trigger] self@.group_of[nbrs@[i2] as usize] == h);
                            assert(old_v.contains(h));
                            let j = choose|j: int| 0 <= j < old_v.len() && old_v[j] == h;
                            assert(v@[j] == h);
                        }
                    }
                }
            } else {
                assert forall|h: usize| v@.contains(h) <==> exists|i: int| 0 <= i < k + 1
                    && #[trigger] self@.group_of[nbrs@[i] as usize] == h by {
                    if exists|i: int| 0 <= i < k + 1 && #[trigger] self@.group_of[nbrs@[i] as usize] == h {
                        let i = choose|i: int| 0 <= i < k + 1 && #[trigger] self@.group_of[nbrs@[i] as usize] == h;
                        if i == k {
                            assert(h == g);
                        }
                    }
                }
            }
            k = k + 1;
        }
        assert forall|g: usize| #[trigger] v@.to_set().contains(g) <==> neighbor_groups(self@, pos as int, color).contains(g) by {
            if v@.contains(g) {
                let i = choose|i: int| 0 <= i < k && #[trigger] self@.group_of[nbrs@[i] as usize] == g;
                let n = nbrs@[i] as int;
                assert(adjacent(pos as int, n) && self@.board[n] == color && self@.group_of[n as usize] == g);
            }
            if neighbor_groups(self@, pos as int, color).contains(g) {
                let n = choose|n: int| #![trigger self@.group_of[n as usize]]
                    adjacent(pos as int, n) && self@.board[n] == color && self@.group_of[n as usize] == g;
                assert(nbrs@.contains(n as usize));
                let i = choose|i: int| 0 <= i < nbrs@.len() && nbrs@[i] == n as usize;
                assert(self@.group_of[nbrs@[i] as usize] == g);
            }
        }
        assert(v@.to_set() =~= neighbor_groups(self@, pos as int, color));
        v
    }

    /// Sets the point.
    fn set_idx(&mut self, pos: &Pos19, state: Color)
        requires
            old(self)@.board.len() == 361,
            pos.0 < 361,
        ensures
            final(self)@ == old(self)@.with_board(old(self)@.board.update(pos.0 as int, state)),
    {
        self.board.set(pos.0, state);
    }

    /// Sets the point.
    fn set(&mut self, pos: &Pos19, state: Color)
        requires
            old(self)@.board.len() == 361,
            pos.0 < 361,
        ensures
            final(self)@ == old(self)@.with_board(old(self)@.board.update(pos.0 as int, state)),
    {
        self.set_idx(pos, state);
    }

    /// A set-up stone at `pos`: the groups of the other colour next to it no
    /// longer count `pos` as a liberty, and nothing is captured.
    fn take_liberty_around(&mut self, pos: usize, enemy: Color)
        requires
            old(self)@.board.len() == 361,
            pos < 361,
            enemy != Color::Empty,
            old(self)@.board[pos as int] != Color::Empty,
            old(self)@.board[pos as int] != enemy,
            old(self)@.tables_ok(),
            forall|p: int| on_board(p) && old(self)@.board[p] != Color::Empty ==> #[trigger] old(self)@.listed(p),
        ensures
            final(self)@ == old(self)@.with_libs(final(self)@.libs),
            final(self)@.libs.dom() == old(self)@.libs.dom(),
            final(self)@.tables_ok(),
            forall|p: int| on_board(p) && final(self)@.board[p] != Color::Empty ==> #[trigger] final(self)@.listed(p),
            old(self)@.capture_progress(pos as int, Set::empty())
                && (forall|x: int| 0 <= x < 361 && #[trigger] old(self)@.board[x] != Color::Empty
                    && old(self)@.board[x] != old(self)@.board[pos as int] ==> old(self)@.board[x] == enemy)
                ==> final(self)@.libs_exact() && final(self)@.chains_ok(),
    {
        let ghost sm = self@;
        let ghost b1 = sm.board;
        let ghost sem = sm.capture_progress(pos as int, Set::empty())
            && (forall|x: int| 0 <= x < 361 && #[trigger] sm.board[x] != Color::Empty
                && sm.board[x] != sm.board[pos as int] ==> sm.board[x] == enemy);
        let enemygroups = self.nearby_groups(pos, enemy);
        proof {
            assert(enemygroups@.take(0).to_set() =~= Set::<usize>::empty());
        }
        let mut t: usize = 0;
        while t < enemygroups.len()
            invariant
                t <= enemygroups@.len(),
                enemygroups@.no_duplicates(),
                enemygroups@.to_set() == neighbor_groups(sm, pos as int, enemy),
                b1 == sm.board,
                b1.len() == 361,
                pos < 361,
                enemy != Color::Empty,
                b1[pos as int] != Color::Empty,
                b1[pos as int] != enemy,
                forall|p: int| on_board(p) && b1[p] != Color::Empty ==> #[trigger] sm.listed(p),
                self@ == sm.with_libs(self@.libs),
                self@.libs.dom() == sm.libs.dom(),
                self@.tables_ok(),
                sem == (sm.capture_progress(pos as int, Set::empty())
                    && (forall|x: int| 0 <= x < 361 && #[trigger] sm.board[x] != Color::Empty
                        && sm.board[x] != sm.board[pos as int] ==> sm.board[x] == enemy)),
                sem ==> self@.capture_progress(pos as int, enemygroups@.take(t as int).to_set()),
            decreases enemygroups@.len() - t,
        {
            let groupid = enemygroups[t];
            let ghost s = self@;
            assert(enemygroups@.to_set().contains(groupid));
            let ghost n = choose|n: int| #![trigger sm.group_of[n as usize]]
                adjacent(pos as int, n) && sm.board[n] == enemy && sm.group_of[n as usize] == groupid;
            assert(sm.listed(n));
            assert(s.libs.contains_key(groupid));
            let mut libs = liberties_remove(&mut self.liberties, groupid).unwrap();
            libs.remove(&pos);
            liberties_insert(&mut self.liberties, groupid, libs);
            let ghost s1 = self@;
            let ghost done = enemygroups@.take(t as int).to_set();
            proof {
                assert(s1.libs == s.libs.insert(groupid, s.libs[groupid].remove(pos)));
                assert(s1.libs.dom() =~= sm.libs.dom());
                assert(s1.members == s.members);
                assert(s1.next_id == s.next_id);
                assert forall|g: usize| #[trigger] s1.libs.contains_key(g) implies g < s1.next_id by {
                    assert(s.libs.contains_key(g));
                }
                assert forall|g: usize| #[trigger] s1.members.contains_key(g) implies g < s1.next_id by {
                    assert(s.members.contains_key(g));
                }
                assert(s1.tables_ok());
                lemma_take_set_push(enemygroups@, t as int);
                if sem {
                    assert(!done.contains(groupid)) by {
                        if done.contains(groupid) {
                            let j = choose|j: int| 0 <= j < enemygroups@.take(t as int).len()
                                && enemygroups@.take(t as int)[j] == groupid;
                            assert(enemygroups@[j] == enemygroups@[t as int]);
                        }
                    }
                    lemma_liberty_step(s, s1, pos as int, done, n, groupid);
                }
            }
            t = t + 1;
        }
        proof {
            let s = self@;
            assert forall|p: int| on_board(p) && s.board[p] != Color::Empty implies #[trigger] s.listed(p) by {
                assert(sm.listed(p));
            }
            if sem {
                let done = enemygroups@.take(t as int).to_set();
                assert(enemygroups@.take(t as int) =~= enemygroups@);
                assert forall|m: int| adjacent(pos as int, m) && b1[m] != Color::Empty && b1[m] != b1[pos as int]
                    implies #[trigger] done.contains(sm.group_of[m as usize]) by {
                    assert(b1[m] == enemy);
                    assert(neighbor_groups(sm, pos as int, enemy).contains(sm.group_of[m as usize]));
                }
                lemma_liberties_done(s, pos as int, done);
            }
        }
    }
}

impl State19 {
    /// Takes `pos` out of the liberties of the groups of colour `enemy` next to
    /// it, and clears each of those groups that is left without liberties.
    #[verifier::spinoff_prover]
    fn capture_around(&mut self, pos: usize, enemy: Color)
        requires
            old(self)@.board.len() == 361,
            pos < 361,
            enemy != Color::Empty,
            old(self)@.board[pos as int] != Color::Empty,
            old(self)@.board[pos as int] != enemy,
            old(self)@.tables_ok(),
            forall|p: int| on_board(p) && old(self)@.board[p] != Color::Empty ==> #[trigger] old(self)@.listed(p),
        ensures
            final(self)@.next_player == old(self)@.next_player,
            final(self)@.seen == old(self)@.seen,
            final(self)@.record == old(self)@.record,
            final(self)@.komi == old(self)@.komi,
            final(self)@.final_score == old(self)@.final_score,
            final(self)@.next_id == old(self)@.next_id,
            final(self)@.group_of == old(self)@.group_of,
            final(self)@.members.dom() == old(self)@.members.dom(),
            final(self)@.libs.dom() == old(self)@.libs.dom(),
            final(self)@.board.len() == 361,
            final(self)@.tables_ok(),
            forall|p: int| on_board(p) && final(self)@.board[p] != Color::Empty ==> #[trigger] final(self)@.listed(p),
            forall|x: int| 0 <= x < 361 ==> #[trigger] final(self)@.board[x] == old(self)@.board[x]
                || final(self)@.board[x] == Color::Empty,
            old(self)@.capture_progress(pos as int, Set::empty())
                && (forall|x: int| 0 <= x < 361 && #[trigger] old(self)@.board[x] != Color::Empty
                    && old(self)@.board[x] != old(self)@.board[pos as int] ==> old(self)@.board[x] == enemy)
                ==> final(self)@.board == after_captures(old(self)@.board, pos as int)
                    && final(self)@.libs_exact() && final(self)@.chains_ok(),
    {
        let ghost sm = self@;
        let ghost b1 = sm.board;
        let ghost sem = sm.capture_progress(pos as int, Set::empty())
            && (forall|x: int| 0 <= x < 361 && #[trigger] sm.board[x] != Color::Empty
                && sm.board[x] != sm.board[pos as int] ==> sm.board[x] == enemy);
        let enemygroups = self.nearby_groups(pos, enemy);
        proof {
            if sem {
                assert(removed(b1, sm.group_of, pos as int, enemygroups@.take(0).to_set()) =~= Set::<int>::empty());
                assert(b1 =~= cleared(b1, Set::<int>::empty()));
                assert(enemygroups@.take(0).to_set() =~= Set::<usize>::empty());
            }
        }
        let mut t: usize = 0;
        while t < enemygroups.len()
            invariant
                t <= enemygroups@.len(),
                enemygroups@.no_duplicates(),
                enemygroups@.to_set() == neighbor_groups(sm, pos as int, enemy),
                b1 == sm.board,
                b1.len() == 361,
                pos < 361,
                enemy != Color::Empty,
                b1[pos as int] != Color::Empty,
                b1[pos as int] != enemy,
                forall|p: int| on_board(p) && b1[p] != Color::Empty ==> #[trigger] sm.listed(p),
                self@.next_player == sm.next_player,
                self@.seen == sm.seen,
                self@.record == sm.record,
                self@.komi == sm.komi,
                self@.final_score == sm.final_score,
                self@.next_id == sm.next_id,
                self@.group_of == sm.group_of,
                self@.members.dom() == sm.members.dom(),
                self@.libs.dom() == sm.libs.dom(),
                self@.board.len() == 361,
                self@.tables_ok(),
                forall|p: int| on_board(p) && self@.board[p] != Color::Empty ==> #[trigger] self@.listed(p),
                forall|x: int| 0 <= x < 361 ==> #[trigger] self@.board[x] == b1[x] || self@.board[x] == Color::Empty,
                sem == (sm.capture_progress(pos as int, Set::empty())
                    && (forall|x: int| 0 <= x < 361 && #[trigger] sm.board[x] != Color::Empty
                        && sm.board[x] != sm.board[pos as int] ==> sm.board[x] == enemy)),
                sem ==> {
                    let done = enemygroups@.take(t as int).to_set();
                    &&& sm.chains_ok()
                    &&& self@.capture_progress(pos as int, done)
                    &&& self@.board == cleared(b1, removed(b1, sm.group_of, pos as int, done))
                },
            decreases enemygroups@.len() - t,
        {
            let groupid = enemygroups[t];
            let ghost s = self@;
            assert(enemygroups@.to_set().contains(groupid));
            let ghost n = choose|n: int| #![trigger sm.group_of[n as usize]]
                adjacent(pos as int, n) && sm.board[n] == enemy && sm.group_of[n as usize] == groupid;
            assert(sm.listed(n));
            assert(s.libs.contains_key(groupid));
            assert(s.members.contains_key(groupid));
            let mut libs = liberties_remove(&mut self.liberties, groupid).unwrap();
            libs.remove(&pos);
            let dead = libs.is_empty();
            liberties_insert(&mut self.liberties, groupid, libs);
            let ghost s1 = self@;
            let ghost done = enemygroups@.take(t as int).to_set();
            proof {
                assert(s1.libs == s.libs.insert(groupid, s.libs[groupid].remove(pos)));
                assert forall|p: int| on_board(p) && s1.board[p] != Color::Empty implies #[trigger] s1.listed(p) by {
                    assert(s.listed(p));
                }
                assert forall|g: usize| #[trigger] s1.libs.contains_key(g) implies g < s1.next_id by {
                    assert(s.libs.contains_key(g));
                }
                lemma_take_set_push(enemygroups@, t as int);
                if sem {
                    assert(sm.chains_ok());
                    assert(!done.contains(groupid)) by {
                        if done.contains(groupid) {
                            let j = choose|j: int| 0 <= j < enemygroups@.take(t as int).len()
                                && enemygroups@.take(t as int)[j] == groupid;
                            assert(enemygroups@[j] == enemygroups@[t as int]);
                        }
                    }
                    lemma_capture_step(sm, s, s1, pos as int, done, n, groupid);
                    lemma_lib_set_empty(s1.libs[groupid]);
                }
            }
            if dead {
                self.clear_group(groupid);
                proof {
                    if sem {
                        let s2 = self@;
                        let d2 = done.insert(groupid);
                        lemma_capture_clear(s1, s2, pos as int, d2, n, groupid);
                        let ch = chain(b1, n);
                        let r = removed(b1, sm.group_of, pos as int, done);
                        assert(cleared(cleared(b1, r), ch) =~= cleared(b1, r.union(ch)));
                    }
                }
            }
            t = t + 1;
        }
        proof {
            if sem {
                let done = enemygroups@.take(t as int).to_set();
                assert(enemygroups@.take(t as int) =~= enemygroups@);
                assert forall|m: int| adjacent(pos as int, m) && b1[m] != Color::Empty && b1[m] != b1[pos as int]
                    implies #[trigger] done.contains(sm.group_of[m as usize]) by {
                    assert(b1[m] == enemy);
                    assert(neighbor_groups(sm, pos as int, enemy).contains(sm.group_of[m as usize]));
                }
                lemma_capture_done(sm, self@, pos as int, done);
            }
        }
    }
}


impl State19 {
    /// A play at the empty-or-not point `pos` by the player to move.
    #[verifier::spinoff_prover]
    fn play_at(&mut self, pos: Pos19) -> (r: Result<(), IllegalMoveError>)
        requires
            old(self)@.consistent(),
            old(self)@.record.len() + 1 < usize::MAX,
            pos.0 < 361,
        ensures
            final(self)@.consistent(),
            ({
                let s = old(self)@;
                let c = player_color(s.next_player);
                let key = position_key(play_board(s.board, pos.0 as int, c));
                if s.board[pos.0 as int] != Color::Empty {
                    r == Err::<(), IllegalMoveError>(IllegalMoveError::Occupied(s.board[pos.0 as int]))
                        && final(self)@ == s
                } else if s.seen.contains(key) && play_board(s.board, pos.0 as int, c) != s.board {
                    r == Err::<(), IllegalMoveError>(IllegalMoveError::PositionalSuperko) && final(self)@ == s
                } else {
                    &&& r is Ok
                    &&& final(self)@.next_player == other_player(s.next_player)
                    &&& final(self)@.record == s.record.push(Turn::Of(pos))
                    &&& final(self)@.komi == s.komi
                    &&& final(self)@.seen == (if s.seen.contains(key) { s.seen } else { s.seen.push(key) })
                    &&& final(self)@.final_score == s.final_score
                    &&& final(self)@.board == play_board(s.board, pos.0 as int, c)
                }
            }),
    {
        let ghost s0 = self@;
        let cur = self.get(&pos);
        if !same_color(cur, Color::Empty) {
            return Err(IllegalMoveError::Occupied(cur));
        }
        let point = self.next_player.color();
        let after = board_after_play(&self.board, pos.0, point);
        let kokey = hash(&after);
        let repeated = self.seen_before(&kokey);
        if repeated && !same_board(&after, &self.board) {
            return Err(IllegalMoveError::PositionalSuperko);
        }
        self.set(&pos, point);
        if !repeated {
            self.komap.push(kokey);
        }
        let ghost s1 = self@;
        let ghost b0 = s0.board;
        let ghost b1 = s1.board;
        proof {
            if repeated {
                assert(s1.seen =~= s0.seen);
            } else {
                assert(s1.seen =~= s0.seen.push(kokey@));
            }
            assert(b1 == b0.update(pos.0 as int, point));
            assert(b1.update(pos.0 as int, Color::Empty) =~= b0);
            assert(s1.with_board(b0).seen.no_duplicates());
            assert forall|p: int| on_board(p) && b0[p] != Color::Empty implies #[trigger] s1.with_board(b0).grouped(p) by {
                assert(s0.grouped(p));
            }
            assert forall|p: int| on_board(p) && b0[p] != Color::Empty implies #[trigger] s1.with_board(b0).listed(p) by {
                assert(s0.listed(p));
            }
            assert(s1.with_board(b0).consistent());
            assert forall|p: int| on_board(p) && p != pos.0 && b1[p] != Color::Empty implies #[trigger] s1.listed(p) by {
                assert(s0.listed(p));
            }
        }
        let this_group_id = self.merge_groups(point, pos.0);
        let ghost s2 = self@;
        let enemy = self.next_player.other().color();
        proof {
            lemma_merge_to_capture(s2, pos.0 as int);
            assert forall|x: int| 0 <= x < 361 && #[trigger] s2.board[x] != Color::Empty
                && s2.board[x] != s2.board[pos.0 as int] implies s2.board[x] == enemy by {}
        }
        self.capture_around(pos.0, enemy);
        let ghost s3 = self@;
        proof {
            assert(s2.listed(pos.0 as int));
            assert(s3.libs.contains_key(this_group_id));
            assert(s3.members.contains_key(this_group_id));
        }
        let libs = liberties_get(&self.liberties, this_group_id).unwrap();
        let own_dead = libs.is_empty();
        proof {
            assert(s3.board == after_captures(b1, pos.0 as int));
            assert(!captured(b1, pos.0 as int, pos.0 as int));
            assert(s3.board[pos.0 as int] == point);
            assert(s3.group_of[pos.0] == this_group_id);
            assert(lib_set(s3.libs[this_group_id]) == liberties(s3.board, chain(s3.board, pos.0 as int)));
            lemma_lib_set_empty(s3.libs[this_group_id]);
            assert(own_dead == (liberties(s3.board, chain(s3.board, pos.0 as int)) == Set::<int>::empty()));
        }
        if own_dead {
            self.clear_group(this_group_id);
            proof {
                lemma_clear_exact(s3, self@, pos.0 as int, this_group_id);
            }
        }
        let ghost s35 = self@;
        proof {
            assert(s35.members.dom() =~= s3.members.dom());
            assert(s35.libs.dom() =~= s3.libs.dom());
            assert(s35.next_id == s3.next_id);
            assert(s35.chains_ok() && s35.libs_exact());
            assert(s35.board == play_board(b0, pos.0 as int, point));
        }
        self.next_player = self.next_player.other();
        self.record.push(Turn::Of(pos));
        proof {
            let s4 = self@;
            assert(s4.seen == s1.seen);
            assert(s4.board == s35.board);
            assert(s4.members == s35.members);
            assert(s4.libs == s35.libs);
            assert(s4.group_of == s35.group_of);
            assert forall|g: usize| #[trigger] s4.members.contains_key(g) implies g < s4.next_id by {
                assert(s35.members.contains_key(g));
            }
            assert forall|g: usize| #[trigger] s4.libs.contains_key(g) implies g < s4.next_id by {
                assert(s35.libs.contains_key(g));
            }
            assert forall|p: int| on_board(p) && s4.board[p] != Color::Empty implies #[trigger] s4.listed(p) by {
                assert(s35.listed(p));
            }
            assert forall|p: int| on_board(p) && s4.board[p] != Color::Empty implies #[trigger] s4.grouped(p) by {
                assert(s35.member_ok(p));
            }
            assert forall|x: int| on_board(x) && x != pos.0 && s4.board[x] != Color::Empty
                implies #[trigger] b0[x] != Color::Empty by {
                assert(s4.board[x] == b0.update(pos.0 as int, point)[x] || s4.board[x] == Color::Empty);
            }
            lemma_stones_one_more(b0, s4.board, pos.0 as int);
        }
        Ok(())
    }
}


impl State19 {
    /// Plays a turn.  A pass ends the game when the turn before was a pass too,
    /// and the score is then recorded.  A set-up stone overwrites its point
    /// without any capture and does not change whose turn it is; the position
    /// it leaves is remembered.  A play puts a stone of the player to move on an
    /// empty point, refusing a point that is taken and a position seen before,
    /// then removes the chains of the other colour that touch the stone and have
    /// no liberty, then its own chain if it has none.  Once the game has ended
    /// every turn is refused.
    pub fn play(&mut self, turn: Turn) -> (r: Result<(), IllegalMoveError>)
        requires
            old(self)@.consistent(),
            old(self)@.record.len() + 1 < usize::MAX,
            turn_fits(turn),
        ensures
            final(self)@.consistent(),
            old(self)@.final_score is Some ==> r == Err::<(), IllegalMoveError>(IllegalMoveError::GameOver)
                && final(self)@ == old(self)@,
            old(self)@.final_score is None ==> turn_result(old(self)@, turn, r, final(self)@),
    {
        if self.final_score.is_some() {
            return Err(IllegalMoveError::GameOver);
        }
        let ghost s0 = self@;
        match turn {
            Turn::Pass => {
                let mut game_over = false;
                let n = self.record.len();
                if n > 0 {
                    if let Turn::Pass = self.record[n - 1] {
                        game_over = true;
                    }
                }
                self.record.push(turn);
                self.next_player = self.next_player.other();
                if game_over {
                    let sc = self.score();
                    self.final_score = Some(sc);
                }
                proof {
                    let s1 = self@;
                    assert(s1.members == s0.members);
                    assert(s1.libs == s0.libs);
                    assert(s1.group_of == s0.group_of);
                    assert(s1.board == s0.board);
                    assert(s1.seen == s0.seen);
                    assert(s1.next_id == s0.next_id);
                    assert(s1.tables_ok());
                    assert(game_over == ends_with_pass(s0.record));
                    assert forall|p: int| on_board(p) && s1.board[p] != Color::Empty implies #[trigger] s1.listed(p) by {
                        assert(s0.listed(p));
                    }
                    assert forall|p: int| on_board(p) && s1.board[p] != Color::Empty implies #[trigger] s1.grouped(p) by {
                        assert(s0.grouped(p));
                    }
                }
                Ok(())
            }
            Turn::Add(color, pos) => {
                if same_color(self.board[pos.0], color) {
                    self.record.push(turn);
                    proof {
                        let s4 = self@;
                        assert(s4.members == s0.members);
                        assert(s4.libs == s0.libs);
                        assert(s4.group_of == s0.group_of);
                        assert(s4.board == s0.board);
                        assert(s4.seen == s0.seen);
                        assert(s4.next_id == s0.next_id);
                        assert(s4.tables_ok());
                        assert(s4.board =~= s0.board.update(pos.0 as int, color));
                        assert forall|p: int| on_board(p) && s4.board[p] != Color::Empty implies #[trigger] s4.listed(p) by {
                            assert(s0.listed(p));
                        }
                        assert forall|p: int| on_board(p) && s4.board[p] != Color::Empty implies #[trigger] s4.grouped(p) by {
                            assert(s0.grouped(p));
                        }
                    }
                    self.remember_position();
                    return Ok(());
                }
                if !same_color(self.board[pos.0], Color::Empty) || same_color(color, Color::Empty) {
                    // A stone replaced or taken away can split chains and join
                    // others: the group tables are built afresh from the board.
                    self.set(&pos, color);
                    self.record.push(turn);
                    proof {
                        lemma_stones_one_more(s0.board, self@.board, pos.0 as int);
                    }
                    self.rebuild_groups();
                    self.remember_position();
                    return Ok(());
                }
                // A stone on an empty point joins the chains of its colour next
                // to it and takes a liberty from the chains of the other colour.
                self.set(&pos, color);
                let ghost s1 = self@;
                proof {
                    assert forall|p: int| on_board(p) && p != pos.0 && s1.board[p] != Color::Empty implies #[trigger] s1.listed(p) by {
                        assert(s0.listed(p));
                    }
                    assert(s1.board.update(pos.0 as int, Color::Empty) =~= s0.board);
                    assert(s1.with_board(s1.board.update(pos.0 as int, Color::Empty)) == s0);
                    assert(merge_ready(s1, pos.0 as int, color));
                }
                self.merge_groups(color, pos.0);
                let ghost s2 = self@;
                let enemy = if same_color(color, Color::Black) { Color::White } else { Color::Black };
                proof {
                    lemma_merge_to_capture(s2, pos.0 as int);
                    assert forall|x: int| 0 <= x < 361 && #[trigger] s2.board[x] != Color::Empty
                        && s2.board[x] != s2.board[pos.0 as int] implies s2.board[x] == enemy by {}
                }
                self.take_liberty_around(pos.0, enemy);
                let ghost s3 = self@;
                self.record.push(turn);
                proof {
                    let s4 = self@;
                    assert(s4.members == s3.members);
                    assert(s4.libs == s3.libs);
                    assert(s4.group_of == s3.group_of);
                    assert(s4.board == s3.board);
                    assert forall|p: int| on_board(p) && s4.board[p] != Color::Empty implies #[trigger] s4.listed(p) by {
                        assert(s3.listed(p));
                    }
                    assert(s4.board == s0.board.update(pos.0 as int, color));
                    lemma_stones_one_more(s0.board, s4.board, pos.0 as int);
                    {
                        assert(s3.libs_exact() && s3.chains_ok());
                        assert forall|p: int| on_board(p) && s4.board[p] != Color::Empty implies #[trigger] s4.grouped(p) by {
                            assert(s3.member_ok(p));
                        }
                        assert(s4.consistent());
                    }
                }
                self.remember_position();
                Ok(())
            }
            Turn::Of(pos) => self.play_at(pos),
        }
    }

    /// Plays at the point named by `pos`, as `Pos19::parse` reads it.
    pub fn play_str(&mut self, pos: &str) -> (r: Result<(), IllegalMoveError>)
        requires
            old(self)@.consistent(),
            old(self)@.record.len() + 1 < usize::MAX,
            named_point(pos@) is Some,
            named_on_board(pos@),
        ensures
            final(self)@.consistent(),
            old(self)@.final_score is Some ==> r == Err::<(), IllegalMoveError>(IllegalMoveError::GameOver)
                && final(self)@ == old(self)@,
            old(self)@.final_score is None ==> turn_result(old(self)@, Turn::Of(Pos19(named_index(pos@) as usize)),
                r, final(self)@),
    {
        let p = Pos19::parse(pos);
        proof {
            let (c, row) = named_point(pos@)->0;
            assert(0 <= c < 19 && 1 <= row <= 19);
            assert(point_index(c, row - 1) < 361) by (nonlinear_arith)
                requires 0 <= c < 19, 1 <= row <= 19, point_index(c, row - 1) == c + (row - 1) * 19;
        }
        self.play(Turn::Of(p))
    }

    /// Plays at the point that the text names, as `Pos19::try_parse` reads it;
    /// `None`, with nothing changed, where the text names no point of the board.
    pub fn play_text(&mut self, text: &str) -> (r: Option<Result<(), IllegalMoveError>>)
        requires
            old(self)@.consistent(),
            old(self)@.record.len() + 1 < usize::MAX,
        ensures
            final(self)@.consistent(),
            !named_on_board(text@) ==> r is None && final(self)@ == old(self)@,
            named_on_board(text@) && old(self)@.final_score is Some ==> r == Some(
                Err::<(), IllegalMoveError>(IllegalMoveError::GameOver)) && final(self)@ == old(self)@,
            named_on_board(text@) && old(self)@.final_score is None ==> r is Some && turn_result(old(self)@,
                Turn::Of(Pos19(named_index(text@) as usize)), r->0, final(self)@),
    {
        match Pos19::try_parse(text) {
            Some(p) => {
                proof {
                    let (c, row) = named_point(text@)->0;
                    assert(0 <= c < 19 && 1 <= row <= 127);
                    assert(row <= 19 <==> point_index(c, row - 1) < 361) by (nonlinear_arith)
                        requires 0 <= c < 19, 1 <= row, point_index(c, row - 1) == c + (row - 1) * 19;
                }
                if p.0 < 361 {
                    Some(self.play(Turn::Of(p)))
                } else {
                    None
                }
            }
            None => None,
        }
    }
}


impl State19 {
    /// A new game for the record `tree`: the player of the first play on its main
    /// line moves first (Black when there is none).
    pub fn init_from_sgf(tree: &GameTree) -> (s: Self)
        requires
            main_line_readable(tree_view(*tree)),
        ensures
            s@.wf(),
            s@.consistent(),
            s@.board == Seq::new(361, |i: int| Color::Empty),
            s@.record == Seq::<Turn>::empty(),
            s@.seen == seq![position_key(Seq::new(361, |i: int| Color::Empty))],
            s@.final_score is None,
            s@.komi == tree_view(*tree).komi,
            s@.next_player == (if first_play_color(main_line_of(tree_view(*tree))) == Some(PointColor::White) {
                Player::White
            } else {
                Player::Black
            }),
    {
        let mut board = Self::new();
        let ghost s_new = board@;
        let moves = tree.main_line();
        let mut first: Option<PointColor> = None;
        let mut i: usize = 0;
        assert(moves@.skip(0) =~= moves@);
        while i < moves.len()
            invariant_except_break
                i <= moves@.len(),
                first is None,
                first_play_color(moves@) == first_play_color(moves@.skip(i as int)),
            ensures
                first == first_play_color(moves@),
            decreases moves@.len() - i,
        {
            assert(moves@.skip(i as int)[0] == moves@[i as int]);
            assert(moves@.skip(i as int).drop_first() =~= moves@.skip(i + 1));
            if let Move::Of(st) = moves[i] {
                first = Some(st.color);
                break;
            }
            i = i + 1;
        }
        proof {
            if i == moves@.len() {
                assert(moves@.skip(i as int) =~= Seq::<Move>::empty());
            }
        }
        board.komi = tree.komi.clone();
        match first {
            Some(PointColor::White) => {
                board.next_player = Player::White;
            }
            _ => {
                board.next_player = Player::Black;
            }
        }
        proof {
            let s = board@;
            assert(s.board == s_new.board);
            assert(s.members == s_new.members);
            assert(s.libs == s_new.libs);
            assert(s.group_of == s_new.group_of);
            assert(s.seen == s_new.seen);
            assert(s.record == s_new.record);
            assert(s.next_id == s_new.next_id);
            assert(s.tables_ok());
            assert forall|p: int| on_board(p) && s.board[p] != Color::Empty implies #[trigger] s.listed(p) by {}
            assert forall|p: int| on_board(p) && s.board[p] != Color::Empty implies #[trigger] s.grouped(p) by {}
            assert forall|p: int, q: int| on_board(p) && s.board[p] != Color::Empty && #[trigger] connected(s.board, p, q)
                implies s.group_of[p as usize] == s.group_of[q as usize] by {}
        }
        board
    }

    /// Appends the drawing of points `0..19` of row `i`.
    fn push_row_points(&self, t: &mut String, i: usize)
        requires
            self@.board.len() == 361,
            i < 19,
        ensures
            final(t)@ == old(t)@ + row_points(self@.board, i as int, 0),
    {
        let ghost b = self@.board;
        let mut j: usize = 0;
        while j < 19
            invariant
                j <= 19,
                i < 19,
                b == self@.board,
                b.len() == 361,
                t@ + row_points(b, i as int, j as int) == old(t)@ + row_points(b, i as int, 0),
            decreases 19 - j,
        {
            let ghost before = t@;
            push_char(t, ' ');
            let g = match self.board[j + i * 19] {
                Color::Black => 'o',
                Color::White => 'x',
                Color::Empty => '.',
            };
            push_char(t, g);
            assert(t@ =~= before + point_glyph(b[j + i * 19]));
            assert(before + row_points(b, i as int, j as int)
                =~= t@ + row_points(b, i as int, j + 1));
            j = j + 1;
        }
        assert(row_points(b, i as int, 19) =~= Seq::<char>::empty());
        assert(t@ + Seq::<char>::empty() =~= t@);
    }

    /// The komi added to White's area at the end, as a decimal number in text.
    pub fn komi(&self) -> (k: String)
        ensures
            k@ == self@.komi,
    {
        self.komi.clone()
    }

    /// The turns taken so far, in order: the record that a game is saved as.
    pub fn turns(&self) -> (v: Vec<Turn>)
        ensures
            v@ == self@.record,
    {
        let mut v: Vec<Turn> = Vec::new();
        let mut i: usize = 0;
        while i < self.record.len()
            invariant
                i <= self.record@.len(),
                v@ == self.record@.take(i as int),
            decreases self.record@.len() - i,
        {
            v.push(self.record[i]);
            i = i + 1;
            assert(v@ =~= self.record@.take(i as int));
        }
        assert(self.record@.take(i as int) =~= self.record@);
        v
    }

    /// The board drawn as text, as `board_text` gives it.
    pub fn to_string(&self) -> (t: String)
        requires
            self@.board.len() == 361,
        ensures
            t@ == board_text(self@.board),
    {
        let ghost b = self@.board;
        let mut t = String::new();
        push_repeat(&mut t, ' ', 4);
        let ghost start = t@;
        let mut j: usize = 0;
        while j < 19
            invariant
                j <= 19,
                t@ + header_letters(j as int) == start + header_letters(0),
            decreases 19 - j,
        {
            let ghost before = t@;
            push_char(&mut t, ' ');
            push_char(&mut t, crate::go::pos::char_of_column(j));
            assert(before + header_letters(j as int) =~= t@ + header_letters(j + 1));
            j = j + 1;
        }
        assert(header_letters(19) =~= Seq::<char>::empty());
        assert(t@ =~= start + header_letters(0));
        push_char(&mut t, '\n');
        push_repeat(&mut t, ' ', 4);
        push_repeat(&mut t, '-', 38);
        push_char(&mut t, '\n');
        let ghost top = t@;
        assert(top =~= seq![' ', ' ', ' ', ' '] + header_letters(0) + seq!['\n'] + seq![' ', ' ', ' ', ' ']
            + Seq::new(38, |i: int| '-') + seq!['\n']);
        let mut i: usize = 0;
        while i < 19
            invariant
                i <= 19,
                b == self@.board,
                b.len() == 361,
                t@ + rows_text(b, i as int) == top + rows_text(b, 0),
            decreases 19 - i,
        {
            let ghost before = t@;
            let n = i + 1;
            if n < 10 {
                push_char(&mut t, ' ');
            }
            push_decimal(&mut t, n);
            assert(t@ =~= before + row_label(n as nat));
            push_char(&mut t, ' ');
            push_char(&mut t, '|');
            self.push_row_points(&mut t, i);
            push_char(&mut t, '\n');
            assert(t@ =~= before + row_text(b, i as int));
            assert(before + rows_text(b, i as int) =~= t@ + rows_text(b, i + 1));
            i = i + 1;
        }
        assert(rows_text(b, 19) =~= Seq::<char>::empty());
        assert(t@ =~= top + rows_text(b, 0));
        t
    }
}

} // verus!
