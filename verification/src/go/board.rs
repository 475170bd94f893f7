//! The geometry of the 19x19 board: adjacency, chains of one colour, and the
//! liberties of a set of points.
//!
//! A board is a sequence of 361 colours, point `c + 19 * r` for column `c` and
//! row `r`.  A chain is everything reachable from a point through adjacent
//! points of the same colour; for an empty point it is its empty region.

use vstd::prelude::*;
use crate::go::Color;
use crate::go::pos::{Pos19, neighbor_seq, point_index};

verus! {

/// A point of the board.
pub open spec fn on_board(p: int) -> bool {
    0 <= p < 361
}

/// Two points that share an edge of the grid.
pub open spec fn adjacent(p: int, q: int) -> bool {
    &&& on_board(p)
    &&& on_board(q)
    &&& {
        ||| q == p + 19
        ||| q == p - 19
        ||| q == p + 1 && p % 19 != 18
        ||| q == p - 1 && p % 19 != 0
    }
}

/// Step `i` of a path goes to an adjacent point.
pub open spec fn linked(path: Seq<int>, i: int) -> bool {
    adjacent(path[i], path[i + 1])
}

/// A non-empty walk through points of colour `c`, each adjacent to the next.
pub open spec fn is_path(b: Seq<Color>, path: Seq<int>, c: Color) -> bool {
    &&& path.len() > 0
    &&& forall|i: int| 0 <= i < path.len() ==> on_board(#[trigger] path[i]) && b[path[i]] == c
    &&& forall|i: int| 0 <= i < path.len() - 1 ==> #[trigger] linked(path, i)
}

/// `q` can be reached from `p` through points of `p`'s colour.
pub open spec fn connected(b: Seq<Color>, p: int, q: int) -> bool {
    exists|path: Seq<int>| #[trigger] is_path(b, path, b[p]) && path[0] == p && path.last() == q
}

/// The chain of `p`: every point connected to it.
pub open spec fn chain(b: Seq<Color>, p: int) -> Set<int> {
    Set::new(|q: int| connected(b, p, q))
}

/// The empty points adjacent to some point of `s`.
pub open spec fn liberties(b: Seq<Color>, s: Set<int>) -> Set<int> {
    Set::new(|x: int| on_board(x) && b[x] == Color::Empty
        && exists|m: int| #![trigger s.contains(m), adjacent(m, x)] s.contains(m) && adjacent(m, x))
}

/// Whenever `s` holds a point, it holds that point's adjacent points of the
/// same colour.
pub open spec fn closed(b: Seq<Color>, s: Set<int>) -> bool {
    forall|x: int, y: int| #![trigger s.contains(x), adjacent(x, y)]
        s.contains(x) && adjacent(x, y) && b[y] == b[x] ==> s.contains(y)
}

/// The cardinal neighbours of point `p` as integers, in the order in which
/// `Pos19::neighbors` gives them.
pub open spec fn neighbor_points(p: int) -> Seq<int> {
    neighbor_seq(p % 19, p / 19).map_values(|q: Pos19| q.0 as int)
}

/// Adjacency is symmetric.
pub proof fn lemma_adjacent_sym(p: int, q: int)
    ensures
        adjacent(p, q) == adjacent(q, p),
{
    if adjacent(p, q) {
        if q == p + 1 && p % 19 != 18 {
            assert(q % 19 != 0) by (nonlinear_arith) requires q == p + 1, p % 19 != 18, p >= 0;
        }
        if q == p - 1 && p % 19 != 0 {
            assert(q % 19 != 18) by (nonlinear_arith) requires q == p - 1, p % 19 != 0, q >= 0;
        }
        if q == p + 19 {
            assert(true);
        }
    }
    if adjacent(q, p) {
        if p == q + 1 && q % 19 != 18 {
            assert(p % 19 != 0) by (nonlinear_arith) requires p == q + 1, q % 19 != 18, q >= 0;
        }
        if p == q - 1 && q % 19 != 0 {
            assert(p % 19 != 18) by (nonlinear_arith) requires p == q - 1, q % 19 != 0, p >= 0;
        }
    }
}

/// The neighbours that `Pos19::neighbors` gives are exactly the adjacent
/// points, at most four of them, none twice.
pub proof fn lemma_neighbor_points(p: int)
    requires
        on_board(p),
    ensures
        neighbor_points(p).len() <= 4,
        neighbor_points(p).no_duplicates(),
        forall|k: int| 0 <= k < neighbor_points(p).len() ==> adjacent(p, #[trigger] neighbor_points(p)[k]),
        forall|q: int| adjacent(p, q) ==> #[trigger] neighbor_points(p).contains(q),
        neighbor_points(p).len() == neighbor_seq(p % 19, p / 19).len(),
        forall|k: int| 0 <= k < neighbor_points(p).len() ==>
            #[trigger] neighbor_points(p)[k] == neighbor_seq(p % 19, p / 19)[k].0 as int,
{
    let c = p % 19;
    let r = p / 19;
    assert(p == c + r * 19 && 0 <= c < 19 && 0 <= r < 19) by (nonlinear_arith) requires 0 <= p < 361, c == p % 19, r == p / 19;
    let ns = neighbor_seq(c, r);
    let np = neighbor_points(p);
    assert(point_index(c, r - 1) == p - 19);
    assert(point_index(c - 1, r) == p - 1);
    assert(point_index(c, r + 1) == p + 19);
    assert(point_index(c + 1, r) == p + 1);
    let a: Seq<int> = if r - 1 >= 0 { seq![p - 19] } else { Seq::empty() };
    let bb: Seq<int> = if c - 1 >= 0 { seq![p - 1] } else { Seq::empty() };
    let d: Seq<int> = if r + 1 < 19 { seq![p + 19] } else { Seq::empty() };
    let e: Seq<int> = if c + 1 < 19 { seq![p + 1] } else { Seq::empty() };
    assert(np =~= a + bb + d + e);
    assert forall|q: int| adjacent(p, q) implies #[trigger] np.contains(q) by {
        if q == p + 19 {
            assert(r + 1 < 19);
            assert(np[(a.len() + bb.len()) as int] == q);
        } else if q == p - 19 {
            assert(np[0] == q);
        } else if q == p + 1 {
            assert(np[(a.len() + bb.len() + d.len()) as int] == q);
        } else {
            assert(np[a.len() as int] == q);
        }
    }
    assert forall|k: int| 0 <= k < np.len() implies adjacent(p, #[trigger] np[k]) by {
    }
}

/// A single point is connected to itself.
pub proof fn lemma_connected_refl(b: Seq<Color>, p: int)
    requires
        on_board(p),
        b.len() == 361,
    ensures
        connected(b, p, p),
{
    let path = seq![p];
    assert(is_path(b, path, b[p]));
}

/// A connection extends by an adjacent point of the same colour.
pub proof fn lemma_connected_step(b: Seq<Color>, p: int, q: int, r: int)
    requires
        connected(b, p, q),
        adjacent(q, r),
        b[r] == b[p],
    ensures
        connected(b, p, r),
{
    let path = choose|path: Seq<int>| #[trigger] is_path(b, path, b[p]) && path[0] == p && path.last() == q;
    let np = path.push(r);
    assert forall|i: int| 0 <= i < np.len() - 1 implies #[trigger] linked(np, i) by {
        if i < path.len() - 1 {
            assert(linked(path, i));
        }
    }
    assert(is_path(b, np, b[p]));
    assert(np[0] == p && np.last() == r);
}

/// Both ends of a connection have the same colour, lie on the board, and the
/// connection runs both ways.
pub proof fn lemma_connected_sym(b: Seq<Color>, p: int, q: int)
    requires
        connected(b, p, q),
    ensures
        connected(b, q, p),
        b[q] == b[p],
        on_board(p),
        on_board(q),
{
    let path = choose|path: Seq<int>| #[trigger] is_path(b, path, b[p]) && path[0] == p && path.last() == q;
    let n = path.len();
    let rp = Seq::new(n, |i: int| path[n - 1 - i]);
    assert(path[n - 1] == q);
    assert(b[q] == b[p]);
    assert forall|i: int| 0 <= i < rp.len() - 1 implies #[trigger] linked(rp, i) by {
        assert(linked(path, n - 2 - i));
        lemma_adjacent_sym(path[n - 2 - i], path[n - 1 - i]);
    }
    assert forall|i: int| 0 <= i < rp.len() implies on_board(#[trigger] rp[i]) && b[rp[i]] == b[q] by {
        assert(on_board(path[n - 1 - i]));
    }
    assert(is_path(b, rp, b[q]));
    assert(rp[0] == q && rp.last() == p);
}

/// Connections compose.
pub proof fn lemma_connected_trans(b: Seq<Color>, p: int, q: int, r: int)
    requires
        connected(b, p, q),
        connected(b, q, r),
    ensures
        connected(b, p, r),
{
    lemma_connected_sym(b, p, q);
    let p1 = choose|path: Seq<int>| #[trigger] is_path(b, path, b[p]) && path[0] == p && path.last() == q;
    let p2 = choose|path: Seq<int>| #[trigger] is_path(b, path, b[q]) && path[0] == q && path.last() == r;
    let np = p1 + p2.skip(1);
    assert forall|i: int| 0 <= i < np.len() - 1 implies #[trigger] linked(np, i) by {
        if i < p1.len() - 1 {
            assert(linked(p1, i));
        } else if i == p1.len() - 1 {
            if p2.len() > 1 {
                assert(linked(p2, 0));
            }
        } else {
            assert(linked(p2, i - p1.len() + 1));
        }
    }
    assert forall|i: int| 0 <= i < np.len() implies on_board(#[trigger] np[i]) && b[np[i]] == b[p] by {
        if i < p1.len() {
            assert(on_board(p1[i]));
        } else {
            assert(on_board(p2[i - p1.len() + 1]));
        }
    }
    assert(is_path(b, np, b[p]));
    if p2.len() > 1 {
        assert(np.last() == p2.last());
    }
}

/// A closed set that holds the start of a path holds every point of it.
proof fn lemma_closed_holds_path(b: Seq<Color>, s: Set<int>, path: Seq<int>, c: Color, i: int)
    requires
        closed(b, s),
        is_path(b, path, c),
        s.contains(path[0]),
        0 <= i < path.len(),
    ensures
        s.contains(path[i]),
    decreases i,
{
    if i > 0 {
        lemma_closed_holds_path(b, s, path, c, i - 1);
        assert(linked(path, i - 1));
        assert(b[path[i - 1]] == c && b[path[i]] == c);
        assert(s.contains(path[i - 1]) && adjacent(path[i - 1], path[i]));
    }
}

/// A closed set that holds `p` holds its whole chain.
pub proof fn lemma_closed_holds_chain(b: Seq<Color>, s: Set<int>, p: int, q: int)
    requires
        closed(b, s),
        s.contains(p),
        connected(b, p, q),
    ensures
        s.contains(q),
{
    let path = choose|path: Seq<int>| #[trigger] is_path(b, path, b[p]) && path[0] == p && path.last() == q;
    lemma_closed_holds_path(b, s, path, b[p], path.len() - 1);
}

/// The chain of `p` is closed.
pub proof fn lemma_chain_closed(b: Seq<Color>, p: int)
    ensures
        closed(b, chain(b, p)),
{
    assert forall|x: int, y: int| #![trigger chain(b, p).contains(x), adjacent(x, y)]
        chain(b, p).contains(x) && adjacent(x, y) && b[y] == b[x] implies chain(b, p).contains(y) by {
        lemma_connected_sym(b, p, x);
        lemma_connected_step(b, p, x, y);
    }
}

/// Points of one chain have the same chain.
pub proof fn lemma_chain_same(b: Seq<Color>, p: int, q: int)
    requires
        connected(b, p, q),
    ensures
        chain(b, p) == chain(b, q),
{
    lemma_connected_sym(b, p, q);
    assert forall|x: int| chain(b, p).contains(x) <==> chain(b, q).contains(x) by {
        if connected(b, p, x) {
            lemma_connected_trans(b, q, p, x);
        }
        if connected(b, q, x) {
            lemma_connected_trans(b, p, q, x);
        }
    }
    assert(chain(b, p) =~= chain(b, q));
}

/// A chain is the only closed set of its colour around `p`: a closed set of
/// points connected to `p` that holds `p` is the chain of `p`.
pub proof fn lemma_chain_equal(b: Seq<Color>, s: Set<int>, p: int)
    requires
        closed(b, s),
        s.contains(p),
        forall|x: int| s.contains(x) ==> connected(b, p, x),
    ensures
        chain(b, p) == s,
{
    assert forall|x: int| chain(b, p).contains(x) <==> s.contains(x) by {
        if connected(b, p, x) {
            lemma_closed_holds_chain(b, s, p, x);
        }
    }
    assert(chain(b, p) =~= s);
}

/// Changing points that are not of `p`'s colour, into colours other than
/// `p`'s, leaves the chain of `p` as it was.
pub proof fn lemma_chain_unchanged(b: Seq<Color>, b2: Seq<Color>, p: int)
    requires
        b.len() == 361,
        b2.len() == 361,
        on_board(p),
        b2[p] == b[p],
        forall|x: int| on_board(x) && b[x] != b2[x] ==> b[x] != b[p] && b2[x] != b[p],
    ensures
        chain(b2, p) == chain(b, p),
{
    lemma_connected_refl(b, p);
    lemma_connected_refl(b2, p);
    lemma_chain_closed(b, p);
    lemma_chain_closed(b2, p);
    // The chain in `b` is closed in `b2`.
    assert forall|x: int, y: int| #![trigger chain(b, p).contains(x), adjacent(x, y)]
        chain(b, p).contains(x) && adjacent(x, y) && b2[y] == b2[x] implies chain(b, p).contains(y) by {
        lemma_connected_sym(b, p, x);
        assert(b[x] == b[p]);
        assert(b2[x] == b[p]);
        assert(b[y] == b[p]);
        lemma_connected_step(b, p, x, y);
    }
    // The chain in `b2` is closed in `b`.
    assert forall|x: int, y: int| #![trigger chain(b2, p).contains(x), adjacent(x, y)]
        chain(b2, p).contains(x) && adjacent(x, y) && b[y] == b[x] implies chain(b2, p).contains(y) by {
        lemma_connected_sym(b2, p, x);
        assert(b2[x] == b[p]);
        assert(b[x] == b[p]);
        assert(b2[y] == b[p]);
        lemma_connected_step(b2, p, x, y);
    }
    assert forall|x: int| chain(b, p).contains(x) <==> chain(b2, p).contains(x) by {
        if connected(b2, p, x) {
            lemma_closed_holds_chain(b2, chain(b, p), p, x);
        }
        if connected(b, p, x) {
            lemma_closed_holds_chain(b, chain(b2, p), p, x);
        }
    }
    assert(chain(b2, p) =~= chain(b, p));
}


/// Some point of `s` is adjacent to `pos`.
pub open spec fn touches(s: Set<int>, pos: int) -> bool {
    exists|m: int| #![trigger s.contains(m), adjacent(m, pos)] s.contains(m) && adjacent(m, pos)
}

/// The chain that a stone of colour `c` at the empty point `pos` of `b` joins:
/// `pos` and the chains of its neighbours of colour `c`.
pub open spec fn grown(b: Seq<Color>, pos: int, c: Color) -> Set<int> {
    Set::new(|x: int| x == pos || exists|a: int| #![trigger adjacent(pos, a), connected(b, a, x)]
        adjacent(pos, a) && b[a] == c && connected(b, a, x))
}

/// The empty neighbours of `pos`.
pub open spec fn empty_around(b: Seq<Color>, pos: int) -> Set<int> {
    Set::new(|x: int| adjacent(pos, x) && b[x] == Color::Empty)
}

/// A connection survives a change of the board that keeps every point of its
/// colour.
pub proof fn lemma_connected_keep(b: Seq<Color>, b2: Seq<Color>, p: int, q: int)
    requires
        connected(b, p, q),
        b.len() == 361,
        b2.len() == 361,
        forall|x: int| on_board(x) && b[x] == b[p] ==> b2[x] == b[x],
    ensures
        connected(b2, p, q),
{
    let path = choose|path: Seq<int>| #[trigger] is_path(b, path, b[p]) && path[0] == p && path.last() == q;
    assert(b2[p] == b[p]);
    assert forall|i: int| 0 <= i < path.len() implies on_board(#[trigger] path[i]) && b2[path[i]] == b2[p] by {
    }
    assert(is_path(b2, path, b2[p]));
}

/// A point is not adjacent to itself.
pub proof fn lemma_adjacent_irreflexive(p: int)
    ensures
        !adjacent(p, p),
{
}

/// The chain of a stone placed at an empty point is the point together with the
/// chains of its neighbours of the same colour.
pub proof fn lemma_grown_chain(b0: Seq<Color>, pos: int, c: Color)
    requires
        b0.len() == 361,
        on_board(pos),
        b0[pos] == Color::Empty,
        c != Color::Empty,
    ensures
        chain(b0.update(pos, c), pos) == grown(b0, pos, c),
{
    let b1 = b0.update(pos, c);
    let g = grown(b0, pos, c);
    lemma_connected_refl(b1, pos);
    // Every point of `grown` is connected to `pos` in the new board.
    assert forall|x: int| g.contains(x) implies connected(b1, pos, x) by {
        if x != pos {
            let a = choose|a: int| #![trigger adjacent(pos, a), connected(b0, a, x)]
                adjacent(pos, a) && b0[a] == c && connected(b0, a, x);
            assert forall|y: int| on_board(y) && b0[y] == b0[a] implies b1[y] == b0[y] by {
            }
            lemma_connected_keep(b0, b1, a, x);
            lemma_connected_step(b1, pos, pos, a);
            lemma_connected_trans(b1, pos, a, x);
        }
    }
    // `grown` is closed in the new board.
    assert forall|x: int, y: int| #![trigger g.contains(x), adjacent(x, y)]
        g.contains(x) && adjacent(x, y) && b1[y] == b1[x] implies g.contains(y) by {
        lemma_connected_sym(b1, pos, x);
        assert(b1[x] == c);
        if y == pos {
        } else if x == pos {
            lemma_connected_refl(b0, y);
            assert(adjacent(pos, y) && b0[y] == c && connected(b0, y, y));
        } else {
            let a = choose|a: int| #![trigger adjacent(pos, a), connected(b0, a, x)]
                adjacent(pos, a) && b0[a] == c && connected(b0, a, x);
            lemma_connected_sym(b0, a, x);
            assert(b0[y] == c);
            lemma_connected_step(b0, a, x, y);
            assert(adjacent(pos, a) && b0[a] == c && connected(b0, a, y));
        }
    }
    lemma_chain_equal(b1, g, pos);
}

/// The liberties of the grown chain: the liberties of the joined chains and the
/// empty neighbours of `pos`, without `pos`.
pub proof fn lemma_grown_liberties(b0: Seq<Color>, pos: int, c: Color)
    requires
        b0.len() == 361,
        on_board(pos),
        b0[pos] == Color::Empty,
        c != Color::Empty,
    ensures
        liberties(b0.update(pos, c), grown(b0, pos, c))
            == liberties(b0, grown(b0, pos, c).remove(pos)).union(empty_around(b0.update(pos, c), pos)).remove(pos),
{
    let b1 = b0.update(pos, c);
    let g = grown(b0, pos, c);
    let lhs = liberties(b1, g);
    let rhs = liberties(b0, g.remove(pos)).union(empty_around(b1, pos)).remove(pos);
    assert forall|x: int| lhs.contains(x) <==> rhs.contains(x) by {
        if lhs.contains(x) {
            let m = choose|m: int| #![trigger g.contains(m), adjacent(m, x)] g.contains(m) && adjacent(m, x);
            assert(x != pos);
            if m == pos {
                assert(empty_around(b1, pos).contains(x));
            } else {
                assert(g.remove(pos).contains(m));
            }
        }
        if rhs.contains(x) {
            if empty_around(b1, pos).contains(x) {
                lemma_adjacent_sym(pos, x);
                assert(g.contains(pos) && adjacent(pos, x));
            } else {
                let m = choose|m: int| #![trigger g.remove(pos).contains(m), adjacent(m, x)]
                    g.remove(pos).contains(m) && adjacent(m, x);
                assert(g.contains(m) && adjacent(m, x));
            }
        }
    }
    assert(lhs =~= rhs);
}

/// Placing a stone at `pos` leaves the chains that it does not join as they
/// were; their liberties lose `pos`, which they had exactly when they touched it.
pub proof fn lemma_chain_away(b0: Seq<Color>, pos: int, c: Color, p: int)
    requires
        b0.len() == 361,
        on_board(pos),
        on_board(p),
        b0[pos] == Color::Empty,
        c != Color::Empty,
        b0[p] != Color::Empty,
        !connected(b0.update(pos, c), p, pos),
    ensures
        chain(b0.update(pos, c), p) == chain(b0, p),
        liberties(b0.update(pos, c), chain(b0, p)) == liberties(b0, chain(b0, p)).remove(pos),
        liberties(b0, chain(b0, p)).contains(pos) == touches(chain(b0, p), pos),
{
    let b1 = b0.update(pos, c);
    assert(p != pos);
    // Paths of `p`'s colour avoid `pos` in the old board.
    assert forall|x: int| chain(b0, p).contains(x) implies chain(b1, p).contains(x) by {
        assert forall|y: int| on_board(y) && b0[y] == b0[p] implies b1[y] == b0[y] by {
        }
        lemma_connected_keep(b0, b1, p, x);
    }
    lemma_connected_refl(b0, p);
    assert forall|x: int, y: int| #![trigger chain(b0, p).contains(x), adjacent(x, y)]
        chain(b0, p).contains(x) && adjacent(x, y) && b1[y] == b1[x] implies chain(b0, p).contains(y) by {
        lemma_connected_sym(b0, p, x);
        if y == pos {
            lemma_connected_step(b1, p, x, y);
        } else {
            lemma_connected_step(b0, p, x, y);
        }
    }
    assert forall|x: int| chain(b1, p).contains(x) <==> chain(b0, p).contains(x) by {
        if connected(b1, p, x) {
            lemma_closed_holds_chain(b1, chain(b0, p), p, x);
        }
    }
    assert(chain(b1, p) =~= chain(b0, p));
    let s = chain(b0, p);
    assert forall|x: int| liberties(b1, s).contains(x) <==> liberties(b0, s).remove(pos).contains(x) by {
    }
    assert(liberties(b1, s) =~= liberties(b0, s).remove(pos));
    if touches(s, pos) {
        let m = choose|m: int| #![trigger s.contains(m), adjacent(m, pos)] s.contains(m) && adjacent(m, pos);
        assert(liberties(b0, s).contains(pos));
    }
}

/// Emptying the whole chain of `k` leaves the chains of the other stones as they
/// were.
pub proof fn lemma_chain_after_clear(b: Seq<Color>, k: int, p: int)
    requires
        b.len() == 361,
        on_board(k),
        on_board(p),
        b[k] != Color::Empty,
        b[p] != Color::Empty,
        !chain(b, k).contains(p),
    ensures
        chain(cleared(b, chain(b, k)), p) == chain(b, p),
{
    let kk = chain(b, k);
    let b2 = cleared(b, kk);
    lemma_chain_closed(b, k);
    lemma_connected_refl(b, p);
    // The chain of `p` and that of `k` share no point.
    assert forall|x: int| chain(b, p).contains(x) implies !kk.contains(x) by {
        if kk.contains(x) {
            lemma_connected_sym(b, p, x);
            lemma_connected_trans(b, k, x, p);
        }
    }
    assert(b2.len() == 361);
    assert(b2[p] == b[p]);
    assert forall|x: int, y: int| #![trigger chain(b, p).contains(x), adjacent(x, y)]
        chain(b, p).contains(x) && adjacent(x, y) && b2[y] == b2[x] implies chain(b, p).contains(y) by {
        lemma_connected_sym(b, p, x);
        assert(!kk.contains(x));
        if kk.contains(y) {
            assert(b2[y] == Color::Empty);
        } else {
            lemma_connected_step(b, p, x, y);
        }
    }
    assert forall|x: int, y: int| #![trigger chain(b2, p).contains(x), adjacent(x, y)]
        chain(b2, p).contains(x) && adjacent(x, y) && b[y] == b[x] implies chain(b2, p).contains(y) by {
        lemma_connected_sym(b2, p, x);
        assert(b2[x] == b[p]);
        assert(!kk.contains(x));
        if kk.contains(y) {
            lemma_adjacent_sym(x, y);
            lemma_connected_sym(b, k, y);
            assert(b[x] == b[k]);
            lemma_connected_step(b, k, y, x);
        }
        lemma_connected_step(b2, p, x, y);
    }
    assert forall|x: int| chain(b2, p).contains(x) <==> chain(b, p).contains(x) by {
        if connected(b2, p, x) {
            lemma_closed_holds_chain(b2, chain(b, p), p, x);
        }
        if connected(b, p, x) {
            lemma_connected_refl(b2, p);
            lemma_closed_holds_chain(b, chain(b2, p), p, x);
        }
    }
    assert(chain(b2, p) =~= chain(b, p));
}

/// The board with the points of `s` emptied.
pub open spec fn cleared(b: Seq<Color>, s: Set<int>) -> Seq<Color> {
    Seq::new(b.len(), |x: int| if s.contains(x) { Color::Empty } else { b[x] })
}

/// Emptying a chain gives its points to the liberties of the chains that touch
/// them.
pub proof fn lemma_liberties_after_clear(b: Seq<Color>, kk: Set<int>, s: Set<int>)
    requires
        b.len() == 361,
        forall|x: int| s.contains(x) ==> !kk.contains(x),
        forall|x: int| kk.contains(x) ==> on_board(x),
    ensures
        liberties(cleared(b, kk), s) == liberties(b, s).union(
            Set::new(|x: int| kk.contains(x) && touches(s, x))),
{
    let b2 = cleared(b, kk);
    let extra = Set::new(|x: int| kk.contains(x) && touches(s, x));
    assert forall|x: int| liberties(b2, s).contains(x) <==> liberties(b, s).union(extra).contains(x) by {
        if liberties(b2, s).contains(x) {
            if kk.contains(x) {
                let m = choose|m: int| #![trigger s.contains(m), adjacent(m, x)] s.contains(m) && adjacent(m, x);
                assert(touches(s, x));
            }
        }
        if extra.contains(x) {
            let m = choose|m: int| #![trigger s.contains(m), adjacent(m, x)] s.contains(m) && adjacent(m, x);
            assert(liberties(b2, s).contains(x));
        }
    }
    assert(liberties(b2, s) =~= liberties(b, s).union(extra));
}


/// Emptying a set of stones that is closed (whole chains) leaves the chains of
/// the other stones as they were.
pub proof fn lemma_chain_after_clear_set(b: Seq<Color>, r: Set<int>, p: int)
    requires
        b.len() == 361,
        closed(b, r),
        forall|x: int| r.contains(x) ==> on_board(x) && b[x] != Color::Empty,
        on_board(p),
        b[p] != Color::Empty,
        !r.contains(p),
    ensures
        chain(cleared(b, r), p) == chain(b, p),
        forall|x: int| chain(b, p).contains(x) ==> !r.contains(x),
{
    let b2 = cleared(b, r);
    lemma_connected_refl(b, p);
    assert forall|x: int| chain(b, p).contains(x) implies !r.contains(x) by {
        if r.contains(x) {
            lemma_connected_sym(b, p, x);
            lemma_closed_holds_chain(b, r, x, p);
        }
    }
    assert(b2.len() == 361);
    assert(b2[p] == b[p]);
    assert forall|x: int, y: int| #![trigger chain(b, p).contains(x), adjacent(x, y)]
        chain(b, p).contains(x) && adjacent(x, y) && b2[y] == b2[x] implies chain(b, p).contains(y) by {
        lemma_connected_sym(b, p, x);
        assert(!r.contains(x));
        if r.contains(y) {
            assert(b2[y] == Color::Empty);
        } else {
            lemma_connected_step(b, p, x, y);
        }
    }
    assert forall|x: int, y: int| #![trigger chain(b2, p).contains(x), adjacent(x, y)]
        chain(b2, p).contains(x) && adjacent(x, y) && b[y] == b[x] implies chain(b2, p).contains(y) by {
        lemma_connected_sym(b2, p, x);
        assert(b2[x] == b[p]);
        assert(!r.contains(x));
        if r.contains(y) {
            lemma_adjacent_sym(x, y);
            assert(r.contains(y) && adjacent(y, x) && b[x] == b[y]);
        }
        lemma_connected_step(b2, p, x, y);
    }
    assert forall|x: int| chain(b2, p).contains(x) <==> chain(b, p).contains(x) by {
        if connected(b2, p, x) {
            lemma_closed_holds_chain(b2, chain(b, p), p, x);
        }
        if connected(b, p, x) {
            lemma_connected_refl(b2, p);
            lemma_closed_holds_chain(b, chain(b2, p), p, x);
        }
    }
    assert(chain(b2, p) =~= chain(b, p));
}

/// A closed set holds no point next to a chain of the same colour outside it.
pub proof fn lemma_closed_not_touching(b: Seq<Color>, r: Set<int>, p: int)
    requires
        b.len() == 361,
        closed(b, r),
        forall|x: int| r.contains(x) ==> on_board(x) && b[x] == b[p],
        on_board(p),
        !r.contains(p),
    ensures
        Set::new(|x: int| r.contains(x) && touches(chain(b, p), x)) == Set::<int>::empty(),
{
    assert forall|x: int| !(r.contains(x) && touches(chain(b, p), x)) by {
        if r.contains(x) && touches(chain(b, p), x) {
            let ch = chain(b, p);
            let m = choose|m: int| #![trigger ch.contains(m), adjacent(m, x)] ch.contains(m) && adjacent(m, x);
            lemma_connected_sym(b, p, m);
            lemma_adjacent_sym(m, x);
            assert(r.contains(x) && adjacent(x, m) && b[m] == b[x]);
            assert(r.contains(m));
            lemma_closed_holds_chain(b, r, m, p);
        }
    }
    assert(Set::new(|x: int| r.contains(x) && touches(chain(b, p), x)) =~= Set::<int>::empty());
}

} // verus!
