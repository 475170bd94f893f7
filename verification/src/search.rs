//! The counting side of tree search: how the result of a finished line of play
//! is credited to the edges above it.  Each edge records how often it was
//! sampled and how often the player who took it went on to win or to lose; the
//! credit alternates between the two players going up the line.

use vstd::prelude::*;
use crate::game::GameStatus;

verus! {

/// What an edge of the search tree has recorded.
#[derive(Clone, Copy, Debug, PartialEq, Eq, Structural)]
pub struct EdgeCounts {
    pub visit_count: usize,
    pub wins: usize,
    pub losses: usize,
}

/// The win and the loss that a line ending in `status` credits to the edge `k`
/// steps above its end: the status's own win and loss on every other edge,
/// swapped on the ones between.
pub open spec fn credit(status: GameStatus, k: int) -> (int, int) {
    let win: int = if status == GameStatus::LastPlayerWon { 1 } else { 0 };
    let loss: int = if status == GameStatus::LastPlayerLost { 1 } else { 0 };
    if k % 2 == 0 { (win, loss) } else { (loss, win) }
}

/// An edge after one more sample credited with `(win, loss)`.
pub open spec fn credited(e: EdgeCounts, c: (int, int)) -> EdgeCounts {
    EdgeCounts {
        visit_count: (e.visit_count + 1) as usize,
        wins: (e.wins + c.0) as usize,
        losses: (e.losses + c.1) as usize,
    }
}

/// The counters leave room for one more sample.
pub open spec fn has_room(e: EdgeCounts) -> bool {
    e.visit_count < usize::MAX && e.wins < usize::MAX && e.losses < usize::MAX
}

/// Credits a line that ended in `status` to the edges above its end, the edge
/// nearest the end first: each edge counts one more visit, and its win and
/// loss as `credit` gives them.
pub fn backup(status: GameStatus, path: &mut Vec<EdgeCounts>)
    requires
        forall|i: int| 0 <= i < old(path)@.len() ==> has_room(#[trigger] old(path)@[i]),
    ensures
        final(path)@.len() == old(path)@.len(),
        forall|i: int| 0 <= i < old(path)@.len() ==>
            #[trigger] final(path)@[i] == credited(old(path)@[i], credit(status, i)),
{
    let mut win: usize = if status == GameStatus::LastPlayerWon { 1 } else { 0 };
    let mut loss: usize = if status == GameStatus::LastPlayerLost { 1 } else { 0 };
    let mut i: usize = 0;
    while i < path.len()
        invariant
            i <= path@.len(),
            path@.len() == old(path)@.len(),
            forall|k: int| 0 <= k < old(path)@.len() ==> has_room(#[trigger] old(path)@[k]),
            forall|k: int| 0 <= k < i ==> #[trigger] path@[k] == credited(old(path)@[k], credit(status, k)),
            forall|k: int| i <= k < path@.len() ==> #[trigger] path@[k] == old(path)@[k],
            (win as int, loss as int) == credit(status, i as int),
        decreases path@.len() - i,
    {
        let e = path[i];
        path.set(i, EdgeCounts { visit_count: e.visit_count + 1, wins: e.wins + win, losses: e.losses + loss });
        let t = win;
        win = loss;
        loss = t;
        i = i + 1;
    }
}

/// The edge to play once moves are no longer drawn at random: the one visited
/// most often, the last of them where several are visited as often (as
/// `Iterator::max_by_key` picks); nothing when there is no edge.
pub fn most_visited(edges: &Vec<EdgeCounts>) -> (r: Option<usize>)
    ensures
        r is None <==> edges@.len() == 0,
        r matches Some(i) ==> {
            &&& i < edges@.len()
            &&& forall|j: int| 0 <= j < edges@.len() ==> #[trigger] edges@[j].visit_count <= edges@[i as int].visit_count
            &&& forall|j: int| i < j < edges@.len() ==> #[trigger] edges@[j].visit_count < edges@[i as int].visit_count
        },
{
    if edges.len() == 0 {
        return None;
    }
    let mut best: usize = 0;
    let mut k: usize = 1;
    while k < edges.len()
        invariant
            1 <= k <= edges@.len(),
            best < k,
            forall|j: int| 0 <= j < k ==> #[trigger] edges@[j].visit_count <= edges@[best as int].visit_count,
            forall|j: int| best < j < k ==> #[trigger] edges@[j].visit_count < edges@[best as int].visit_count,
        decreases edges@.len() - k,
    {
        if edges[k].visit_count >= edges[best].visit_count {
            best = k;
        }
        k = k + 1;
    }
    Some(best)
}

} // verus!
