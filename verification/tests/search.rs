use seraphim::game::GameStatus;
use seraphim::search::{backup, most_visited, EdgeCounts};

fn edges(n: usize) -> Vec<EdgeCounts> {
    (0..n).map(|i| EdgeCounts { visit_count: i, wins: 0, losses: 0 }).collect()
}

#[test]
fn a_win_is_credited_to_alternate_edges() {
    let mut path = edges(4);
    backup(GameStatus::LastPlayerWon, &mut path);
    let counts: Vec<(usize, usize, usize)> = path.iter().map(|e| (e.visit_count, e.wins, e.losses)).collect();
    assert_eq!(counts, vec![(1, 1, 0), (2, 0, 1), (3, 1, 0), (4, 0, 1)]);
}

#[test]
fn a_loss_is_credited_the_other_way() {
    let mut path = edges(3);
    backup(GameStatus::LastPlayerLost, &mut path);
    let counts: Vec<(usize, usize)> = path.iter().map(|e| (e.wins, e.losses)).collect();
    assert_eq!(counts, vec![(0, 1), (1, 0), (0, 1)]);
}

#[test]
fn a_draw_only_counts_visits() {
    let mut path = edges(2);
    backup(GameStatus::Draw, &mut path);
    backup(GameStatus::NullResult, &mut path);
    let counts: Vec<(usize, usize, usize)> = path.iter().map(|e| (e.visit_count, e.wins, e.losses)).collect();
    assert_eq!(counts, vec![(2, 0, 0), (3, 0, 0)]);
    let mut empty = Vec::new();
    backup(GameStatus::LastPlayerWon, &mut empty);
    assert!(empty.is_empty());
}

#[test]
fn the_most_visited_edge_is_chosen_last_among_equals() {
    let e = |v: usize| EdgeCounts { visit_count: v, wins: 0, losses: 0 };
    assert_eq!(most_visited(&vec![]), None);
    assert_eq!(most_visited(&vec![e(3)]), Some(0));
    assert_eq!(most_visited(&vec![e(1), e(7), e(2)]), Some(1));
    assert_eq!(most_visited(&vec![e(5), e(2), e(5), e(1)]), Some(2));
}
