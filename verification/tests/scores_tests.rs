use snek_search::grid::GridPosition;
use snek_search::scores::Scores;

#[test]
fn fresh_scores_are_empty() {
    let s = Scores::new();
    assert_eq!(s.len(), 0);
    assert_eq!(s.get(&GridPosition { x: 0, y: 0 }), None);
}

#[test]
fn bump_creates_then_increments() {
    let mut s = Scores::new();
    let a = GridPosition { x: 1, y: 2 };
    let b = GridPosition { x: 2, y: 1 };
    s.bump(a);
    assert_eq!(s.len(), 1);
    assert_eq!(s.get(&a), Some(1));
    s.bump(a);
    assert_eq!(s.len(), 1);
    assert_eq!(s.get(&a), Some(2));
    s.bump(b);
    assert_eq!(s.len(), 2);
    assert_eq!(s.get(&b), Some(1));
    assert_eq!(s.get(&a), Some(2));
}
