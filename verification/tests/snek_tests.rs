use std::collections::VecDeque;

use snek_search::grid::GridPosition;
use snek_search::snek::Segment;
use snek_search::snek::Snek;
use snek_search::Food;

fn body_cells(s: &Snek) -> Vec<GridPosition> {
    s.body.iter().map(|seg| seg.pos).collect()
}

fn snek_of(cells: &[(i32, i32)]) -> Snek {
    let mut body = VecDeque::new();
    for &(x, y) in cells {
        body.push_back(Segment::new(GridPosition { x, y }));
    }
    Snek { body }
}

#[test]
fn segment_new_keeps_position() {
    let s = Segment::new(GridPosition { x: 2, y: 5 });
    assert_eq!(s.pos, GridPosition { x: 2, y: 5 });
}

#[test]
fn food_new_keeps_position() {
    let f = Food::new(GridPosition { x: 1, y: 1 });
    assert_eq!(f.pos, GridPosition { x: 1, y: 1 });
}

#[test]
fn new_body_starts_one_step_behind() {
    let s = Snek::new(GridPosition { x: 2, y: 0 });
    assert_eq!(body_cells(&s), vec![GridPosition { x: 1, y: 0 }]);
    assert_eq!(s.get_head(), GridPosition { x: 1, y: 0 });
}

#[test]
fn eat_grows_by_one_and_prepends_head() {
    let s = snek_of(&[(1, 1), (1, 2)]);
    let grown = s.eat(GridPosition { x: 2, y: 1 });
    assert_eq!(grown.body.len(), 3);
    assert_eq!(
        body_cells(&grown),
        vec![
            GridPosition { x: 2, y: 1 },
            GridPosition { x: 1, y: 1 },
            GridPosition { x: 1, y: 2 },
        ]
    );
    // the receiver is unchanged
    assert_eq!(s.body.len(), 2);
}

#[test]
fn go_keeps_length_and_drops_tail() {
    let s = snek_of(&[(1, 1), (1, 2), (2, 2)]);
    let moved = s.go(&GridPosition { x: 0, y: 1 });
    assert_eq!(moved.body.len(), 3);
    assert_eq!(
        body_cells(&moved),
        vec![
            GridPosition { x: 0, y: 1 },
            GridPosition { x: 1, y: 1 },
            GridPosition { x: 1, y: 2 },
        ]
    );
    assert_eq!(s.body.len(), 3);
}

#[test]
fn transitions_keep_cells_distinct() {
    let s = snek_of(&[(1, 1), (1, 2)]);
    let grown = s.eat(GridPosition { x: 2, y: 1 });
    let moved = grown.go(&GridPosition { x: 2, y: 0 });
    for snake in [&grown, &moved] {
        let cells = body_cells(snake);
        for i in 0..cells.len() {
            for j in 0..cells.len() {
                if i != j {
                    assert_ne!(cells[i], cells[j]);
                }
            }
        }
    }
}

#[test]
fn is_occupied_finds_every_cell() {
    let s = snek_of(&[(1, 1), (1, 2), (0, 2)]);
    assert!(s.is_occupied(&GridPosition { x: 1, y: 1 }));
    assert!(s.is_occupied(&GridPosition { x: 1, y: 2 }));
    assert!(s.is_occupied(&GridPosition { x: 0, y: 2 }));
    assert!(!s.is_occupied(&GridPosition { x: 0, y: 0 }));
    assert!(!s.is_occupied(&GridPosition { x: 2, y: 2 }));
}
