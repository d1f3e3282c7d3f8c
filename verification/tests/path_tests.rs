use std::collections::VecDeque;

use snek_search::grid::Grid;
use snek_search::grid::GridPosition;
use snek_search::path::can_move;
use snek_search::path::distance_sqared;
use snek_search::path::find_not_occupied;
use snek_search::path::find_path;
use snek_search::path::is_blocking;
use snek_search::path::PathList;
use snek_search::snek::Segment;
use snek_search::snek::Snek;

fn snek_of(cells: &[(i32, i32)]) -> Snek {
    let mut body = VecDeque::new();
    for &(x, y) in cells {
        body.push_back(Segment::new(GridPosition { x, y }));
    }
    Snek { body }
}

fn heads_of(path: &PathList) -> Vec<GridPosition> {
    let mut heads = Vec::new();
    let mut cur = path.first();
    let mut tail = path.drop_first();
    while let Some(s) = cur {
        heads.push(s.get_head());
        let t = tail.expect("a list with a first state has a tail");
        cur = t.first();
        tail = t.drop_first();
    }
    heads
}

#[test]
fn distance_is_squared_euclidean() {
    let a = GridPosition { x: 0, y: 0 };
    let b = GridPosition { x: 3, y: 4 };
    assert_eq!(distance_sqared(a, b), 25);
    assert_eq!(distance_sqared(b, a), 25);
    assert_eq!(distance_sqared(a, a), 0);
}

#[test]
fn first_open_cell_in_scan_order() {
    let g = Grid::new(2, 2);
    let s = snek_of(&[(0, 0), (0, 1)]);
    assert_eq!(find_not_occupied(&s, &g), GridPosition { x: 1, y: 0 });
    let empty = snek_of(&[]);
    assert_eq!(find_not_occupied(&empty, &g), GridPosition { x: 0, y: 0 });
}

#[test]
fn full_row_blocks() {
    let g = Grid::new(3, 3);
    let s = snek_of(&[(0, 1), (1, 1), (2, 1)]);
    assert!(is_blocking(&s, &g));
}

#[test]
fn empty_body_does_not_block() {
    let g = Grid::new(3, 3);
    let s = snek_of(&[]);
    assert!(!is_blocking(&s, &g));
}

#[test]
fn single_cell_does_not_block() {
    let g = Grid::new(3, 3);
    let s = snek_of(&[(1, 1)]);
    assert!(!is_blocking(&s, &g));
}

#[test]
fn sealed_corner_blocks() {
    let g = Grid::new(3, 3);
    let s = snek_of(&[(0, 1), (1, 0)]);
    assert!(is_blocking(&s, &g));
}

#[test]
fn can_move_with_open_neighbour() {
    let g = Grid::new(3, 3);
    let s = snek_of(&[(1, 1), (1, 0)]);
    assert!(can_move(&s, &g));
}

#[test]
fn cannot_move_when_surrounded() {
    let g = Grid::new(3, 3);
    let s = snek_of(&[
        (1, 1),
        (0, 1),
        (1, 0),
        (2, 1),
        (1, 2),
        (2, 0),
        (0, 2),
        (2, 2),
    ]);
    assert!(!can_move(&s, &g));
}

#[test]
fn route_on_open_grid() {
    // 4x4 grid, one-cell body with head at (1,0), target at (3,0)
    let g = Grid::new(4, 4);
    let s = Snek::new(GridPosition { x: 2, y: 0 });
    let food = GridPosition { x: 3, y: 0 };
    let (path, _scores) = find_path(s, &g, food).expect("a route exists");
    let heads = heads_of(&path);
    assert!(heads.len() >= 3);
    assert_eq!(heads[0], GridPosition { x: 1, y: 0 });
    assert_eq!(*heads.last().unwrap(), food);
    // the path is a chain of legal one-step moves
    for w in heads.windows(2) {
        let dx = (w[0].x - w[1].x).abs();
        let dy = (w[0].y - w[1].y).abs();
        assert_eq!(dx + dy, 1);
    }
}

#[test]
fn route_to_adjacent_target_and_scores() {
    // 2x2 grid, body on three cells, the single open cell is the target
    let g = Grid::new(2, 2);
    let s = snek_of(&[(0, 0), (0, 1), (1, 1)]);
    let food = GridPosition { x: 1, y: 0 };
    let (path, scores) = find_path(s, &g, food).expect("the adjacent target is reached");
    assert_eq!(path.len(), 2);
    let heads = heads_of(&path);
    assert_eq!(heads, vec![GridPosition { x: 0, y: 0 }, food]);
    // the final state grew onto the target
    let last = path.reverse().first().unwrap();
    assert_eq!(last.body.len(), 4);
    // exactly one cell was expanded, once
    assert_eq!(scores.len(), 1);
    assert_eq!(scores.get(&GridPosition { x: 0, y: 0 }), Some(1));
    assert_eq!(scores.get(&food), None);
}

#[test]
fn no_route_when_surrounded() {
    // 3x3 grid, the head's four neighbours are all occupied
    let g = Grid::new(3, 3);
    let s = snek_of(&[
        (1, 1),
        (0, 1),
        (1, 0),
        (2, 1),
        (1, 2),
        (2, 0),
        (0, 2),
        (2, 2),
    ]);
    let food = GridPosition { x: 0, y: 0 };
    assert!(find_path(s, &g, food).is_none());
}

#[test]
fn path_list_operations() {
    let a = Snek::new(GridPosition { x: 1, y: 0 });
    let b = Snek::new(GridPosition { x: 5, y: 5 });
    let l = PathList::new();
    assert_eq!(l.len(), 0);
    assert!(l.first().is_none());
    assert!(l.drop_first().is_none());
    let l1 = l.push_front(a);
    let l2 = l1.push_front(b);
    assert_eq!(l2.len(), 2);
    assert_eq!(l2.first().unwrap().get_head(), GridPosition { x: 4, y: 5 });
    assert_eq!(
        l2.drop_first().unwrap().first().unwrap().get_head(),
        GridPosition { x: 0, y: 0 }
    );
    let r = l2.reverse();
    assert_eq!(r.len(), 2);
    assert_eq!(r.first().unwrap().get_head(), GridPosition { x: 0, y: 0 });
}
