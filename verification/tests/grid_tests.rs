use snek_search::grid::Grid;
use snek_search::grid::GridPosition;

#[test]
fn new_keeps_dimensions() {
    let g = Grid::new(10, 7);
    assert_eq!(g.size_x, 10);
    assert_eq!(g.size_y, 7);
}

#[test]
fn create_position_keeps_coordinates() {
    let p = Grid::create_position(3, -2);
    assert_eq!(p.x, 3);
    assert_eq!(p.y, -2);
}

#[test]
fn in_range_bounds() {
    let g = Grid::new(4, 3);
    assert!(g.is_in_range(&GridPosition { x: 0, y: 0 }));
    assert!(g.is_in_range(&GridPosition { x: 3, y: 2 }));
    assert!(!g.is_in_range(&GridPosition { x: 4, y: 0 }));
    assert!(!g.is_in_range(&GridPosition { x: 0, y: 3 }));
    assert!(!g.is_in_range(&GridPosition { x: -1, y: 1 }));
}

#[test]
fn neighbours_of_center_in_fixed_order() {
    let g = Grid::new(3, 3);
    let n = g.for_each_neighbour(GridPosition { x: 1, y: 1 });
    assert_eq!(n.len(), 4);
    assert_eq!(n[0], GridPosition { x: 1, y: 0 });
    assert_eq!(n[1], GridPosition { x: 1, y: 2 });
    assert_eq!(n[2], GridPosition { x: 0, y: 1 });
    assert_eq!(n[3], GridPosition { x: 2, y: 1 });
}

#[test]
fn neighbours_of_corner_omit_out_of_range() {
    let g = Grid::new(3, 3);
    let n = g.for_each_neighbour(GridPosition { x: 0, y: 0 });
    assert_eq!(n.len(), 2);
    assert_eq!(n[0], GridPosition { x: 0, y: 1 });
    assert_eq!(n[1], GridPosition { x: 1, y: 0 });
}

#[test]
fn random_position_is_in_range() {
    let g = Grid::new(5, 4);
    for _ in 0..50 {
        let p = g.random_position();
        assert!(p.x >= 0 && p.x < 5);
        assert!(p.y >= 0 && p.y < 4);
    }
}
