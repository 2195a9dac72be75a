use statemachine::tileboard::{Coord, TileBoard};
use statemachine::boxes::BFSBox;
use statemachine::machine::Machine;
use statemachine::traits::{Solver, State};

#[test]
fn calculates_square_grid_differences_alright() {
    let t: TileBoard<2, 2> = TileBoard::from_rows([[1, 2], [3, 0]]);
    assert_eq!(
        t.differences(),
        vec![
            (Coord::new(1, 1), Coord::new(1, 1)),
            (Coord::new(0, 0), Coord::new(0, 0)),
            (Coord::new(1, 0), Coord::new(1, 0)),
            (Coord::new(0, 1), Coord::new(0, 1)),
        ]
    );

    let t: TileBoard<2, 2> = TileBoard::from_rows([[1, 3], [2, 0]]);
    assert_eq!(
        t.differences(),
        vec![
            (Coord::new(1, 1), Coord::new(1, 1)),
            (Coord::new(0, 0), Coord::new(0, 0)),
            (Coord::new(1, 0), Coord::new(0, 1)),
            (Coord::new(0, 1), Coord::new(1, 0)),
        ]
    );

    let t: TileBoard<4, 4> = TileBoard::from_rows([
        [0, 5, 2, 10],
        [1, 8, 6, 3],
        [14, 4, 9, 12],
        [11, 7, 15, 13],
    ]);
    assert_eq!(
        t.differences(),
        vec![
            (Coord::new(3, 3), Coord::new(0, 0)),
            (Coord::new(0, 0), Coord::new(0, 1)),
            (Coord::new(1, 0), Coord::new(2, 0)),
            (Coord::new(2, 0), Coord::new(3, 1)),
            (Coord::new(3, 0), Coord::new(1, 2)),
            (Coord::new(0, 1), Coord::new(1, 0)),
            (Coord::new(1, 1), Coord::new(2, 1)),
            (Coord::new(2, 1), Coord::new(1, 3)),
            (Coord::new(3, 1), Coord::new(1, 1)),
            (Coord::new(0, 2), Coord::new(2, 2)),
            (Coord::new(1, 2), Coord::new(3, 0)),
            (Coord::new(2, 2), Coord::new(0, 3)),
            (Coord::new(3, 2), Coord::new(3, 2)),
            (Coord::new(0, 3), Coord::new(3, 3)),
            (Coord::new(1, 3), Coord::new(0, 2)),
            (Coord::new(2, 3), Coord::new(2, 3)),
        ]
    );
}

#[test]
fn calculates_rectangular_grid_differences_alright() {
    let t: TileBoard<4, 1> = TileBoard::from_rows([[0, 1, 2, 3]]);
    assert_eq!(
        t.differences(),
        vec![
            (Coord::new(3, 0), Coord::new(0, 0)),
            (Coord::new(0, 0), Coord::new(1, 0)),
            (Coord::new(1, 0), Coord::new(2, 0)),
            (Coord::new(2, 0), Coord::new(3, 0)),
        ]
    );

    let t: TileBoard<4, 1> = TileBoard::from_rows([[3, 2, 1, 0]]);
    assert_eq!(
        t.differences(),
        vec![
            (Coord::new(3, 0), Coord::new(3, 0)),
            (Coord::new(0, 0), Coord::new(2, 0)),
            (Coord::new(1, 0), Coord::new(1, 0)),
            (Coord::new(2, 0), Coord::new(0, 0)),
        ]
    );

    let t: TileBoard<4, 2> = TileBoard::from_rows([[7, 6, 5, 4], [3, 2, 1, 0]]);
    assert_eq!(
        t.differences(),
        vec![
            (Coord::new(3, 1), Coord::new(3, 1)),
            (Coord::new(0, 0), Coord::new(2, 1)),
            (Coord::new(1, 0), Coord::new(1, 1)),
            (Coord::new(2, 0), Coord::new(0, 1)),
            (Coord::new(3, 0), Coord::new(3, 0)),
            (Coord::new(0, 1), Coord::new(2, 0)),
            (Coord::new(1, 1), Coord::new(1, 0)),
            (Coord::new(2, 1), Coord::new(0, 0)),
        ]
    );
}

#[test]
fn default_board_is_solved_layout() {
    let t: TileBoard<3, 2> = TileBoard::default();
    assert!(t == TileBoard::from_rows([[1, 2, 3], [4, 5, 0]]));
}

#[test]
fn next_slides_tiles_into_the_blank_in_order() {
    let t: TileBoard<3, 2> = TileBoard::from_rows([[1, 0, 3], [4, 2, 5]]);
    let next = t.next();
    assert_eq!(next.len(), 3);
    assert!(next[0] == TileBoard::from_rows([[0, 1, 3], [4, 2, 5]]));
    assert!(next[1] == TileBoard::from_rows([[1, 3, 0], [4, 2, 5]]));
    assert!(next[2] == TileBoard::from_rows([[1, 2, 3], [4, 0, 5]]));
}

#[test]
fn corner_blank_has_two_moves() {
    let t: TileBoard<2, 2> = TileBoard::default();
    let next = t.next();
    assert_eq!(next.len(), 2);
    assert!(next[0] == TileBoard::from_rows([[1, 2], [0, 3]]));
    assert!(next[1] == TileBoard::from_rows([[1, 0], [3, 2]]));
}

#[test]
fn shuffled_board_keeps_every_tile_once() {
    let t: TileBoard<3, 3> = TileBoard::shuffled(50);
    let mut occupied = vec![false; 9];
    for (_, lies) in t.differences() {
        let idx = lies.row() * 3 + lies.column();
        assert!(!occupied[idx]);
        occupied[idx] = true;
    }
    assert!(occupied.iter().all(|b| *b));
    let zero_shuffles: TileBoard<3, 3> = TileBoard::shuffled(0);
    let one_shuffle: TileBoard<3, 3> = TileBoard::shuffled(1);
    assert!(one_shuffle != TileBoard::default());
    assert!(zero_shuffles == TileBoard::default());
}

#[test]
fn shuffled_board_can_be_solved() {
    let t: TileBoard<3, 2> = TileBoard::shuffled(40);
    let path = Machine::new(t, TileBoard::default())
        .find_one::<BFSBox<_>>()
        .unwrap();
    assert!(path[0] == t);
    assert!(path[path.len() - 1] == TileBoard::default());
}
