use hexgame::Color;
use hexgame::Error;
use hexgame::HexGame;
use hexgame::MoveOutcome;

fn placed(won: bool) -> MoveOutcome {
    MoveOutcome::Placed { won }
}

fn sorted(mut v: Vec<usize>) -> Vec<usize> {
    v.sort();
    v
}

#[test]
fn boards_below_side_two_are_refused() {
    assert!(matches!(HexGame::new(0), Err(Error::InvalidSize)));
    assert!(matches!(HexGame::new(1), Err(Error::InvalidSize)));
    assert!(HexGame::new(2).is_ok());
    assert!(HexGame::new(11).is_ok());
}

#[test]
fn move_bounds_are_one_based_and_inclusive() {
    for size in 2..=6 {
        let g = HexGame::new(size).unwrap();
        assert!(!g.is_valid_move(0));
        assert!(g.is_valid_move(1));
        assert!(g.is_valid_move(size * size));
        assert!(!g.is_valid_move(size * size + 1));
    }
}

#[test]
fn new_board_is_blank() {
    let g = HexGame::new(4).unwrap();
    let snap = g.snapshot();
    assert_eq!(snap.len(), 16);
    assert!(snap.iter().all(|c| *c == Color::Blank));
    for cell in 0..16 {
        assert!(!g.is_occupied(cell));
    }
}

#[test]
fn snapshot_reflects_moves_in_row_major_order() {
    let mut g = HexGame::new(3).unwrap();
    assert_eq!(g.apply_move(5, Color::Red), placed(false));
    assert_eq!(g.apply_move(9, Color::Blue), placed(false));
    let snap = g.snapshot();
    assert_eq!(snap[4], Color::Red);
    assert_eq!(snap[8], Color::Blue);
    assert_eq!(snap.iter().filter(|c| **c != Color::Blank).count(), 2);
    assert!(g.is_occupied(4));
    assert!(g.is_occupied(8));
    assert!(!g.is_occupied(0));
}

#[test]
fn occupied_cells_reject_the_move_and_change_nothing() {
    let mut g = HexGame::new(3).unwrap();
    assert_eq!(g.apply_move(5, Color::Red), placed(false));
    let before = g.snapshot();
    assert_eq!(g.apply_move(5, Color::Blue), MoveOutcome::Rejected);
    assert_eq!(g.apply_move(5, Color::Red), MoveOutcome::Rejected);
    assert_eq!(g.snapshot(), before);
    // the rejected moves issued no unions: the game plays on as if they
    // never happened, and the same winning line still decides it
    assert_eq!(g.apply_move(4, Color::Red), placed(false));
    assert_eq!(g.apply_move(6, Color::Red), placed(false));
    assert_eq!(g.apply_move(1, Color::Red), placed(false));
    assert_eq!(g.apply_move(7, Color::Red), placed(true));
}

#[test]
fn play_red_and_play_blue_report_rejection_as_false() {
    let mut g = HexGame::new(3).unwrap();
    assert!(!g.play_red(5));
    assert!(!g.play_blue(5));
    assert!(!g.play_red(5));
    assert_eq!(g.snapshot()[4], Color::Red);
}

#[test]
fn first_piece_never_wins() {
    for size in 2..=4 {
        for position in 1..=(size * size) {
            let mut g = HexGame::new(size).unwrap();
            assert_eq!(g.apply_move(position, Color::Red), placed(false));
            let mut g = HexGame::new(size).unwrap();
            assert_eq!(g.apply_move(position, Color::Blue), placed(false));
        }
    }
}

#[test]
fn red_wins_a_column_on_the_smallest_board() {
    let mut g = HexGame::new(2).unwrap();
    assert!(!g.play_red(1));
    assert!(g.play_red(3));
}

#[test]
fn blue_wins_a_row_on_the_smallest_board() {
    let mut g = HexGame::new(2).unwrap();
    assert!(!g.play_blue(1));
    assert!(g.play_blue(2));
}

#[test]
fn full_top_row_plus_connecting_column_wins_on_the_last_move() {
    let mut g = HexGame::new(3).unwrap();
    assert_eq!(g.apply_move(1, Color::Red), placed(false));
    assert_eq!(g.apply_move(2, Color::Red), placed(false));
    assert_eq!(g.apply_move(3, Color::Red), placed(false));
    assert_eq!(g.apply_move(6, Color::Red), placed(false));
    assert_eq!(g.apply_move(9, Color::Red), placed(true));
}

#[test]
fn the_skewed_diagonal_is_connected_and_wins() {
    // (0,2) -> (1,1) -> (2,0) are hex-neighbors through the (+1,-1) offset
    let mut g = HexGame::new(3).unwrap();
    assert!(!g.play_red(3));
    assert!(!g.play_red(5));
    assert!(g.play_red(7));
}

#[test]
fn the_other_diagonal_is_not_connected() {
    // (0,0), (1,1), (2,2) are not hex-neighbors: no (+1,+1) offset exists
    let mut g = HexGame::new(3).unwrap();
    assert!(!g.play_red(1));
    assert!(!g.play_red(5));
    assert!(!g.play_red(9));
}

#[test]
fn a_full_column_does_not_win_for_blue() {
    // blue connects top to bottom, but blue's goal is left to right
    let mut g = HexGame::new(3).unwrap();
    assert!(!g.play_blue(1));
    assert!(!g.play_blue(4));
    assert!(!g.play_blue(7));
    // red's goal is top to bottom, but these cells are blue, not red
    let mut g = HexGame::new(3).unwrap();
    assert!(!g.play_blue(1));
    assert!(!g.play_blue(4));
    assert!(!g.play_blue(7));
    assert!(!g.play_red(2));
    assert!(!g.play_red(5));
}

#[test]
fn a_blue_chain_decides_for_blue_while_red_plays_elsewhere() {
    let mut g = HexGame::new(3).unwrap();
    assert!(!g.play_blue(4));
    assert!(!g.play_red(1));
    assert!(!g.play_blue(5));
    assert!(!g.play_red(2));
    assert!(g.play_blue(6));
}

#[test]
fn corner_and_edge_neighbor_lists_are_exact() {
    let g = HexGame::new(3).unwrap();
    // virtual nodes on a 3x3 board: top 9, bottom 10, left 11, right 12
    assert_eq!(sorted(g.get_neighbors(0, true)), vec![1, 3, 9]);
    assert_eq!(sorted(g.get_neighbors(0, false)), vec![1, 3, 11]);
    assert_eq!(sorted(g.get_neighbors(2, true)), vec![1, 4, 5, 9]);
    assert_eq!(sorted(g.get_neighbors(2, false)), vec![1, 4, 5, 12]);
    assert_eq!(sorted(g.get_neighbors(4, true)), vec![1, 2, 3, 5, 6, 7]);
    assert_eq!(sorted(g.get_neighbors(4, false)), vec![1, 2, 3, 5, 6, 7]);
    assert_eq!(sorted(g.get_neighbors(6, true)), vec![3, 4, 7, 10]);
    assert_eq!(sorted(g.get_neighbors(6, false)), vec![3, 4, 7, 11]);
    assert_eq!(sorted(g.get_neighbors(8, true)), vec![5, 7, 10]);
    assert_eq!(sorted(g.get_neighbors(8, false)), vec![5, 7, 12]);
    assert_eq!(sorted(g.get_neighbors(3, true)), vec![0, 1, 4, 6]);
    assert_eq!(sorted(g.get_neighbors(3, false)), vec![0, 1, 4, 6, 11]);
    assert_eq!(sorted(g.get_neighbors(5, true)), vec![2, 4, 7, 8]);
    assert_eq!(sorted(g.get_neighbors(5, false)), vec![2, 4, 7, 8, 12]);
    assert_eq!(sorted(g.get_neighbors(1, true)), vec![0, 2, 3, 4, 9]);
    assert_eq!(sorted(g.get_neighbors(7, true)), vec![4, 5, 6, 8, 10]);
}

#[test]
fn grid_neighborhood_is_symmetric() {
    for size in 2..=5 {
        let g = HexGame::new(size).unwrap();
        let cells = size * size;
        for a in 0..cells {
            for is_red in [true, false] {
                for m in g.get_neighbors(a, is_red) {
                    if m < cells {
                        assert!(
                            g.get_neighbors(m, is_red).contains(&a),
                            "size {size}: {m} is a neighbor of {a} but not vice versa"
                        );
                    }
                }
            }
        }
    }
}
