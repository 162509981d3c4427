use simgo::board::{Board, Tile};

const A: u8 = b'A';
const B: u8 = b'B';

fn tick(board: &mut Board, moves: &[(u16, u16, u8)]) {
    for &(x, y, id) in moves {
        board.try_place(x, y, id);
    }
    board.commit();
    for &(x, y, _) in moves {
        board.kill_neighbors(x, y);
    }
}

#[test]
fn new_board_is_empty_and_sized() {
    let board = Board::new(3, 2);
    assert_eq!(board.width(), 3);
    assert_eq!(board.height(), 2);
    assert_eq!(board.serialize(), "......");
    assert!(board.is_settled());
    assert_eq!(board.tile(2, 1), Some(Tile::Empty));
    assert_eq!(board.tile(3, 0), None);
    assert_eq!(board.tile(0, 2), None);
}

#[test]
fn cell_count_matches_dimensions_through_a_tick() {
    let mut board = Board::new(4, 3);
    tick(&mut board, &[(0, 0, A), (3, 2, B)]);
    assert_eq!(board.serialize().chars().count(), 12);
    assert_eq!(board.node_count(), 12);
    assert!(board.contains(3, 2));
    assert!(!board.contains(4, 2));
}

#[test]
fn proposal_with_empty_neighbour_lands() {
    let mut board = Board::new(3, 3);
    board.try_place(1, 1, A);
    assert_eq!(board.tile(1, 1), Some(Tile::TryPlace(A)));
    assert!(!board.is_settled());
    board.commit();
    assert_eq!(board.tile(1, 1), Some(Tile::Player(A)));
    assert!(board.is_settled());
    assert_eq!(board.serialize(), "....A....");
}

#[test]
fn out_of_range_proposal_is_clamped() {
    let mut board = Board::new(3, 2);
    board.try_place(10, 7, A);
    assert_eq!(board.tile(2, 1), Some(Tile::TryPlace(A)));
    board.commit();
    assert_eq!(board.serialize(), ".....A");
}

#[test]
fn proposal_on_empty_board_is_ignored() {
    let mut board = Board::new(0, 3);
    board.try_place(0, 0, A);
    board.commit();
    board.kill_neighbors(0, 0);
    assert_eq!(board.serialize(), "");
}

#[test]
fn third_proposal_keeps_cell_contested() {
    let mut board = Board::new(3, 3);
    board.try_place(1, 1, A);
    board.try_place(1, 1, B);
    assert_eq!(board.tile(1, 1), Some(Tile::Contested));
    board.try_place(1, 1, b'C');
    assert_eq!(board.tile(1, 1), Some(Tile::Contested));
    board.commit();
    assert_eq!(board.tile(1, 1), Some(Tile::Empty));
}

#[test]
fn contested_cell_resolves_empty_and_keeps_bookkeeping() {
    let mut board = Board::new(3, 3);
    let before = board.liberties(1, 1);
    board.try_place(1, 1, A);
    board.try_place(1, 1, B);
    board.commit();
    assert_eq!(board.tile(1, 1), Some(Tile::Empty));
    assert_eq!(board.liberties(1, 1), before);
    assert_eq!(board.liberties(0, 1), Some(4));
    assert_eq!(board.serialize(), ".........");
}

#[test]
fn two_by_one_contested_scenario() {
    let mut board = Board::new(2, 1);
    board.try_place(0, 0, A);
    board.try_place(0, 0, B);
    board.commit();
    assert_eq!(board.tile(0, 0), Some(Tile::Empty));
    assert_ne!(board.tile(0, 0), Some(Tile::Player(A)));
    assert_ne!(board.tile(0, 0), Some(Tile::Player(B)));
    assert_eq!(board.serialize(), "..");
}

#[test]
fn commit_subtracts_from_neighbours_and_joins_own_groups() {
    let mut board = Board::new(3, 1);
    tick(&mut board, &[(0, 0, A)]);
    assert_eq!(board.liberties(1, 0), Some(3));
    tick(&mut board, &[(1, 0, A)]);
    // the new stone had 3 left, the old one lost 1: 3 + 3
    assert_eq!(board.liberties(0, 0), Some(6));
    assert_eq!(board.liberties(1, 0), Some(6));
    assert_eq!(board.liberties(2, 0), Some(3));
}

#[test]
fn resolve_conflict_handles_a_single_cell() {
    let mut board = Board::new(2, 2);
    board.try_place(0, 0, A);
    board.try_place(1, 1, B);
    board.resolve_conflict(0, 0);
    assert_eq!(board.tile(0, 0), Some(Tile::Player(A)));
    assert_eq!(board.tile(1, 1), Some(Tile::TryPlace(B)));
    board.resolve_conflict(5, 5);
    assert_eq!(board.tile(1, 1), Some(Tile::Player(B)));
    assert_eq!(board.serialize(), "A..B");
}

#[test]
fn suicide_move_is_ignored() {
    // A fills the corner's neighbours; B may not play into the corner.
    let mut board = Board::new(2, 2);
    tick(&mut board, &[(1, 0, A)]);
    tick(&mut board, &[(0, 1, A)]);
    board.try_place(0, 0, B);
    assert_eq!(board.tile(0, 0), Some(Tile::Empty));
    board.commit();
    assert_eq!(board.serialize(), ".AA.");
}

#[test]
fn own_corner_move_that_joins_groups_is_allowed() {
    let mut board = Board::new(2, 2);
    tick(&mut board, &[(1, 0, A)]);
    tick(&mut board, &[(0, 1, A)]);
    board.try_place(0, 0, A);
    assert_eq!(board.tile(0, 0), Some(Tile::TryPlace(A)));
}

#[test]
fn end_to_end_capture_of_a_single_stone() {
    let mut board = Board::new(3, 3);
    tick(&mut board, &[(1, 0, A), (0, 1, A), (1, 2, A)]);
    assert_eq!(board.serialize(), ".A.A...A.");
    assert_eq!(board.liberties(1, 0), Some(4));
    assert_eq!(board.liberties(1, 1), Some(1));
    tick(&mut board, &[(1, 1, B)]);
    assert_eq!(board.serialize(), ".A.AB..A.");
    assert_eq!(board.liberties(1, 0), Some(3));
    assert_eq!(board.liberties(0, 1), Some(3));
    assert_eq!(board.liberties(1, 2), Some(3));
    assert_eq!(board.liberties(1, 1), Some(1));
    tick(&mut board, &[(2, 1, A)]);
    assert_eq!(board.tile(1, 1), Some(Tile::Empty));
    assert_eq!(board.liberties(1, 1), Some(4));
    assert_eq!(board.serialize(), ".A.A.A.A.");
}

#[test]
fn capture_removes_a_whole_group_and_nothing_else() {
    let mut board = Board::new(4, 3);
    tick(&mut board, &[(1, 1, B), (2, 1, B)]);
    assert_eq!(board.liberties(1, 1), Some(6));
    for &(x, y) in &[(1, 0), (2, 0), (0, 1), (3, 1), (1, 2)] {
        tick(&mut board, &[(x, y, A)]);
    }
    assert_eq!(board.serialize(), ".AA.ABBA.A..");
    assert_eq!(board.liberties(2, 1), Some(1));
    tick(&mut board, &[(2, 2, A)]);
    assert_eq!(board.serialize(), ".AA.A..A.AA.");
    assert_eq!(board.liberties(1, 1), Some(4));
    assert_eq!(board.liberties(2, 1), Some(4));
    assert_eq!(board.tile(1, 0), Some(Tile::Player(A)));
}

#[test]
fn kill_neighbors_leaves_live_groups() {
    let mut board = Board::new(3, 3);
    tick(&mut board, &[(1, 1, A), (0, 0, B)]);
    board.kill_neighbors(1, 0);
    assert_eq!(board.serialize(), "B...A....");
}

#[test]
fn render_twice_gives_the_same_text() {
    let mut board = Board::new(3, 2);
    tick(&mut board, &[(0, 0, A), (2, 1, B)]);
    let first = board.serialize();
    let second = board.serialize();
    assert_eq!(first, second);
    assert_eq!(first, "A....B");
}

#[test]
fn tile_symbols() {
    assert_eq!(Tile::Empty.to_char(), '.');
    assert_eq!(Tile::Wall.to_char(), '/');
    assert_eq!(Tile::Player(b'Q').to_char(), 'Q');
}

#[test]
fn place_pieces_plays_a_whole_tick() {
    let mut board = Board::new(3, 3);
    board.place_pieces(&vec![(1, 0, A), (0, 1, A), (1, 2, A)]);
    board.place_pieces(&vec![(1, 1, B)]);
    board.place_pieces(&vec![(2, 1, A)]);
    assert!(board.is_settled());
    assert_eq!(board.serialize(), ".A.A.A.A.");
}

#[test]
fn place_pieces_with_a_contested_cell() {
    let mut board = Board::new(2, 1);
    board.place_pieces(&vec![(0, 0, A), (0, 0, B)]);
    assert_eq!(board.serialize(), "..");
}

#[test]
fn remove_group_takes_only_the_connected_region() {
    let mut board = Board::new(5, 1);
    tick(&mut board, &[(0, 0, B), (3, 0, B)]);
    tick(&mut board, &[(1, 0, B), (4, 0, B)]);
    assert_eq!(board.serialize(), "BB.BB");
    board.remove_group(1, 0);
    assert_eq!(board.serialize(), "...BB");
    assert_eq!(board.liberties(0, 0), Some(4));
    assert_eq!(board.liberties(1, 0), Some(4));
}

#[test]
fn empty_neighbour_is_never_suicide() {
    let mut board = Board::new(2, 2);
    tick(&mut board, &[(1, 0, A)]);
    assert!(!board.is_suicide(0, 0, B));
    tick(&mut board, &[(0, 1, A)]);
    assert!(board.is_suicide(0, 0, B));
    assert!(!board.is_suicide(0, 0, A));
}
