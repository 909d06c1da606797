use minesweeper::board::{Board, BoardError, Tile, TileType};
use minesweeper::grid::{Position, INVALID_BOARD_INDEX};
use minesweeper::placement::place_mine;

const E: TileType = TileType::Empty;
const M: TileType = TileType::Mine;

fn board_from(width: i32, height: i32, layout: Vec<TileType>) -> Board {
    let mut board = Board::from_layout(width, height, layout).expect("valid layout");
    board.calculate_adjacent_mine_counts();
    board
}

fn count_of(board: &Board, x: i32, y: i32) -> u8 {
    board.tile(x, y).expect("on the board").adjacent_mine_count
}

fn mines_on(board: &Board) -> usize {
    let mut n = 0;
    for y in 0..board.height() {
        for x in 0..board.width() {
            if board.tile(x, y).unwrap().tile_type == TileType::Mine {
                n += 1;
            }
        }
    }
    n
}

fn empty_tile() -> Tile {
    Tile { tile_type: TileType::Empty, revealed: false, marked: false, adjacent_mine_count: 0 }
}

#[test]
fn board_idx_is_row_major() {
    let board = board_from(4, 3, vec![E; 12]);
    assert_eq!(board.board_idx(0, 0), (0, Position { x: 0, y: 0 }));
    assert_eq!(board.board_idx(3, 0), (3, Position { x: 3, y: 0 }));
    assert_eq!(board.board_idx(0, 1), (4, Position { x: 0, y: 1 }));
    assert_eq!(board.board_idx(2, 2), (10, Position { x: 2, y: 2 }));
    assert_eq!(board.board_idx(3, 2), (11, Position { x: 3, y: 2 }));
}

#[test]
fn board_idx_rejects_coordinates_off_the_board() {
    let board = board_from(4, 3, vec![E; 12]);
    let invalid = (INVALID_BOARD_INDEX, Position { x: -1, y: -1 });
    assert_eq!(board.board_idx(-1, 0), invalid);
    assert_eq!(board.board_idx(0, -1), invalid);
    assert_eq!(board.board_idx(4, 0), invalid);
    assert_eq!(board.board_idx(0, 3), invalid);
    assert_eq!(board.board_idx(i32::MAX, i32::MAX), invalid);
    assert_eq!(board.board_idx(i32::MIN, i32::MIN), invalid);
}

#[test]
fn interior_tile_has_eight_neighbours_in_order() {
    let board = board_from(3, 3, vec![E; 9]);
    let around = board.adjacent_idx_vec(1, 1);
    let expected = vec![
        (7, Position { x: 1, y: 2 }),
        (8, Position { x: 2, y: 2 }),
        (5, Position { x: 2, y: 1 }),
        (2, Position { x: 2, y: 0 }),
        (1, Position { x: 1, y: 0 }),
        (0, Position { x: 0, y: 0 }),
        (3, Position { x: 0, y: 1 }),
        (6, Position { x: 0, y: 2 }),
    ];
    assert_eq!(around, expected);
}

#[test]
fn corner_tile_has_three_neighbours() {
    let board = board_from(3, 3, vec![E; 9]);
    let around = board.adjacent_idx_vec(0, 0);
    let expected = vec![
        (3, Position { x: 0, y: 1 }),
        (4, Position { x: 1, y: 1 }),
        (1, Position { x: 1, y: 0 }),
    ];
    assert_eq!(around, expected);
    assert_eq!(board.adjacent_idx_vec(2, 2).len(), 3);
    assert_eq!(board.adjacent_idx_vec(0, 2).len(), 3);
    assert_eq!(board.adjacent_idx_vec(2, 0).len(), 3);
}

#[test]
fn edge_tile_has_five_neighbours() {
    let board = board_from(3, 3, vec![E; 9]);
    assert_eq!(board.adjacent_idx_vec(1, 0).len(), 5);
    assert_eq!(board.adjacent_idx_vec(0, 1).len(), 5);
    assert_eq!(board.adjacent_idx_vec(2, 1).len(), 5);
    assert_eq!(board.adjacent_idx_vec(1, 2).len(), 5);
}

#[test]
fn neighbours_of_a_coordinate_off_the_board() {
    let board = board_from(3, 3, vec![E; 9]);
    let around = board.adjacent_idx_vec(-1, 0);
    assert_eq!(around, vec![(3, Position { x: 0, y: 1 }), (0, Position { x: 0, y: 0 })]);
    assert!(board.adjacent_idx_vec(5, 5).is_empty());
    assert!(board.adjacent_idx_vec(i32::MAX, i32::MAX).is_empty());
    assert!(board.adjacent_idx_vec(i32::MIN, i32::MIN).is_empty());
}

#[test]
fn single_tile_has_no_neighbours() {
    let board = board_from(1, 1, vec![E]);
    assert!(board.adjacent_idx_vec(0, 0).is_empty());
}

#[test]
fn random_board_has_exactly_the_mines_asked_for() {
    for &(w, h, m) in &[(9, 9, 10u8), (16, 16, 40), (30, 16, 99), (1, 1, 0), (5, 1, 4), (2, 2, 3)] {
        for _ in 0..20 {
            let board = Board::random_board(w, h, m).expect("valid setup");
            assert_eq!(board.width(), w);
            assert_eq!(board.height(), h);
            assert_eq!(board.mine_count(), m);
            assert_eq!(board.count_mine_tiles(), m as i32);
            assert_eq!(mines_on(&board), m as usize);
        }
    }
}

#[test]
fn random_board_fills_all_but_one_tile() {
    for _ in 0..200 {
        let board = Board::random_board(3, 3, 8).expect("valid setup");
        assert_eq!(mines_on(&board), 8);
    }
}

#[test]
fn random_board_starts_hidden_and_unflagged() {
    let board = Board::random_board(6, 4, 5).expect("valid setup");
    for y in 0..4 {
        for x in 0..6 {
            let t = board.tile(x, y).unwrap();
            assert!(!t.revealed);
            assert!(!t.marked);
            assert_eq!(t.adjacent_mine_count, 0);
        }
    }
}

#[test]
fn random_board_reaches_every_layout() {
    let mut seen = [false; 4];
    for _ in 0..400 {
        let board = Board::random_board(2, 2, 1).expect("valid setup");
        for i in 0..4 {
            if board.tile(i % 2, i / 2).unwrap().tile_type == TileType::Mine {
                seen[i as usize] = true;
            }
        }
    }
    assert_eq!(seen, [true; 4]);
}

#[test]
fn as_many_mines_as_tiles_is_an_error() {
    assert_eq!(Board::random_board(3, 3, 9).err(), Some(BoardError::TooManyMines));
    assert_eq!(Board::random_board(1, 1, 1).err(), Some(BoardError::TooManyMines));
    assert_eq!(Board::random_board(4, 5, 20).err(), Some(BoardError::TooManyMines));
}

#[test]
fn more_mines_than_tiles_is_an_error() {
    assert_eq!(Board::random_board(3, 3, 10).err(), Some(BoardError::TooManyMines));
    assert_eq!(Board::random_board(2, 2, 255).err(), Some(BoardError::TooManyMines));
}

#[test]
fn dimensions_that_are_not_positive_are_an_error() {
    assert_eq!(Board::random_board(0, 3, 0).err(), Some(BoardError::InvalidDimensions));
    assert_eq!(Board::random_board(3, 0, 0).err(), Some(BoardError::InvalidDimensions));
    assert_eq!(Board::random_board(-1, 3, 1).err(), Some(BoardError::InvalidDimensions));
    assert_eq!(Board::random_board(3, -7, 1).err(), Some(BoardError::InvalidDimensions));
    assert_eq!(Board::random_board(i32::MIN, i32::MIN, 1).err(), Some(BoardError::InvalidDimensions));
}

#[test]
fn more_tiles_than_an_index_can_hold_is_an_error() {
    assert_eq!(Board::random_board(65536, 32768, 1).err(), Some(BoardError::InvalidDimensions));
    assert_eq!(
        Board::random_board(i32::MAX, i32::MAX, 1).err(),
        Some(BoardError::InvalidDimensions)
    );
}

#[test]
fn presets_have_their_dimensions() {
    let b = Board::beginner();
    assert_eq!((b.width(), b.height(), b.mine_count()), (9, 9, 10));
    assert_eq!(b.count_mine_tiles(), 10);
    let i = Board::intermediate();
    assert_eq!((i.width(), i.height(), i.mine_count()), (16, 16, 40));
    assert_eq!(i.count_mine_tiles(), 40);
    let e = Board::expert();
    assert_eq!((e.width(), e.height(), e.mine_count()), (30, 16, 99));
    assert_eq!(e.count_mine_tiles(), 99);
}

#[test]
fn layout_gives_the_mines_their_places() {
    let board = Board::from_layout(3, 2, vec![E, M, E, M, E, E]).expect("valid layout");
    assert_eq!(board.mine_count(), 2);
    assert_eq!(board.count_mine_tiles(), 2);
    assert_eq!(board.tile(1, 0).unwrap().tile_type, TileType::Mine);
    assert_eq!(board.tile(0, 1).unwrap().tile_type, TileType::Mine);
    assert_eq!(board.tile(0, 0).unwrap().tile_type, TileType::Empty);
    assert_eq!(board.tile(2, 1).unwrap().tile_type, TileType::Empty);
}

#[test]
fn layout_errors() {
    assert_eq!(Board::from_layout(0, 2, vec![]).err(), Some(BoardError::InvalidDimensions));
    assert_eq!(Board::from_layout(2, -2, vec![E]).err(), Some(BoardError::InvalidDimensions));
    assert_eq!(Board::from_layout(2, 2, vec![E, E, E]).err(), Some(BoardError::LayoutMismatch));
    assert_eq!(
        Board::from_layout(2, 2, vec![E, E, E, E, E]).err(),
        Some(BoardError::LayoutMismatch)
    );
    assert_eq!(Board::from_layout(2, 2, vec![M, M, M, M]).err(), Some(BoardError::TooManyMines));
    assert_eq!(Board::from_layout(1, 1, vec![M]).err(), Some(BoardError::TooManyMines));
    assert_eq!(Board::from_layout(20, 20, vec![M; 400]).err(), Some(BoardError::TooManyMines));
    let mut many = vec![M; 256];
    many.extend(vec![E; 144]);
    assert_eq!(Board::from_layout(20, 20, many).err(), Some(BoardError::TooManyMines));
    let mut most = vec![M; 255];
    most.extend(vec![E; 145]);
    assert_eq!(Board::from_layout(20, 20, most).expect("255 mines fit").mine_count(), 255);
}

#[test]
fn neighbour_counts_around_one_mine() {
    let board = board_from(3, 3, vec![E, E, E, E, M, E, E, E, E]);
    for y in 0..3 {
        for x in 0..3 {
            if (x, y) != (1, 1) {
                assert_eq!(count_of(&board, x, y), 1);
            }
        }
    }
    assert_eq!(count_of(&board, 1, 1), 0);
}

#[test]
fn neighbour_counts_at_corners_and_edges() {
    // M M E E
    // M E E E
    // E E E M
    let board = board_from(4, 3, vec![M, M, E, E, M, E, E, E, E, E, E, M]);
    let expected = [[2, 2, 1, 0], [2, 3, 2, 1], [1, 1, 1, 0]];
    for y in 0..3 {
        for x in 0..4 {
            assert_eq!(count_of(&board, x, y), expected[y as usize][x as usize]);
            assert_eq!(board.count_adjacent_mines(x, y), expected[y as usize][x as usize]);
        }
    }
}

#[test]
fn neighbour_count_reaches_eight() {
    let board = board_from(3, 3, vec![M, M, M, M, E, M, M, M, M]);
    assert_eq!(count_of(&board, 1, 1), 8);
    assert_eq!(count_of(&board, 0, 0), 2);
    assert_eq!(count_of(&board, 1, 0), 4);
}

#[test]
fn neighbour_counts_match_a_plain_recount() {
    for _ in 0..20 {
        let mut board = Board::random_board(7, 5, 9).expect("valid setup");
        board.calculate_adjacent_mine_counts();
        for y in 0..5 {
            for x in 0..7 {
                let mut n = 0;
                for dy in -1..=1 {
                    for dx in -1..=1 {
                        if (dx, dy) != (0, 0) {
                            if let Some(t) = board.tile(x + dx, y + dy) {
                                if t.tile_type == TileType::Mine {
                                    n += 1;
                                }
                            }
                        }
                    }
                }
                assert_eq!(count_of(&board, x, y), n);
            }
        }
    }
}

#[test]
fn counting_leaves_layout_and_flags_alone() {
    let mut board = Board::from_layout(2, 2, vec![M, E, E, E]).expect("valid layout");
    assert!(board.mark(1, 1));
    board.calculate_adjacent_mine_counts();
    let t = board.tile(1, 1).unwrap();
    assert!(t.marked);
    assert!(!t.revealed);
    assert_eq!(t.tile_type, TileType::Empty);
    assert_eq!(t.adjacent_mine_count, 1);
    assert_eq!(board.count_mine_tiles(), 1);
}

#[test]
fn tile_off_the_board_is_none() {
    let board = board_from(2, 2, vec![E; 4]);
    assert_eq!(board.tile(2, 0), None);
    assert_eq!(board.tile(0, 2), None);
    assert_eq!(board.tile(-1, 0), None);
    assert!(board.tile(1, 1).is_some());
}

#[test]
fn mark_sets_a_flag_once() {
    let mut board = board_from(2, 2, vec![M, E, E, E]);
    assert!(board.mark(0, 0));
    assert!(board.tile(0, 0).unwrap().marked);
    assert!(!board.mark(0, 0));
    assert!(board.tile(0, 0).unwrap().marked);
    assert!(!board.tile(1, 0).unwrap().marked);
}

#[test]
fn mark_off_the_board_does_nothing() {
    let mut board = board_from(2, 2, vec![M, E, E, E]);
    assert!(!board.mark(2, 2));
    assert!(!board.mark(-1, 0));
    for y in 0..2 {
        for x in 0..2 {
            assert!(!board.tile(x, y).unwrap().marked);
        }
    }
}

#[test]
fn mark_does_nothing_on_a_revealed_tile() {
    let mut board = board_from(2, 2, vec![M, E, E, E]);
    let _ = board.reveal_tile(1, 1);
    assert!(board.tile(1, 1).unwrap().revealed);
    assert!(!board.mark(1, 1));
    assert!(!board.tile(1, 1).unwrap().marked);
}

#[test]
fn unmark_takes_the_flag_off() {
    let mut board = board_from(2, 2, vec![M, E, E, E]);
    assert!(!board.unmark(0, 0));
    assert!(board.mark(0, 0));
    assert!(board.unmark(0, 0));
    assert!(!board.tile(0, 0).unwrap().marked);
    assert!(!board.unmark(0, 0));
    assert!(!board.unmark(5, 5));
}

#[test]
fn won_when_every_mine_is_flagged() {
    let mut board = board_from(3, 1, vec![M, E, M]);
    assert!(!board.is_won());
    board.mark(0, 0);
    assert!(!board.is_won());
    board.mark(2, 0);
    assert!(board.is_won());
}

#[test]
fn flags_on_empty_tiles_do_not_win() {
    let mut board = board_from(3, 2, vec![M, E, E, E, E, E]);
    for &(x, y) in &[(1, 0), (2, 0), (0, 1), (1, 1), (2, 1)] {
        board.mark(x, y);
        assert!(!board.is_won());
    }
}

#[test]
fn flags_on_empty_tiles_do_not_undo_a_win() {
    let mut board = board_from(3, 1, vec![M, E, E]);
    board.mark(0, 0);
    assert!(board.is_won());
    board.mark(1, 0);
    board.mark(2, 0);
    assert!(board.is_won());
}

#[test]
fn taking_a_flag_off_a_mine_undoes_the_win() {
    let mut board = board_from(3, 1, vec![M, E, E]);
    board.mark(0, 0);
    assert!(board.is_won());
    board.unmark(0, 0);
    assert!(!board.is_won());
}

#[test]
fn board_without_mines_is_won_from_the_start() {
    let board = board_from(2, 2, vec![E; 4]);
    assert!(board.is_won());
}

#[test]
fn place_mine_picks_the_empty_tile_of_that_rank() {
    let mut tiles = vec![empty_tile(); 5];
    assert_eq!(place_mine(&mut tiles, 2), Some(2));
    assert_eq!(tiles[2].tile_type, TileType::Mine);
    // the empty tiles are now at 0, 1, 3, 4
    assert_eq!(place_mine(&mut tiles, 2), Some(3));
    assert_eq!(tiles[3].tile_type, TileType::Mine);
    // the empty tiles are now at 0, 1, 4
    assert_eq!(place_mine(&mut tiles, 2), Some(4));
    assert_eq!(place_mine(&mut tiles, 0), Some(0));
    assert_eq!(place_mine(&mut tiles, 0), Some(1));
    assert!(tiles.iter().all(|t| t.tile_type == TileType::Mine));
}

#[test]
fn place_mine_changes_one_tile_only() {
    let mut tiles = vec![empty_tile(); 4];
    tiles[1].marked = true;
    tiles[1].adjacent_mine_count = 3;
    let before = tiles.clone();
    assert_eq!(place_mine(&mut tiles, 1), Some(1));
    assert_eq!(tiles[1], Tile { tile_type: TileType::Mine, ..before[1] });
    assert_eq!(tiles[0], before[0]);
    assert_eq!(tiles[2], before[2]);
    assert_eq!(tiles[3], before[3]);
}

#[test]
fn place_mine_without_an_empty_tile_of_that_rank() {
    let mut tiles = vec![empty_tile(); 3];
    assert_eq!(place_mine(&mut tiles, 3), None);
    assert_eq!(place_mine(&mut tiles, usize::MAX), None);
    assert_eq!(tiles, vec![empty_tile(); 3]);
    assert_eq!(place_mine(&mut tiles, 1), Some(1));
    assert_eq!(place_mine(&mut tiles, 2), None);
    let mut none: Vec<Tile> = Vec::new();
    assert_eq!(place_mine(&mut none, 0), None);
}

#[test]
fn position_at_is_the_inverse_of_board_idx() {
    let board = board_from(4, 3, vec![E; 12]);
    assert_eq!(board.position_at(0), Some(Position { x: 0, y: 0 }));
    assert_eq!(board.position_at(3), Some(Position { x: 3, y: 0 }));
    assert_eq!(board.position_at(4), Some(Position { x: 0, y: 1 }));
    assert_eq!(board.position_at(10), Some(Position { x: 2, y: 2 }));
    assert_eq!(board.position_at(12), None);
    assert_eq!(board.position_at(usize::MAX), None);
    for index in 0..12 {
        let p = board.position_at(index).unwrap();
        assert_eq!(board.board_idx(p.x, p.y), (index, p));
    }
}
