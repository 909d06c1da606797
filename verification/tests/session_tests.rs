use minesweeper::board::{BoardError, TileType};
use minesweeper::cascade::RevealOutcome;
use minesweeper::session::{ButtonAction, GameSession, GameState, MarkOutcome, TileInfo};

const E: TileType = TileType::Empty;
const M: TileType = TileType::Mine;

fn playing(width: i32, height: i32, layout: Vec<TileType>) -> GameSession {
    let mut session = GameSession::new();
    assert_eq!(session.start_with_layout(width, height, layout), Ok(true));
    assert_eq!(session.query_state(), GameState::Playing);
    session
}

fn revealed_total(session: &GameSession) -> usize {
    let board = session.board().expect("a board");
    let mut n = 0;
    for y in 0..board.height() {
        for x in 0..board.width() {
            if board.tile(x, y).unwrap().revealed {
                n += 1;
            }
        }
    }
    n
}

#[test]
fn a_new_session_is_in_the_menu() {
    let session = GameSession::new();
    assert_eq!(session.query_state(), GameState::Menu);
    assert!(session.board().is_none());
    assert_eq!(GameState::default(), GameState::Menu);
}

#[test]
fn starting_a_game_enters_playing() {
    let mut session = GameSession::new();
    assert_eq!(session.start_game(9, 9, 10), Ok(true));
    assert_eq!(session.query_state(), GameState::Playing);
    let board = session.board().expect("a board");
    assert_eq!((board.width(), board.height(), board.mine_count()), (9, 9, 10));
    assert_eq!(board.count_mine_tiles(), 10);
}

#[test]
fn starting_a_game_fills_in_the_counts() {
    let session = playing(3, 1, vec![M, E, E]);
    let board = session.board().unwrap();
    assert_eq!(board.tile(1, 0).unwrap().adjacent_mine_count, 1);
    assert_eq!(board.tile(2, 0).unwrap().adjacent_mine_count, 0);
}

#[test]
fn starting_with_as_many_mines_as_tiles_fails() {
    let mut session = GameSession::new();
    assert_eq!(session.start_game(3, 3, 9), Err(BoardError::TooManyMines));
    assert_eq!(session.query_state(), GameState::Menu);
    assert!(session.board().is_none());
}

#[test]
fn starting_with_bad_dimensions_fails() {
    let mut session = GameSession::new();
    assert_eq!(session.start_game(0, 3, 0), Err(BoardError::InvalidDimensions));
    assert_eq!(session.start_game(3, -1, 0), Err(BoardError::InvalidDimensions));
    assert_eq!(session.query_state(), GameState::Menu);
    assert_eq!(session.start_with_layout(2, 2, vec![E]), Err(BoardError::LayoutMismatch));
    assert_eq!(session.query_state(), GameState::Menu);
}

#[test]
fn starting_while_a_game_is_on_changes_nothing() {
    let mut session = playing(2, 1, vec![M, E]);
    assert_eq!(session.start_game(9, 9, 10), Ok(false));
    assert_eq!(session.start_with_layout(1, 1, vec![E]), Ok(false));
    assert!(!session.handle_menu_buttons(ButtonAction::ExpertGame));
    assert_eq!(session.board().unwrap().width(), 2);
    assert_eq!(session.query_state(), GameState::Playing);
}

#[test]
fn menu_buttons_start_the_presets() {
    for &(action, dims) in &[
        (ButtonAction::BeginnerGame, (9, 9, 10u8)),
        (ButtonAction::IntermediateGame, (16, 16, 40)),
        (ButtonAction::ExpertGame, (30, 16, 99)),
    ] {
        let mut session = GameSession::new();
        assert!(session.handle_menu_buttons(action));
        assert_eq!(session.query_state(), GameState::Playing);
        let board = session.board().unwrap();
        assert_eq!((board.width(), board.height(), board.mine_count()), dims);
        assert_eq!(board.count_mine_tiles(), dims.2 as i32);
    }
}

#[test]
fn requests_in_the_menu_are_ignored() {
    let mut session = GameSession::new();
    assert_eq!(session.request_reveal(0, 0), RevealOutcome::Ignored);
    assert_eq!(session.request_mark(0, 0), MarkOutcome::Ignored);
    session.restart();
    assert_eq!(session.query_state(), GameState::Menu);
    assert_eq!(session.tile_info(0, 0), None);
}

#[test]
fn one_tile_without_mines_is_won_by_its_reveal() {
    let mut session = playing(1, 1, vec![E]);
    assert_eq!(session.request_reveal(0, 0), RevealOutcome::RevealedEmpty(0));
    assert_eq!(session.query_state(), GameState::Victory);
}

#[test]
fn revealing_a_mine_ends_the_game_in_defeat() {
    let mut session = playing(3, 3, vec![E, E, E, E, M, E, E, E, E]);
    assert_eq!(session.request_reveal(1, 1), RevealOutcome::Defeat);
    assert_eq!(session.query_state(), GameState::Defeat);
    assert_eq!(revealed_total(&session), 1);
}

#[test]
fn cascade_on_a_board_with_one_mine_in_the_corner() {
    let mut session = playing(3, 3, vec![E, E, E, E, E, E, E, E, M]);
    match session.request_reveal(0, 0) {
        RevealOutcome::Cascade(0, list) => assert_eq!(list.len(), 7),
        other => panic!("expected a cascade, got {:?}", other),
    }
    assert_eq!(session.query_state(), GameState::Playing);
    assert_eq!(revealed_total(&session), 8);
    assert!(!session.board().unwrap().tile(2, 2).unwrap().revealed);
}

#[test]
fn tile_next_to_two_mines_shows_two() {
    let mut session = playing(3, 2, vec![M, E, M, E, E, E]);
    assert_eq!(session.request_reveal(1, 0), RevealOutcome::RevealedEmpty(2));
    assert_eq!(session.query_state(), GameState::Playing);
    assert_eq!(revealed_total(&session), 1);
}

#[test]
fn flag_blocks_reveal_until_it_is_taken_off() {
    let mut session = playing(3, 2, vec![M, E, M, E, E, E]);
    assert_eq!(session.request_mark(1, 1), MarkOutcome::Marked);
    assert_eq!(session.request_reveal(1, 1), RevealOutcome::Ignored);
    assert_eq!(revealed_total(&session), 0);
    assert_eq!(session.request_mark(1, 1), MarkOutcome::Unmarked);
    assert_eq!(session.request_reveal(1, 1), RevealOutcome::RevealedEmpty(2));
    assert_eq!(revealed_total(&session), 1);
    assert_eq!(session.query_state(), GameState::Playing);
}

#[test]
fn flagging_every_mine_wins() {
    let mut session = playing(3, 1, vec![M, E, M]);
    assert_eq!(session.request_mark(0, 0), MarkOutcome::Marked);
    assert_eq!(session.query_state(), GameState::Playing);
    assert_eq!(session.request_mark(2, 0), MarkOutcome::Marked);
    assert_eq!(session.query_state(), GameState::Victory);
}

#[test]
fn flagging_empty_tiles_does_not_win() {
    let mut session = playing(3, 1, vec![M, E, E]);
    assert_eq!(session.request_mark(1, 0), MarkOutcome::Marked);
    assert_eq!(session.request_mark(2, 0), MarkOutcome::Marked);
    assert_eq!(session.query_state(), GameState::Playing);
}

#[test]
fn win_counts_flagged_mines_whatever_else_is_flagged() {
    let mut session = playing(3, 1, vec![M, E, E]);
    assert_eq!(session.request_mark(1, 0), MarkOutcome::Marked);
    assert_eq!(session.request_mark(0, 0), MarkOutcome::Marked);
    assert_eq!(session.query_state(), GameState::Victory);
}

#[test]
fn marking_a_revealed_tile_is_ignored() {
    let mut session = playing(3, 1, vec![M, E, E]);
    assert_eq!(session.request_reveal(1, 0), RevealOutcome::RevealedEmpty(1));
    assert_eq!(session.request_mark(1, 0), MarkOutcome::Ignored);
    assert!(!session.board().unwrap().tile(1, 0).unwrap().marked);
}

#[test]
fn requests_off_the_board_are_ignored() {
    let mut session = playing(2, 2, vec![M, E, E, E]);
    assert_eq!(session.request_reveal(2, 0), RevealOutcome::Ignored);
    assert_eq!(session.request_reveal(0, -1), RevealOutcome::Ignored);
    assert_eq!(session.request_mark(-1, 0), MarkOutcome::Ignored);
    assert_eq!(session.request_mark(0, 2), MarkOutcome::Ignored);
    assert_eq!(session.query_state(), GameState::Playing);
    assert_eq!(revealed_total(&session), 0);
}

#[test]
fn ignored_requests_do_not_end_a_game_without_mines() {
    let mut session = playing(2, 1, vec![E, E]);
    assert_eq!(session.request_reveal(5, 5), RevealOutcome::Ignored);
    assert_eq!(session.request_mark(5, 5), MarkOutcome::Ignored);
    assert_eq!(session.query_state(), GameState::Playing);
}

#[test]
fn requests_after_defeat_are_ignored() {
    let mut session = playing(2, 1, vec![M, E]);
    assert_eq!(session.request_reveal(0, 0), RevealOutcome::Defeat);
    assert_eq!(session.request_reveal(1, 0), RevealOutcome::Ignored);
    assert_eq!(session.request_mark(1, 0), MarkOutcome::Ignored);
    assert_eq!(session.query_state(), GameState::Defeat);
    assert_eq!(revealed_total(&session), 1);
    assert!(!session.board().unwrap().tile(1, 0).unwrap().marked);
}

#[test]
fn requests_after_victory_are_ignored() {
    let mut session = playing(2, 1, vec![M, E]);
    assert_eq!(session.request_mark(0, 0), MarkOutcome::Marked);
    assert_eq!(session.query_state(), GameState::Victory);
    assert_eq!(session.request_reveal(1, 0), RevealOutcome::Ignored);
    assert_eq!(session.request_mark(0, 0), MarkOutcome::Ignored);
    assert_eq!(session.query_state(), GameState::Victory);
    assert!(session.board().unwrap().tile(0, 0).unwrap().marked);
}

#[test]
fn restart_returns_to_the_menu_after_defeat() {
    let mut session = playing(2, 1, vec![M, E]);
    assert_eq!(session.request_reveal(0, 0), RevealOutcome::Defeat);
    session.restart();
    assert_eq!(session.query_state(), GameState::Menu);
    assert!(session.board().is_none());
    assert_eq!(session.start_game(4, 4, 3), Ok(true));
    assert_eq!(session.query_state(), GameState::Playing);
}

#[test]
fn restart_returns_to_the_menu_after_victory() {
    let mut session = playing(2, 1, vec![M, E]);
    assert_eq!(session.request_mark(0, 0), MarkOutcome::Marked);
    session.restart();
    assert_eq!(session.query_state(), GameState::Menu);
    assert!(session.board().is_none());
}

#[test]
fn restart_while_playing_changes_nothing() {
    let mut session = playing(2, 1, vec![M, E]);
    session.restart();
    assert_eq!(session.query_state(), GameState::Playing);
    assert!(session.board().is_some());
}

#[test]
fn hidden_tile_shows_nothing_while_playing() {
    let mut session = playing(3, 1, vec![M, M, E]);
    assert_eq!(session.request_mark(0, 0), MarkOutcome::Marked);
    assert_eq!(session.request_mark(0, 0), MarkOutcome::Unmarked);
    assert_eq!(session.request_mark(2, 0), MarkOutcome::Marked);
    assert_eq!(
        session.tile_info(0, 0),
        Some(TileInfo { revealed: false, marked: false, is_mine: None, adjacent_mine_count: None })
    );
    assert_eq!(
        session.tile_info(2, 0),
        Some(TileInfo { revealed: false, marked: true, is_mine: None, adjacent_mine_count: None })
    );
    assert_eq!(session.tile_info(3, 0), None);
}

#[test]
fn revealed_tile_shows_its_count() {
    let mut session = playing(3, 1, vec![M, E, E]);
    assert_eq!(session.request_reveal(1, 0), RevealOutcome::RevealedEmpty(1));
    assert_eq!(
        session.tile_info(1, 0),
        Some(TileInfo {
            revealed: true,
            marked: false,
            is_mine: Some(false),
            adjacent_mine_count: Some(1),
        })
    );
}

#[test]
fn mines_show_once_the_game_is_over() {
    let mut session = playing(3, 1, vec![M, E, M]);
    assert_eq!(session.request_reveal(0, 0), RevealOutcome::Defeat);
    assert_eq!(
        session.tile_info(0, 0),
        Some(TileInfo {
            revealed: true,
            marked: false,
            is_mine: Some(true),
            adjacent_mine_count: Some(0),
        })
    );
    assert_eq!(
        session.tile_info(2, 0),
        Some(TileInfo {
            revealed: false,
            marked: false,
            is_mine: Some(true),
            adjacent_mine_count: None,
        })
    );
    assert_eq!(
        session.tile_info(1, 0),
        Some(TileInfo {
            revealed: false,
            marked: false,
            is_mine: Some(false),
            adjacent_mine_count: None,
        })
    );
}
