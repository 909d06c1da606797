//! The game session: a small state machine that owns the board while a
//! game is on, and decides which requests are acted on.

use crate::board::{
    fresh_tile, is_mine, layout_error, setup_error, Board, BoardError, BoardView, Tile, TileType,
};
use crate::cascade::{
    after_reveal, cascade_reaches, lemma_cascade_spares_mines, lemma_no_reach, revealable,
    reveal_outcome, RevealOutcome,
};
use crate::grid::{
    lemma_coordinate_of_index, lemma_index_of_coordinate, position_of, to_index, Position,
};
use vstd::prelude::*;

verus! {

/// Where the session stands.
#[derive(Clone, Copy, Debug, PartialEq, Eq, Hash, Structural)]
pub enum GameState {
    Menu,
    Playing,
    Victory,
    Defeat,
}

impl Default for GameState {
    fn default() -> (s: GameState)
        ensures
            s == GameState::Menu,
    {
        GameState::Menu
    }
}

/// A choice on the menu: one of the three presets.
#[derive(Clone, Copy, Debug, PartialEq, Eq, Structural)]
pub enum ButtonAction {
    BeginnerGame,
    IntermediateGame,
    ExpertGame,
}

/// What a request to flag a tile did.
#[derive(Clone, Copy, Debug, PartialEq, Eq, Structural)]
pub enum MarkOutcome {
    /// The tile got a flag.
    Marked,
    /// The tile lost its flag.
    Unmarked,
    /// Nothing: no game is on, or the tile is off the board or revealed.
    Ignored,
}

/// What a player may see of a tile.
#[derive(Clone, Copy, Debug, PartialEq, Eq, Structural)]
pub struct TileInfo {
    pub revealed: bool,
    pub marked: bool,
    /// Whether the tile hides a mine: known once it is revealed or the game is over.
    pub is_mine: Option<bool>,
    /// Number of neighbouring mines: known once the tile is revealed.
    pub adjacent_mine_count: Option<u8>,
}

/// Width, height and number of mines of a preset.
pub open spec fn preset(action: ButtonAction) -> (int, int, int) {
    match action {
        ButtonAction::BeginnerGame => (9, 9, 10),
        ButtonAction::IntermediateGame => (16, 16, 40),
        ButtonAction::ExpertGame => (30, 16, 99),
    }
}

/// Some mine of the board is revealed.
pub open spec fn mine_revealed(b: BoardView) -> bool {
    exists|i: int| 0 <= i < b.tiles.len() && is_mine(#[trigger] b.tiles[i]) && b.tiles[i].revealed
}

/// What a player may see of `t` in state `state`.
pub open spec fn visible(t: Tile, state: GameState) -> TileInfo {
    let over = state == GameState::Victory || state == GameState::Defeat;
    TileInfo {
        revealed: t.revealed,
        marked: t.marked,
        is_mine: if t.revealed || over {
            Some(is_mine(t))
        } else {
            None
        },
        adjacent_mine_count: if t.revealed {
            Some(t.adjacent_mine_count)
        } else {
            None
        },
    }
}

/// The mathematical content of a [`GameSession`].
pub struct SessionView {
    pub state: GameState,
    pub board: Option<BoardView>,
}

impl SessionView {
    /// The session is consistent: it has a board exactly when it is not in
    /// the menu, the board is valid with its neighbour counts filled in,
    /// and a mine is revealed only in defeat.
    pub open spec fn wf(self) -> bool {
        &&& self.state == GameState::Menu <==> self.board is None
        &&& self.board matches Some(b) ==> {
            &&& b.wf()
            &&& b.counts_ready()
            &&& mine_revealed(b) ==> self.state == GameState::Defeat
        }
    }

    /// The session right after a game has started on the board `b`.
    pub open spec fn started(self, b: BoardView) -> bool {
        &&& self.state == GameState::Playing
        &&& self.board == Some(b)
        &&& b.wf()
        &&& b.counts_ready()
        &&& b.untouched()
    }

    /// The state after an action that left the board `b`: defeat where the
    /// action revealed a mine, else victory where the win rule holds, else
    /// the game goes on.
    pub open spec fn state_after(b: BoardView, mine_hit: bool) -> GameState {
        if mine_hit {
            GameState::Defeat
        } else if b.won() {
            GameState::Victory
        } else {
            GameState::Playing
        }
    }

    /// The session after a request to reveal the tile at `p`.
    pub open spec fn after_reveal_request(self, p: Position) -> SessionView {
        match self.board {
            Some(b) if self.state == GameState::Playing && revealable(b, p) => SessionView {
                state: Self::state_after(
                    after_reveal(b, p),
                    is_mine(b.at(p.x as int, p.y as int)),
                ),
                board: Some(after_reveal(b, p)),
            },
            _ => self,
        }
    }

    /// What a request to flag the tile at `p` reports.
    pub open spec fn mark_outcome(self, p: Position) -> MarkOutcome {
        match self.board {
            Some(b) if self.state == GameState::Playing && b.contains(p.x as int, p.y as int)
                && !b.at(p.x as int, p.y as int).revealed => if b.at(
                p.x as int,
                p.y as int,
            ).marked {
                MarkOutcome::Unmarked
            } else {
                MarkOutcome::Marked
            },
            _ => MarkOutcome::Ignored,
        }
    }

    /// The session after a request to flag the tile at `p`.
    pub open spec fn after_mark_request(self, p: Position) -> SessionView {
        match self.board {
            Some(b) if self.mark_outcome(p) == MarkOutcome::Marked => SessionView {
                state: Self::state_after(b.after_mark(p.x as int, p.y as int), false),
                board: Some(b.after_mark(p.x as int, p.y as int)),
            },
            Some(b) if self.mark_outcome(p) == MarkOutcome::Unmarked => SessionView {
                state: Self::state_after(b.after_unmark(p.x as int, p.y as int), false),
                board: Some(b.after_unmark(p.x as int, p.y as int)),
            },
            _ => self,
        }
    }

    /// The session after a request to return to the menu.
    pub open spec fn after_restart(self) -> SessionView {
        if self.state == GameState::Defeat || self.state == GameState::Victory {
            SessionView { state: GameState::Menu, board: None }
        } else {
            self
        }
    }
}

/// The moves of the state machine: from the menu into a game, from a game
/// to defeat or victory, and from either back to the menu. Staying put
/// counts as a move.
pub open spec fn transition(from: GameState, to: GameState) -> bool {
    ||| from == to
    ||| from == GameState::Menu && to == GameState::Playing
    ||| from == GameState::Playing && to == GameState::Defeat
    ||| from == GameState::Playing && to == GameState::Victory
    ||| from == GameState::Defeat && to == GameState::Menu
    ||| from == GameState::Victory && to == GameState::Menu
}

/// Requests move the session along the state machine only: a reveal or a
/// flag acts while a game is on and never leaves for the menu, a restart
/// acts once the game is over, and whatever does not act changes nothing.
pub proof fn lemma_requests_follow_transitions(s: SessionView, p: Position)
    requires
        s.wf(),
    ensures
        transition(s.state, s.after_reveal_request(p).state),
        transition(s.state, s.after_mark_request(p).state),
        transition(s.state, s.after_restart().state),
        s.state != GameState::Playing ==> s.after_reveal_request(p) == s && s.after_mark_request(p)
            == s,
        s.state == GameState::Playing ==> s.after_restart() == s && s.after_reveal_request(p).state
            != GameState::Menu && s.after_mark_request(p).state != GameState::Menu,
        s.state == GameState::Menu ==> s.after_restart() == s,
        s.after_mark_request(p).state != GameState::Defeat || s.state == GameState::Defeat,
{
}

/// A game from the menu to its end and back.
pub struct GameSession {
    state: GameState,
    board: Option<Board>,
}

impl View for GameSession {
    type V = SessionView;

    closed spec fn view(&self) -> SessionView {
        SessionView {
            state: self.state,
            board: match self.board {
                Some(b) => Some(b@),
                None => None,
            },
        }
    }
}

/// A board on which no mine was revealed, and a reveal on it that did not
/// start on a mine, leave no mine revealed.
proof fn lemma_no_mine_revealed(b: BoardView, p: Position)
    requires
        b.wf(),
        b.counts_ready(),
        !mine_revealed(b),
        !(revealable(b, p) && is_mine(b.at(p.x as int, p.y as int))),
    ensures
        !mine_revealed(after_reveal(b, p)),
{
    let after = after_reveal(b, p);
    if mine_revealed(after) {
        let i = choose|i: int|
            0 <= i < after.tiles.len() && is_mine(#[trigger] after.tiles[i])
                && after.tiles[i].revealed;
        let pos = position_of(b.width, i);
        lemma_coordinate_of_index(b.width, b.height, i);
        assert(to_index(b.width, pos.x as int, pos.y as int) == i);
        assert(is_mine(b.tiles[i]));
        if b.tiles[i].revealed {
            assert(mine_revealed(b));
        } else {
            assert(cascade_reaches(b, p, pos));
            if revealable(b, p) {
                if pos != p {
                    lemma_cascade_spares_mines(b, p, pos);
                }
            } else {
                lemma_no_reach(b, p);
            }
        }
    }
}

/// A change of flags reveals no mine.
proof fn lemma_flags_reveal_nothing(a: BoardView, b: BoardView)
    requires
        a.tiles.len() == b.tiles.len(),
        forall|i: int|
            0 <= i < a.tiles.len() ==> (#[trigger] b.tiles[i]).tile_type == a.tiles[i].tile_type
                && b.tiles[i].revealed == a.tiles[i].revealed,
        !mine_revealed(a),
    ensures
        !mine_revealed(b),
{
    if mine_revealed(b) {
        let i = choose|i: int|
            0 <= i < b.tiles.len() && is_mine(#[trigger] b.tiles[i]) && b.tiles[i].revealed;
        assert(is_mine(a.tiles[i]) && a.tiles[i].revealed);
    }
}

impl GameSession {
    /// A session in the menu, without a board.
    pub fn new() -> (s: GameSession)
        ensures
            s@.wf(),
            s@.state == GameState::Menu,
            s@.board is None,
    {
        GameSession { state: GameState::Menu, board: None }
    }

    /// The state of the session.
    pub fn query_state(&self) -> (state: GameState)
        ensures
            state == self@.state,
    {
        self.state
    }

    /// The board of the game that is on or just over, for reading.
    pub fn board(&self) -> (b: Option<&Board>)
        ensures
            match b {
                Some(r) => self@.board == Some(r@),
                None => self@.board is None,
            },
    {
        self.board.as_ref()
    }

    /// Fills in the neighbour counts of a new board and starts the game on it.
    fn enter_playing(&mut self, board: Board)
        requires
            old(self)@.state == GameState::Menu,
            board@.wf(),
            board@.blank(),
        ensures
            final(self)@.wf(),
            final(self)@.started(board@.with_counts()),
    {
        let mut board = board;
        let ghost before = board@;
        board.calculate_adjacent_mine_counts();
        proof {
            let b = board@;
            assert(b.untouched()) by {
                assert forall|i: int| 0 <= i < b.tiles.len() implies !(#[trigger] b.tiles[
                    i
                ]).revealed && !b.tiles[i].marked by {
                    assert(before.tiles[i] == fresh_tile(before.tiles[i].tile_type));
                }
            }
            assert(!mine_revealed(b));
        }
        self.state = GameState::Playing;
        self.board = Some(board);
    }

    /// Starts a game on a board of the given dimensions with `mine_count`
    /// mines placed at random. Acts only in the menu: returns `Ok(true)`
    /// where the game started, `Ok(false)` where the session is not in the
    /// menu, and the reason where no such board can be built.
    pub fn start_game(&mut self, width: i32, height: i32, mine_count: u8) -> (r: Result<
        bool,
        BoardError,
    >)
        requires
            old(self)@.wf(),
        ensures
            final(self)@.wf(),
            old(self)@.state != GameState::Menu ==> r == Ok::<bool, BoardError>(false)
                && final(self)@ == old(self)@,
            old(self)@.state == GameState::Menu ==> match setup_error(
                width as int,
                height as int,
                mine_count as int,
            ) {
                Some(e) => r == Err::<bool, BoardError>(e) && final(self)@ == old(self)@,
                None => {
                    &&& r == Ok::<bool, BoardError>(true)
                    &&& final(self)@.board matches Some(b)
                    &&& final(self)@.started(b)
                    &&& b.width == width
                    &&& b.height == height
                    &&& b.mine_count == mine_count
                },
            },
    {
        match self.state {
            GameState::Menu => {},
            _ => {
                return Ok(false);
            },
        }
        match Board::random_board(width, height, mine_count) {
            Ok(board) => {
                self.enter_playing(board);
                Ok(true)
            },
            Err(e) => Err(e),
        }
    }

    /// Starts a game on a board with the mines where `layout` has them, row
    /// by row. Acts only in the menu, as [`GameSession::start_game`] does.
    pub fn start_with_layout(&mut self, width: i32, height: i32, layout: Vec<TileType>) -> (r:
        Result<bool, BoardError>)
        requires
            old(self)@.wf(),
        ensures
            final(self)@.wf(),
            old(self)@.state != GameState::Menu ==> r == Ok::<bool, BoardError>(false)
                && final(self)@ == old(self)@,
            old(self)@.state == GameState::Menu ==> match layout_error(
                width as int,
                height as int,
                layout@,
            ) {
                Some(e) => r == Err::<bool, BoardError>(e) && final(self)@ == old(self)@,
                None => {
                    &&& r == Ok::<bool, BoardError>(true)
                    &&& final(self)@.board matches Some(b)
                    &&& final(self)@.started(b)
                    &&& b.width == width
                    &&& b.height == height
                    &&& b.tiles.len() == layout@.len()
                    &&& forall|i: int|
                        0 <= i < layout@.len() ==> (#[trigger] b.tiles[i]).tile_type == layout@[i]
                },
            },
    {
        match self.state {
            GameState::Menu => {},
            _ => {
                return Ok(false);
            },
        }
        match Board::from_layout(width, height, layout) {
            Ok(board) => {
                self.enter_playing(board);
                Ok(true)
            },
            Err(e) => Err(e),
        }
    }

    /// Acts on a menu button: in the menu, starts a game on the chosen
    /// preset and returns `true`; elsewhere does nothing and returns `false`.
    pub fn handle_menu_buttons(&mut self, action: ButtonAction) -> (started: bool)
        requires
            old(self)@.wf(),
        ensures
            final(self)@.wf(),
            started == (old(self)@.state == GameState::Menu),
            !started ==> final(self)@ == old(self)@,
            started ==> {
                &&& final(self)@.board matches Some(b)
                &&& final(self)@.started(b)
                &&& (b.width, b.height, b.mine_count) == preset(action)
            },
    {
        match self.state {
            GameState::Menu => {},
            _ => {
                return false;
            },
        }
        let board = match action {
            ButtonAction::BeginnerGame => Board::beginner(),
            ButtonAction::IntermediateGame => Board::intermediate(),
            ButtonAction::ExpertGame => Board::expert(),
        };
        self.enter_playing(board);
        true
    }

    /// Reveals the tile at `(x, y)` where a game is on, and moves to defeat
    /// where that revealed a mine, or else to victory where the win rule
    /// holds. A request that reveals nothing changes nothing.
    pub fn request_reveal(&mut self, x: i32, y: i32) -> (out: RevealOutcome)
        requires
            old(self)@.wf(),
        ensures
            final(self)@.wf(),
            final(self)@ == old(self)@.after_reveal_request(Position { x, y }),
            old(self)@.state != GameState::Playing ==> out == RevealOutcome::Ignored,
            old(self)@.state == GameState::Playing ==> reveal_outcome(
                old(self)@.board.unwrap(),
                Position { x, y },
                out,
            ),
    {
        match self.state {
            GameState::Playing => {},
            _ => {
                return RevealOutcome::Ignored;
            },
        }
        let ghost p = Position { x, y };
        let ghost b = self@.board.unwrap();
        let mut board = self.board.take().unwrap();
        let out = board.reveal_tile(x, y);
        let next = match &out {
            RevealOutcome::Ignored => GameState::Playing,
            RevealOutcome::Defeat => GameState::Defeat,
            _ => {
                if board.is_won() {
                    GameState::Victory
                } else {
                    GameState::Playing
                }
            },
        };
        proof {
            if !revealable(b, p) {
                lemma_no_reach(b, p);
            }
            if !(out is Defeat) {
                lemma_no_mine_revealed(b, p);
            }
        }
        self.state = next;
        self.board = Some(board);
        out
    }

    /// Flags the tile at `(x, y)` where a game is on and the tile is
    /// hidden, or takes its flag off where it has one, and moves to victory
    /// where the win rule then holds. Any other request changes nothing.
    pub fn request_mark(&mut self, x: i32, y: i32) -> (out: MarkOutcome)
        requires
            old(self)@.wf(),
        ensures
            final(self)@.wf(),
            final(self)@ == old(self)@.after_mark_request(Position { x, y }),
            out == old(self)@.mark_outcome(Position { x, y }),
    {
        match self.state {
            GameState::Playing => {},
            _ => {
                return MarkOutcome::Ignored;
            },
        }
        let ghost b = self@.board.unwrap();
        let mut board = self.board.take().unwrap();
        let out = match board.tile(x, y) {
            None => MarkOutcome::Ignored,
            Some(t) => {
                if t.revealed {
                    MarkOutcome::Ignored
                } else if t.marked {
                    let _ = board.unmark(x, y);
                    MarkOutcome::Unmarked
                } else {
                    let _ = board.mark(x, y);
                    MarkOutcome::Marked
                }
            },
        };
        let next = match out {
            MarkOutcome::Ignored => GameState::Playing,
            _ => {
                if board.is_won() {
                    GameState::Victory
                } else {
                    GameState::Playing
                }
            },
        };
        proof {
            if b.contains(x as int, y as int) {
                lemma_index_of_coordinate(b.width, b.height, x as int, y as int);
            }
            lemma_flags_reveal_nothing(b, board@);
        }
        self.state = next;
        self.board = Some(board);
        out
    }

    /// Returns to the menu and drops the board, where the game is over.
    /// Does nothing in the menu or while a game is on.
    pub fn restart(&mut self)
        requires
            old(self)@.wf(),
        ensures
            final(self)@.wf(),
            final(self)@ == old(self)@.after_restart(),
    {
        match self.state {
            GameState::Defeat | GameState::Victory => {
                self.state = GameState::Menu;
                self.board = None;
            },
            _ => {},
        }
    }

    /// What a player may see of the tile at `(x, y)`: nothing where no
    /// board is there or the tile is off it.
    pub fn tile_info(&self, x: i32, y: i32) -> (info: Option<TileInfo>)
        requires
            self@.wf(),
        ensures
            match self@.board {
                Some(b) if b.contains(x as int, y as int) => info == Some(
                    visible(b.at(x as int, y as int), self@.state),
                ),
                _ => info.is_none(),
            },
    {
        let board = match &self.board {
            None => {
                return None;
            },
            Some(board) => board,
        };
        let t = match board.tile(x, y) {
            None => {
                return None;
            },
            Some(t) => t,
        };
        let over = match self.state {
            GameState::Victory | GameState::Defeat => true,
            _ => false,
        };
        let mine = match t.tile_type {
            TileType::Mine => true,
            TileType::Empty => false,
        };
        Some(
            TileInfo {
                revealed: t.revealed,
                marked: t.marked,
                is_mine: if t.revealed || over {
                    Some(mine)
                } else {
                    None
                },
                adjacent_mine_count: if t.revealed {
                    Some(t.adjacent_mine_count)
                } else {
                    None
                },
            },
        )
    }
}

} // verus!
