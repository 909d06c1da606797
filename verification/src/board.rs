//! The board: mine layout and per-tile state, with the operations that
//! build it and change it during play.

use crate::counting::{
    count_where, lemma_count_agree, lemma_count_bound, lemma_count_take_step, lemma_count_update,
    lemma_none_counted,
};
use crate::grid::{
    in_bounds, lemma_coordinate_of_index, lemma_index_of_coordinate,
    lemma_neighbors_are_adjacent_cells, neighbors, neighbors_prefix, offset, position_of,
    to_coordinate, to_index, Position, INVALID_BOARD_INDEX,
};
use crate::placement::{lemma_empty_and_mine_totals, place_mine};
use crate::rng::random_below;
use vstd::prelude::*;

verus! {

/// What a tile hides.
#[derive(Clone, Copy, Debug, PartialEq, Eq, Structural)]
pub enum TileType {
    Mine,
    Empty,
}

/// One tile of the board.
#[derive(Clone, Copy, Debug, PartialEq, Eq, Structural)]
pub struct Tile {
    /// What the tile hides; fixed when the board is built.
    pub tile_type: TileType,
    /// Whether a reveal has reached the tile; never reset.
    pub revealed: bool,
    /// Whether the player has flagged the tile.
    pub marked: bool,
    /// Number of mines among the neighbours of the tile.
    pub adjacent_mine_count: u8,
}

/// Why a board could not be built.
#[derive(Clone, Copy, Debug, PartialEq, Eq, Structural)]
pub enum BoardError {
    /// A dimension is not positive, or the board has more tiles than an `i32` can index.
    InvalidDimensions,
    /// The number of mines is not below the number of tiles.
    TooManyMines,
    /// The layout does not have one entry per tile.
    LayoutMismatch,
}

/// The tile type is a mine.
pub open spec fn hides_mine(t: TileType) -> bool {
    t == TileType::Mine
}

/// The tile hides a mine.
pub open spec fn is_mine(t: Tile) -> bool {
    t.tile_type == TileType::Mine
}

/// The tile hides a mine and carries a flag.
pub open spec fn is_marked_mine(t: Tile) -> bool {
    t.marked && t.tile_type == TileType::Mine
}

/// No reveal has reached the tile.
pub open spec fn is_hidden(t: Tile) -> bool {
    !t.revealed
}

/// A tile as it is before play: hidden, not flagged, no count yet.
pub open spec fn fresh_tile(tile_type: TileType) -> Tile {
    Tile { tile_type, revealed: false, marked: false, adjacent_mine_count: 0 }
}

/// The mathematical content of a [`Board`].
pub struct BoardView {
    pub width: int,
    pub height: int,
    pub mine_count: int,
    /// Row by row: the tile at `(x, y)` is `tiles[y * width + x]`.
    pub tiles: Seq<Tile>,
}

impl BoardView {
    /// `(x, y)` is a coordinate of this board.
    pub open spec fn contains(self, x: int, y: int) -> bool {
        in_bounds(self.width, self.height, x, y)
    }

    /// The tile at `(x, y)`.
    pub open spec fn at(self, x: int, y: int) -> Tile {
        self.tiles[to_index(self.width, x, y)]
    }

    /// Number of mines on the board.
    pub open spec fn mine_total(self) -> nat {
        count_where(self.tiles, |t: Tile| is_mine(t))
    }

    /// Number of flagged tiles that hide a mine.
    pub open spec fn marked_mine_total(self) -> nat {
        count_where(self.tiles, |t: Tile| is_marked_mine(t))
    }

    /// Number of tiles that no reveal has reached.
    pub open spec fn hidden_total(self) -> nat {
        count_where(self.tiles, |t: Tile| is_hidden(t))
    }

    /// Number of mines among the in-bounds neighbours of `(x, y)`.
    pub open spec fn adjacent_mines(self, x: int, y: int) -> nat {
        count_where(
            neighbors(self.width, self.height, x, y),
            |p: Position| is_mine(self.at(p.x as int, p.y as int)),
        )
    }

    /// The board is consistent: positive dimensions, one tile per coordinate,
    /// exactly `mine_count` mines, fewer mines than tiles, and no tile both
    /// revealed and flagged.
    pub open spec fn wf(self) -> bool {
        &&& 0 < self.width <= i32::MAX
        &&& 0 < self.height <= i32::MAX
        &&& self.width * self.height <= i32::MAX
        &&& self.tiles.len() == self.width * self.height
        &&& self.mine_total() == self.mine_count
        &&& 0 <= self.mine_count < self.width * self.height
        &&& forall|i: int|
            0 <= i < self.tiles.len() ==> !((#[trigger] self.tiles[i]).revealed
                && self.tiles[i].marked)
    }

    /// Every tile carries the number of mines among its neighbours.
    pub open spec fn counts_ready(self) -> bool {
        forall|x: int, y: int|
            self.contains(x, y) ==> (#[trigger] self.at(x, y)).adjacent_mine_count
                == self.adjacent_mines(x, y)
    }

    /// No tile has been revealed or flagged yet.
    pub open spec fn untouched(self) -> bool {
        forall|i: int|
            0 <= i < self.tiles.len() ==> !(#[trigger] self.tiles[i]).revealed
                && !self.tiles[i].marked
    }

    /// Every tile is as it is before play and before counting.
    pub open spec fn blank(self) -> bool {
        forall|i: int|
            0 <= i < self.tiles.len() ==> #[trigger] self.tiles[i] == fresh_tile(
                self.tiles[i].tile_type,
            )
    }

    /// The win rule: the number of flagged mines equals the number of mines.
    ///
    /// The rule counts flags that sit on mines and nothing else. Flags on
    /// empty tiles do not count, for or against, and revealing every empty
    /// tile is not asked for. A board without mines is won from the start.
    pub open spec fn won(self) -> bool {
        self.marked_mine_total() == self.mine_count
    }

    /// This board with the neighbour count of every tile filled in.
    pub open spec fn with_counts(self) -> BoardView {
        BoardView {
            tiles: Seq::new(
                self.tiles.len(),
                |i: int|
                    Tile {
                        adjacent_mine_count: self.adjacent_mines(
                            to_coordinate(self.width, i).0,
                            to_coordinate(self.width, i).1,
                        ) as u8,
                        ..self.tiles[i]
                    },
            ),
            ..self
        }
    }

    /// This board with the tile at `(x, y)` flagged, where that tile is on
    /// the board and hidden; this board itself otherwise.
    pub open spec fn after_mark(self, x: int, y: int) -> BoardView {
        if self.contains(x, y) && !self.at(x, y).revealed {
            BoardView {
                tiles: self.tiles.update(
                    to_index(self.width, x, y),
                    Tile { marked: true, ..self.at(x, y) },
                ),
                ..self
            }
        } else {
            self
        }
    }

    /// This board with the flag taken off the tile at `(x, y)`, where that
    /// tile is on the board; this board itself otherwise.
    pub open spec fn after_unmark(self, x: int, y: int) -> BoardView {
        if self.contains(x, y) {
            BoardView {
                tiles: self.tiles.update(
                    to_index(self.width, x, y),
                    Tile { marked: false, ..self.at(x, y) },
                ),
                ..self
            }
        } else {
            self
        }
    }
}

/// Why a board of these dimensions with this many mines cannot be built, if it cannot.
pub open spec fn setup_error(width: int, height: int, mines: int) -> Option<BoardError> {
    if width <= 0 || height <= 0 || width * height > i32::MAX {
        Some(BoardError::InvalidDimensions)
    } else if mines >= width * height {
        Some(BoardError::TooManyMines)
    } else {
        None
    }
}

/// Why this layout cannot be made a board of these dimensions, if it cannot.
/// A board counts its mines in a `u8`, so a layout with more than 255 mines
/// has too many.
pub open spec fn layout_error(width: int, height: int, layout: Seq<TileType>) -> Option<
    BoardError,
> {
    let mines = count_where(layout, |t: TileType| hides_mine(t));
    if width <= 0 || height <= 0 || width * height > i32::MAX {
        Some(BoardError::InvalidDimensions)
    } else if layout.len() != width * height {
        Some(BoardError::LayoutMismatch)
    } else if mines >= width * height || mines > u8::MAX {
        Some(BoardError::TooManyMines)
    } else {
        None
    }
}

/// `r` lists the coordinates `s`, each with its storage index.
pub open spec fn lists_with_indices(
    r: Seq<(usize, Position)>,
    width: int,
    s: Seq<Position>,
) -> bool {
    &&& r.len() == s.len()
    &&& forall|k: int|
        0 <= k < r.len() ==> (#[trigger] r[k]).1 == s[k] && r[k].0 == to_index(
            width,
            s[k].x as int,
            s[k].y as int,
        )
}

/// The rules engine's board.
pub struct Board {
    mine_count: u8,
    width: i32,
    height: i32,
    tiles: Vec<Tile>,
}

impl View for Board {
    type V = BoardView;

    closed spec fn view(&self) -> BoardView {
        BoardView {
            width: self.width as int,
            height: self.height as int,
            mine_count: self.mine_count as int,
            tiles: self.tiles@,
        }
    }
}

impl Board {
    /// A board of the given dimensions with `mine_count` mines placed at
    /// random, every choice of tiles being as likely as any other. No tile
    /// is revealed or flagged, and no neighbour count is filled in yet.
    ///
    /// Fails where a dimension is not positive, the board would have more
    /// tiles than an `i32` can index, or `mine_count` is not below the
    /// number of tiles.
    pub fn random_board(board_width: i32, board_height: i32, mine_count: u8) -> (r: Result<
        Board,
        BoardError,
    >)
        ensures
            match r {
                Ok(b) => {
                    &&& setup_error(board_width as int, board_height as int, mine_count as int)
                        is None
                    &&& b@.wf()
                    &&& b@.mine_total() == mine_count
                    &&& b@.blank()
                    &&& b@.width == board_width
                    &&& b@.height == board_height
                    &&& b@.mine_count == mine_count
                },
                Err(e) => setup_error(board_width as int, board_height as int, mine_count as int)
                    == Some(e),
            },
    {
        let num_tiles: usize = match tile_total(board_width, board_height) {
            None => {
                return Err(BoardError::InvalidDimensions);
            },
            Some(n) => n,
        };
        if mine_count as usize >= num_tiles {
            return Err(BoardError::TooManyMines);
        }
        let mut tiles: Vec<Tile> = Vec::new();
        while tiles.len() < num_tiles
            invariant
                tiles.len() <= num_tiles,
                forall|i: int| 0 <= i < tiles.len() ==> tiles[i] == fresh_tile(TileType::Empty),
            decreases num_tiles - tiles.len(),
        {
            tiles.push(
                Tile {
                    tile_type: TileType::Empty,
                    revealed: false,
                    marked: false,
                    adjacent_mine_count: 0,
                },
            );
        }
        proof {
            lemma_none_counted(tiles@, |t: Tile| is_mine(t));
        }
        let mut placed: u8 = 0;
        while placed < mine_count
            invariant
                placed <= mine_count,
                mine_count < num_tiles,
                tiles.len() == num_tiles,
                count_where(tiles@, |t: Tile| is_mine(t)) == placed,
                forall|i: int| 0 <= i < tiles.len() ==> tiles[i] == fresh_tile(tiles[i].tile_type),
            decreases mine_count - placed,
        {
            proof {
                lemma_empty_and_mine_totals(tiles@);
            }
            let rank = random_below(num_tiles - placed as usize);
            let at = place_mine(&mut tiles, rank);
            assert(at is Some);
            placed = placed + 1;
        }
        Ok(Board { mine_count, width: board_width, height: board_height, tiles })
    }

    /// A board of the given dimensions with the mines where `layout` has
    /// them, row by row. No tile is revealed or flagged, and no neighbour
    /// count is filled in yet.
    pub fn from_layout(board_width: i32, board_height: i32, layout: Vec<TileType>) -> (r: Result<
        Board,
        BoardError,
    >)
        ensures
            match r {
                Ok(b) => {
                    &&& layout_error(board_width as int, board_height as int, layout@) is None
                    &&& b@.wf()
                    &&& b@.blank()
                    &&& b@.width == board_width
                    &&& b@.height == board_height
                    &&& b@.tiles.len() == layout@.len()
                    &&& forall|i: int|
                        0 <= i < layout@.len() ==> (#[trigger] b@.tiles[i]).tile_type == layout@[i]
                },
                Err(e) => layout_error(board_width as int, board_height as int, layout@) == Some(e),
            },
    {
        let num_tiles: usize = match tile_total(board_width, board_height) {
            None => {
                return Err(BoardError::InvalidDimensions);
            },
            Some(n) => n,
        };
        if layout.len() != num_tiles {
            return Err(BoardError::LayoutMismatch);
        }
        let mut tiles: Vec<Tile> = Vec::new();
        let mut mines: usize = 0;
        let mut i: usize = 0;
        while i < num_tiles
            invariant
                i <= num_tiles,
                layout.len() == num_tiles,
                tiles.len() == i,
                mines == count_where(layout@.take(i as int), |t: TileType| hides_mine(t)),
                mines <= i,
                forall|k: int| 0 <= k < i ==> #[trigger] tiles[k] == fresh_tile(layout@[k]),
            decreases num_tiles - i,
        {
            proof {
                lemma_count_take_step(layout@, |t: TileType| hides_mine(t), i as int);
            }
            let tile_type = layout[i];
            if tile_type == TileType::Mine {
                mines = mines + 1;
            }
            tiles.push(Tile { tile_type, revealed: false, marked: false, adjacent_mine_count: 0 });
            i = i + 1;
        }
        proof {
            assert(layout@.take(num_tiles as int) =~= layout@);
            lemma_count_agree(
                layout@,
                |t: TileType| hides_mine(t),
                tiles@,
                |t: Tile| is_mine(t),
            );
        }
        if mines >= num_tiles || mines > 255 {
            return Err(BoardError::TooManyMines);
        }
        Ok(Board { mine_count: mines as u8, width: board_width, height: board_height, tiles })
    }

    /// The beginner preset: 9 by 9 with 10 mines.
    pub fn beginner() -> (b: Board)
        ensures
            b@.wf(),
            b@.blank(),
            b@.width == 9,
            b@.height == 9,
            b@.mine_count == 10,
    {
        match Self::random_board(9, 9, 10) {
            Ok(b) => b,
            Err(_) => {
                proof {
                    assert(false);
                }
                unreached()
            },
        }
    }

    /// The intermediate preset: 16 by 16 with 40 mines.
    pub fn intermediate() -> (b: Board)
        ensures
            b@.wf(),
            b@.blank(),
            b@.width == 16,
            b@.height == 16,
            b@.mine_count == 40,
    {
        match Self::random_board(16, 16, 40) {
            Ok(b) => b,
            Err(_) => {
                proof {
                    assert(false);
                }
                unreached()
            },
        }
    }

    /// The expert preset: 30 by 16 with 99 mines.
    pub fn expert() -> (b: Board)
        ensures
            b@.wf(),
            b@.blank(),
            b@.width == 30,
            b@.height == 16,
            b@.mine_count == 99,
    {
        match Self::random_board(30, 16, 99) {
            Ok(b) => b,
            Err(_) => {
                proof {
                    assert(false);
                }
                unreached()
            },
        }
    }
}

/// The number of tiles of a board of these dimensions, where it has a valid one.
fn tile_total(width: i32, height: i32) -> (n: Option<usize>)
    ensures
        n.is_none() <==> (width <= 0 || height <= 0 || width * height > i32::MAX),
        n.is_some() ==> n.unwrap() == width * height,
{
    if width <= 0 || height <= 0 {
        return None;
    }
    assert(0 < width * height <= 0x7fff_ffff * 0x7fff_ffff) by (nonlinear_arith)
        requires
            0 < width <= 0x7fff_ffff,
            0 < height <= 0x7fff_ffff,
    ;
    let total: i64 = width as i64 * height as i64;
    if total > i32::MAX as i64 {
        None
    } else {
        Some(total as usize)
    }
}

impl Board {
    /// Number of columns.
    pub fn width(&self) -> (w: i32)
        ensures
            w == self@.width,
    {
        self.width
    }

    /// Number of rows.
    pub fn height(&self) -> (h: i32)
        ensures
            h == self@.height,
    {
        self.height
    }

    /// Number of mines the board was built with.
    pub fn mine_count(&self) -> (n: u8)
        ensures
            n == self@.mine_count,
    {
        self.mine_count
    }

    /// The tile at `(x, y)`, or `None` where `(x, y)` is not on the board.
    pub fn tile(&self, x: i32, y: i32) -> (t: Option<Tile>)
        requires
            self@.wf(),
        ensures
            self@.contains(x as int, y as int) ==> t == Some(self@.at(x as int, y as int)),
            !self@.contains(x as int, y as int) ==> t.is_none(),
    {
        let entry = self.board_idx(x, y);
        if entry.0 == INVALID_BOARD_INDEX {
            None
        } else {
            Some(self.tiles[entry.0])
        }
    }

    /// Storage index and coordinate of `(x, y)`, or `INVALID_BOARD_INDEX` and
    /// `(-1, -1)` where `(x, y)` is not on the board.
    pub fn board_idx(&self, x: i32, y: i32) -> (r: (usize, Position))
        requires
            self@.wf(),
        ensures
            self@.contains(x as int, y as int) ==> r.0 == to_index(self@.width, x as int, y as int)
                && r.0 < self@.tiles.len() && r.1 == (Position { x, y }),
            !self@.contains(x as int, y as int) ==> r.0 == INVALID_BOARD_INDEX && r.1 == (Position {
                x: -1i32,
                y: -1i32,
            }),
    {
        if x < 0 || x >= self.width || y < 0 || y >= self.height {
            return (INVALID_BOARD_INDEX, Position { x: -1, y: -1 });
        }
        proof {
            lemma_index_of_coordinate(
                self.width as int,
                self.height as int,
                x as int,
                y as int,
            );
        }
        (((y * self.width) + x) as usize, Position { x, y })
    }

    /// The coordinate of the tile stored at `index`, or `None` where the
    /// board has no such tile: the inverse of [`Board::board_idx`].
    pub fn position_at(&self, index: usize) -> (p: Option<Position>)
        requires
            self@.wf(),
        ensures
            index < self@.tiles.len() ==> p == Some(position_of(self@.width, index as int)),
            index < self@.tiles.len() ==> self@.contains(p.unwrap().x as int, p.unwrap().y as int)
                && to_index(self@.width, p.unwrap().x as int, p.unwrap().y as int) == index,
            index >= self@.tiles.len() ==> p.is_none(),
    {
        if index >= self.tiles.len() {
            return None;
        }
        proof {
            lemma_coordinate_of_index(self.width as int, self.height as int, index as int);
        }
        let x: i32 = (index % (self.width as usize)) as i32;
        let y: i32 = (index / (self.width as usize)) as i32;
        Some(Position { x, y })
    }

    /// The in-bounds neighbours of `(x, y)`, each with its storage index, in
    /// the order top, top-right, right, bottom-right, bottom, bottom-left,
    /// left, top-left. `(x, y)` itself need not be on the board.
    pub fn adjacent_idx_vec(&self, x: i32, y: i32) -> (r: Vec<(usize, Position)>)
        requires
            self@.wf(),
        ensures
            lists_with_indices(
                r@,
                self@.width,
                neighbors(self@.width, self@.height, x as int, y as int),
            ),
    {
        let mut vec: Vec<(usize, Position)> = Vec::new();
        let mut k: usize = 0;
        while k < 8
            invariant
                k <= 8,
                self@.wf(),
                lists_with_indices(
                    vec@,
                    self@.width,
                    neighbors_prefix(self@.width, self@.height, x as int, y as int, k as nat),
                ),
            decreases 8 - k,
        {
            let d = neighbor_offset(k);
            let nx: i64 = x as i64 + d.0 as i64;
            let ny: i64 = y as i64 + d.1 as i64;
            if 0 <= nx && nx < self.width as i64 && 0 <= ny && ny < self.height as i64 {
                let entry = self.board_idx(nx as i32, ny as i32);
                if entry.0 != INVALID_BOARD_INDEX {
                    vec.push(entry);
                }
            }
            k = k + 1;
        }
        vec
    }

    /// Number of mines on the board, counted tile by tile.
    pub fn count_mine_tiles(&self) -> (n: i32)
        requires
            self@.wf(),
        ensures
            n == self@.mine_total(),
    {
        let mut n: i32 = 0;
        let mut i: usize = 0;
        while i < self.tiles.len()
            invariant
                self@.wf(),
                i <= self.tiles.len(),
                n == count_where(self.tiles@.take(i as int), |t: Tile| is_mine(t)),
                n <= i,
            decreases self.tiles.len() - i,
        {
            proof {
                lemma_count_take_step(self.tiles@, |t: Tile| is_mine(t), i as int);
            }
            if self.tiles[i].tile_type == TileType::Mine {
                n = n + 1;
            }
            i = i + 1;
        }
        proof {
            assert(self.tiles@.take(i as int) =~= self.tiles@);
        }
        n
    }

    /// Number of mines among the in-bounds neighbours of `(x, y)`.
    pub fn count_adjacent_mines(&self, x: i32, y: i32) -> (n: u8)
        requires
            self@.wf(),
        ensures
            n == self@.adjacent_mines(x as int, y as int),
            n <= 8,
    {
        let around = self.adjacent_idx_vec(x, y);
        let ghost ns = neighbors(self@.width, self@.height, x as int, y as int);
        proof {
            lemma_neighbors_are_adjacent_cells(self@.width, self@.height, x as int, y as int);
        }
        let mut n: u8 = 0;
        let mut k: usize = 0;
        while k < around.len()
            invariant
                self@.wf(),
                k <= around.len(),
                around.len() <= 8,
                ns == neighbors(self@.width, self@.height, x as int, y as int),
                lists_with_indices(around@, self@.width, ns),
                forall|p: Position|
                    ns.contains(p) ==> in_bounds(self@.width, self@.height, p.x as int, p.y as int),
                n == count_where(
                    ns.take(k as int),
                    |p: Position| is_mine(self@.at(p.x as int, p.y as int)),
                ),
                n <= k,
            decreases around.len() - k,
        {
            proof {
                lemma_count_take_step(
                    ns,
                    |p: Position| is_mine(self@.at(p.x as int, p.y as int)),
                    k as int,
                );
                assert(ns.contains(ns[k as int]));
                lemma_index_of_coordinate(
                    self@.width,
                    self@.height,
                    ns[k as int].x as int,
                    ns[k as int].y as int,
                );
            }
            let entry = around[k];
            if self.tiles[entry.0].tile_type == TileType::Mine {
                n = n + 1;
            }
            k = k + 1;
        }
        proof {
            assert(ns.take(k as int) =~= ns);
        }
        n
    }

    /// Whether the game is won: the number of flagged mines equals the
    /// number of mines. Flags on empty tiles do not count, and mines
    /// without a flag are not asked for beyond that number.
    pub fn is_won(&self) -> (won: bool)
        requires
            self@.wf(),
        ensures
            won == self@.won(),
    {
        let mut n: usize = 0;
        let mut i: usize = 0;
        while i < self.tiles.len()
            invariant
                self@.wf(),
                i <= self.tiles.len(),
                n == count_where(self.tiles@.take(i as int), |t: Tile| is_marked_mine(t)),
                n <= i,
            decreases self.tiles.len() - i,
        {
            proof {
                lemma_count_take_step(self.tiles@, |t: Tile| is_marked_mine(t), i as int);
            }
            let t = self.tiles[i];
            if t.marked && t.tile_type == TileType::Mine {
                n = n + 1;
            }
            i = i + 1;
        }
        proof {
            assert(self.tiles@.take(i as int) =~= self.tiles@);
        }
        n == self.mine_count as usize
    }
}

/// The `k`-th neighbour offset.
fn neighbor_offset(k: usize) -> (d: (i32, i32))
    requires
        k < 8,
    ensures
        d.0 == offset(k as int).0,
        d.1 == offset(k as int).1,
{
    if k == 0 {
        (0, 1)
    } else if k == 1 {
        (1, 1)
    } else if k == 2 {
        (1, 0)
    } else if k == 3 {
        (1, -1)
    } else if k == 4 {
        (0, -1)
    } else if k == 5 {
        (-1, -1)
    } else if k == 6 {
        (-1, 0)
    } else {
        (-1, 1)
    }
}

impl Board {
    /// Fills in, for every tile, the number of mines among its neighbours.
    /// To be called once the mines are placed and before the first reveal.
    pub fn calculate_adjacent_mine_counts(&mut self)
        requires
            old(self)@.wf(),
        ensures
            final(self)@ == old(self)@.with_counts(),
            final(self)@.wf(),
            final(self)@.counts_ready(),
    {
        let ghost before = self@;
        let total: usize = self.tiles.len();
        let mut i: usize = 0;
        while i < total
            invariant
                before.wf(),
                before == old(self)@,
                i <= total,
                total == before.tiles.len(),
                self@.width == before.width,
                self@.height == before.height,
                self@.mine_count == before.mine_count,
                self@.tiles.len() == before.tiles.len(),
                forall|j: int|
                    0 <= j < i ==> #[trigger] self@.tiles[j] == before.with_counts().tiles[j],
                forall|j: int| i <= j < total ==> #[trigger] self@.tiles[j] == before.tiles[j],
            decreases total - i,
        {
            proof {
                lemma_same_layout(before, self@);
            }
            let p = self.position_at(i).unwrap();
            let n = self.count_adjacent_mines(p.x, p.y);
            let t = self.tiles[i];
            self.tiles.set(i, Tile { adjacent_mine_count: n, ..t });
            i = i + 1;
        }
        proof {
            lemma_same_layout(before, self@);
            assert(self@.tiles =~= before.with_counts().tiles);
            assert forall|x: int, y: int| self@.contains(x, y) implies (#[trigger] self@.at(
                x,
                y,
            )).adjacent_mine_count == self@.adjacent_mines(x, y) by {
                lemma_index_of_coordinate(before.width, before.height, x, y);
                lemma_adjacent_mines_bound(before, x, y);
            }
        }
    }

    /// Flags the tile at `(x, y)`. Nothing happens where the tile is off
    /// the board, revealed, or flagged already. Returns whether the tile
    /// got its flag by this call.
    pub fn mark(&mut self, x: i32, y: i32) -> (changed: bool)
        requires
            old(self)@.wf(),
        ensures
            final(self)@ == old(self)@.after_mark(x as int, y as int),
            final(self)@.wf(),
            old(self)@.counts_ready() ==> final(self)@.counts_ready(),
            changed == (old(self)@.contains(x as int, y as int) && !old(self)@.at(
                x as int,
                y as int,
            ).revealed && !old(self)@.at(x as int, y as int).marked),
    {
        let entry = self.board_idx(x, y);
        if entry.0 == INVALID_BOARD_INDEX {
            return false;
        }
        let t = self.tiles[entry.0];
        if t.revealed {
            return false;
        }
        proof {
            lemma_flag_change(self@, x as int, y as int, true);
        }
        self.set_mark(entry.0, true);
        !t.marked
    }

    /// Takes the flag off the tile at `(x, y)`. Nothing happens where the
    /// tile is off the board or has no flag. Returns whether the tile lost
    /// its flag by this call.
    pub fn unmark(&mut self, x: i32, y: i32) -> (changed: bool)
        requires
            old(self)@.wf(),
        ensures
            final(self)@ == old(self)@.after_unmark(x as int, y as int),
            final(self)@.wf(),
            old(self)@.counts_ready() ==> final(self)@.counts_ready(),
            changed == (old(self)@.contains(x as int, y as int) && old(self)@.at(
                x as int,
                y as int,
            ).marked),
    {
        let entry = self.board_idx(x, y);
        if entry.0 == INVALID_BOARD_INDEX {
            return false;
        }
        let t = self.tiles[entry.0];
        proof {
            lemma_flag_change(self@, x as int, y as int, false);
        }
        self.set_mark(entry.0, false);
        t.marked
    }

    /// The tile stored at `index`.
    pub(crate) fn tile_at(&self, index: usize) -> (t: Tile)
        requires
            index < self@.tiles.len(),
        ensures
            t == self@.tiles[index as int],
    {
        self.tiles[index]
    }

    /// Sets the `revealed` flag of the tile stored at `index`.
    pub(crate) fn uncover(&mut self, index: usize)
        requires
            index < old(self)@.tiles.len(),
        ensures
            final(self)@ == (BoardView {
                tiles: old(self)@.tiles.update(
                    index as int,
                    Tile { revealed: true, ..old(self)@.tiles[index as int] },
                ),
                ..old(self)@
            }),
    {
        let t = self.tiles[index];
        self.tiles.set(index, Tile { revealed: true, ..t });
    }

    /// Sets the `marked` flag of the tile stored at `index` to `marked`.
    pub(crate) fn set_mark(&mut self, index: usize, marked: bool)
        requires
            index < old(self)@.tiles.len(),
        ensures
            final(self)@ == (BoardView {
                tiles: old(self)@.tiles.update(
                    index as int,
                    Tile { marked, ..old(self)@.tiles[index as int] },
                ),
                ..old(self)@
            }),
    {
        let t = self.tiles[index];
        self.tiles.set(index, Tile { marked, ..t });
    }
}

/// Neighbour counts never exceed eight.
pub proof fn lemma_adjacent_mines_bound(b: BoardView, x: int, y: int)
    requires
        b.wf(),
    ensures
        b.adjacent_mines(x, y) <= 8,
{
    lemma_neighbors_are_adjacent_cells(b.width, b.height, x, y);
    lemma_count_bound(
        neighbors(b.width, b.height, x, y),
        |p: Position| is_mine(b.at(p.x as int, p.y as int)),
    );
}

/// Boards with the same layout and the same flags agree on validity and on
/// the number of mines around every coordinate, whatever counts they store.
pub proof fn lemma_same_layout(a: BoardView, b: BoardView)
    requires
        a.wf(),
        b.width == a.width,
        b.height == a.height,
        b.mine_count == a.mine_count,
        b.tiles.len() == a.tiles.len(),
        forall|i: int|
            0 <= i < a.tiles.len() ==> (#[trigger] b.tiles[i]).tile_type == a.tiles[i].tile_type
                && b.tiles[i].revealed == a.tiles[i].revealed && b.tiles[i].marked
                == a.tiles[i].marked,
    ensures
        b.wf(),
        forall|x: int, y: int| #[trigger] b.adjacent_mines(x, y) == a.adjacent_mines(x, y),
{
    lemma_count_agree(a.tiles, |t: Tile| is_mine(t), b.tiles, |t: Tile| is_mine(t));
    assert forall|x: int, y: int| #[trigger] b.adjacent_mines(x, y) == a.adjacent_mines(x, y) by {
        let ns = neighbors(a.width, a.height, x, y);
        lemma_neighbors_are_adjacent_cells(a.width, a.height, x, y);
        let pa = |p: Position| is_mine(a.at(p.x as int, p.y as int));
        let pb = |p: Position| is_mine(b.at(p.x as int, p.y as int));
        assert forall|k: int| 0 <= k < ns.len() implies pa(ns[k]) == pb(ns[k]) by {
            assert(ns.contains(ns[k]));
            lemma_index_of_coordinate(a.width, a.height, ns[k].x as int, ns[k].y as int);
        }
        lemma_count_agree(ns, pa, ns, pb);
    }
}

/// Boards that differ at most in `revealed` and `marked` flags agree on
/// every neighbour count, so counts that are ready stay ready.
pub proof fn lemma_counts_kept(a: BoardView, b: BoardView)
    requires
        a.wf(),
        a.counts_ready(),
        b.width == a.width,
        b.height == a.height,
        b.tiles.len() == a.tiles.len(),
        forall|i: int|
            0 <= i < a.tiles.len() ==> (#[trigger] b.tiles[i]).tile_type == a.tiles[i].tile_type
                && b.tiles[i].adjacent_mine_count == a.tiles[i].adjacent_mine_count,
    ensures
        b.counts_ready(),
        b.mine_total() == a.mine_total(),
{
    lemma_count_agree(a.tiles, |t: Tile| is_mine(t), b.tiles, |t: Tile| is_mine(t));
    assert forall|x: int, y: int| b.contains(x, y) implies (#[trigger] b.at(
        x,
        y,
    )).adjacent_mine_count == b.adjacent_mines(x, y) by {
        lemma_index_of_coordinate(a.width, a.height, x, y);
        assert(a.at(x, y).adjacent_mine_count == a.adjacent_mines(x, y));
        let ns = neighbors(a.width, a.height, x, y);
        lemma_neighbors_are_adjacent_cells(a.width, a.height, x, y);
        let pa = |p: Position| is_mine(a.at(p.x as int, p.y as int));
        let pb = |p: Position| is_mine(b.at(p.x as int, p.y as int));
        assert forall|k: int| 0 <= k < ns.len() implies pa(ns[k]) == pb(ns[k]) by {
            assert(ns.contains(ns[k]));
            lemma_index_of_coordinate(
                a.width,
                a.height,
                ns[k].x as int,
                ns[k].y as int,
            );
        }
        lemma_count_agree(ns, pa, ns, pb);
    }
}

/// Changing the flag of one tile keeps the board valid, as long as a
/// revealed tile gets no flag, and keeps its neighbour counts ready.
pub proof fn lemma_flag_change(b: BoardView, x: int, y: int, marked: bool)
    requires
        b.wf(),
        b.contains(x, y),
        marked ==> !b.at(x, y).revealed,
    ensures
        0 <= to_index(b.width, x, y) < b.tiles.len(),
        (BoardView {
            tiles: b.tiles.update(to_index(b.width, x, y), Tile { marked, ..b.at(x, y) }),
            ..b
        }).wf(),
        b.counts_ready() ==> (BoardView {
            tiles: b.tiles.update(to_index(b.width, x, y), Tile { marked, ..b.at(x, y) }),
            ..b
        }).counts_ready(),
{
    lemma_index_of_coordinate(b.width, b.height, x, y);
    let i = to_index(b.width, x, y);
    let after = BoardView { tiles: b.tiles.update(i, Tile { marked, ..b.at(x, y) }), ..b };
    lemma_count_agree(b.tiles, |t: Tile| is_mine(t), after.tiles, |t: Tile| is_mine(t));
    if b.counts_ready() {
        lemma_counts_kept(b, after);
    }
}

/// Flagging an empty tile leaves the number of flagged mines, and with it
/// the answer of the win rule, as it was.
pub proof fn lemma_mark_empty_keeps_win(b: BoardView, x: int, y: int)
    requires
        b.wf(),
        b.contains(x, y),
        !is_mine(b.at(x, y)),
    ensures
        b.after_mark(x, y).marked_mine_total() == b.marked_mine_total(),
        b.after_mark(x, y).won() == b.won(),
{
    lemma_index_of_coordinate(b.width, b.height, x, y);
    if !b.at(x, y).revealed {
        lemma_count_update(
            b.tiles,
            |t: Tile| is_marked_mine(t),
            to_index(b.width, x, y),
            Tile { marked: true, ..b.at(x, y) },
        );
    }
}

/// Flagging a hidden mine that has no flag yet raises the number of flagged mines by one.
pub proof fn lemma_mark_mine_counts(b: BoardView, x: int, y: int)
    requires
        b.wf(),
        b.contains(x, y),
        is_mine(b.at(x, y)),
        !b.at(x, y).revealed,
        !b.at(x, y).marked,
    ensures
        b.after_mark(x, y).marked_mine_total() == b.marked_mine_total() + 1,
{
    lemma_index_of_coordinate(b.width, b.height, x, y);
    lemma_count_update(
        b.tiles,
        |t: Tile| is_marked_mine(t),
        to_index(b.width, x, y),
        Tile { marked: true, ..b.at(x, y) },
    );
}

/// On a board with at least one mine, flags on empty tiles alone never
/// win, however many there are.
pub proof fn lemma_flags_on_empty_tiles_never_win(b: BoardView)
    requires
        b.mine_count > 0,
        forall|i: int| 0 <= i < b.tiles.len() ==> !is_marked_mine(#[trigger] b.tiles[i]),
    ensures
        b.marked_mine_total() == 0,
        !b.won(),
{
    lemma_none_counted(b.tiles, |t: Tile| is_marked_mine(t));
}

} // verus!
