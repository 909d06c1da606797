//! Revealing a tile: which tiles a reveal reaches, what it reports, and
//! what holds of it.

use crate::board::{is_mine, lemma_counts_kept, Board, BoardView, Tile, TileType};
use crate::counting::lemma_count_zero;
use crate::flood::{cascade_order, lemma_reveal_order};
use crate::grid::{
    adjacent, lemma_coordinate_of_index, lemma_index_of_coordinate,
    lemma_neighbors_are_adjacent_cells, neighbors, position_of, to_index, Position,
    INVALID_BOARD_INDEX,
};
use vstd::prelude::*;

verus! {

/// What a reveal did.
#[derive(Debug, PartialEq, Eq)]
pub enum RevealOutcome {
    /// Nothing: the tile is off the board, already revealed, or flagged.
    Ignored,
    /// An empty tile was revealed, and no other tile with it; the number is
    /// its count of neighbouring mines.
    RevealedEmpty(u8),
    /// An empty tile was revealed and the reveal spread; the list holds
    /// every other tile that was revealed with it, in the order of reveal.
    Cascade(u8, Vec<Position>),
    /// A mine was revealed.
    Defeat,
}

/// The tile at `p` is on the board, hidden and not flagged: a reveal acts on it.
pub open spec fn revealable(b: BoardView, p: Position) -> bool {
    &&& b.contains(p.x as int, p.y as int)
    &&& !b.at(p.x as int, p.y as int).revealed
    &&& !b.at(p.x as int, p.y as int).marked
}

/// A reveal of the tile at `p` goes on to its neighbours: it is revealable,
/// empty, and has no neighbouring mine.
pub open spec fn spreads(b: BoardView, p: Position) -> bool {
    &&& revealable(b, p)
    &&& b.at(p.x as int, p.y as int).tile_type == TileType::Empty
    &&& b.at(p.x as int, p.y as int).adjacent_mine_count == 0
}

/// `p` and `q` are neighbours.
pub open spec fn touching(p: Position, q: Position) -> bool {
    adjacent(p.x as int, p.y as int, q.x as int, q.y as int)
}

/// A way for a reveal to travel: every tile on it is revealable, and each
/// but the last spreads to the next, its neighbour.
pub open spec fn cascade_path(b: BoardView, path: Seq<Position>) -> bool {
    &&& path.len() > 0
    &&& forall|k: int| 0 <= k < path.len() ==> revealable(b, #[trigger] path[k])
    &&& forall|k: int|
        0 <= k < path.len() - 1 ==> spreads(b, #[trigger] path[k]) && touching(
            path[k],
            path[k + 1],
        )
}

/// A reveal at `origin` reveals the tile at `target`.
pub open spec fn cascade_reaches(b: BoardView, origin: Position, target: Position) -> bool {
    exists|path: Seq<Position>|
        #[trigger] cascade_path(b, path) && path[0] == origin && path.last() == target
}

/// The board after a reveal at `origin`: the tiles that the reveal reaches
/// are revealed, and nothing else changes.
pub open spec fn after_reveal(b: BoardView, origin: Position) -> BoardView {
    BoardView {
        tiles: Seq::new(
            b.tiles.len(),
            |i: int|
                Tile {
                    revealed: b.tiles[i].revealed || cascade_reaches(
                        b,
                        origin,
                        position_of(b.width, i),
                    ),
                    ..b.tiles[i]
                },
        ),
        ..b
    }
}

/// `b` with the tile at `p` revealed.
pub open spec fn uncovered_at(b: BoardView, p: Position) -> BoardView {
    let i = to_index(b.width, p.x as int, p.y as int);
    BoardView { tiles: b.tiles.update(i, Tile { revealed: true, ..b.tiles[i] }), ..b }
}

/// `out` is what a reveal at `origin` reports on the board `b`.
pub open spec fn reveal_outcome(b: BoardView, origin: Position, out: RevealOutcome) -> bool {
    let tile = b.at(origin.x as int, origin.y as int);
    match out {
        RevealOutcome::Ignored => !revealable(b, origin),
        RevealOutcome::Defeat => revealable(b, origin) && is_mine(tile),
        RevealOutcome::RevealedEmpty(count) => {
            &&& revealable(b, origin)
            &&& !is_mine(tile)
            &&& count == tile.adjacent_mine_count
            &&& cascade_order(b, origin).len() == 0
        },
        RevealOutcome::Cascade(count, list) => {
            &&& revealable(b, origin)
            &&& !is_mine(tile)
            &&& count == tile.adjacent_mine_count
            &&& list@.len() > 0
            &&& list@ == cascade_order(b, origin)
        },
    }
}

/// A tile that a reveal reaches, and that spreads, carries the reveal to
/// each revealable neighbour.
pub proof fn lemma_reach_extends(b: BoardView, origin: Position, p: Position, q: Position)
    requires
        cascade_reaches(b, origin, p),
        spreads(b, p),
        touching(p, q),
        revealable(b, q),
    ensures
        cascade_reaches(b, origin, q),
{
    let path = choose|path: Seq<Position>|
        #[trigger] cascade_path(b, path) && path[0] == origin && path.last() == p;
    let longer = path.push(q);
    assert forall|k: int| 0 <= k < longer.len() implies revealable(b, #[trigger] longer[k]) by {
        if k < path.len() {
            assert(longer[k] == path[k]);
        }
    }
    assert forall|k: int| 0 <= k < longer.len() - 1 implies spreads(b, #[trigger] longer[k])
        && touching(longer[k], longer[k + 1]) by {
        assert(longer[k] == path[k]);
        if k < path.len() - 1 {
            assert(longer[k + 1] == path[k + 1]);
        }
    }
    assert(cascade_path(b, longer));
    assert(longer[0] == path[0]);
}

/// A revealable tile is reached by a reveal at itself.
pub proof fn lemma_reach_self(b: BoardView, origin: Position)
    requires
        revealable(b, origin),
    ensures
        cascade_reaches(b, origin, origin),
{
    let path = seq![origin];
    assert(cascade_path(b, path));
    assert(path[0] == origin && path.last() == origin);
}

/// A reveal that starts on a tile it does not act on reaches nothing.
pub proof fn lemma_no_reach(b: BoardView, origin: Position)
    requires
        !revealable(b, origin),
    ensures
        forall|t: Position| !cascade_reaches(b, origin, t),
        after_reveal(b, origin) == b,
{
    assert forall|t: Position| !cascade_reaches(b, origin, t) by {
        if cascade_reaches(b, origin, t) {
            let path = choose|path: Seq<Position>|
                #[trigger] cascade_path(b, path) && path[0] == origin && path.last() == t;
            assert(revealable(b, path[0]));
        }
    }
    assert(after_reveal(b, origin).tiles =~= b.tiles);
}

/// A tile without neighbouring mines has no mine next to it.
pub proof fn lemma_zero_count_no_mine_around(b: BoardView, p: Position, q: Position)
    requires
        b.wf(),
        b.counts_ready(),
        b.contains(p.x as int, p.y as int),
        b.at(p.x as int, p.y as int).adjacent_mine_count == 0,
        b.contains(q.x as int, q.y as int),
        touching(p, q),
    ensures
        !is_mine(b.at(q.x as int, q.y as int)),
{
    let around = neighbors(b.width, b.height, p.x as int, p.y as int);
    lemma_neighbors_are_adjacent_cells(b.width, b.height, p.x as int, p.y as int);
    assert(b.at(p.x as int, p.y as int).adjacent_mine_count == b.adjacent_mines(
        p.x as int,
        p.y as int,
    ));
    let pred = |n: Position| is_mine(b.at(n.x as int, n.y as int));
    lemma_count_zero(around, pred);
    assert(around.contains(q));
    let m = choose|m: int| 0 <= m < around.len() && around[m] == q;
    assert(!pred(around[m]));
}

/// A reveal never spreads to a mine: every tile that a reveal reveals
/// besides the one it starts on is empty.
pub proof fn lemma_cascade_spares_mines(b: BoardView, origin: Position, target: Position)
    requires
        b.wf(),
        b.counts_ready(),
        cascade_reaches(b, origin, target),
        target != origin,
    ensures
        !is_mine(b.at(target.x as int, target.y as int)),
{
    let path = choose|path: Seq<Position>|
        #[trigger] cascade_path(b, path) && path[0] == origin && path.last() == target;
    let k = path.len() - 2;
    assert(spreads(b, path[k]) && touching(path[k], path[k + 1]));
    assert(revealable(b, path[k + 1]));
    lemma_zero_count_no_mine_around(b, path[k], target);
}

/// What a reveal reveals besides the tile it starts on lies next to a
/// tile without neighbouring mines that the reveal reveals too: the
/// revealed region is connected through such tiles, and ends at its border.
pub proof fn lemma_cascade_region(b: BoardView, origin: Position, target: Position)
    requires
        cascade_reaches(b, origin, target),
        target != origin,
    ensures
        exists|p: Position|
            #![trigger touching(p, target)]
            cascade_reaches(b, origin, p) && spreads(b, p) && touching(p, target),
{
    let path = choose|path: Seq<Position>|
        #[trigger] cascade_path(b, path) && path[0] == origin && path.last() == target;
    let k = path.len() - 2;
    let shorter = path.drop_last();
    assert(spreads(b, path[k]) && touching(path[k], path[k + 1]));
    assert forall|j: int| 0 <= j < shorter.len() implies revealable(b, #[trigger] shorter[j]) by {
        assert(shorter[j] == path[j]);
    }
    assert forall|j: int| 0 <= j < shorter.len() - 1 implies spreads(b, #[trigger] shorter[j])
        && touching(shorter[j], shorter[j + 1]) by {
        assert(shorter[j] == path[j]);
        assert(shorter[j + 1] == path[j + 1]);
    }
    assert(cascade_path(b, shorter));
    assert(shorter[0] == origin && shorter.last() == path[k]);
    assert(cascade_reaches(b, origin, path[k]));
    assert(touching(path[k], target));
}

/// A reveal that starts on a tile that does not spread reveals that tile alone.
pub proof fn lemma_reach_without_spread(b: BoardView, origin: Position)
    requires
        b.wf(),
        revealable(b, origin),
        !spreads(b, origin),
    ensures
        forall|t: Position| cascade_reaches(b, origin, t) <==> t == origin,
        after_reveal(b, origin) == uncovered_at(b, origin),
        cascade_order(b, origin).len() == 0,
{
    lemma_reach_self(b, origin);
    lemma_reveal_order(b, origin);
    if cascade_order(b, origin).len() > 0 {
        assert(cascade_order(b, origin).contains(cascade_order(b, origin)[0]));
    }
    assert forall|t: Position| cascade_reaches(b, origin, t) implies t == origin by {
        let path = choose|path: Seq<Position>|
            #[trigger] cascade_path(b, path) && path[0] == origin && path.last() == t;
        if path.len() > 1 {
            assert(spreads(b, path[0]));
        }
    }
    let i = to_index(b.width, origin.x as int, origin.y as int);
    lemma_index_of_coordinate(b.width, b.height, origin.x as int, origin.y as int);
    let left = after_reveal(b, origin);
    let right = uncovered_at(b, origin);
    assert forall|j: int| 0 <= j < b.tiles.len() implies left.tiles[j] == right.tiles[j] by {
        lemma_coordinate_of_index(b.width, b.height, j);
        let pos = position_of(b.width, j);
        assert(to_index(b.width, pos.x as int, pos.y as int) == j);
    }
    assert(left.tiles =~= right.tiles);
}

/// Revealing a hidden, unflagged mine reports a defeat and reveals that
/// tile; no other tile changes.
pub proof fn lemma_mine_reveal(b: BoardView, origin: Position, out: RevealOutcome)
    requires
        b.wf(),
        revealable(b, origin),
        is_mine(b.at(origin.x as int, origin.y as int)),
        reveal_outcome(b, origin, out),
    ensures
        out == RevealOutcome::Defeat,
        after_reveal(b, origin) == uncovered_at(b, origin),
{
    lemma_reach_without_spread(b, origin);
}

/// Revealing a tile that is already revealed is ignored and changes nothing.
pub proof fn lemma_revealed_tile_ignored(b: BoardView, origin: Position, out: RevealOutcome)
    requires
        b.contains(origin.x as int, origin.y as int),
        b.at(origin.x as int, origin.y as int).revealed,
        reveal_outcome(b, origin, out),
    ensures
        out == RevealOutcome::Ignored,
        after_reveal(b, origin) == b,
{
    lemma_no_reach(b, origin);
}

/// A second reveal at the same place changes nothing and is ignored.
pub proof fn lemma_reveal_idempotent(b: BoardView, origin: Position, out: RevealOutcome)
    requires
        b.wf(),
        reveal_outcome(after_reveal(b, origin), origin, out),
    ensures
        out == RevealOutcome::Ignored,
        after_reveal(after_reveal(b, origin), origin) == after_reveal(b, origin),
{
    let once = after_reveal(b, origin);
    if revealable(b, origin) {
        lemma_reach_self(b, origin);
        lemma_index_of_coordinate(b.width, b.height, origin.x as int, origin.y as int);
        let i = to_index(b.width, origin.x as int, origin.y as int);
        lemma_coordinate_of_index(b.width, b.height, i);
        assert(position_of(b.width, i) == origin);
        assert(once.tiles[i].revealed);
    } else {
        lemma_no_reach(b, origin);
    }
    lemma_no_reach(once, origin);
}

impl Board {
    /// Reveals the tile at `(x, y)`.
    ///
    /// A tile that is off the board, already revealed or flagged is left
    /// alone. A mine is revealed, and nothing else. An empty tile is
    /// revealed; where it has no neighbouring mine, the reveal goes on to
    /// its neighbours by the same rule, so that a connected region of such
    /// tiles is revealed together with its border.
    pub fn reveal_tile(&mut self, x: i32, y: i32) -> (out: RevealOutcome)
        requires
            old(self)@.wf(),
        ensures
            final(self)@ == after_reveal(old(self)@, Position { x, y }),
            final(self)@.wf(),
            old(self)@.counts_ready() ==> final(self)@.counts_ready(),
            reveal_outcome(old(self)@, Position { x, y }, out),
    {
        let origin = Position { x, y };
        let entry = self.board_idx(x, y);
        if entry.0 == INVALID_BOARD_INDEX {
            proof {
                lemma_no_reach(self@, origin);
            }
            return RevealOutcome::Ignored;
        }
        let tile = self.tile_at(entry.0);
        if tile.revealed || tile.marked {
            proof {
                lemma_no_reach(self@, origin);
            }
            return RevealOutcome::Ignored;
        }
        let list = self.flood(origin);
        proof {
            if old(self)@.counts_ready() {
                lemma_counts_kept(old(self)@, self@);
            }
        }
        match tile.tile_type {
            TileType::Mine => RevealOutcome::Defeat,
            TileType::Empty => {
                if list.len() == 0 {
                    RevealOutcome::RevealedEmpty(tile.adjacent_mine_count)
                } else {
                    RevealOutcome::Cascade(tile.adjacent_mine_count, list)
                }
            },
        }
    }
}

} // verus!
