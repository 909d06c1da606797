//! Mine placement: turning random draws into a layout with a given number
//! of mines, every layout of that size being as likely as any other.

use crate::board::{is_mine, Tile, TileType};
use crate::counting::{count_where, lemma_count_take_step, lemma_count_update};
use vstd::prelude::*;

verus! {

/// The tile hides no mine.
pub open spec fn is_empty_tile(t: Tile) -> bool {
    t.tile_type == TileType::Empty
}

/// Number of tiles without a mine.
pub open spec fn empty_total(tiles: Seq<Tile>) -> nat {
    count_where(tiles, |t: Tile| is_empty_tile(t))
}

/// `index` is the place of the empty tile that has exactly `rank` empty tiles before it.
pub open spec fn is_nth_empty(tiles: Seq<Tile>, rank: nat, index: int) -> bool {
    &&& 0 <= index < tiles.len()
    &&& is_empty_tile(tiles[index])
    &&& empty_total(tiles.take(index)) == rank
}

/// `tiles` with a mine put on the tile at `index`.
pub open spec fn with_mine_at(tiles: Seq<Tile>, index: int) -> Seq<Tile> {
    tiles.update(index, Tile { tile_type: TileType::Mine, ..tiles[index] })
}

/// Every tile is a mine or empty, so the two counts add up to the number of tiles.
pub proof fn lemma_empty_and_mine_totals(tiles: Seq<Tile>)
    ensures
        empty_total(tiles) + count_where(tiles, |t: Tile| is_mine(t)) == tiles.len(),
    decreases tiles.len(),
{
    if tiles.len() > 0 {
        lemma_empty_and_mine_totals(tiles.drop_last());
    }
}

/// Only one tile is the empty tile of a given rank.
pub proof fn lemma_nth_empty_unique(tiles: Seq<Tile>, rank: nat, i: int, j: int)
    requires
        is_nth_empty(tiles, rank, i),
        is_nth_empty(tiles, rank, j),
    ensures
        i == j,
{
    if i < j {
        lemma_empty_total_grows(tiles, i + 1, j);
        lemma_count_take_step(tiles, |t: Tile| is_empty_tile(t), i);
    } else if j < i {
        lemma_empty_total_grows(tiles, j + 1, i);
        lemma_count_take_step(tiles, |t: Tile| is_empty_tile(t), j);
    }
}

/// Every empty tile is the empty tile of some rank below the number of
/// empty tiles: the number of empty tiles before it. So ranks and empty
/// tiles correspond one to one, and a uniform rank is a uniform choice
/// among the empty tiles.
pub proof fn lemma_empty_tile_has_rank(tiles: Seq<Tile>, index: int)
    requires
        0 <= index < tiles.len(),
        is_empty_tile(tiles[index]),
    ensures
        is_nth_empty(tiles, empty_total(tiles.take(index)), index),
        empty_total(tiles.take(index)) < empty_total(tiles),
{
    lemma_count_take_step(tiles, |t: Tile| is_empty_tile(t), index);
    lemma_empty_total_grows(tiles, index + 1, tiles.len() as int);
    assert(tiles.take(tiles.len() as int) =~= tiles);
}

/// A longer prefix holds at least as many empty tiles.
proof fn lemma_empty_total_grows(tiles: Seq<Tile>, i: int, j: int)
    requires
        0 <= i <= j <= tiles.len(),
    ensures
        empty_total(tiles.take(i)) <= empty_total(tiles.take(j)),
    decreases j - i,
{
    if i < j {
        lemma_empty_total_grows(tiles, i, j - 1);
        lemma_count_take_step(tiles, |t: Tile| is_empty_tile(t), j - 1);
    }
}

/// Puts a mine on the empty tile of rank `rank`, counted from the start of
/// the layout, and returns the place of that tile. Where the layout has no
/// empty tile of that rank, nothing changes and `None` is returned.
///
/// With `rank` drawn uniformly below the number of empty tiles, each empty
/// tile is as likely to get the mine as any other.
pub fn place_mine(tiles: &mut Vec<Tile>, rank: usize) -> (placed: Option<usize>)
    ensures
        placed is Some <==> rank < empty_total(old(tiles)@),
        placed matches Some(index) ==> {
            &&& is_nth_empty(old(tiles)@, rank as nat, index as int)
            &&& final(tiles)@ == with_mine_at(old(tiles)@, index as int)
            &&& count_where(final(tiles)@, |t: Tile| is_mine(t)) == count_where(
                old(tiles)@,
                |t: Tile| is_mine(t),
            ) + 1
        },
        placed is None ==> final(tiles)@ == old(tiles)@,
{
    let ghost before = tiles@;
    let len: usize = tiles.len();
    let mut seen: usize = 0;
    let mut i: usize = 0;
    while i < len
        invariant
            tiles@ == before,
            before == old(tiles)@,
            len == before.len(),
            i <= len,
            seen == empty_total(before.take(i as int)),
            seen <= rank,
        decreases len - i,
    {
        proof {
            lemma_count_take_step(before, |t: Tile| is_empty_tile(t), i as int);
            lemma_empty_total_grows(before, i + 1, len as int);
            assert(before.take(len as int) =~= before);
        }
        let t = tiles[i];
        if t.tile_type == TileType::Empty {
            if seen == rank {
                proof {
                    lemma_count_update(
                        before,
                        |t: Tile| is_mine(t),
                        i as int,
                        Tile { tile_type: TileType::Mine, ..before[i as int] },
                    );
                }
                tiles.set(i, Tile { tile_type: TileType::Mine, ..t });
                return Some(i);
            }
            seen = seen + 1;
        }
        i = i + 1;
    }
    proof {
        assert(before.take(len as int) =~= before);
    }
    None
}

} // verus!
