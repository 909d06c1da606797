//! The flood fill behind a reveal: the order in which it visits the board,
//! and the proof that it reveals exactly the tiles that the reveal reaches.

use crate::board::{
    is_hidden, is_mine, lists_with_indices, Board, BoardView, Tile, TileType,
};
use crate::cascade::{
    after_reveal, cascade_path, cascade_reaches, lemma_reach_extends, lemma_reach_self,
    revealable, spreads, touching, uncovered_at,
};
use crate::counting::{lemma_count_agree, lemma_count_update};
use crate::grid::{
    lemma_coordinate_of_index, lemma_index_injective, lemma_index_of_coordinate,
    lemma_neighbors_are_adjacent_cells, neighbors, position_of, to_index, Position,
};
use vstd::prelude::*;

verus! {

/// The flood fill, step by step. `stack` holds the tiles still to be looked
/// at, the last of them next; `list` holds the tiles revealed so far, in
/// the order of their reveal. A tile taken off the stack is revealed if a
/// reveal acts on it, and puts its neighbours on the stack if it spreads.
/// The result is the board and the list once the stack is empty.
pub open spec fn flood_from(b: BoardView, stack: Seq<Position>, list: Seq<Position>) -> (
    BoardView,
    Seq<Position>,
)
    decreases b.hidden_total(), stack.len(),
    when b.wf()
    via flood_from_decreases
{
    if stack.len() == 0 {
        (b, list)
    } else {
        let p = stack.last();
        let rest = stack.drop_last();
        if !revealable(b, p) {
            flood_from(b, rest, list)
        } else if spreads(b, p) {
            flood_from(
                uncovered_at(b, p),
                rest + neighbors(b.width, b.height, p.x as int, p.y as int),
                list.push(p),
            )
        } else {
            flood_from(uncovered_at(b, p), rest, list.push(p))
        }
    }
}

/// The flood fill ends: each step takes a tile off the stack and leaves
/// the board as it is, or reveals a tile that was hidden.
#[via_fn]
proof fn flood_from_decreases(b: BoardView, stack: Seq<Position>, list: Seq<Position>) {
    if stack.len() > 0 && revealable(b, stack.last()) {
        lemma_uncovered_wf(b, stack.last());
    }
}

/// The tiles that a reveal at `origin` reveals, in the order of their
/// reveal: `origin` first, where a reveal acts on it at all.
pub open spec fn reveal_order(b: BoardView, origin: Position) -> Seq<Position> {
    flood_from(b, seq![origin], Seq::empty()).1
}

/// The tiles that a reveal at `origin` reveals besides `origin`, in the
/// order of their reveal.
pub open spec fn cascade_order(b: BoardView, origin: Position) -> Seq<Position> {
    reveal_order(b, origin).drop_first()
}

/// Revealing a tile that a reveal acts on keeps the board valid and leaves
/// one hidden tile less.
pub proof fn lemma_uncovered_wf(b: BoardView, p: Position)
    requires
        b.wf(),
        revealable(b, p),
    ensures
        0 <= to_index(b.width, p.x as int, p.y as int) < b.tiles.len(),
        uncovered_at(b, p).wf(),
        uncovered_at(b, p).hidden_total() < b.hidden_total(),
{
    lemma_index_of_coordinate(b.width, b.height, p.x as int, p.y as int);
    let i = to_index(b.width, p.x as int, p.y as int);
    let after = uncovered_at(b, p);
    lemma_count_agree(b.tiles, |t: Tile| is_mine(t), after.tiles, |t: Tile| is_mine(t));
    lemma_count_update(b.tiles, |t: Tile| is_hidden(t), i, Tile { revealed: true, ..b.tiles[i] });
}

/// Revealing the tile at `p` changes that tile and leaves every other where it was.
proof fn lemma_uncovered_tiles(b: BoardView, p: Position)
    requires
        b.wf(),
        b.contains(p.x as int, p.y as int),
    ensures
        forall|q: Position|
            b.contains(q.x as int, q.y as int) ==> #[trigger] uncovered_at(b, p).at(
                q.x as int,
                q.y as int,
            ) == (if q == p {
                Tile { revealed: true, ..b.at(p.x as int, p.y as int) }
            } else {
                b.at(q.x as int, q.y as int)
            }),
{
    lemma_index_of_coordinate(b.width, b.height, p.x as int, p.y as int);
    assert forall|q: Position| b.contains(q.x as int, q.y as int) implies #[trigger] uncovered_at(
        b,
        p,
    ).at(q.x as int, q.y as int) == (if q == p {
        Tile { revealed: true, ..b.at(p.x as int, p.y as int) }
    } else {
        b.at(q.x as int, q.y as int)
    }) by {
        lemma_index_of_coordinate(b.width, b.height, q.x as int, q.y as int);
        if q != p && to_index(b.width, q.x as int, q.y as int) == to_index(
            b.width,
            p.x as int,
            p.y as int,
        ) {
            lemma_index_injective(
                b.width,
                b.height,
                p.x as int,
                p.y as int,
                q.x as int,
                q.y as int,
            );
        }
    }
}

/// The tile at `p` was hidden on `b0` and is revealed on `cur`.
spec fn newly(b0: BoardView, cur: BoardView, p: Position) -> bool {
    &&& b0.contains(p.x as int, p.y as int)
    &&& !b0.at(p.x as int, p.y as int).revealed
    &&& cur.at(p.x as int, p.y as int).revealed
}

/// `cur` is `b0` with more tiles revealed.
spec fn grown(b0: BoardView, cur: BoardView) -> bool {
    &&& cur.width == b0.width
    &&& cur.height == b0.height
    &&& cur.mine_count == b0.mine_count
    &&& cur.tiles.len() == b0.tiles.len()
    &&& forall|i: int|
        0 <= i < cur.tiles.len() ==> (#[trigger] cur.tiles[i]) == (Tile {
            revealed: cur.tiles[i].revealed,
            ..b0.tiles[i]
        }) && (b0.tiles[i].revealed ==> cur.tiles[i].revealed)
}

/// Every tile on the stack is a tile of the board, and one that the reveal
/// reaches if a reveal acts on it at all.
spec fn stack_ok(b0: BoardView, origin: Position, stack: Seq<Position>) -> bool {
    forall|k: int|
        0 <= k < stack.len() ==> b0.contains((#[trigger] stack[k]).x as int, stack[k].y as int) && (
        revealable(b0, stack[k]) ==> cascade_reaches(b0, origin, stack[k]))
}

/// Only tiles that the reveal reaches have been revealed.
spec fn sound(b0: BoardView, cur: BoardView, origin: Position) -> bool {
    forall|p: Position| #[trigger] newly(b0, cur, p) ==> cascade_reaches(b0, origin, p)
}

/// The neighbours of `p` that a reveal acts on are revealed or wait on the stack.
spec fn spread_done(b0: BoardView, cur: BoardView, stack: Seq<Position>, p: Position) -> bool {
    forall|q: Position|
        #![trigger touching(p, q)]
        touching(p, q) && revealable(b0, q) ==> cur.at(q.x as int, q.y as int).revealed
            || stack.contains(q)
}

/// Every tile revealed so far that spreads, but `skip`, has spread.
spec fn closed_but(
    b0: BoardView,
    cur: BoardView,
    stack: Seq<Position>,
    skip: Option<Position>,
) -> bool {
    forall|p: Position|
        #![trigger newly(b0, cur, p)]
        newly(b0, cur, p) && spreads(b0, p) && skip != Some(p) ==> spread_done(b0, cur, stack, p)
}

/// `list` holds, once each, the tiles revealed so far.
spec fn listed(b0: BoardView, cur: BoardView, list: Seq<Position>) -> bool {
    &&& list.no_duplicates()
    &&& forall|t: Position|
        #![trigger list.contains(t)]
        #![trigger newly(b0, cur, t)]
        list.contains(t) <==> newly(b0, cur, t)
}

/// What holds of the flood fill between two steps.
spec fn flood_inv(
    b0: BoardView,
    cur: BoardView,
    origin: Position,
    stack: Seq<Position>,
    list: Seq<Position>,
) -> bool {
    &&& b0.wf()
    &&& cur.wf()
    &&& revealable(b0, origin)
    &&& grown(b0, cur)
    &&& newly(b0, cur, origin) || stack.contains(origin)
    &&& stack_ok(b0, origin, stack)
    &&& sound(b0, cur, origin)
    &&& listed(b0, cur, list)
}

/// On a board with more tiles revealed, a reveal acts on the tiles it
/// acted on before that are still hidden, and those spread that spread before.
proof fn lemma_grown_revealable(b0: BoardView, cur: BoardView, p: Position)
    requires
        b0.wf(),
        grown(b0, cur),
    ensures
        revealable(cur, p) <==> revealable(b0, p) && !cur.at(p.x as int, p.y as int).revealed,
        spreads(cur, p) <==> spreads(b0, p) && !cur.at(p.x as int, p.y as int).revealed,
{
    if b0.contains(p.x as int, p.y as int) {
        lemma_index_of_coordinate(b0.width, b0.height, p.x as int, p.y as int);
        let i = to_index(b0.width, p.x as int, p.y as int);
        assert(cur.tiles[i] == Tile { revealed: cur.tiles[i].revealed, ..b0.tiles[i] });
    }
}

/// Appending `v` to `s` adds `v` to what `s` contains, and nothing else.
proof fn lemma_push_contains<T>(s: Seq<T>, v: T)
    ensures
        forall|t: T| #[trigger] s.push(v).contains(t) <==> (s.contains(t) || t == v),
{
    let l = s.push(v);
    assert forall|t: T| #[trigger] l.contains(t) <==> (s.contains(t) || t == v) by {
        if l.contains(t) {
            let i = choose|i: int| 0 <= i < l.len() && l[i] == t;
            if i < s.len() {
                assert(s[i] == t);
            }
        }
        if s.contains(t) {
            let i = choose|i: int| 0 <= i < s.len() && s[i] == t;
            assert(l[i] == t);
        }
        if t == v {
            assert(l[s.len() as int] == t);
        }
    }
}

/// A tile taken off the stack on which no reveal acts is dropped.
proof fn lemma_step_skip(
    b0: BoardView,
    cur: BoardView,
    origin: Position,
    stack: Seq<Position>,
    list: Seq<Position>,
)
    requires
        flood_inv(b0, cur, origin, stack, list),
        closed_but(b0, cur, stack, None),
        stack.len() > 0,
        !revealable(cur, stack.last()),
    ensures
        flood_inv(b0, cur, origin, stack.drop_last(), list),
        closed_but(b0, cur, stack.drop_last(), None),
{
    let rest = stack.drop_last();
    let p = stack.last();
    lemma_grown_revealable(b0, cur, p);
    assert(stack_ok(b0, origin, rest)) by {
        assert forall|k: int| 0 <= k < rest.len() implies b0.contains(
            (#[trigger] rest[k]).x as int,
            rest[k].y as int,
        ) && (revealable(b0, rest[k]) ==> cascade_reaches(b0, origin, rest[k])) by {
            assert(rest[k] == stack[k]);
        }
    }
    if !newly(b0, cur, origin) {
        let k = choose|k: int| 0 <= k < stack.len() && stack[k] == origin;
        assert(k < stack.len() - 1);
        assert(rest[k] == origin);
    }
    assert forall|r: Position|
        #![trigger newly(b0, cur, r)]
        newly(b0, cur, r) && spreads(b0, r) implies spread_done(b0, cur, rest, r) by {
        assert(spread_done(b0, cur, stack, r));
        assert forall|q: Position|
            #![trigger touching(r, q)]
            touching(r, q) && revealable(b0, q) implies cur.at(q.x as int, q.y as int).revealed
            || rest.contains(q) by {
            if !cur.at(q.x as int, q.y as int).revealed {
                assert(stack.contains(q));
                let k = choose|k: int| 0 <= k < stack.len() && stack[k] == q;
                assert(k < stack.len() - 1);
                assert(rest[k] == q);
            }
        }
    }
}

/// A tile taken off the stack on which a reveal acts is revealed and listed.
proof fn lemma_step_uncover(
    b0: BoardView,
    cur: BoardView,
    origin: Position,
    stack: Seq<Position>,
    list: Seq<Position>,
)
    requires
        flood_inv(b0, cur, origin, stack, list),
        closed_but(b0, cur, stack, None),
        stack.len() > 0,
        revealable(cur, stack.last()),
    ensures
        flood_inv(
            b0,
            uncovered_at(cur, stack.last()),
            origin,
            stack.drop_last(),
            list.push(stack.last()),
        ),
        closed_but(b0, uncovered_at(cur, stack.last()), stack.drop_last(), Some(stack.last())),
        newly(b0, uncovered_at(cur, stack.last()), stack.last()),
        cascade_reaches(b0, origin, stack.last()),
        spreads(cur, stack.last()) == spreads(b0, stack.last()),
{
    let p = stack.last();
    let rest = stack.drop_last();
    let new = uncovered_at(cur, p);
    let i = to_index(b0.width, p.x as int, p.y as int);
    assert(stack[stack.len() - 1] == p);
    lemma_grown_revealable(b0, cur, p);
    lemma_uncovered_wf(cur, p);
    lemma_uncovered_tiles(cur, p);
    lemma_index_of_coordinate(b0.width, b0.height, origin.x as int, origin.y as int);
    assert(stack_ok(b0, origin, rest)) by {
        assert forall|k: int| 0 <= k < rest.len() implies b0.contains(
            (#[trigger] rest[k]).x as int,
            rest[k].y as int,
        ) && (revealable(b0, rest[k]) ==> cascade_reaches(b0, origin, rest[k])) by {
            assert(rest[k] == stack[k]);
        }
    }
    assert(grown(b0, new));
    assert(new.at(p.x as int, p.y as int).revealed);
    if newly(b0, cur, origin) {
        assert(new.at(origin.x as int, origin.y as int).revealed);
    } else {
        let k = choose|k: int| 0 <= k < stack.len() && stack[k] == origin;
        if k < stack.len() - 1 {
            assert(rest[k] == origin);
        }
    }
    assert(sound(b0, new, origin)) by {
        assert forall|q: Position| #[trigger] newly(b0, new, q) implies cascade_reaches(
            b0,
            origin,
            q,
        ) by {
            if q != p {
                assert(new.at(q.x as int, q.y as int) == cur.at(q.x as int, q.y as int));
                assert(newly(b0, cur, q));
            }
        }
    }
    let longer = list.push(p);
    assert(listed(b0, new, longer)) by {
        lemma_push_contains(list, p);
        assert(!list.contains(p)) by {
            if list.contains(p) {
                assert(newly(b0, cur, p));
            }
        }
        assert forall|t: Position|
            #![trigger longer.contains(t)]
            #![trigger newly(b0, new, t)]
            longer.contains(t) <==> newly(b0, new, t) by {
            if t != p {
                if b0.contains(t.x as int, t.y as int) {
                    assert(new.at(t.x as int, t.y as int) == cur.at(t.x as int, t.y as int));
                }
                assert(newly(b0, new, t) == newly(b0, cur, t));
                assert(list.contains(t) <==> newly(b0, cur, t));
            }
        }
        assert forall|a: int, c: int|
            0 <= a < longer.len() && 0 <= c < longer.len() && a != c implies longer[a]
            != longer[c] by {
            if a < list.len() && c < list.len() {
            } else if a < list.len() {
                assert(list.contains(list[a]));
            } else {
                assert(list.contains(list[c]));
            }
        }
    }
    assert(closed_but(b0, new, rest, Some(p))) by {
        assert forall|r: Position|
            #![trigger newly(b0, new, r)]
            newly(b0, new, r) && spreads(b0, r) && Some(p) != Some(r) implies spread_done(
            b0,
            new,
            rest,
            r,
        ) by {
            assert(new.at(r.x as int, r.y as int) == cur.at(r.x as int, r.y as int));
            assert(newly(b0, cur, r));
            assert(spread_done(b0, cur, stack, r));
            assert forall|q: Position|
                #![trigger touching(r, q)]
                touching(r, q) && revealable(b0, q) implies new.at(
                q.x as int,
                q.y as int,
            ).revealed || rest.contains(q) by {
                if q != p {
                    assert(new.at(q.x as int, q.y as int) == cur.at(q.x as int, q.y as int));
                    if !cur.at(q.x as int, q.y as int).revealed {
                        assert(stack.contains(q));
                        let k = choose|k: int| 0 <= k < stack.len() && stack[k] == q;
                        assert(rest[k] == q);
                    }
                }
            }
        }
    }
}

/// A tile that was just revealed and spreads puts its neighbours on the stack.
proof fn lemma_step_spread(
    b0: BoardView,
    cur: BoardView,
    origin: Position,
    rest: Seq<Position>,
    list: Seq<Position>,
    p: Position,
)
    requires
        flood_inv(b0, cur, origin, rest, list),
        closed_but(b0, cur, rest, Some(p)),
        cascade_reaches(b0, origin, p),
        spreads(b0, p),
    ensures
        flood_inv(
            b0,
            cur,
            origin,
            rest + neighbors(b0.width, b0.height, p.x as int, p.y as int),
            list,
        ),
        closed_but(
            b0,
            cur,
            rest + neighbors(b0.width, b0.height, p.x as int, p.y as int),
            None,
        ),
{
    let around = neighbors(b0.width, b0.height, p.x as int, p.y as int);
    let stack = rest + around;
    lemma_neighbors_are_adjacent_cells(b0.width, b0.height, p.x as int, p.y as int);
    assert(stack_ok(b0, origin, stack)) by {
        assert forall|k: int| 0 <= k < stack.len() implies b0.contains(
            (#[trigger] stack[k]).x as int,
            stack[k].y as int,
        ) && (revealable(b0, stack[k]) ==> cascade_reaches(b0, origin, stack[k])) by {
            if k < rest.len() {
                assert(stack[k] == rest[k]);
            } else {
                let m = k - rest.len();
                assert(stack[k] == around[m]);
                assert(around.contains(around[m]));
                if revealable(b0, around[m]) {
                    lemma_reach_extends(b0, origin, p, around[m]);
                }
            }
        }
    }
    if !newly(b0, cur, origin) {
        let k = choose|k: int| 0 <= k < rest.len() && rest[k] == origin;
        assert(stack[k] == origin);
    }
    assert forall|r: Position|
        #![trigger newly(b0, cur, r)]
        newly(b0, cur, r) && spreads(b0, r) implies spread_done(b0, cur, stack, r) by {
        assert forall|q: Position|
            #![trigger touching(r, q)]
            touching(r, q) && revealable(b0, q) implies cur.at(q.x as int, q.y as int).revealed
            || stack.contains(q) by {
            if !cur.at(q.x as int, q.y as int).revealed {
                if r == p {
                    assert(around.contains(q));
                    let m = choose|m: int| 0 <= m < around.len() && around[m] == q;
                    assert(stack[rest.len() + m] == q);
                } else {
                    assert(spread_done(b0, cur, rest, r));
                    assert(rest.contains(q));
                    let k = choose|k: int| 0 <= k < rest.len() && rest[k] == q;
                    assert(stack[k] == q);
                }
            }
        }
    }
}

/// Along a way that a reveal can travel, once the stack is empty, every tile is revealed.
proof fn lemma_path_revealed(
    b0: BoardView,
    cur: BoardView,
    origin: Position,
    path: Seq<Position>,
    k: int,
)
    requires
        newly(b0, cur, origin),
        closed_but(b0, cur, Seq::empty(), None),
        cascade_path(b0, path),
        path[0] == origin,
        0 <= k < path.len(),
    ensures
        newly(b0, cur, path[k]),
    decreases k,
{
    if k > 0 {
        lemma_path_revealed(b0, cur, origin, path, k - 1);
        let p = path[k - 1];
        let q = path[k];
        assert(spreads(b0, p) && touching(p, q));
        assert(revealable(b0, q));
        assert(spread_done(b0, cur, Seq::empty(), p));
        assert(!Seq::<Position>::empty().contains(q));
    }
}

/// With the stack empty, the board is the one that a reveal at `origin`
/// leaves, and the list holds the tiles that the reveal reaches.
proof fn lemma_flood_done(b0: BoardView, cur: BoardView, origin: Position, list: Seq<Position>)
    requires
        flood_inv(b0, cur, origin, Seq::empty(), list),
        closed_but(b0, cur, Seq::empty(), None),
    ensures
        cur == after_reveal(b0, origin),
        forall|t: Position| #[trigger] list.contains(t) <==> cascade_reaches(b0, origin, t),
{
    assert(!Seq::<Position>::empty().contains(origin));
    assert forall|t: Position| #[trigger]
        cascade_reaches(b0, origin, t) implies newly(b0, cur, t) by {
        let path = choose|path: Seq<Position>|
            #[trigger] cascade_path(b0, path) && path[0] == origin && path.last() == t;
        lemma_path_revealed(b0, cur, origin, path, path.len() - 1);
    }
    assert forall|t: Position| #[trigger] list.contains(t) <==> cascade_reaches(b0, origin, t) by {
        assert(list.contains(t) <==> newly(b0, cur, t));
    }
    let target = after_reveal(b0, origin);
    assert forall|i: int| 0 <= i < cur.tiles.len() implies cur.tiles[i] == target.tiles[i] by {
        lemma_coordinate_of_index(b0.width, b0.height, i);
        let pos = position_of(b0.width, i);
        assert(to_index(b0.width, pos.x as int, pos.y as int) == i);
        assert(cur.at(pos.x as int, pos.y as int) == cur.tiles[i]);
        assert(b0.at(pos.x as int, pos.y as int) == b0.tiles[i]);
        if cur.tiles[i].revealed && !b0.tiles[i].revealed {
            assert(newly(b0, cur, pos));
        }
        if cascade_reaches(b0, origin, pos) {
            assert(newly(b0, cur, pos));
        }
    }
    assert(cur.tiles =~= target.tiles);
}

/// From any state that the flood fill passes through, it ends on the board
/// that a reveal at `origin` leaves, with a list that holds the tiles that
/// the reveal reaches, once each, and begins with the list so far.
proof fn lemma_flood_from(
    b0: BoardView,
    cur: BoardView,
    origin: Position,
    stack: Seq<Position>,
    list: Seq<Position>,
)
    requires
        flood_inv(b0, cur, origin, stack, list),
        closed_but(b0, cur, stack, None),
    ensures
        flood_from(cur, stack, list).0 == after_reveal(b0, origin),
        flood_from(cur, stack, list).1.no_duplicates(),
        forall|t: Position| #[trigger]
            flood_from(cur, stack, list).1.contains(t) <==> cascade_reaches(b0, origin, t),
        list.len() <= flood_from(cur, stack, list).1.len(),
        forall|k: int| 0 <= k < list.len() ==> flood_from(cur, stack, list).1[k] == list[k],
    decreases cur.hidden_total(), stack.len(),
{
    if stack.len() == 0 {
        assert(stack =~= Seq::empty());
        lemma_flood_done(b0, cur, origin, list);
    } else {
        let p = stack.last();
        let rest = stack.drop_last();
        if !revealable(cur, p) {
            lemma_step_skip(b0, cur, origin, stack, list);
            lemma_flood_from(b0, cur, origin, rest, list);
        } else {
            let new = uncovered_at(cur, p);
            let longer = list.push(p);
            lemma_uncovered_wf(cur, p);
            lemma_step_uncover(b0, cur, origin, stack, list);
            if spreads(cur, p) {
                let around = neighbors(b0.width, b0.height, p.x as int, p.y as int);
                lemma_step_spread(b0, new, origin, rest, longer, p);
                lemma_flood_from(b0, new, origin, rest + around, longer);
            } else {
                lemma_flood_from(b0, new, origin, rest, longer);
            }
            assert forall|k: int| 0 <= k < list.len() implies flood_from(cur, stack, list).1[k]
                == list[k] by {
                assert(longer[k] == list[k]);
            }
        }
    }
}

/// The flood fill from `origin` ends on the board that a reveal at `origin`
/// leaves. Its list begins with `origin` and holds, once each, the tiles
/// that the reveal reaches.
pub proof fn lemma_reveal_order(b: BoardView, origin: Position)
    requires
        b.wf(),
        revealable(b, origin),
    ensures
        flood_from(b, seq![origin], Seq::empty()).0 == after_reveal(b, origin),
        reveal_order(b, origin).len() > 0,
        reveal_order(b, origin)[0] == origin,
        reveal_order(b, origin).no_duplicates(),
        forall|t: Position| #[trigger]
            reveal_order(b, origin).contains(t) <==> cascade_reaches(b, origin, t),
        cascade_order(b, origin).no_duplicates(),
        forall|t: Position| #[trigger]
            cascade_order(b, origin).contains(t) <==> (t != origin && cascade_reaches(
                b,
                origin,
                t,
            )),
{
    let stack = seq![origin];
    let list = Seq::<Position>::empty();
    assert(stack[0] == origin);
    assert(stack.contains(origin));
    assert(flood_inv(b, b, origin, stack, list)) by {
        lemma_reach_self(b, origin);
    }
    assert(closed_but(b, b, stack, None));
    lemma_step_uncover(b, b, origin, stack, list);
    let new = uncovered_at(b, origin);
    let first = list.push(origin);
    let rest = stack.drop_last();
    assert(stack.last() == origin);
    if spreads(b, origin) {
        lemma_step_spread(b, new, origin, rest, first, origin);
        lemma_flood_from(
            b,
            new,
            origin,
            rest + neighbors(b.width, b.height, origin.x as int, origin.y as int),
            first,
        );
    } else {
        lemma_flood_from(b, new, origin, rest, first);
    }
    let order = reveal_order(b, origin);
    assert(order[0] == first[0]);
    let tail = cascade_order(b, origin);
    assert forall|t: Position| #[trigger] tail.contains(t) <==> (t != origin && cascade_reaches(
        b,
        origin,
        t,
    )) by {
        if tail.contains(t) {
            let k = choose|k: int| 0 <= k < tail.len() && tail[k] == t;
            assert(order[k + 1] == t);
            assert(order.contains(t));
        }
        if t != origin && cascade_reaches(b, origin, t) {
            assert(order.contains(t));
            let k = choose|k: int| 0 <= k < order.len() && order[k] == t;
            assert(tail[k - 1] == t);
        }
    }
    assert forall|i: int, j: int|
        0 <= i < tail.len() && 0 <= j < tail.len() && i != j implies tail[i] != tail[j] by {
        assert(tail[i] == order[i + 1] && tail[j] == order[j + 1]);
    }
}

impl Board {
    /// Reveals the tile at `origin`, on which a reveal acts, and whatever
    /// the reveal spreads to. Returns the tiles revealed besides `origin`,
    /// in the order of their reveal.
    pub(crate) fn flood(&mut self, origin: Position) -> (list: Vec<Position>)
        requires
            old(self)@.wf(),
            revealable(old(self)@, origin),
        ensures
            final(self)@ == after_reveal(old(self)@, origin),
            final(self)@.wf(),
            list@ == cascade_order(old(self)@, origin),
    {
        let ghost b0 = self@;
        let ghost mut shown: Seq<Position> = Seq::empty();
        let mut list: Vec<Position> = Vec::new();
        let mut stack: Vec<Position> = Vec::new();
        let mut first = true;
        stack.push(origin);
        assert(stack@ =~= seq![origin]);
        while stack.len() > 0
            invariant
                b0 == old(self)@,
                revealable(b0, origin),
                self@.wf(),
                self@.width == b0.width,
                self@.height == b0.height,
                forall|k: int|
                    0 <= k < stack@.len() ==> self@.contains(
                        (#[trigger] stack@[k]).x as int,
                        stack@[k].y as int,
                    ),
                flood_from(self@, stack@, shown) == flood_from(b0, seq![origin], Seq::empty()),
                first <==> shown.len() == 0,
                first ==> stack@ == seq![origin] && self@ == b0 && list@.len() == 0,
                !first ==> list@ == shown.drop_first(),
            decreases self@.hidden_total(), stack@.len(),
        {
            let ghost cur = self@;
            let ghost full = stack@;
            let p = stack.pop().unwrap();
            assert(p == full.last());
            assert(stack@ == full.drop_last());
            let entry = self.board_idx(p.x, p.y);
            let tile = self.tile_at(entry.0);
            if !tile.revealed && !tile.marked {
                proof {
                    lemma_uncovered_wf(cur, p);
                }
                self.uncover(entry.0);
                if first {
                    first = false;
                } else {
                    list.push(p);
                }
                proof {
                    assert(shown.push(p).drop_first() =~= if shown.len() == 0 {
                        Seq::<Position>::empty()
                    } else {
                        shown.drop_first().push(p)
                    });
                    shown = shown.push(p);
                }
                if tile.tile_type == TileType::Empty && tile.adjacent_mine_count == 0 {
                    let around = self.adjacent_idx_vec(p.x, p.y);
                    let ghost rest = stack@;
                    let ghost ns = neighbors(b0.width, b0.height, p.x as int, p.y as int);
                    proof {
                        lemma_neighbors_are_adjacent_cells(
                            b0.width,
                            b0.height,
                            p.x as int,
                            p.y as int,
                        );
                    }
                    let mut k: usize = 0;
                    while k < around.len()
                        invariant
                            k <= around.len(),
                            lists_with_indices(around@, b0.width, ns),
                            stack@ == rest + ns.take(k as int),
                        decreases around.len() - k,
                    {
                        let next = around[k];
                        assert(ns.take(k as int + 1) =~= ns.take(k as int).push(ns[k as int]));
                        stack.push(next.1);
                        k = k + 1;
                    }
                    proof {
                        assert(ns.take(k as int) =~= ns);
                        assert forall|j: int| 0 <= j < stack@.len() implies self@.contains(
                            (#[trigger] stack@[j]).x as int,
                            stack@[j].y as int,
                        ) by {
                            if j < rest.len() {
                                assert(stack@[j] == full[j]);
                            } else {
                                assert(ns.contains(ns[j - rest.len()]));
                            }
                        }
                    }
                } else {
                    proof {
                        assert forall|j: int| 0 <= j < stack@.len() implies self@.contains(
                            (#[trigger] stack@[j]).x as int,
                            stack@[j].y as int,
                        ) by {
                            assert(stack@[j] == full[j]);
                        }
                    }
                }
            } else {
                proof {
                    assert forall|j: int| 0 <= j < stack@.len() implies self@.contains(
                        (#[trigger] stack@[j]).x as int,
                        stack@[j].y as int,
                    ) by {
                        assert(stack@[j] == full[j]);
                    }
                }
            }
        }
        proof {
            lemma_reveal_order(b0, origin);
        }
        list
    }
}

} // verus!
