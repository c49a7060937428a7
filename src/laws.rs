use vstd::prelude::*;

use crate::game::{GameError, GameState, GameView};
use crate::grid::{closed_region, lemma_mine_cells_bounded, in_grid, in_region, mines_around, spreads, tile_of};
use crate::tile::{Tile, TileValue};

verus! {

/// On every valid board, each number shows exactly how many of its
/// orthogonal and diagonal neighbours inside the grid hold a mine.
pub proof fn lemma_numbers_count_adjacent_mines(g: GameView, p: (int, int))
    requires
        g.wf(),
        in_grid(g.size, p),
        g.tile(p).value is Number,
    ensures
        mines_around(g.size, g.tiles, p).finite(),
        g.tile(p).value->Number_0 as int == mines_around(g.size, g.tiles, p).len(),
{
    assert(tile_of(g.tiles, p) == g.tile(p));
}

/// A valid board holds at most one mine per cell.
pub proof fn lemma_bomb_count_bounded(g: GameView)
    requires
        g.wf(),
    ensures
        0 <= g.bomb_count <= g.size * g.size,
{
    lemma_mine_cells_bounded(g.size, g.tiles);
}

/// Clicking a hidden, unflagged mine loses the game and exposes every mine,
/// and changes no other tile.
pub proof fn lemma_click_on_mine_loses(pre: GameView, x: int, y: int, post: GameView, r: Result<(), GameError>)
    requires
        pre.wf(),
        pre.state == GameState::InProgress,
        in_grid(pre.size, (x, y)),
        pre.tile((x, y)).value is Bomb,
        !pre.tile((x, y)).exposed,
        !pre.tile((x, y)).flagged,
        pre.click_spec(x, y, post, r),
    ensures
        r is Ok,
        post.state == GameState::Lost,
        post.all_mines_exposed(),
        forall|p: (int, int)|
            in_grid(pre.size, p) && !(pre.tile(p).value is Bomb) ==> #[trigger] post.tile(p) == pre.tile(p),
{
    assert forall|p: (int, int)| in_grid(post.size, p) && (post.tile(p).value is Bomb) implies (#[trigger] post.tile(p)).exposed by {
        assert(post.tile(p) == (Tile { exposed: pre.tile(p).exposed || pre.revealed_by_click((x, y), p), ..pre.tile(p) }));
    }
    assert forall|p: (int, int)| in_grid(pre.size, p) && !(pre.tile(p).value is Bomb) implies #[trigger] post.tile(p) == pre.tile(p) by {
        assert(post.tile(p) == (Tile { exposed: pre.tile(p).exposed || pre.revealed_by_click((x, y), p), ..pre.tile(p) }));
    }
}

/// A flood fill from `start` exposes no mine and no flagged tile besides
/// `start` itself.
pub proof fn lemma_flood_skips_mines_and_flags(g: GameView, start: (int, int), p: (int, int))
    requires
        in_grid(g.size, start),
        in_region(g.size, g.tiles, start, p),
        p != start,
    ensures
        in_grid(g.size, p),
        !(g.tile(p).value is Bomb),
        !g.tile(p).flagged,
{
    let safe = Set::new(
        |q: (int, int)|
            q == start || (in_grid(g.size, q) && !(tile_of(g.tiles, q).value is Bomb) && !tile_of(g.tiles, q).flagged),
    );
    assert forall|c: (int, int), n: (int, int)| safe.contains(c) && #[trigger] spreads(g.size, g.tiles, c, n) implies safe.contains(n) by {}
    assert(closed_region(g.size, g.tiles, safe));
    assert(safe.contains(p));
}

/// A click that opens a zero tile changes the exposure of no flagged tile
/// and of no mine.
pub proof fn lemma_zero_click_skips_mines_and_flags(
    pre: GameView,
    x: int,
    y: int,
    post: GameView,
    r: Result<(), GameError>,
    p: (int, int),
)
    requires
        pre.wf(),
        pre.click_spec(x, y, post, r),
        r is Ok,
        pre.tile((x, y)).value == TileValue::Number(0),
        in_grid(pre.size, p),
        pre.tile(p).flagged || pre.tile(p).value is Bomb,
    ensures
        post.tile(p).exposed == pre.tile(p).exposed,
{
    if p != (x, y) && in_region(pre.size, pre.tiles, (x, y), p) {
        lemma_flood_skips_mines_and_flags(pre, (x, y), p);
    }
}

/// A successful click that does not hit a mine wins the game exactly when
/// every tile but the mines is then exposed.
pub proof fn lemma_won_when_cleared(pre: GameView, x: int, y: int, post: GameView, r: Result<(), GameError>)
    requires
        pre.wf(),
        pre.click_spec(x, y, post, r),
        r is Ok,
        post.state != GameState::Lost,
    ensures
        post.state == GameState::Won <==> post.all_cleared(),
{
}

/// Flags play no part in winning: toggling one keeps the state and keeps
/// whether every tile but the mines is exposed.
pub proof fn lemma_flags_do_not_decide(pre: GameView, x: int, y: int, post: GameView, r: Result<(), GameError>)
    requires
        pre.wf(),
        pre.flag_spec(x, y, post, r),
    ensures
        post.state == pre.state,
        post.all_cleared() == pre.all_cleared(),
{
    if r is Ok {
        assert forall|p: (int, int)| in_grid(pre.size, p) implies (#[trigger] post.tile(p)).exposed == pre.tile(p).exposed
            && post.tile(p).value == pre.tile(p).value by {}
        if pre.all_cleared() {
            assert forall|p: (int, int)| in_grid(post.size, p) && !(post.tile(p).value is Bomb) implies (#[trigger] post.tile(p)).exposed by {
                assert(pre.tile(p).exposed);
            }
        }
        if post.all_cleared() {
            assert forall|p: (int, int)| in_grid(pre.size, p) && !(pre.tile(p).value is Bomb) implies (#[trigger] pre.tile(p)).exposed by {
                assert(post.tile(p).exposed);
            }
        }
    }
}

/// Once a game is won or lost, every click fails with `GameAlreadyOver`
/// and leaves the game as it was.
pub proof fn lemma_finished_game_refuses_clicks(pre: GameView, x: int, y: int, post: GameView, r: Result<(), GameError>)
    requires
        pre.state != GameState::InProgress,
        pre.click_spec(x, y, post, r),
    ensures
        r == Err::<(), GameError>(GameError::GameAlreadyOver),
        post == pre,
{
}

/// Once a game is won or lost, every flag toggle fails with
/// `GameAlreadyOver` and leaves the game as it was.
pub proof fn lemma_finished_game_refuses_flags(pre: GameView, x: int, y: int, post: GameView, r: Result<(), GameError>)
    requires
        pre.state != GameState::InProgress,
        pre.flag_spec(x, y, post, r),
    ensures
        r == Err::<(), GameError>(GameError::GameAlreadyOver),
        post == pre,
{
}

} // verus!
