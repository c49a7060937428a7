use vstd::arithmetic::div_mod::{lemma_fundamental_div_mod, lemma_fundamental_div_mod_converse, lemma_mod_pos_bound};
use vstd::set_lib::lemma_len_subset;
use vstd::prelude::*;

use crate::tile::{Tile, TileValue};

verus! {

/// A cell position (row, column) inside a grid of side `size`.
pub open spec fn in_grid(size: int, p: (int, int)) -> bool {
    0 <= p.0 < size && 0 <= p.1 < size
}

/// Two distinct cells that touch orthogonally or diagonally.
pub open spec fn adjacent(p: (int, int), q: (int, int)) -> bool {
    p != q && p.0 - 1 <= q.0 <= p.0 + 1 && p.1 - 1 <= q.1 <= p.1 + 1
}

/// `p` lies in the 3x3 square centred on `c`.
pub open spec fn near(c: (int, int), p: (int, int)) -> bool {
    c.0 - 1 <= p.0 <= c.0 + 1 && c.1 - 1 <= p.1 <= c.1 + 1
}

/// The cells of the grid outside the 3x3 square centred on `c`.
pub open spec fn cells_outside(size: int, c: (int, int)) -> Set<(int, int)> {
    Set::new(|p: (int, int)| in_grid(size, p) && !near(c, p))
}

/// How many of the rows (or columns) `x - 1`, `x`, `x + 1` lie in `0..size`,
/// for `x` in `0..size`.
pub open spec fn span(x: int, size: int) -> int {
    1 + (if x > 0 { 1int } else { 0int }) + (if x + 1 < size { 1int } else { 0int })
}

/// Every cell of the grid, in row-major order.
pub open spec fn grid_order(size: int) -> Seq<(usize, usize)> {
    Seq::new((size * size) as nat, |i: int| ((i / size) as usize, (i % size) as usize))
}

/// The cell at position `x * size + y` of the row-major order is (x, y).
pub proof fn lemma_grid_order_at(size: int, x: int, y: int)
    requires
        0 <= x < size,
        0 <= y < size,
    ensures
        x * size + y < size * size,
        grid_order(size)[x * size + y] == (x as usize, y as usize),
{
    assert(x * size + y < size * size) by (nonlinear_arith)
        requires
            0 <= x < size,
            0 <= y < size,
    ;
    lemma_fundamental_div_mod_converse(x * size + y, size, x, y);
}

/// The cells of the grid.
pub open spec fn all_cells(size: int) -> Set<(int, int)> {
    Set::new(|p: (int, int)| in_grid(size, p))
}

/// A grid of side `size` has `size * size` cells.
pub proof fn lemma_all_cells(size: int)
    requires
        0 <= size,
        size * size <= usize::MAX,
    ensures
        all_cells(size).finite(),
        all_cells(size).len() == size * size,
{
    let g = grid_order(size);
    assert forall|i: int| 0 <= i < g.len() implies in_grid(size, (#[trigger] g[i].0 as int, g[i].1 as int))
        && pt(g[i]) == (i / size, i % size) by {
        assert(size > 0) by (nonlinear_arith)
            requires
                0 <= i < size * size,
                0 <= size,
        ;
        lemma_fundamental_div_mod(i, size);
        lemma_mod_pos_bound(i, size);
        let q = i / size;
        let r = i % size;
        assert(0 <= q < size) by (nonlinear_arith)
            requires
                i == size * q + r,
                0 <= r < size,
                0 <= i < size * size,
        ;
    }
    assert forall|i: int, j: int| 0 <= i < g.len() && 0 <= j < g.len() && i != j implies #[trigger] g[i] != #[trigger] g[j] by {
        assert(size > 0) by (nonlinear_arith)
            requires
                0 <= i < size * size,
                0 <= size,
        ;
        lemma_fundamental_div_mod(i, size);
        lemma_fundamental_div_mod(j, size);
        assert(pt(g[i]) == (i / size, i % size));
        assert(pt(g[j]) == (j / size, j % size));
    }
    lemma_distinct_mines(size, g);
    assert forall|p: (int, int)| #[trigger] all_cells(size).contains(p) implies valid_mines(size, g).contains(p) by {
        lemma_grid_order_at(size, p.0, p.1);
        assert(size <= size * size) by (nonlinear_arith)
            requires
                0 < size,
        ;
        let k = p.0 * size + p.1;
        assert(g[k] == (p.0 as usize, p.1 as usize));
        assert(g[k].0 as int == p.0 && g[k].1 as int == p.1);
    }
    assert(valid_mines(size, g) =~= all_cells(size));
}

/// A grid of side `size` holds at most `size * size` mines.
pub proof fn lemma_mine_cells_bounded(size: int, t: Seq<Seq<Tile>>)
    requires
        0 <= size,
        size * size <= usize::MAX,
    ensures
        mine_cells(size, t).len() <= size * size,
{
    lemma_all_cells(size);
    lemma_len_subset(mine_cells(size, t), all_cells(size));
}

/// Filtering a sequence with one more element at its end.
pub proof fn lemma_filter_push<A>(s: Seq<A>, a: A, keep: spec_fn(A) -> bool)
    ensures
        s.push(a).filter(keep) == if keep(a) {
            s.filter(keep).push(a)
        } else {
            s.filter(keep)
        },
{
    reveal(Seq::filter);
    assert(s.push(a).drop_last() =~= s);
}

/// Cell `p` comes before cell `q` in row-major order.
pub open spec fn before(p: (int, int), q: (int, int)) -> bool {
    p.0 < q.0 || (p.0 == q.0 && p.1 < q.1)
}

pub open spec fn pt(c: (usize, usize)) -> (int, int) {
    (c.0 as int, c.1 as int)
}

/// The grid is `size` rows of `size` tiles each.
pub open spec fn shaped(size: int, t: Seq<Seq<Tile>>) -> bool {
    t.len() == size && forall|i: int| 0 <= i < size ==> #[trigger] t[i].len() == size
}

pub open spec fn tile_of(t: Seq<Seq<Tile>>, p: (int, int)) -> Tile {
    t[p.0][p.1]
}

/// The rows of a board as sequences of tiles.
pub open spec fn cells(b: Seq<Vec<Tile>>) -> Seq<Seq<Tile>> {
    b.map_values(|r: Vec<Tile>| r@)
}

pub open spec fn mine_at(size: int, t: Seq<Seq<Tile>>, p: (int, int)) -> bool {
    in_grid(size, p) && tile_of(t, p).value is Bomb
}

/// The mines among the (up to eight) neighbours of `p`.
pub open spec fn mines_around(size: int, t: Seq<Seq<Tile>>, p: (int, int)) -> Set<(int, int)> {
    Set::new(|q: (int, int)| adjacent(p, q) && mine_at(size, t, q))
}

/// Every mine of the grid.
pub open spec fn mine_cells(size: int, t: Seq<Seq<Tile>>) -> Set<(int, int)> {
    Set::new(|q: (int, int)| mine_at(size, t, q))
}

/// Every tile that is not a mine shows the exact number of mines around it.
pub open spec fn numbers_exact(size: int, t: Seq<Seq<Tile>>) -> bool {
    forall|p: (int, int)|
        in_grid(size, p) ==> match #[trigger] tile_of(t, p).value {
            TileValue::Bomb => true,
            TileValue::Number(k) => mines_around(size, t, p).finite() && k as int == mines_around(
                size,
                t,
                p,
            ).len(),
        }
}

/// The in-grid cells named by a list of mine coordinates, duplicates merged.
pub open spec fn valid_mines(size: int, locs: Seq<(usize, usize)>) -> Set<(int, int)> {
    Set::new(
        |p: (int, int)|
            in_grid(size, p) && exists|i: int|
                0 <= i < locs.len() && (#[trigger] locs[i]).0 as int == p.0 && locs[i].1 as int == p.1,
    )
}

/// A flood fill passes from `c` to `n`: `c` shows zero, and `n` is an
/// in-grid neighbour that is neither a mine nor flagged.
pub open spec fn spreads(size: int, t: Seq<Seq<Tile>>, c: (int, int), n: (int, int)) -> bool {
    &&& in_grid(size, c)
    &&& tile_of(t, c).value == TileValue::Number(0)
    &&& in_grid(size, n)
    &&& adjacent(c, n)
    &&& !(tile_of(t, n).value is Bomb)
    &&& !tile_of(t, n).flagged
}

/// A set of cells that a flood fill cannot leave.
pub open spec fn closed_region(size: int, t: Seq<Seq<Tile>>, s: Set<(int, int)>) -> bool {
    forall|c: (int, int), n: (int, int)| s.contains(c) && #[trigger] spreads(size, t, c, n) ==> s.contains(n)
}

/// `p` lies in the region that a flood fill from `start` opens: the smallest
/// closed set of cells that holds `start`.
pub open spec fn in_region(size: int, t: Seq<Seq<Tile>>, start: (int, int), p: (int, int)) -> bool {
    forall|s: Set<(int, int)>| #[trigger] closed_region(size, t, s) && s.contains(start) ==> s.contains(p)
}

/// Two grids with mines on the same cells have the same counts around every cell.
pub proof fn lemma_same_mines(size: int, t1: Seq<Seq<Tile>>, t2: Seq<Seq<Tile>>)
    requires
        forall|p: (int, int)|
            in_grid(size, p) ==> (#[trigger] tile_of(t1, p).value is Bomb) == (tile_of(t2, p).value is Bomb),
    ensures
        mine_cells(size, t1) == mine_cells(size, t2),
        forall|p: (int, int)| #[trigger] mines_around(size, t1, p) == mines_around(size, t2, p),
        forall|p: (int, int)| #[trigger] mine_at(size, t1, p) == mine_at(size, t2, p),
{
    assert forall|p: (int, int)| #[trigger] mine_at(size, t1, p) == mine_at(size, t2, p) by {
        if in_grid(size, p) {
            assert((tile_of(t1, p).value is Bomb) == (tile_of(t2, p).value is Bomb));
        }
    }
    assert(mine_cells(size, t1) =~= mine_cells(size, t2));
    assert forall|p: (int, int)| #[trigger] mines_around(size, t1, p) == mines_around(size, t2, p) by {
        assert(mines_around(size, t1, p) =~= mines_around(size, t2, p));
    }
}

/// Adding one coordinate to a list adds its cell, when it lies in the grid.
pub proof fn lemma_valid_mines_push(size: int, locs: Seq<(usize, usize)>, e: (usize, usize))
    ensures
        valid_mines(size, locs.push(e)) == if in_grid(size, (e.0 as int, e.1 as int)) {
            valid_mines(size, locs).insert((e.0 as int, e.1 as int))
        } else {
            valid_mines(size, locs)
        },
{
    let l2 = locs.push(e);
    let ep = (e.0 as int, e.1 as int);
    let rhs = if in_grid(size, ep) {
        valid_mines(size, locs).insert(ep)
    } else {
        valid_mines(size, locs)
    };
    assert forall|p: (int, int)| #[trigger] valid_mines(size, l2).contains(p) implies rhs.contains(p) by {
        let i = choose|i: int| 0 <= i < l2.len() && (#[trigger] l2[i]).0 as int == p.0 && l2[i].1 as int == p.1;
        if i < locs.len() {
            assert(l2[i] == locs[i]);
        }
    }
    assert forall|p: (int, int)| #[trigger] rhs.contains(p) implies valid_mines(size, l2).contains(p) by {
        if p == ep && in_grid(size, ep) {
            assert(l2[locs.len() as int] == e);
        } else {
            let i = choose|i: int| 0 <= i < locs.len() && (#[trigger] locs[i]).0 as int == p.0 && locs[i].1 as int == p.1;
            assert(l2[i] == locs[i]);
        }
    }
    assert(valid_mines(size, l2) =~= rhs);
}

/// A list of distinct in-grid coordinates names as many mines as it has entries.
pub proof fn lemma_distinct_mines(size: int, locs: Seq<(usize, usize)>)
    requires
        locs.no_duplicates(),
        forall|i: int| 0 <= i < locs.len() ==> in_grid(size, (#[trigger] locs[i].0 as int, locs[i].1 as int)),
    ensures
        valid_mines(size, locs).finite(),
        valid_mines(size, locs).len() == locs.len(),
    decreases locs.len(),
{
    if locs.len() == 0 {
        assert(valid_mines(size, locs) =~= Set::empty());
    } else {
        let init = locs.drop_last();
        let e = locs.last();
        assert forall|i: int| 0 <= i < init.len() implies in_grid(size, (#[trigger] init[i].0 as int, init[i].1 as int)) by {
            assert(init[i] == locs[i]);
        }
        lemma_distinct_mines(size, init);
        let ep = (e.0 as int, e.1 as int);
        assert(valid_mines(size, locs) =~= valid_mines(size, init).insert(ep)) by {
            assert(locs[locs.len() - 1] == e);
            assert forall|p: (int, int)| #[trigger] valid_mines(size, locs).contains(p) implies valid_mines(size, init).insert(ep).contains(p) by {
                let i = choose|i: int| 0 <= i < locs.len() && (#[trigger] locs[i]).0 as int == p.0 && locs[i].1 as int == p.1;
                if i < locs.len() - 1 {
                    assert(init[i] == locs[i]);
                }
            }
            assert forall|p: (int, int)| #[trigger] valid_mines(size, init).insert(ep).contains(p) implies valid_mines(size, locs).contains(p) by {
                if p != ep {
                    let i = choose|i: int| 0 <= i < init.len() && (#[trigger] init[i]).0 as int == p.0 && init[i].1 as int == p.1;
                    assert(locs[i] == init[i]);
                } else {
                    assert(locs[locs.len() - 1] == e);
                }
            }
        }
        assert(!valid_mines(size, init).contains(ep)) by {
            if valid_mines(size, init).contains(ep) {
                let i = choose|i: int| 0 <= i < init.len() && (#[trigger] init[i]).0 as int == ep.0 && init[i].1 as int == ep.1;
                assert(locs[i] == locs[locs.len() - 1]);
            }
        }
    }
}

} // verus!
