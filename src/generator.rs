use rand::Rng;
use vstd::prelude::*;

use crate::game::{shift, GameState, GameView, Minesweeper};
use crate::grid::{before, cells_outside, grid_order, lemma_filter_push, lemma_grid_order_at, span, in_grid, in_region, lemma_distinct_mines, near, pt, valid_mines};

verus! {

/// Relies on rand::thread_rng and Rng::gen_range: a number drawn from
/// `0..n`. gen_range panics on an empty range, hence `n > 0`.
#[verifier::external_body]
fn random_index(n: usize) -> (r: usize)
    requires
        n > 0,
    ensures
        r < n,
{
    rand::thread_rng().gen_range(0..n)
}

/// Whether `area` lists cell `p`.
fn area_contains(area: &Vec<(usize, usize)>, p: (usize, usize)) -> (r: bool)
    ensures
        r == exists|k: int| 0 <= k < area@.len() && area@[k] == p,
{
    let mut k: usize = 0;
    while k < area.len()
        invariant
            k <= area@.len(),
            forall|m: int| 0 <= m < k ==> area@[m] != p,
        decreases area.len() - k,
    {
        let q = area[k];
        if q.0 == p.0 && q.1 == p.1 {
            assert(area@[k as int] == p);
            return true;
        }
        k = k + 1;
    }
    false
}

/// Keeps the cells outside the 3x3 square around `f`.
pub open spec fn outside_of(f: (int, int)) -> spec_fn((usize, usize)) -> bool {
    |c: (usize, usize)| !near(f, pt(c))
}

/// Keeps every cell but `f`.
pub open spec fn other_than(f: (int, int)) -> spec_fn((usize, usize)) -> bool {
    |c: (usize, usize)| pt(c) != f
}

/// The cells that may receive a mine, in row-major order: those outside the
/// 3x3 square around the first click `f`, or, when they are fewer than
/// `bomb_count`, every cell but `f`.
pub open spec fn candidates(size: int, bomb_count: int, f: (int, int)) -> Seq<(usize, usize)> {
    if bomb_count <= cells_outside(size, f).len() {
        grid_order(size).filter(outside_of(f))
    } else {
        grid_order(size).filter(other_than(f))
    }
}

/// Drawing without replacement: each index picks a cell of what is left of
/// the pool, and the last cell of the pool takes its place.
pub open spec fn drawn(pool: Seq<(usize, usize)>, draws: Seq<usize>) -> Seq<(usize, usize)>
    decreases draws.len(),
{
    if draws.len() == 0 {
        Seq::empty()
    } else {
        let d = draws[0] as int;
        seq![pool[d]] + drawn(pool.update(d, pool.last()).drop_last(), draws.drop_first())
    }
}

/// Each index is below the number of cells left in a pool of `n` when it is used.
pub open spec fn draws_fit(n: int, draws: Seq<usize>) -> bool {
    draws.len() <= n && forall|k: int| 0 <= k < draws.len() ==> #[trigger] draws[k] < n - k
}

impl Minesweeper {
    /// Creates a game whose mines are placed after the first click is known,
    /// then makes that click. No mine is placed on the clicked cell, and
    /// none next to it while enough other cells remain; the mines are drawn
    /// at random from the remaining cells.
    pub fn new_with_first_click(size: usize, bomb_count: usize, first_click: (usize, usize)) -> (r: Self)
        requires
            first_click.0 < size,
            first_click.1 < size,
            size * size <= usize::MAX,
        ensures
            r@.wf(),
            r@.size == size,
            r@.bomb_count == if bomb_count < size * size {
                bomb_count as int
            } else {
                size * size - 1
            },
            !r@.is_mine(pt(first_click)),
            r@.tile(pt(first_click)).exposed,
            r@.state == if r@.all_cleared() {
                GameState::Won
            } else {
                GameState::InProgress
            },
            bomb_count <= cells_outside(size as int, pt(first_click)).len() ==> forall|p: (int, int)|
                near(pt(first_click), p) ==> !#[trigger] r@.is_mine(p),
            exists|d: Seq<usize>|
                #[trigger] draws_fit(candidates(size as int, bomb_count as int, pt(first_click)).len() as int, d) && forall|p: (int, int)|
                    in_grid(size as int, p) ==> ((#[trigger] r@.tile(p)).value is Bomb) == valid_mines(
                        size as int,
                        drawn(candidates(size as int, bomb_count as int, pt(first_click)), d),
                    ).contains(p),
            exists|pre: GameView|
                #[trigger] pre.click_spec(first_click.0 as int, first_click.1 as int, r@, Ok(())) && pre.wf() && pre.fresh()
                    && pre.size == size,
    {
        let first_x = first_click.0;
        let first_y = first_click.1;
        let ghost f = pt(first_click);
        let ghost strict = bomb_count <= cells_outside(size as int, f).len();
        let all_positions = Self::mine_candidates(size, bomb_count, first_click);
        let ghost pool = all_positions@;
        let n = all_positions.len();
        let count = if bomb_count < n {
            bomb_count
        } else {
            n
        };
        assert(count == if bomb_count < size * size { bomb_count as int } else { size * size - 1 });
        let mut draws: Vec<usize> = Vec::new();
        let mut k: usize = 0;
        while k < count
            invariant
                k <= count,
                count <= n,
                draws@.len() == k,
                forall|m: int| 0 <= m < k ==> #[trigger] draws@[m] < n - m,
            decreases count - k,
        {
            let d = random_index(n - k);
            let ghost before_draws = draws@;
            draws.push(d);
            assert forall|m: int| 0 <= m < k + 1 implies #[trigger] draws@[m] < n - m by {
                if m < k {
                    assert(draws@[m] == before_draws[m]);
                }
            }
            k = k + 1;
        }
        let mine_locations = Self::pick_mines(all_positions, &draws);
        let ghost mines = mine_locations@;
        proof {
            assert forall|i: int| 0 <= i < mines.len() implies in_grid(size as int, pt(#[trigger] mines[i])) && pt(mines[i]) != f
                && (strict ==> !near(f, pt(mines[i]))) by {
                assert(pool.contains(mines[i]));
                let j = choose|j: int| 0 <= j < pool.len() && pool[j] == mines[i];
                assert(in_grid(size as int, pt(pool[j])));
            }
            lemma_distinct_mines(size as int, mines);
            assert(!valid_mines(size as int, mines).contains(f));
            if strict {
                assert forall|p: (int, int)| near(f, p) implies !#[trigger] valid_mines(size as int, mines).contains(p) by {
                    if valid_mines(size as int, mines).contains(p) {
                        let i = choose|i: int|
                            0 <= i < mines.len() && (#[trigger] mines[i]).0 as int == p.0 && mines[i].1 as int == p.1;
                        assert(pt(mines[i]) == p);
                    }
                }
            }
        }
        let mut game = Self::new(size, mine_locations);
        let ghost pre = game@;
        assert(in_region(size as int, pre.tiles, f, f));
        let res = game.click_tile(first_x, first_y);
        // the clicked cell holds no mine, so the click succeeds and cannot lose
        assert(res is Ok);
        assert(pre.click_spec(first_x as int, first_y as int, game@, Ok(())));
        proof {
            assert forall|p: (int, int)| in_grid(size as int, p) implies ((#[trigger] game@.tile(p)).value is Bomb) == valid_mines(
                size as int,
                drawn(candidates(size as int, bomb_count as int, f), draws@),
            ).contains(p) by {
                assert(game@.tile(p).value == pre.tile(p).value);
            }
            assert(draws_fit(candidates(size as int, bomb_count as int, f).len() as int, draws@));
            if strict {
                assert forall|p: (int, int)| near(f, p) implies !#[trigger] game@.is_mine(p) by {
                    assert(!valid_mines(size as int, mines).contains(p));
                    if game@.is_mine(p) {
                        assert(game@.tile(p).value == pre.tile(p).value);
                    }
                }
            }
        }
        game
    }

    /// The cells that may receive a mine when the first click is
    /// `first_click`, in row-major order.
    pub fn mine_candidates(size: usize, bomb_count: usize, first_click: (usize, usize)) -> (r: Vec<(usize, usize)>)
        requires
            first_click.0 < size,
            first_click.1 < size,
            size * size <= usize::MAX,
        ensures
            r@ == candidates(size as int, bomb_count as int, pt(first_click)),
            r@.no_duplicates(),
            r@.len() + 1 <= size * size,
            bomb_count <= cells_outside(size as int, pt(first_click)).len() ==> r@.len() == cells_outside(
                size as int,
                pt(first_click),
            ).len(),
            bomb_count > cells_outside(size as int, pt(first_click)).len() ==> r@.len() + 1 == size * size,
            forall|k: int|
                0 <= k < r@.len() ==> {
                    &&& in_grid(size as int, pt(#[trigger] r@[k]))
                    &&& pt(r@[k]) != pt(first_click)
                    &&& (bomb_count <= cells_outside(size as int, pt(first_click)).len() ==> !near(pt(first_click), pt(r@[k])))
                },
    {
        let ghost f = pt(first_click);
        let forbidden = Self::get_area_around(first_click.0, first_click.1, size);
        let mut all_positions = Self::positions_outside(size, &forbidden, first_click);
        proof {
            let outside = cells_outside(size as int, f);
            lemma_distinct_mines(size as int, all_positions@);
            assert forall|p: (int, int)| #[trigger] outside.contains(p) implies valid_mines(size as int, all_positions@).contains(p) by {
                let k = choose|k: int| 0 <= k < all_positions@.len() && pt(#[trigger] all_positions@[k]) == p;
                assert(all_positions@[k].0 as int == p.0 && all_positions@[k].1 as int == p.1);
            }
            assert forall|p: (int, int)| #[trigger] valid_mines(size as int, all_positions@).contains(p) implies outside.contains(p) by {
                let k = choose|k: int| 0 <= k < all_positions@.len() && (#[trigger] all_positions@[k]).0 as int == p.0 && all_positions@[k].1 as int == p.1;
                assert(pt(all_positions@[k]) == p);
            }
            assert(valid_mines(size as int, all_positions@) =~= outside);
            assert(near(f, f));
        }
        if all_positions.len() < bomb_count {
            all_positions = Self::positions_except(size, first_click);
        }
        all_positions
    }

    /// Draws mines from `pool` without replacement: the k-th index picks a
    /// cell of what is left, and the last cell left takes its place.
    pub fn pick_mines(pool: Vec<(usize, usize)>, draws: &Vec<usize>) -> (r: Vec<(usize, usize)>)
        requires
            draws_fit(pool@.len() as int, draws@),
        ensures
            r@ == drawn(pool@, draws@),
            r@.len() == draws@.len(),
            pool@.no_duplicates() ==> r@.no_duplicates(),
            forall|i: int| 0 <= i < r@.len() ==> pool@.contains(#[trigger] r@[i]),
    {
        let ghost pool0 = pool@;
        let mut pool = pool;
        let mut mines: Vec<(usize, usize)> = Vec::new();
        let mut k: usize = 0;
        assert(draws@.skip(0) =~= draws@);
        assert(mines@ + drawn(pool@, draws@) =~= drawn(pool@, draws@));
        while k < draws.len()
            invariant
                k <= draws@.len(),
                draws_fit(pool0.len() as int, draws@),
                pool@.len() == pool0.len() - k,
                mines@.len() == k,
                drawn(pool0, draws@) == mines@ + drawn(pool@, draws@.skip(k as int)),
                pool0.no_duplicates() ==> pool@.no_duplicates() && mines@.no_duplicates() && forall|i: int, j: int|
                    0 <= i < pool@.len() && 0 <= j < mines@.len() ==> #[trigger] pool@[i] != #[trigger] mines@[j],
                forall|i: int| 0 <= i < mines@.len() ==> pool0.contains(#[trigger] mines@[i]),
                forall|i: int| 0 <= i < pool@.len() ==> pool0.contains(#[trigger] pool@[i]),
            decreases draws.len() - k,
        {
            let index = draws[k];
            assert(draws@[k as int] < pool0.len() - k);
            let ghost before_pool = pool@;
            let ghost before_mines = mines@;
            let pos = pool.swap_remove(index);
            mines.push(pos);
            proof {
                let rest = draws@.skip(k as int);
                let last = before_pool.len() - 1;
                assert(rest[0] == index);
                assert(rest.drop_first() =~= draws@.skip(k + 1));
                assert(pool@ == before_pool.update(index as int, before_pool.last()).drop_last());
                assert(drawn(before_pool, rest) == seq![before_pool[index as int]] + drawn(pool@, rest.drop_first()));
                assert(mines@ =~= before_mines + seq![pos]);
                assert(before_mines + (seq![pos] + drawn(pool@, draws@.skip(k + 1))) =~= mines@ + drawn(pool@, draws@.skip(k + 1)));
                assert forall|j: int| 0 <= j < pool@.len() implies #[trigger] pool@[j] == before_pool[
                    if j == index {
                        last
                    } else {
                        j
                    }
                ] by {}
                assert forall|i: int| 0 <= i < pool@.len() implies pool0.contains(#[trigger] pool@[i]) by {
                    let o = if i == index { last } else { i };
                    assert(pool0.contains(before_pool[o]));
                }
                assert forall|i: int| 0 <= i < mines@.len() implies pool0.contains(#[trigger] mines@[i]) by {
                    if i < k {
                        assert(mines@[i] == before_mines[i]);
                    } else {
                        assert(pool0.contains(before_pool[index as int]));
                    }
                }
                if pool0.no_duplicates() {
                    assert forall|j1: int, j2: int|
                        0 <= j1 < pool@.len() && 0 <= j2 < pool@.len() && j1 != j2 implies #[trigger] pool@[j1]
                        != #[trigger] pool@[j2] by {
                        let o1 = if j1 == index { last } else { j1 };
                        let o2 = if j2 == index { last } else { j2 };
                        assert(before_pool[o1] != before_pool[o2]);
                    }
                    assert forall|j1: int, j2: int|
                        0 <= j1 < mines@.len() && 0 <= j2 < mines@.len() && j1 != j2 implies #[trigger] mines@[j1]
                        != #[trigger] mines@[j2] by {
                        if j1 == k {
                            assert(before_pool[index as int] != before_mines[j2]);
                        } else if j2 == k {
                            assert(before_pool[index as int] != before_mines[j1]);
                        } else {
                            assert(before_mines[j1] != before_mines[j2]);
                        }
                    }
                    assert forall|i: int, j: int|
                        0 <= i < pool@.len() && 0 <= j < mines@.len() implies #[trigger] pool@[i] != #[trigger] mines@[j] by {
                        let o = if i == index { last } else { i };
                        assert(pool@[i] == before_pool[o]);
                        if j == k {
                            assert(before_pool[o] != before_pool[index as int]);
                        } else {
                            assert(before_pool[o] != before_mines[j]);
                        }
                    }
                }
            }
            k = k + 1;
        }
        assert(draws@.skip(k as int) =~= Seq::<usize>::empty());
        assert(mines@ + Seq::<(usize, usize)>::empty() =~= mines@);
        mines
    }

    /// Every cell of the grid that `area` does not list, in row-major order.
    /// `area` lists the first click and every cell next to it.
    fn positions_outside(size: usize, area: &Vec<(usize, usize)>, first: (usize, usize)) -> (r: Vec<(usize, usize)>)
        requires
            first.0 < size,
            first.1 < size,
            size * size <= usize::MAX,
            forall|p: (int, int)|
                in_grid(size as int, p) && near(pt(first), p) ==> exists|k: int| 0 <= k < area@.len() && pt(#[trigger] area@[k]) == p,
            forall|k: int| 0 <= k < area@.len() ==> near(pt(first), pt(#[trigger] area@[k])),
        ensures
            r@.no_duplicates(),
            r@.len() + 1 <= size * size,
            forall|k: int| 0 <= k < r@.len() ==> in_grid(size as int, pt(#[trigger] r@[k])) && !near(pt(first), pt(r@[k])),
            forall|p: (int, int)|
                in_grid(size as int, p) && !near(pt(first), p) ==> exists|k: int| 0 <= k < r@.len() && pt(#[trigger] r@[k]) == p,
            r@ == grid_order(size as int).filter(outside_of(pt(first))),
    {
        let ghost f = pt(first);
        let mut positions: Vec<(usize, usize)> = Vec::new();
        let mut x: usize = 0;
        while x < size
            invariant
                x <= size,
                size * size <= usize::MAX,
                f == pt(first),
                in_grid(size as int, f),
                positions@.no_duplicates(),
                forall|p: (int, int)|
                    in_grid(size as int, p) && near(f, p) ==> exists|k: int| 0 <= k < area@.len() && pt(#[trigger] area@[k]) == p,
                forall|k: int| 0 <= k < area@.len() ==> near(f, pt(#[trigger] area@[k])),
                forall|k: int|
                    0 <= k < positions@.len() ==> in_grid(size as int, pt(#[trigger] positions@[k])) && !near(f, pt(positions@[k]))
                        && before(pt(positions@[k]), (x as int, 0)),
                positions@.len() + (if before(f, (x as int, 0)) { 1int } else { 0int }) <= x * size,
                forall|p: (int, int)|
                    in_grid(size as int, p) && !near(f, p) && p.0 < x ==> exists|k: int|
                        0 <= k < positions@.len() && pt(#[trigger] positions@[k]) == p,
                positions@ == grid_order(size as int).take(x * size).filter(outside_of(f)),
            decreases size - x,
        {
            let mut y: usize = 0;
            assert(x * size + size <= size * size) by (nonlinear_arith)
                requires
                    x < size,
            ;
            while y < size
                invariant
                    x < size,
                    y <= size,
                    x * size + size <= size * size,
                    size * size <= usize::MAX,
                    f == pt(first),
                    in_grid(size as int, f),
                    positions@.no_duplicates(),
                    forall|p: (int, int)|
                        in_grid(size as int, p) && near(f, p) ==> exists|k: int| 0 <= k < area@.len() && pt(#[trigger] area@[k]) == p,
                    forall|k: int| 0 <= k < area@.len() ==> near(f, pt(#[trigger] area@[k])),
                    forall|k: int|
                        0 <= k < positions@.len() ==> in_grid(size as int, pt(#[trigger] positions@[k])) && !near(f, pt(positions@[k]))
                            && before(pt(positions@[k]), (x as int, y as int)),
                    positions@.len() + (if before(f, (x as int, y as int)) { 1int } else { 0int }) <= x * size + y,
                    forall|p: (int, int)|
                        in_grid(size as int, p) && !near(f, p) && before(p, (x as int, y as int)) ==> exists|k: int|
                            0 <= k < positions@.len() && pt(#[trigger] positions@[k]) == p,
                    positions@ == grid_order(size as int).take(x * size + y).filter(outside_of(f)),
                decreases size - y,
            {
                proof {
                    lemma_grid_order_at(size as int, x as int, y as int);
                    let g = grid_order(size as int);
                    assert(g.take(x * size + y + 1) =~= g.take(x * size + y).push((x, y)));
                    lemma_filter_push(g.take(x * size + y), (x, y), outside_of(f));
                }
                let ghost old_positions = positions@;
                if !area_contains(area, (x, y)) {
                    proof {
                        if near(f, (x as int, y as int)) {
                            let k = choose|k: int| 0 <= k < area@.len() && pt(#[trigger] area@[k]) == (x as int, y as int);
                            assert(area@[k] == (x, y));
                        }
                    }
                    positions.push((x, y));
                    proof {
                        assert forall|k: int| 0 <= k < positions@.len() implies in_grid(size as int, pt(#[trigger] positions@[k]))
                            && !near(f, pt(positions@[k])) && before(pt(positions@[k]), (x as int, y as int + 1)) by {
                            if k < old_positions.len() {
                                assert(positions@[k] == old_positions[k]);
                            }
                        }
                        assert forall|k1: int, k2: int|
                            0 <= k1 < positions@.len() && 0 <= k2 < positions@.len() && k1 != k2 implies #[trigger] positions@[k1]
                            != #[trigger] positions@[k2] by {
                            if k1 < old_positions.len() && k2 < old_positions.len() {
                                assert(old_positions[k1] != old_positions[k2]);
                            } else if k1 < old_positions.len() {
                                assert(before(pt(old_positions[k1]), (x as int, y as int)));
                            } else {
                                assert(before(pt(old_positions[k2]), (x as int, y as int)));
                            }
                        }
                        assert forall|p: (int, int)|
                            in_grid(size as int, p) && !near(f, p) && before(p, (x as int, y as int + 1)) implies exists|k: int|
                            0 <= k < positions@.len() && pt(#[trigger] positions@[k]) == p by {
                            if p == (x as int, y as int) {
                                assert(pt(positions@[old_positions.len() as int]) == p);
                            } else {
                                let k = choose|k: int| 0 <= k < old_positions.len() && pt(#[trigger] old_positions[k]) == p;
                                assert(positions@[k] == old_positions[k]);
                            }
                        }
                    }
                } else {
                    proof {
                        assert forall|k: int| 0 <= k < positions@.len() implies in_grid(size as int, pt(#[trigger] positions@[k]))
                            && !near(f, pt(positions@[k])) && before(pt(positions@[k]), (x as int, y as int + 1)) by {}
                        assert forall|p: (int, int)|
                            in_grid(size as int, p) && !near(f, p) && before(p, (x as int, y as int + 1)) implies exists|k: int|
                            0 <= k < positions@.len() && pt(#[trigger] positions@[k]) == p by {
                            if p == (x as int, y as int) {
                                let k = choose|k: int| 0 <= k < area@.len() && area@[k] == (x, y);
                                assert(near(f, pt(area@[k])));
                            }
                        }
                    }
                }
                y = y + 1;
            }
            assert((x + 1) * size == x * size + size) by (nonlinear_arith);
            assert forall|k: int| 0 <= k < positions@.len() implies in_grid(size as int, pt(#[trigger] positions@[k]))
                && !near(f, pt(positions@[k])) && before(pt(positions@[k]), (x as int + 1, 0)) by {}
            assert forall|p: (int, int)| in_grid(size as int, p) && !near(f, p) && p.0 < x + 1 implies exists|k: int|
                0 <= k < positions@.len() && pt(#[trigger] positions@[k]) == p by {
                assert(before(p, (x as int, y as int)));
            }
            assert(x * size + size == (x + 1) * size);
            x = x + 1;
        }
        assert(grid_order(size as int).take(size * size) =~= grid_order(size as int));
        positions
    }

    /// Every cell of the grid but the first click, in row-major order.
    fn positions_except(size: usize, first: (usize, usize)) -> (r: Vec<(usize, usize)>)
        requires
            first.0 < size,
            first.1 < size,
            size * size <= usize::MAX,
        ensures
            r@.no_duplicates(),
            r@.len() + 1 == size * size,
            forall|k: int| 0 <= k < r@.len() ==> in_grid(size as int, pt(#[trigger] r@[k])) && pt(r@[k]) != pt(first),
            r@ == grid_order(size as int).filter(other_than(pt(first))),
    {
        let ghost f = pt(first);
        let mut positions: Vec<(usize, usize)> = Vec::new();
        let mut x: usize = 0;
        while x < size
            invariant
                x <= size,
                size * size <= usize::MAX,
                f == pt(first),
                in_grid(size as int, f),
                positions@.no_duplicates(),
                forall|k: int|
                    0 <= k < positions@.len() ==> in_grid(size as int, pt(#[trigger] positions@[k])) && pt(positions@[k]) != f
                        && before(pt(positions@[k]), (x as int, 0)),
                positions@.len() + (if before(f, (x as int, 0)) { 1int } else { 0int }) == x * size,
                positions@ == grid_order(size as int).take(x * size).filter(other_than(f)),
            decreases size - x,
        {
            let mut y: usize = 0;
            assert(x * size + size <= size * size) by (nonlinear_arith)
                requires
                    x < size,
            ;
            while y < size
                invariant
                    x < size,
                    y <= size,
                    x * size + size <= size * size,
                    size * size <= usize::MAX,
                    f == pt(first),
                    in_grid(size as int, f),
                    positions@.no_duplicates(),
                    forall|k: int|
                        0 <= k < positions@.len() ==> in_grid(size as int, pt(#[trigger] positions@[k])) && pt(positions@[k]) != f
                            && before(pt(positions@[k]), (x as int, y as int)),
                    positions@.len() + (if before(f, (x as int, y as int)) { 1int } else { 0int }) == x * size + y,
                    positions@ == grid_order(size as int).take(x * size + y).filter(other_than(f)),
                decreases size - y,
            {
                proof {
                    lemma_grid_order_at(size as int, x as int, y as int);
                    let g = grid_order(size as int);
                    assert(g.take(x * size + y + 1) =~= g.take(x * size + y).push((x, y)));
                    lemma_filter_push(g.take(x * size + y), (x, y), other_than(f));
                }
                let ghost old_positions = positions@;
                if x != first.0 || y != first.1 {
                    positions.push((x, y));
                    proof {
                        assert forall|k: int| 0 <= k < positions@.len() implies in_grid(size as int, pt(#[trigger] positions@[k]))
                            && pt(positions@[k]) != f && before(pt(positions@[k]), (x as int, y as int + 1)) by {
                            if k < old_positions.len() {
                                assert(positions@[k] == old_positions[k]);
                            }
                        }
                        assert forall|k1: int, k2: int|
                            0 <= k1 < positions@.len() && 0 <= k2 < positions@.len() && k1 != k2 implies #[trigger] positions@[k1]
                            != #[trigger] positions@[k2] by {
                            if k1 < old_positions.len() && k2 < old_positions.len() {
                                assert(old_positions[k1] != old_positions[k2]);
                            } else if k1 < old_positions.len() {
                                assert(before(pt(old_positions[k1]), (x as int, y as int)));
                            } else {
                                assert(before(pt(old_positions[k2]), (x as int, y as int)));
                            }
                        }
                    }
                } else {
                    proof {
                        assert forall|k: int| 0 <= k < positions@.len() implies in_grid(size as int, pt(#[trigger] positions@[k]))
                            && pt(positions@[k]) != f && before(pt(positions@[k]), (x as int, y as int + 1)) by {}
                    }
                }
                y = y + 1;
            }
            assert((x + 1) * size == x * size + size) by (nonlinear_arith);
            assert forall|k: int| 0 <= k < positions@.len() implies in_grid(size as int, pt(#[trigger] positions@[k]))
                && pt(positions@[k]) != f && before(pt(positions@[k]), (x as int + 1, 0)) by {}
            assert(x * size + size == (x + 1) * size);
            x = x + 1;
        }
        assert(grid_order(size as int).take(size * size) =~= grid_order(size as int));
        positions
    }

    /// The cells of the 3x3 square around (x, y) that lie in the grid, each
    /// once, in row-major order.
    fn get_area_around(x: usize, y: usize, size: usize) -> (r: Vec<(usize, usize)>)
        requires
            x < size,
            y < size,
        ensures
            forall|k: int|
                0 <= k < r@.len() ==> in_grid(size as int, pt(#[trigger] r@[k])) && near((x as int, y as int), pt(r@[k])),
            forall|p: (int, int)|
                in_grid(size as int, p) && near((x as int, y as int), p) ==> exists|k: int|
                    0 <= k < r@.len() && pt(#[trigger] r@[k]) == p,
            forall|a: int, b: int| 0 <= a < b < r@.len() ==> before(pt(#[trigger] r@[a]), pt(#[trigger] r@[b])),
            r@.no_duplicates(),
            r@.len() == span(x as int, size as int) * span(y as int, size as int),
    {
        let ghost c = (x as int, y as int);
        let ghost sy = span(y as int, size as int);
        let mut positions: Vec<(usize, usize)> = Vec::new();
        let mut i: usize = 0;
        assert(0 * sy == 0);
        while i < 3
            invariant
                i <= 3,
                x < size,
                y < size,
                c == (x as int, y as int),
                sy == span(y as int, size as int),
                forall|k: int|
                    0 <= k < positions@.len() ==> in_grid(size as int, pt(#[trigger] positions@[k])) && near(c, pt(positions@[k]))
                        && positions@[k].0 < c.0 - 1 + i,
                forall|p: (int, int)|
                    in_grid(size as int, p) && near(c, p) && p.0 < c.0 - 1 + i ==> exists|k: int|
                        0 <= k < positions@.len() && pt(#[trigger] positions@[k]) == p,
                forall|a: int, b: int|
                    0 <= a < b < positions@.len() ==> before(pt(#[trigger] positions@[a]), pt(#[trigger] positions@[b])),
                positions@.len() == span_upto(x as int, size as int, i as int) * sy,
            decreases 3 - i,
        {
            let mut j: usize = 0;
            let ghost row_valid = 0 <= x + i - 1 < size;
            let ghost base = positions@.len();
            while j < 3
                invariant
                    i < 3,
                    j <= 3,
                    x < size,
                    y < size,
                    c == (x as int, y as int),
                    sy == span(y as int, size as int),
                    row_valid == (0 <= x + i - 1 < size),
                    base == span_upto(x as int, size as int, i as int) * sy,
                    forall|k: int|
                        0 <= k < positions@.len() ==> in_grid(size as int, pt(#[trigger] positions@[k])) && near(c, pt(positions@[k]))
                            && before(pt(positions@[k]), (c.0 - 1 + i, c.1 - 1 + j)),
                    forall|p: (int, int)|
                        in_grid(size as int, p) && near(c, p) && (p.0 < c.0 - 1 + i || (p.0 == c.0 - 1 + i && p.1 < c.1 - 1 + j)) ==> exists|k: int|
                            0 <= k < positions@.len() && pt(#[trigger] positions@[k]) == p,
                    forall|a: int, b: int|
                        0 <= a < b < positions@.len() ==> before(pt(#[trigger] positions@[a]), pt(#[trigger] positions@[b])),
                    positions@.len() == base + if row_valid { span_upto(y as int, size as int, j as int) } else { 0 },
                decreases 3 - j,
            {
                let ghost old_positions = positions@;
                match (shift(x, i, size), shift(y, j, size)) {
                    (Some(a), Some(b)) => {
                        positions.push((a, b));
                    },
                    _ => {},
                }
                proof {
                    assert forall|p: (int, int)|
                        in_grid(size as int, p) && near(c, p) && (p.0 < c.0 - 1 + i || (p.0 == c.0 - 1 + i && p.1 < c.1 - 1 + j + 1)) implies exists|k: int|
                        0 <= k < positions@.len() && pt(#[trigger] positions@[k]) == p by {
                        if p.0 == c.0 - 1 + i && p.1 == c.1 - 1 + j {
                            assert(pt(positions@[old_positions.len() as int]) == p);
                        } else {
                            let k = choose|k: int| 0 <= k < old_positions.len() && pt(#[trigger] old_positions[k]) == p;
                            assert(positions@[k] == old_positions[k]);
                        }
                    }
                    assert forall|k: int| 0 <= k < positions@.len() implies in_grid(size as int, pt(#[trigger] positions@[k]))
                        && near(c, pt(positions@[k])) && before(pt(positions@[k]), (c.0 - 1 + i, c.1 - 1 + j + 1)) by {
                        if k < old_positions.len() {
                            assert(positions@[k] == old_positions[k]);
                        }
                    }
                    assert forall|a: int, b: int| 0 <= a < b < positions@.len() implies before(
                        pt(#[trigger] positions@[a]),
                        pt(#[trigger] positions@[b]),
                    ) by {
                        assert(positions@[a] == old_positions[a]);
                        if b < old_positions.len() {
                            assert(positions@[b] == old_positions[b]);
                        }
                    }
                }
                j = j + 1;
            }
            proof {
                let u = span_upto(x as int, size as int, i as int);
                assert((u + 1) * sy == u * sy + sy) by (nonlinear_arith);
                assert forall|k: int| 0 <= k < positions@.len() implies in_grid(size as int, pt(#[trigger] positions@[k]))
                    && near(c, pt(positions@[k])) && positions@[k].0 < c.0 - 1 + i + 1 by {
                    assert(before(pt(positions@[k]), (c.0 - 1 + i, c.1 + 2)));
                }
            }
            i = i + 1;
        }
        proof {
            assert forall|a: int, b: int| 0 <= a < positions@.len() && 0 <= b < positions@.len() && a != b implies #[trigger] positions@[a]
                != #[trigger] positions@[b] by {
                if a < b {
                    assert(before(pt(positions@[a]), pt(positions@[b])));
                } else {
                    assert(before(pt(positions@[b]), pt(positions@[a])));
                }
            }
        }
        positions
    }
}

/// How many of the offsets `0..i` (standing for -1, 0, +1) keep `x` inside `0..size`.
spec fn span_upto(x: int, size: int, i: int) -> int {
    (if i > 0 && x > 0 { 1int } else { 0int }) + (if i > 1 { 1int } else { 0int }) + (if i > 2 && x + 1 < size {
        1int
    } else {
        0int
    })
}

} // verus!
