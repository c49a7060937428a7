use vstd::prelude::*;

use crate::grid::{
    adjacent, cells, closed_region, in_grid, in_region, lemma_mine_cells_bounded, lemma_same_mines, lemma_valid_mines_push, mine_at,
    mine_cells, mines_around, numbers_exact, pt, shaped, spreads, tile_of, valid_mines,
};
use crate::tile::{blank_tile, Tile, TileValue};

verus! {

/// Where a game stands. `Won` and `Lost` are final.
#[derive(Debug, Clone, Copy, PartialEq, Eq, Structural)]
pub enum GameState {
    InProgress,
    Won,
    Lost,
}

/// Why a click or a flag was refused. A refused action changes nothing.
#[derive(Debug, Clone, Copy, PartialEq, Eq, Structural)]
pub enum GameError {
    GameAlreadyOver,
    OutOfBounds,
    TileUnavailable,
    TileAlreadyExposed,
}

/// The mathematical state of a game.
pub struct GameView {
    pub size: int,
    pub tiles: Seq<Seq<Tile>>,
    pub state: GameState,
    pub bomb_count: int,
}

impl GameView {
    pub open spec fn tile(self, p: (int, int)) -> Tile {
        tile_of(self.tiles, p)
    }

    pub open spec fn is_mine(self, p: (int, int)) -> bool {
        mine_at(self.size, self.tiles, p)
    }

    /// A game as it starts: in progress, nothing exposed, nothing flagged.
    pub open spec fn fresh(self) -> bool {
        &&& self.state == GameState::InProgress
        &&& forall|p: (int, int)| in_grid(self.size, p) ==> !(#[trigger] self.tile(p)).exposed && !self.tile(p).flagged
    }

    /// Every tile that is not a mine is exposed.
    pub open spec fn all_cleared(self) -> bool {
        forall|p: (int, int)|
            in_grid(self.size, p) && !(self.tile(p).value is Bomb) ==> (#[trigger] self.tile(p)).exposed
    }

    pub open spec fn all_mines_exposed(self) -> bool {
        forall|p: (int, int)|
            in_grid(self.size, p) && (self.tile(p).value is Bomb) ==> (#[trigger] self.tile(p)).exposed
    }

    pub open spec fn flagged_cells(self) -> Set<(int, int)> {
        Set::new(|p: (int, int)| in_grid(self.size, p) && self.tile(p).flagged)
    }

    pub open spec fn exposed_cells(self) -> Set<(int, int)> {
        Set::new(|p: (int, int)| in_grid(self.size, p) && self.tile(p).exposed)
    }

    /// The cells that a successful click on `c` exposes, besides those
    /// already exposed: every mine when `c` holds one, the flood region of
    /// `c` when it shows zero, `c` alone otherwise.
    pub open spec fn revealed_by_click(self, c: (int, int), p: (int, int)) -> bool {
        match self.tile(c).value {
            TileValue::Bomb => self.is_mine(p),
            TileValue::Number(k) => if k == 0 {
                in_region(self.size, self.tiles, c, p)
            } else {
                p == c
            },
        }
    }

    /// What `click_tile(x, y)` does: result `r`, state `post` afterwards.
    pub open spec fn click_spec(self, x: int, y: int, post: GameView, r: Result<(), GameError>) -> bool {
        if self.state != GameState::InProgress {
            r == Err::<(), GameError>(GameError::GameAlreadyOver) && post == self
        } else if !in_grid(self.size, (x, y)) {
            r == Err::<(), GameError>(GameError::OutOfBounds) && post == self
        } else if self.tile((x, y)).exposed || self.tile((x, y)).flagged {
            r == Err::<(), GameError>(GameError::TileUnavailable) && post == self
        } else {
            &&& r == Ok::<(), GameError>(())
            &&& post.size == self.size
            &&& post.bomb_count == self.bomb_count
            &&& shaped(post.size, post.tiles)
            &&& forall|p: (int, int)|
                in_grid(self.size, p) ==> #[trigger] post.tile(p) == (Tile {
                    exposed: self.tile(p).exposed || self.revealed_by_click((x, y), p),
                    ..self.tile(p)
                })
            &&& post.state == if self.tile((x, y)).value is Bomb {
                GameState::Lost
            } else if post.all_cleared() {
                GameState::Won
            } else {
                GameState::InProgress
            }
        }
    }

    /// What `toggle_flag(x, y)` does: result `r`, state `post` afterwards.
    pub open spec fn flag_spec(self, x: int, y: int, post: GameView, r: Result<(), GameError>) -> bool {
        if self.state != GameState::InProgress {
            r == Err::<(), GameError>(GameError::GameAlreadyOver) && post == self
        } else if !in_grid(self.size, (x, y)) {
            r == Err::<(), GameError>(GameError::OutOfBounds) && post == self
        } else if self.tile((x, y)).exposed {
            r == Err::<(), GameError>(GameError::TileAlreadyExposed) && post == self
        } else {
            &&& r == Ok::<(), GameError>(())
            &&& post.size == self.size
            &&& post.bomb_count == self.bomb_count
            &&& post.state == self.state
            &&& shaped(post.size, post.tiles)
            &&& forall|p: (int, int)|
                in_grid(self.size, p) ==> #[trigger] post.tile(p) == if p == (x, y) {
                    Tile { flagged: !self.tile(p).flagged, ..self.tile(p) }
                } else {
                    self.tile(p)
                }
        }
    }

    /// The board invariant: a square grid whose numbers count the mines
    /// around them, whose mine count is exact, and whose final states agree
    /// with what is exposed.
    pub open spec fn wf(self) -> bool {
        &&& 0 <= self.size
        &&& self.size * self.size <= usize::MAX
        &&& shaped(self.size, self.tiles)
        &&& numbers_exact(self.size, self.tiles)
        &&& mine_cells(self.size, self.tiles).finite()
        &&& self.bomb_count == mine_cells(self.size, self.tiles).len()
        &&& (self.state == GameState::Won ==> self.all_cleared())
        &&& (self.state == GameState::Lost ==> self.all_mines_exposed())
    }
}

/// A game: the board of tiles and where the game stands.
pub struct Minesweeper {
    board: Vec<Vec<Tile>>,
    game_state: GameState,
    size: usize,
    bomb_count: usize,
}

impl View for Minesweeper {
    type V = GameView;

    closed spec fn view(&self) -> GameView {
        GameView {
            size: self.size as int,
            tiles: cells(self.board@),
            state: self.game_state,
            bomb_count: self.bomb_count as int,
        }
    }
}

/// The neighbour of coordinate `x` at offset `i - 1`, when it lies in `0..size`.
pub(crate) fn shift(x: usize, i: usize, size: usize) -> (r: Option<usize>)
    requires
        x < size,
        i < 3,
    ensures
        match r {
            Some(a) => a == x + i - 1 && a < size,
            None => !(0 <= x + i - 1 < size),
        },
{
    if i == 0 {
        if x >= 1 {
            Some(x - 1)
        } else {
            None
        }
    } else if i == 1 {
        Some(x)
    } else if x + 1 < size {
        Some(x + 1)
    } else {
        None
    }
}

/// Writes tile `t` at cell (a, b) of a square board.
fn put_tile(board: &mut Vec<Vec<Tile>>, size: usize, a: usize, b: usize, t: Tile)
    requires
        shaped(size as int, cells(old(board)@)),
        a < size,
        b < size,
    ensures
        shaped(size as int, cells(final(board)@)),
        forall|p: (int, int)|
            in_grid(size as int, p) ==> #[trigger] tile_of(cells(final(board)@), p) == if p == (a as int, b as int) {
                t
            } else {
                tile_of(cells(old(board)@), p)
            },
{
    let ghost before = cells(board@);
    assert(before[a as int] == board@[a as int]@);
    board[a][b] = t;
    assert forall|k: int| 0 <= k < size implies #[trigger] cells(board@)[k] == if k == a {
        before[k].update(b as int, t)
    } else {
        before[k]
    } by {
        assert(cells(board@)[k] == board@[k]@);
    }
}

spec fn selected(t: Tile, flagged: bool) -> bool {
    if flagged {
        t.flagged
    } else {
        t.exposed
    }
}

spec fn marked(v: Seq<Vec<bool>>, p: (int, int)) -> bool {
    v[p.0]@[p.1]
}

spec fn marks_shaped(size: int, v: Seq<Vec<bool>>) -> bool {
    v.len() == size && forall|i: int| 0 <= i < size ==> #[trigger] v[i]@.len() == size
}

/// A grid of unset marks, with the set of its cells.
fn new_marks(size: usize) -> (r: (Vec<Vec<bool>>, Ghost<Set<(int, int)>>))
    ensures
        marks_shaped(size as int, r.0@),
        forall|p: (int, int)| in_grid(size as int, p) ==> !#[trigger] marked(r.0@, p),
        r.1@.finite(),
        forall|p: (int, int)| #[trigger] r.1@.contains(p) == in_grid(size as int, p),
{
    let mut v: Vec<Vec<bool>> = Vec::new();
    let ghost mut all: Set<(int, int)> = Set::empty();
    let mut i: usize = 0;
    assert(all =~= Set::new(|p: (int, int)| 0 <= p.0 < 0 && 0 <= p.1 < size));
    while i < size
        invariant
            i <= size,
            v@.len() == i,
            forall|k: int| 0 <= k < i ==> (#[trigger] v@[k])@.len() == size,
            forall|k: int, j: int| 0 <= k < i && 0 <= j < size ==> !#[trigger] v@[k]@[j],
            all.finite(),
            all == Set::new(|p: (int, int)| 0 <= p.0 < i && 0 <= p.1 < size),
        decreases size - i,
    {
        let mut row: Vec<bool> = Vec::new();
        let mut j: usize = 0;
        assert(all =~= Set::new(|p: (int, int)| (0 <= p.0 < i && 0 <= p.1 < size) || (p.0 == i && 0 <= p.1 < 0)));
        while j < size
            invariant
                i < size,
                j <= size,
                row@.len() == j,
                forall|k: int| 0 <= k < j ==> !#[trigger] row@[k],
                all.finite(),
                all == Set::new(|p: (int, int)| (0 <= p.0 < i && 0 <= p.1 < size) || (p.0 == i && 0 <= p.1 < j)),
            decreases size - j,
        {
            row.push(false);
            proof {
                all = all.insert((i as int, j as int));
            }
            assert(all =~= Set::new(|p: (int, int)| (0 <= p.0 < i && 0 <= p.1 < size) || (p.0 == i && 0 <= p.1 < j + 1)));
            j = j + 1;
        }
        v.push(row);
        assert(all =~= Set::new(|p: (int, int)| 0 <= p.0 < i + 1 && 0 <= p.1 < size));
        i = i + 1;
    }
    assert(all =~= Set::new(|p: (int, int)| in_grid(size as int, p)));
    (v, Ghost(all))
}

/// Sets the mark of cell (a, b).
fn put_mark(v: &mut Vec<Vec<bool>>, size: usize, a: usize, b: usize)
    requires
        marks_shaped(size as int, old(v)@),
        a < size,
        b < size,
    ensures
        marks_shaped(size as int, final(v)@),
        forall|p: (int, int)|
            in_grid(size as int, p) ==> #[trigger] marked(final(v)@, p) == (p == (a as int, b as int) || marked(old(v)@, p)),
{
    v[a][b] = true;
}

/// The invariant of the flood fill. `order` is its work queue: the cells
/// that show zero in the order they were reached; those before `head` have
/// been expanded. A cell is exposed by the fill exactly when it is marked.
spec fn fill_inv(
    sz: int,
    t0: Seq<Seq<Tile>>,
    t: Seq<Seq<Tile>>,
    v: Seq<Vec<bool>>,
    order: Seq<(usize, usize)>,
    head: int,
    unseen: Set<(int, int)>,
    s: (int, int),
) -> bool {
    &&& shaped(sz, t)
    &&& marks_shaped(sz, v)
    &&& in_grid(sz, s)
    &&& marked(v, s)
    &&& 0 <= head <= order.len()
    &&& unseen.finite()
    &&& forall|p: (int, int)| #[trigger] unseen.contains(p) == (in_grid(sz, p) && !marked(v, p))
    &&& forall|p: (int, int)|
        in_grid(sz, p) ==> #[trigger] tile_of(t, p) == (Tile {
            exposed: tile_of(t0, p).exposed || marked(v, p),
            ..tile_of(t0, p)
        })
    &&& forall|p: (int, int)| in_grid(sz, p) && #[trigger] marked(v, p) ==> in_region(sz, t0, s, p)
    &&& forall|k: int|
        0 <= k < order.len() ==> {
            &&& in_grid(sz, pt(#[trigger] order[k]))
            &&& marked(v, pt(order[k]))
            &&& tile_of(t0, pt(order[k])).value == TileValue::Number(0)
        }
    &&& forall|p: (int, int)|
        in_grid(sz, p) && #[trigger] marked(v, p) && tile_of(t0, p).value == TileValue::Number(0) ==> exists|k: int|
            0 <= k < order.len() && pt(#[trigger] order[k]) == p
    &&& forall|k: int, n: (int, int)|
        0 <= k < head && #[trigger] spreads(sz, t0, pt(order[k]), n) ==> marked(v, n)
    &&& order.no_duplicates()
}

/// A change that only exposes or flags tiles keeps the board invariant,
/// when the new state agrees with what is exposed.
proof fn lemma_values_kept(pre: GameView, post: GameView)
    requires
        pre.wf(),
        post.size == pre.size,
        post.bomb_count == pre.bomb_count,
        shaped(post.size, post.tiles),
        forall|p: (int, int)| in_grid(pre.size, p) ==> (#[trigger] post.tile(p)).value == pre.tile(p).value,
        post.state == GameState::Won ==> post.all_cleared(),
        post.state == GameState::Lost ==> post.all_mines_exposed(),
    ensures
        post.wf(),
{
    assert forall|p: (int, int)| in_grid(pre.size, p) implies (#[trigger] tile_of(post.tiles, p).value is Bomb) == (tile_of(pre.tiles, p).value is Bomb) by {
        assert(post.tile(p).value == pre.tile(p).value);
    }
    lemma_same_mines(pre.size, post.tiles, pre.tiles);
    assert forall|p: (int, int)| in_grid(post.size, p) implies match #[trigger] tile_of(post.tiles, p).value {
        TileValue::Bomb => true,
        TileValue::Number(k) => mines_around(post.size, post.tiles, p).finite() && k as int == mines_around(post.size, post.tiles, p).len(),
    } by {
        assert(post.tile(p).value == pre.tile(p).value);
        assert(mines_around(post.size, post.tiles, p) == mines_around(pre.size, pre.tiles, p));
    }
}

impl Minesweeper {
    /// Exposes every mine and leaves every other tile as it was.
    fn expose_all_bombs(&mut self)
        requires
            shaped(old(self)@.size, old(self)@.tiles),
        ensures
            final(self)@.size == old(self)@.size,
            final(self)@.bomb_count == old(self)@.bomb_count,
            final(self)@.state == old(self)@.state,
            shaped(final(self)@.size, final(self)@.tiles),
            forall|p: (int, int)|
                in_grid(old(self)@.size, p) ==> #[trigger] final(self)@.tile(p) == (Tile {
                    exposed: old(self)@.tile(p).exposed || old(self)@.tile(p).value is Bomb,
                    ..old(self)@.tile(p)
                }),
    {
        let size = self.size;
        let ghost sz = size as int;
        let ghost t0 = self@.tiles;
        let mut x: usize = 0;
        while x < size
            invariant
                x <= size,
                sz == size as int,
                self.size == size,
                self.game_state == old(self).game_state,
                self.bomb_count == old(self).bomb_count,
                t0 == old(self)@.tiles,
                shaped(sz, self@.tiles),
                forall|p: (int, int)|
                    in_grid(sz, p) ==> #[trigger] tile_of(self@.tiles, p) == (Tile {
                        exposed: tile_of(t0, p).exposed || (p.0 < x && tile_of(t0, p).value is Bomb),
                        ..tile_of(t0, p)
                    }),
            decreases size - x,
        {
            let mut y: usize = 0;
            while y < size
                invariant
                    x < size,
                    y <= size,
                    sz == size as int,
                    self.size == size,
                    self.game_state == old(self).game_state,
                    self.bomb_count == old(self).bomb_count,
                    t0 == old(self)@.tiles,
                    shaped(sz, self@.tiles),
                    forall|p: (int, int)|
                        in_grid(sz, p) ==> #[trigger] tile_of(self@.tiles, p) == (Tile {
                            exposed: tile_of(t0, p).exposed || ((p.0 < x || (p.0 == x && p.1 < y)) && tile_of(t0, p).value is Bomb),
                            ..tile_of(t0, p)
                        }),
                decreases size - y,
            {
                assert(cells(self.board@)[x as int] == self.board@[x as int]@);
                let tl = self.board[x][y];
                if tl.is_bomb() {
                    let mut nt = tl;
                    nt.exposed = true;
                    put_tile(&mut self.board, size, x, y, nt);
                }
                y = y + 1;
            }
            x = x + 1;
        }
    }

    /// Sets the state to `Won` when no tile but the mines is hidden.
    fn check_win_condition(&mut self)
        requires
            shaped(old(self)@.size, old(self)@.tiles),
        ensures
            final(self)@.size == old(self)@.size,
            final(self)@.bomb_count == old(self)@.bomb_count,
            final(self)@.tiles == old(self)@.tiles,
            final(self)@.state == if old(self)@.all_cleared() {
                GameState::Won
            } else {
                old(self)@.state
            },
    {
        let size = self.size;
        let ghost sz = size as int;
        let mut cleared = true;
        let mut x: usize = 0;
        while x < size
            invariant
                x <= size,
                sz == size as int,
                self.size == size,
                shaped(sz, self@.tiles),
                cleared == forall|p: (int, int)|
                    in_grid(sz, p) && p.0 < x && !(self@.tile(p).value is Bomb) ==> (#[trigger] self@.tile(p)).exposed,
            decreases size - x,
        {
            let mut y: usize = 0;
            while y < size
                invariant
                    x < size,
                    y <= size,
                    sz == size as int,
                    self.size == size,
                    shaped(sz, self@.tiles),
                    cleared == forall|p: (int, int)|
                        in_grid(sz, p) && (p.0 < x || (p.0 == x && p.1 < y)) && !(self@.tile(p).value is Bomb) ==> (#[trigger] self@.tile(p)).exposed,
                decreases size - y,
            {
                assert(cells(self.board@)[x as int] == self.board@[x as int]@);
                let tl = &self.board[x][y];
                if !tl.is_bomb() && !tl.exposed {
                    assert(self@.tile((x as int, y as int)) == *tl);
                    cleared = false;
                }
                y = y + 1;
            }
            x = x + 1;
        }
        if cleared {
            self.game_state = GameState::Won;
        }
    }

    /// Exposes the flood region of the zero tile at (sx, sy): a breadth-first
    /// walk that passes from zero tiles to their neighbours that are neither
    /// mines nor flagged, and visits each cell at most once.
    fn flood_fill(&mut self, sx: usize, sy: usize)
        requires
            old(self)@.wf(),
            in_grid(old(self)@.size, (sx as int, sy as int)),
            old(self)@.tile((sx as int, sy as int)).value == TileValue::Number(0),
            !old(self)@.tile((sx as int, sy as int)).flagged,
        ensures
            final(self)@.size == old(self)@.size,
            final(self)@.bomb_count == old(self)@.bomb_count,
            final(self)@.state == old(self)@.state,
            shaped(final(self)@.size, final(self)@.tiles),
            forall|p: (int, int)|
                in_grid(old(self)@.size, p) ==> #[trigger] final(self)@.tile(p) == (Tile {
                    exposed: old(self)@.tile(p).exposed || in_region(old(self)@.size, old(self)@.tiles, (sx as int, sy as int), p),
                    ..old(self)@.tile(p)
                }),
    {
        let size = self.size;
        let ghost sz = size as int;
        let ghost t0 = self@.tiles;
        let ghost s = (sx as int, sy as int);
        let ghost st0 = self.game_state;
        let ghost bc0 = self.bomb_count;
        let (mut visited, Ghost(all)) = new_marks(size);
        let ghost mut unseen = all;
        put_mark(&mut visited, size, sx, sy);
        proof {
            unseen = unseen.remove(s);
        }
        assert(cells(self.board@)[sx as int] == self.board@[sx as int]@);
        let mut st = self.board[sx][sy];
        st.exposed = true;
        put_tile(&mut self.board, size, sx, sy, st);
        let mut order: Vec<(usize, usize)> = Vec::new();
        order.push((sx, sy));
        let mut head: usize = 0;
        proof {
            assert forall|p: (int, int)| in_grid(sz, p) && #[trigger] marked(visited@, p) implies in_region(sz, t0, s, p) by {
                assert(p == s);
            }
            assert forall|p: (int, int)|
                in_grid(sz, p) && #[trigger] marked(visited@, p) && tile_of(t0, p).value == TileValue::Number(0) implies exists|k: int|
                0 <= k < order@.len() && pt(#[trigger] order@[k]) == p by {
                assert(pt(order@[0]) == p);
            }
        }
        while head < order.len()
            invariant
                sz == size as int,
                self.size == size,
                self.game_state == st0,
                self.bomb_count == bc0,
                in_grid(sz, s),
                fill_inv(sz, t0, cells(self.board@), visited@, order@, head as int, unseen, s),
            decreases 2 * unseen.len() + order@.len() - head,
        {
            let c = order[head];
            let cx = c.0;
            let cy = c.1;
            let ghost cp = pt(c);
            let ghost m0 = 2 * unseen.len() + order@.len();
            assert(in_grid(sz, pt(order@[head as int])));
            let mut i: usize = 0;
            while i < 3
                invariant
                    sz == size as int,
                    self.size == size,
                    self.game_state == st0,
                    self.bomb_count == bc0,
                    in_grid(sz, s),
                    head < order@.len(),
                    order@[head as int] == c,
                    cp == pt(c),
                    c == (cx, cy),
                    cx < size,
                    cy < size,
                    i <= 3,
                    fill_inv(sz, t0, cells(self.board@), visited@, order@, head as int, unseen, s),
                    2 * unseen.len() + order@.len() <= m0,
                    forall|n: (int, int)| #[trigger] spreads(sz, t0, cp, n) && n.0 < cp.0 - 1 + i ==> marked(visited@, n),
                decreases 3 - i,
            {
                let mut j: usize = 0;
                while j < 3
                    invariant
                        sz == size as int,
                        self.size == size,
                        self.game_state == st0,
                        self.bomb_count == bc0,
                        in_grid(sz, s),
                        head < order@.len(),
                        order@[head as int] == c,
                        cp == pt(c),
                        c == (cx, cy),
                        cx < size,
                        cy < size,
                        i < 3,
                        j <= 3,
                        fill_inv(sz, t0, cells(self.board@), visited@, order@, head as int, unseen, s),
                        2 * unseen.len() + order@.len() <= m0,
                        forall|n: (int, int)|
                            #[trigger] spreads(sz, t0, cp, n) && (n.0 < cp.0 - 1 + i || (n.0 == cp.0 - 1 + i && n.1 < cp.1 - 1 + j)) ==> marked(visited@, n),
                    decreases 3 - j,
                {
                    if i != 1 || j != 1 {
                        match (shift(cx, i, size), shift(cy, j, size)) {
                            (Some(a), Some(b)) => {
                                let Ghost(u) = self.visit(&mut visited, &mut order, Ghost(unseen), head, a, b, Ghost(t0), Ghost(s));
                                proof {
                                    unseen = u;
                                }
                            },
                            _ => {},
                        }
                    }
                    j = j + 1;
                }
                i = i + 1;
            }
            head = head + 1;
        }
        proof {
            let region = Set::new(|p: (int, int)| in_grid(sz, p) && marked(visited@, p));
            assert forall|c: (int, int), n: (int, int)| region.contains(c) && #[trigger] spreads(sz, t0, c, n) implies region.contains(n) by {
                let k = choose|k: int| 0 <= k < order@.len() && pt(#[trigger] order@[k]) == c;
                assert(spreads(sz, t0, pt(order@[k]), n));
            }
            assert(closed_region(sz, t0, region));
            assert(region.contains(s));
            assert forall|p: (int, int)| in_grid(sz, p) && in_region(sz, t0, s, p) implies #[trigger] marked(visited@, p) by {
                assert(region.contains(p));
            }
        }
    }

    /// One step of the flood fill from the zero tile at `order[head]`: marks
    /// and exposes its neighbour (a, b) when that is unmarked, not a mine
    /// and not flagged, and queues it when it shows zero.
    fn visit(
        &mut self,
        visited: &mut Vec<Vec<bool>>,
        order: &mut Vec<(usize, usize)>,
        unseen: Ghost<Set<(int, int)>>,
        head: usize,
        a: usize,
        b: usize,
        t0: Ghost<Seq<Seq<Tile>>>,
        s: Ghost<(int, int)>,
    ) -> (r: Ghost<Set<(int, int)>>)
        requires
            fill_inv(old(self).size as int, t0@, cells(old(self).board@), old(visited)@, old(order)@, head as int, unseen@, s@),
            head < old(order)@.len(),
            a < old(self).size,
            b < old(self).size,
            adjacent(pt(old(order)@[head as int]), (a as int, b as int)),
        ensures
            fill_inv(old(self).size as int, t0@, cells(final(self).board@), final(visited)@, final(order)@, head as int, r@, s@),
            final(self).size == old(self).size,
            final(self).game_state == old(self).game_state,
            final(self).bomb_count == old(self).bomb_count,
            2 * r@.len() + final(order)@.len() <= 2 * unseen@.len() + old(order)@.len(),
            final(order)@.len() >= old(order)@.len(),
            forall|k: int| 0 <= k < old(order)@.len() ==> #[trigger] final(order)@[k] == old(order)@[k],
            forall|n: (int, int)| #[trigger] marked(old(visited)@, n) && in_grid(old(self).size as int, n) ==> marked(final(visited)@, n),
            spreads(old(self).size as int, t0@, pt(old(order)@[head as int]), (a as int, b as int)) ==> marked(final(visited)@, (a as int, b as int)),
    {
        let size = self.size;
        let ghost sz = size as int;
        let ghost n = (a as int, b as int);
        let ghost cp = pt(order@[head as int]);
        let ghost t = cells(self.board@);
        let ghost v0 = visited@;
        let ghost o0 = order@;
        assert(cells(self.board@)[a as int] == self.board@[a as int]@);
        assert(visited@[a as int]@.len() == size);
        if visited[a][b] {
            return unseen;
        }
        let tl = self.board[a][b];
        if tl.is_bomb() || tl.flagged {
            return unseen;
        }
        assert(tile_of(t, n) == tl);
        assert(spreads(sz, t0@, cp, n));
        put_mark(visited, size, a, b);
        let mut nt = tl;
        nt.exposed = true;
        put_tile(&mut self.board, size, a, b, nt);
        let is_zero = match tl.value {
            TileValue::Number(k) => k == 0,
            TileValue::Bomb => false,
        };
        if is_zero {
            order.push((a, b));
        }
        let ghost u = unseen@.remove(n);
        proof {
            assert(unseen@.contains(n));
            assert forall|q: (int, int)| #[trigger] u.contains(q) == (in_grid(sz, q) && !marked(visited@, q)) by {
                if in_grid(sz, q) {
                    assert(marked(visited@, q) == (q == n || marked(v0, q)));
                }
            }
            assert(in_region(sz, t0@, s@, cp));
            assert forall|q: (int, int)| in_grid(sz, q) && #[trigger] marked(visited@, q) implies in_region(sz, t0@, s@, q) by {
                if q == n {
                    assert forall|reg: Set<(int, int)>| #[trigger] closed_region(sz, t0@, reg) && reg.contains(s@) implies reg.contains(q) by {
                        assert(reg.contains(cp));
                        assert(spreads(sz, t0@, cp, n));
                    }
                } else {
                    assert(marked(v0, q));
                }
            }
            assert forall|k: int| 0 <= k < order@.len() implies {
                &&& in_grid(sz, pt(#[trigger] order@[k]))
                &&& marked(visited@, pt(order@[k]))
                &&& tile_of(t0@, pt(order@[k])).value == TileValue::Number(0)
            } by {
                if k < o0.len() {
                    assert(order@[k] == o0[k]);
                    assert(marked(v0, pt(o0[k])));
                }
            }
            assert forall|q: (int, int)|
                in_grid(sz, q) && #[trigger] marked(visited@, q) && tile_of(t0@, q).value == TileValue::Number(0) implies exists|k: int|
                0 <= k < order@.len() && pt(#[trigger] order@[k]) == q by {
                if q == n {
                    assert(pt(order@[o0.len() as int]) == q);
                } else {
                    assert(marked(v0, q));
                    let k = choose|k: int| 0 <= k < o0.len() && pt(#[trigger] o0[k]) == q;
                    assert(order@[k] == o0[k]);
                }
            }
            assert forall|k1: int, k2: int| 0 <= k1 < order@.len() && 0 <= k2 < order@.len() && k1 != k2 implies #[trigger] order@[k1] != #[trigger] order@[k2] by {
                if k1 < o0.len() && k2 < o0.len() {
                    assert(o0[k1] != o0[k2]);
                } else if k1 < o0.len() {
                    assert(marked(v0, pt(o0[k1])));
                } else {
                    assert(marked(v0, pt(o0[k2])));
                }
            }
            assert forall|k: int, m: (int, int)| 0 <= k < head && #[trigger] spreads(sz, t0@, pt(order@[k]), m) implies marked(visited@, m) by {
                assert(order@[k] == o0[k]);
                assert(spreads(sz, t0@, pt(o0[k]), m));
            }
        }
        Ghost(u)
    }

    pub fn new(size: usize, mine_locations: Vec<(usize, usize)>) -> (r: Self)
        requires
            size * size <= usize::MAX,
        ensures
            r@.wf(),
            r@.size == size,
            r@.state == GameState::InProgress,
            r@.bomb_count == valid_mines(size as int, mine_locations@).len(),
            r@.bomb_count <= size * size,
            forall|p: (int, int)|
                in_grid(size as int, p) ==> {
                    &&& !(#[trigger] r@.tile(p)).exposed
                    &&& !r@.tile(p).flagged
                    &&& (r@.tile(p).value is Bomb) == valid_mines(size as int, mine_locations@).contains(p)
                },
    {
        let ghost sz = size as int;
        let ghost locs = mine_locations@;
        let mut board = Self::create_empty_board(size);
        let mut count: usize = 0;
        let ghost mut placed: Set<(int, int)> = Set::empty();
        let mut i: usize = 0;
        assert(valid_mines(sz, locs.take(0)) =~= Set::empty());
        while i < mine_locations.len()
            invariant
                i <= mine_locations.len(),
                locs == mine_locations@,
                sz == size as int,
                shaped(sz, cells(board@)),
                forall|p: (int, int)|
                    in_grid(sz, p) ==> {
                        &&& !(#[trigger] tile_of(cells(board@), p)).exposed
                        &&& !tile_of(cells(board@), p).flagged
                        &&& (tile_of(cells(board@), p).value is Bomb) == placed.contains(p)
                    },
                placed == valid_mines(sz, locs.take(i as int)),
                placed.finite(),
                count == placed.len(),
                count <= i,
            decreases mine_locations.len() - i,
        {
            let loc = mine_locations[i];
            let a = loc.0;
            let b = loc.1;
            proof {
                assert(locs.take(i + 1) =~= locs.take(i as int).push(loc));
                lemma_valid_mines_push(sz, locs.take(i as int), loc);
            }
            if a < size && b < size {
                assert(cells(board@)[a as int] == board@[a as int]@);
                if !board[a][b].is_bomb() {
                    let mut tl = board[a][b];
                    tl.set_bomb();
                    put_tile(&mut board, size, a, b, tl);
                    count = count + 1;
                    proof {
                        placed = placed.insert((a as int, b as int));
                    }
                } else {
                    assert(tile_of(cells(board@), (a as int, b as int)).value is Bomb);
                    assert(placed.insert((a as int, b as int)) =~= placed);
                }
            }
            i = i + 1;
        }
        assert(locs.take(i as int) =~= locs);
        let ghost t0 = cells(board@);
        assert(mine_cells(sz, t0) =~= placed);

        let mut x: usize = 0;
        while x < size
            invariant
                x <= size,
                sz == size as int,
                shaped(sz, t0),
                shaped(sz, cells(board@)),
                forall|p: (int, int)|
                    in_grid(sz, p) ==> {
                        &&& (#[trigger] tile_of(cells(board@), p).value is Bomb) == (tile_of(t0, p).value is Bomb)
                        &&& !tile_of(cells(board@), p).exposed
                        &&& !tile_of(cells(board@), p).flagged
                    },
                forall|p: (int, int)|
                    in_grid(sz, p) && p.0 < x ==> match #[trigger] tile_of(cells(board@), p).value {
                        TileValue::Bomb => true,
                        TileValue::Number(k) => mines_around(sz, t0, p).finite() && k as int == mines_around(sz, t0, p).len(),
                    },
            decreases size - x,
        {
            let mut y: usize = 0;
            while y < size
                invariant
                    x < size,
                    y <= size,
                    sz == size as int,
                    shaped(sz, t0),
                    shaped(sz, cells(board@)),
                    forall|p: (int, int)|
                        in_grid(sz, p) ==> {
                            &&& (#[trigger] tile_of(cells(board@), p).value is Bomb) == (tile_of(t0, p).value is Bomb)
                            &&& !tile_of(cells(board@), p).exposed
                            &&& !tile_of(cells(board@), p).flagged
                        },
                    forall|p: (int, int)|
                        in_grid(sz, p) && (p.0 < x || (p.0 == x && p.1 < y)) ==> match #[trigger] tile_of(cells(board@), p).value {
                            TileValue::Bomb => true,
                            TileValue::Number(k) => mines_around(sz, t0, p).finite() && k as int == mines_around(sz, t0, p).len(),
                        },
                decreases size - y,
            {
                assert(cells(board@)[x as int] == board@[x as int]@);
                if !board[x][y].is_bomb() {
                    proof {
                        lemma_same_mines(sz, cells(board@), t0);
                    }
                    let adjacent_bombs = Self::count_adjacent_bombs(&board, x, y, size);
                    let mut tl = board[x][y];
                    tl.set_number(adjacent_bombs);
                    put_tile(&mut board, size, x, y, tl);
                }
                y = y + 1;
            }
            x = x + 1;
        }
        proof {
            lemma_same_mines(sz, cells(board@), t0);
            lemma_mine_cells_bounded(sz, cells(board@));
        }
        Minesweeper { board, game_state: GameState::InProgress, size, bomb_count: count }
    }

    /// The tile at (x, y), or `None` outside the grid.
    pub fn get_tile(&self, x: usize, y: usize) -> (r: Option<&Tile>)
        requires
            self@.wf(),
        ensures
            match r {
                Some(t) => in_grid(self@.size, (x as int, y as int)) && *t == self@.tile((x as int, y as int)),
                None => !in_grid(self@.size, (x as int, y as int)),
            },
    {
        if x < self.size && y < self.size {
            assert(cells(self.board@)[x as int] == self.board@[x as int]@);
            Some(&self.board[x][y])
        } else {
            None
        }
    }

    /// Reveals the tile at (x, y): a mine loses the game and exposes every
    /// mine; a zero opens its flood region; any other number exposes that
    /// tile alone. The game is won once every tile but the mines is exposed.
    pub fn click_tile(&mut self, x: usize, y: usize) -> (r: Result<(), GameError>)
        requires
            old(self)@.wf(),
        ensures
            final(self)@.wf(),
            old(self)@.click_spec(x as int, y as int, final(self)@, r),
    {
        if self.game_state != GameState::InProgress {
            return Err(GameError::GameAlreadyOver);
        }
        let tile = match self.get_tile(x, y) {
            Some(tile) => *tile,
            None => return Err(GameError::OutOfBounds),
        };
        if tile.exposed || tile.flagged {
            return Err(GameError::TileUnavailable);
        }
        let ghost pre = self@;
        let ghost c = (x as int, y as int);
        let ghost mut mid = pre;
        match tile.value {
            TileValue::Bomb => {
                self.game_state = GameState::Lost;
                self.expose_all_bombs();
            },
            TileValue::Number(0) => {
                self.flood_fill(x, y);
                proof {
                    mid = self@;
                }
                self.check_win_condition();
            },
            TileValue::Number(_) => {
                let mut nt = tile;
                nt.exposed = true;
                put_tile(&mut self.board, self.size, x, y, nt);
                proof {
                    mid = self@;
                }
                self.check_win_condition();
            },
        }
        proof {
            let post = self@;
            assert forall|p: (int, int)| in_grid(pre.size, p) implies #[trigger] post.tile(p) == (Tile {
                exposed: pre.tile(p).exposed || pre.revealed_by_click(c, p),
                ..pre.tile(p)
            }) by {
                assert(post.tile(p) == tile_of(self@.tiles, p));
            }
            if post.state == GameState::Won {
                assert(mid.all_cleared() && mid.tiles == post.tiles && mid.size == post.size);
                assert forall|p: (int, int)| in_grid(post.size, p) && !(post.tile(p).value is Bomb) implies (#[trigger] post.tile(p)).exposed by {
                    assert(mid.tile(p) == post.tile(p));
                }
            }
            lemma_values_kept(pre, post);
        }
        Ok(())
    }

    /// Puts a flag on the hidden tile at (x, y), or takes it off.
    pub fn toggle_flag(&mut self, x: usize, y: usize) -> (r: Result<(), GameError>)
        requires
            old(self)@.wf(),
        ensures
            final(self)@.wf(),
            old(self)@.flag_spec(x as int, y as int, final(self)@, r),
    {
        if self.game_state != GameState::InProgress {
            return Err(GameError::GameAlreadyOver);
        }
        if x >= self.size || y >= self.size {
            return Err(GameError::OutOfBounds);
        }
        assert(cells(self.board@)[x as int] == self.board@[x as int]@);
        let tile = self.board[x][y];
        if tile.exposed {
            return Err(GameError::TileAlreadyExposed);
        }
        let ghost pre = self@;
        let mut nt = tile;
        nt.flagged = !nt.flagged;
        put_tile(&mut self.board, self.size, x, y, nt);
        proof {
            lemma_values_kept(pre, self@);
        }
        Ok(())
    }

    pub fn get_game_state(&self) -> (r: &GameState)
        ensures
            *r == self@.state,
    {
        &self.game_state
    }

    pub fn get_size(&self) -> (r: usize)
        ensures
            r == self@.size,
    {
        self.size
    }

    /// The number of mines on the board.
    pub fn get_bomb_count(&self) -> (r: usize)
        ensures
            r == self@.bomb_count,
    {
        self.bomb_count
    }

    /// The number of flagged tiles.
    pub fn count_flagged_tiles(&self) -> (r: usize)
        requires
            self@.wf(),
        ensures
            self@.flagged_cells().finite(),
            r == self@.flagged_cells().len(),
    {
        let r = self.count_tiles(true);
        assert(self@.flagged_cells() =~= Set::new(|p: (int, int)| in_grid(self@.size, p) && selected(self@.tile(p), true)));
        r
    }

    /// The number of exposed tiles.
    pub fn count_exposed_tiles(&self) -> (r: usize)
        requires
            self@.wf(),
        ensures
            self@.exposed_cells().finite(),
            r == self@.exposed_cells().len(),
    {
        let r = self.count_tiles(false);
        assert(self@.exposed_cells() =~= Set::new(|p: (int, int)| in_grid(self@.size, p) && selected(self@.tile(p), false)));
        r
    }

    /// The number of flagged tiles, or of exposed ones.
    fn count_tiles(&self, flagged: bool) -> (r: usize)
        requires
            self@.wf(),
        ensures
            Set::new(|p: (int, int)| in_grid(self@.size, p) && selected(self@.tile(p), flagged)).finite(),
            r == Set::new(|p: (int, int)| in_grid(self@.size, p) && selected(self@.tile(p), flagged)).len(),
    {
        let size = self.size;
        let ghost sz = size as int;
        let ghost v = self@;
        let mut count: usize = 0;
        let ghost mut found: Set<(int, int)> = Set::empty();
        let mut x: usize = 0;
        assert(found =~= Set::new(|p: (int, int)| in_grid(sz, p) && p.0 < 0 && selected(v.tile(p), flagged)));
        while x < size
            invariant
                x <= size,
                sz == size as int,
                v == self@,
                v.wf(),
                sz == v.size,
                found.finite(),
                count == found.len(),
                count <= x * size,
                found == Set::new(|p: (int, int)| in_grid(sz, p) && p.0 < x && selected(v.tile(p), flagged)),
            decreases size - x,
        {
            let mut y: usize = 0;
            assert(found =~= Set::new(
                |p: (int, int)| in_grid(sz, p) && (p.0 < x || (p.0 == x && p.1 < 0)) && selected(v.tile(p), flagged),
            ));
            assert(x * size + size <= size * size) by (nonlinear_arith)
                requires
                    x < size,
            ;
            while y < size
                invariant
                    x < size,
                    y <= size,
                    sz == size as int,
                    v == self@,
                    v.wf(),
                    sz == v.size,
                    x * size + size <= size * size,
                    found.finite(),
                    count == found.len(),
                    count <= x * size + y,
                    found == Set::new(
                        |p: (int, int)| in_grid(sz, p) && (p.0 < x || (p.0 == x && p.1 < y)) && selected(v.tile(p), flagged),
                    ),
                decreases size - y,
            {
                assert(cells(self.board@)[x as int] == self.board@[x as int]@);
                let tl = &self.board[x][y];
                let hit = if flagged {
                    tl.flagged
                } else {
                    tl.exposed
                };
                assert(v.tile((x as int, y as int)) == *tl);
                if hit {
                    count = count + 1;
                    proof {
                        found = found.insert((x as int, y as int));
                    }
                }
                assert(found =~= Set::new(
                    |p: (int, int)| in_grid(sz, p) && (p.0 < x || (p.0 == x && p.1 < y + 1)) && selected(v.tile(p), flagged),
                ));
                y = y + 1;
            }
            assert(found =~= Set::new(|p: (int, int)| in_grid(sz, p) && p.0 < x + 1 && selected(v.tile(p), flagged)));
            assert((x + 1) * size == x * size + size) by (nonlinear_arith);
            x = x + 1;
        }
        assert(found =~= Set::new(|p: (int, int)| in_grid(sz, p) && selected(v.tile(p), flagged)));
        count
    }

    fn create_empty_board(size: usize) -> (b: Vec<Vec<Tile>>)
        ensures
            shaped(size as int, cells(b@)),
            forall|p: (int, int)| in_grid(size as int, p) ==> #[trigger] tile_of(cells(b@), p) == blank_tile(),
    {
        let mut b: Vec<Vec<Tile>> = Vec::new();
        let mut i: usize = 0;
        while i < size
            invariant
                i <= size,
                b@.len() == i,
                forall|k: int| 0 <= k < i ==> (#[trigger] b@[k])@.len() == size,
                forall|k: int, j: int| 0 <= k < i && 0 <= j < size ==> #[trigger] b@[k]@[j] == blank_tile(),
            decreases size - i,
        {
            let mut row: Vec<Tile> = Vec::new();
            let mut j: usize = 0;
            while j < size
                invariant
                    j <= size,
                    row@.len() == j,
                    forall|k: int| 0 <= k < j ==> #[trigger] row@[k] == blank_tile(),
                decreases size - j,
            {
                row.push(Tile::new());
                j = j + 1;
            }
            b.push(row);
            i = i + 1;
        }
        b
    }

    fn count_adjacent_bombs(board: &Vec<Vec<Tile>>, x: usize, y: usize, size: usize) -> (r: u8)
        requires
            shaped(size as int, cells(board@)),
            x < size,
            y < size,
        ensures
            mines_around(size as int, cells(board@), (x as int, y as int)).finite(),
            r as int == mines_around(size as int, cells(board@), (x as int, y as int)).len(),
    {
        let ghost t = cells(board@);
        let ghost c = (x as int, y as int);
        let ghost sz = size as int;
        let mut count: u8 = 0;
        let ghost mut found: Set<(int, int)> = Set::empty();
        let mut i: usize = 0;
        assert(found =~= Set::new(|q: (int, int)| adjacent(c, q) && mine_at(sz, t, q) && q.0 < c.0 - 1));
        while i < 3
            invariant
                i <= 3,
                sz == size as int,
                c == (x as int, y as int),
                t == cells(board@),
                shaped(sz, t),
                x < size,
                y < size,
                found.finite(),
                count as int == found.len(),
                count <= 3 * i,
                found == Set::new(|q: (int, int)| adjacent(c, q) && mine_at(sz, t, q) && q.0 < c.0 - 1 + i),
            decreases 3 - i,
        {
            let mut j: usize = 0;
            assert(found =~= Set::new(
                |q: (int, int)|
                    adjacent(c, q) && mine_at(sz, t, q) && (q.0 < c.0 - 1 + i || (q.0 == c.0 - 1 + i && q.1 < c.1 - 1)),
            ));
            while j < 3
                invariant
                    i < 3,
                    j <= 3,
                    sz == size as int,
                    c == (x as int, y as int),
                    t == cells(board@),
                    shaped(sz, t),
                    x < size,
                    y < size,
                    found.finite(),
                    count as int == found.len(),
                    count <= 3 * i + j,
                    found == Set::new(
                        |q: (int, int)|
                            adjacent(c, q) && mine_at(sz, t, q) && (q.0 < c.0 - 1 + i || (q.0 == c.0 - 1 + i && q.1 < c.1 - 1 + j)),
                    ),
                decreases 3 - j,
            {
                let ghost next = Set::new(
                    |q: (int, int)|
                        adjacent(c, q) && mine_at(sz, t, q) && (q.0 < c.0 - 1 + i || (q.0 == c.0 - 1 + i && q.1 < c.1 - 1 + j + 1)),
                );
                if i != 1 || j != 1 {
                    match (shift(x, i, size), shift(y, j, size)) {
                        (Some(a), Some(b)) => {
                            assert(t[a as int] == board@[a as int]@);
                            if board[a][b].is_bomb() {
                                count = count + 1;
                                proof {
                                    found = found.insert((a as int, b as int));
                                }
                            }
                        },
                        _ => {},
                    }
                }
                assert(found =~= next);
                j = j + 1;
            }
            assert(found =~= Set::new(|q: (int, int)| adjacent(c, q) && mine_at(sz, t, q) && q.0 < c.0 - 1 + i + 1));
            i = i + 1;
        }
        assert(found =~= mines_around(sz, t, c));
        count
    }
}

} // verus!
