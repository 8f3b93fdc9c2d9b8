//! The board engine: construction with random mine placement, reveals with
//! flood-fill propagation and first-move fairness, chording, flag cycling,
//! and win/loss queries.

use vstd::prelude::*;
use crate::counting::{
    covered_in_grid, lemma_covered_col_update, lemma_covered_grid_update, lemma_mines_col_update,
    lemma_mines_grid_update, lemma_mines_grid_zero, mines_in_grid,
};
use crate::error::{MinrsError, MinrsResult};
use crate::model::{lemma_linear_index, lemma_linear_injective, GameModel};
use crate::tile::{FlagState, Position, StdTile, TileContents, TileState};

verus! {

/// An element that is not the last one survives dropping the last.
proof fn lemma_seq_drop_last_contains<T>(s: Seq<T>, v: T)
    requires
        s.len() > 0,
        s.contains(v),
        v != s[s.len() - 1],
    ensures
        s.drop_last().contains(v),
{
    let i = choose|i: int| 0 <= i < s.len() && s[i] == v;
    assert(s.drop_last()[i] == v);
}

/// How one tile write changes a model: the written position holds the new
/// tile, every other tile is untouched, the grid keeps its shape, and the
/// mine and covered counts move by the difference of the two tiles' bits.
proof fn lemma_after_tile_write(prev: GameModel, cur: GameModel, p: Position, t2: StdTile)
    requires
        prev.dims_ok(),
        prev.in_bounds(p),
        cur.width == prev.width,
        cur.height == prev.height,
        cur.tiles == prev.tiles.update(
            p.x as int,
            prev.tiles[p.x as int].update(p.y as int, t2),
        ),
    ensures
        cur.dims_ok(),
        cur.tile_at(p) == t2,
        forall|q: Position|
            prev.in_bounds(q) && q != p ==> #[trigger] cur.tile_at(q) == prev.tile_at(q),
        mines_in_grid(cur.tiles) + (if prev.tile_at(p).mine { 1nat } else { 0nat })
            == mines_in_grid(prev.tiles) + (if t2.mine { 1nat } else { 0nat }),
        covered_in_grid(cur.tiles) + (if prev.tile_at(p).covered { 1nat } else { 0nat })
            == covered_in_grid(prev.tiles) + (if t2.covered { 1nat } else { 0nat }),
{
    let px = p.x as int;
    let py = p.y as int;
    let col2 = prev.tiles[px].update(py, t2);
    lemma_mines_col_update(prev.tiles[px], py, t2);
    lemma_mines_grid_update(prev.tiles, px, col2);
    lemma_covered_col_update(prev.tiles[px], py, t2);
    lemma_covered_grid_update(prev.tiles, px, col2);
    assert forall|q: Position| prev.in_bounds(q) && q != p implies #[trigger] cur.tile_at(q)
        == prev.tile_at(q) by {
        if q.x as int != px {
            assert(cur.tiles[q.x as int] == prev.tiles[q.x as int]);
        } else {
            assert(q.y as int != py);
        }
    }
}

/// Relies on rand::seq::index::sample: it returns exactly `amount` distinct
/// indices drawn uniformly from `0..length`, and panics only when
/// `amount > length`.
#[verifier::external_body]
fn sample_indices(length: usize, amount: usize) -> (r: Vec<usize>)
    requires
        amount <= length,
    ensures
        r@.len() == amount,
        forall|i: int| 0 <= i < r@.len() ==> (#[trigger] r@[i]) < length,
        forall|i: int, j: int| 0 <= i < j < r@.len() ==> r@[i] != r@[j],
{
    rand::seq::index::sample(&mut rand::thread_rng(), length, amount).into_vec()
}

/// No board side may be shorter than this many tiles.
const MIN_BOARD_DIMENSION: u8 = 8;

/// How many fresh mine placements a first reveal may try before giving up
/// on opening a zero-count region at the chosen position.
const MAX_FIRST_MOVE_TRIES: u32 = 1000;

/// A playable board: a column-major grid of tiles plus the session flags.
/// `started` turns true once a reveal has gone through; `game_over` once a
/// mine was revealed after that.
pub struct StdMinrsGame {
    started: bool,
    game_over: bool,
    board: Vec<Vec<StdTile>>,
    width: u8,
    height: u8,
    mine_count: u16,
}

impl View for StdMinrsGame {
    type V = GameModel;

    closed spec fn view(&self) -> GameModel {
        GameModel {
            started: self.started,
            game_over: self.game_over,
            width: self.width,
            height: self.height,
            mine_count: self.mine_count,
            tiles: Seq::new(self.board@.len(), |x: int| self.board@[x]@),
        }
    }
}

impl StdMinrsGame {
    /// The board invariant, stated on the model.
    pub open spec fn wf(&self) -> bool {
        self@.wf()
    }

    /// Check if the current game is lost.
    pub fn game_over(&self) -> (b: bool)
        ensures
            b == self@.game_over,
    {
        self.game_over
    }

    /// Get the width of the current game.
    pub fn get_width(&self) -> (w: u8)
        ensures
            w == self@.width,
    {
        self.width
    }

    /// Get the height of the current game.
    pub fn get_height(&self) -> (h: u8)
        ensures
            h == self@.height,
    {
        self.height
    }

    /// Get a reference to the tile at a position.
    pub fn get_tile(&self, pos: &Position) -> (r: MinrsResult<&StdTile>)
        requires
            self.wf(),
        ensures
            self@.in_bounds(*pos) ==> r == Ok::<&StdTile, MinrsError>(&self@.tile_at(*pos)),
            !self@.in_bounds(*pos) ==> r == Err::<&StdTile, MinrsError>(MinrsError::OobPosition),
    {
        if pos.x < self.width && pos.y < self.height {
            Ok(&self.board[pos.x as usize][pos.y as usize])
        } else {
            Err(MinrsError::OobPosition)
        }
    }

    /// One if the cell `(x, y)` exists and holds a mine, else zero.
    fn mine_bit(&self, x: i32, y: i32) -> (b: u8)
        requires
            self@.dims_ok(),
        ensures
            b as nat == self@.mine_b(x as int, y as int),
            b <= 1,
    {
        if 0 <= x && x < self.width as i32 && 0 <= y && y < self.height as i32 {
            proof {
                assert(self@.tiles[x as int] == self.board@[x as int]@);
                assert(self@.tiles[x as int].len() == self@.height);
            }
            if self.board[x as usize][y as usize].mine {
                1
            } else {
                0
            }
        } else {
            0
        }
    }

    /// One if the cell `(x, y)` exists, is covered and carries a flag.
    fn flag_bit(&self, x: i32, y: i32) -> (b: u8)
        requires
            self@.dims_ok(),
        ensures
            b as nat == self@.flag_b(x as int, y as int),
            b <= 1,
    {
        if 0 <= x && x < self.width as i32 && 0 <= y && y < self.height as i32 {
            proof {
                assert(self@.tiles[x as int] == self.board@[x as int]@);
                assert(self@.tiles[x as int].len() == self@.height);
            }
            let t = &self.board[x as usize][y as usize];
            if t.covered && t.flag.is_some() {
                1
            } else {
                0
            }
        } else {
            0
        }
    }

    /// Number of mines among the neighbors of `pos`, computed fresh from
    /// the live grid.
    fn count_neighbor_mines(&self, pos: Position) -> (n: u8)
        requires
            self@.dims_ok(),
        ensures
            n as nat == self@.count_at(pos),
    {
        let x = pos.x as i32;
        let y = pos.y as i32;
        self.mine_bit(x - 1, y - 1) + self.mine_bit(x - 1, y) + self.mine_bit(x - 1, y + 1)
            + self.mine_bit(x, y - 1) + self.mine_bit(x, y + 1)
            + self.mine_bit(x + 1, y - 1) + self.mine_bit(x + 1, y) + self.mine_bit(x + 1, y + 1)
    }

    /// Creates a board of covered, unflagged tiles and places `mine_count`
    /// mines at random; fails with `InvalidArgument` on a side shorter than
    /// eight tiles or a mine count that would fill (or overfill) the board.
    pub fn new(width: u8, height: u8, mine_count: u16) -> (r: MinrsResult<StdMinrsGame>)
        ensures
            (width < 8 || height < 8 || mine_count as int >= width as int * height as int)
                <==> r is Err,
            r is Err ==> r == Err::<StdMinrsGame, MinrsError>(MinrsError::InvalidArgument),
            r is Ok ==> r->Ok_0.wf() && r->Ok_0@.width == width && r->Ok_0@.height == height
                && r->Ok_0@.mine_count == mine_count && !r->Ok_0@.started && !r->Ok_0@.game_over
                && forall|p: Position|
                    r->Ok_0@.in_bounds(p)
                        ==> (#[trigger] r->Ok_0@.tile_at(p)).covered
                            && r->Ok_0@.tile_at(p).flag is None,
    {
        if width < MIN_BOARD_DIMENSION || height < MIN_BOARD_DIMENSION {
            return Err(MinrsError::InvalidArgument);
        }
        proof {
            assert((width as int) * (height as int) <= 65025) by (nonlinear_arith)
                requires
                    width <= 255,
                    height <= 255,
            ;
        }
        let tile_count: u16 = (width as u16) * (height as u16);
        if mine_count >= tile_count {
            return Err(MinrsError::InvalidArgument);
        }
        let mut board: Vec<Vec<StdTile>> = Vec::new();
        let mut x: u8 = 0;
        while x < width
            invariant
                x <= width,
                board@.len() == x as int,
                forall|i: int| 0 <= i < x as int ==> (#[trigger] board@[i])@.len() == height,
                forall|i: int, j: int|
                    0 <= i < x as int && 0 <= j < height as int
                        ==> (#[trigger] board@[i]@[j]).covered && !board@[i]@[j].mine
                            && board@[i]@[j].flag is None,
            decreases width - x,
        {
            let mut col: Vec<StdTile> = Vec::new();
            let mut y: u8 = 0;
            while y < height
                invariant
                    y <= height,
                    col@.len() == y as int,
                    forall|j: int|
                        0 <= j < y as int
                            ==> (#[trigger] col@[j]).covered && !col@[j].mine
                                && col@[j].flag is None,
                decreases height - y,
            {
                col.push(StdTile::new(false));
                y += 1;
            }
            board.push(col);
            x += 1;
        }
        let mut new_game = StdMinrsGame {
            started: false,
            game_over: false,
            board,
            width,
            height,
            mine_count,
        };
        proof {
            assert forall|i: int| 0 <= i < new_game@.tiles.len() implies (
                #[trigger] new_game@.tiles[i]).len() == height by {
                assert(new_game@.tiles[i] == new_game.board@[i]@);
            }
            assert(new_game@.dims_ok());
        }
        new_game.generate_mines(mine_count);
        proof {
            let g = new_game@;
            assert forall|p: Position| g.in_bounds(p) implies (#[trigger] g.tile_at(p)).covered
                && g.tile_at(p).flag is None by {
                assert(g.tiles[p.x as int][p.y as int].covered == g.tiles[p.x as int][p.y as int].covered);
            }
            assert(g.wf());
        }
        Ok(new_game)
    }

    /// Discards the current mine placement and draws a fresh one: exactly
    /// `mine_count` mines, uniformly at random, leaving every tile's covered
    /// state and flag as they were.
    fn generate_mines(&mut self, mine_count: u16)
        requires
            old(self)@.dims_ok(),
            0 < old(self)@.height,
            (mine_count as int) < (old(self)@.width as int) * (old(self)@.height as int),
        ensures
            final(self)@.started == old(self)@.started,
            final(self)@.game_over == old(self)@.game_over,
            final(self)@.width == old(self)@.width,
            final(self)@.height == old(self)@.height,
            final(self)@.mine_count == old(self)@.mine_count,
            final(self)@.dims_ok(),
            forall|x: int, y: int|
                0 <= x < old(self)@.width && 0 <= y < old(self)@.height
                    ==> (#[trigger] final(self)@.tiles[x][y]).covered
                        == old(self)@.tiles[x][y].covered
                        && final(self)@.tiles[x][y].flag == old(self)@.tiles[x][y].flag,
            mines_in_grid(final(self)@.tiles) == mine_count,
    {
        let w = self.width;
        let h = self.height;
        proof {
            assert((w as int) * (h as int) <= 65025) by (nonlinear_arith)
                requires
                    w <= 255,
                    h <= 255,
            ;
        }
        let total: u32 = (w as u32) * (h as u32);
        let idxs = sample_indices(total as usize, mine_count as usize);

        // First pass: clear every mine bit, touching nothing else.
        let mut x: usize = 0;
        while x < w as usize
            invariant
                self@.width == w,
                self@.height == h,
                self@.started == old(self)@.started,
                self@.game_over == old(self)@.game_over,
                self@.mine_count == old(self)@.mine_count,
                self@.dims_ok(),
                x <= w as usize,
                forall|i: int, j: int|
                    0 <= i < x as int && 0 <= j < h as int
                        ==> !(#[trigger] self@.tiles[i][j]).mine,
                forall|i: int, j: int|
                    0 <= i < w as int && 0 <= j < h as int
                        ==> (#[trigger] self@.tiles[i][j]).covered
                            == old(self)@.tiles[i][j].covered
                            && self@.tiles[i][j].flag == old(self)@.tiles[i][j].flag,
            decreases w as usize - x,
        {
            let mut y: usize = 0;
            while y < h as usize
                invariant
                    self@.width == w,
                    self@.height == h,
                    self@.started == old(self)@.started,
                    self@.game_over == old(self)@.game_over,
                    self@.mine_count == old(self)@.mine_count,
                    self@.dims_ok(),
                    x < w as usize,
                    y <= h as usize,
                    forall|i: int, j: int|
                        0 <= i < x as int && 0 <= j < h as int
                            ==> !(#[trigger] self@.tiles[i][j]).mine,
                    forall|j: int| 0 <= j < y as int ==> !(#[trigger] self@.tiles[x as int][j]).mine,
                    forall|i: int, j: int|
                        0 <= i < w as int && 0 <= j < h as int
                            ==> (#[trigger] self@.tiles[i][j]).covered
                                == old(self)@.tiles[i][j].covered
                                && self@.tiles[i][j].flag == old(self)@.tiles[i][j].flag,
                decreases h as usize - y,
            {
                proof {
                    assert(self@.tiles[x as int] == self.board@[x as int]@);
                }
                let ghost prev = self@.tiles;
                self.board[x][y].mine = false;
                proof {
                    assert forall|i: int| 0 <= i < w as int && i != x as int implies
                        #[trigger] self@.tiles[i] == prev[i] by {
                        assert(self@.tiles[i] == self.board@[i]@);
                    }
                    assert(self@.tiles[x as int] == prev[x as int].update(
                        y as int,
                        self@.tiles[x as int][y as int],
                    ));
                }
                y += 1;
            }
            x += 1;
        }
        proof {
            lemma_mines_grid_zero(self@.tiles);
        }

        // Second pass: set the mine bit of each sampled cell.
        let mut k: usize = 0;
        while k < mine_count as usize
            invariant
                self@.width == w,
                self@.height == h,
                0 < h,
                self@.started == old(self)@.started,
                self@.game_over == old(self)@.game_over,
                self@.mine_count == old(self)@.mine_count,
                self@.dims_ok(),
                k <= mine_count as usize,
                idxs@.len() == mine_count as int,
                forall|i: int| 0 <= i < idxs@.len() ==> (#[trigger] idxs@[i]) < w as int * h as int,
                forall|i: int, j: int| 0 <= i < j < idxs@.len() ==> idxs@[i] != idxs@[j],
                forall|i: int, j: int|
                    0 <= i < w as int && 0 <= j < h as int
                        ==> (#[trigger] self@.tiles[i][j]).covered
                            == old(self)@.tiles[i][j].covered
                            && self@.tiles[i][j].flag == old(self)@.tiles[i][j].flag,
                mines_in_grid(self@.tiles) == k as int,
                forall|i: int, j: int|
                    0 <= i < w as int && 0 <= j < h as int
                        ==> ((#[trigger] self@.tiles[i][j]).mine <==> (exists|jj: int|
                            0 <= jj < k as int && idxs@[jj] == i * (h as int) + j)),
            decreases mine_count as usize - k,
        {
            let idx = idxs[k];
            proof {
                lemma_linear_index(w as int, h as int, idx as int);
            }
            let xx = idx / (h as usize);
            let yy = idx % (h as usize);
            proof {
                assert(xx as int == idx as int / h as int);
                assert(yy as int == idx as int % h as int);
                // This cell is still mine-free: a mine here would mean some
                // earlier sample equals this one, and samples are distinct.
                if self@.tiles[xx as int][yy as int].mine {
                    let jj = choose|jj: int|
                        0 <= jj < k as int && idxs@[jj] == xx as int * (h as int) + yy as int;
                    assert(idxs@[jj] == idxs@[k as int]);
                    assert(false);
                }
                assert(self@.tiles[xx as int] == self.board@[xx as int]@);
            }
            let ghost prev = self@.tiles;
            self.board[xx][yy].mine = true;
            proof {
                assert forall|i: int| 0 <= i < w as int && i != xx as int implies
                    #[trigger] self@.tiles[i] == prev[i] by {
                    assert(self@.tiles[i] == self.board@[i]@);
                }
                let t2 = self@.tiles[xx as int][yy as int];
                assert(t2.mine && t2.covered == prev[xx as int][yy as int].covered
                    && t2.flag == prev[xx as int][yy as int].flag);
                assert(self@.tiles[xx as int] =~= prev[xx as int].update(yy as int, t2));
                assert(self@.tiles =~~= prev.update(xx as int, prev[xx as int].update(yy as int, t2)));
                lemma_mines_col_update(prev[xx as int], yy as int, t2);
                lemma_mines_grid_update(prev, xx as int, prev[xx as int].update(yy as int, t2));
                // Membership: only the sampled cell gained a mine.
                assert forall|i: int, j: int| #![trigger self@.tiles[i][j]]
                    0 <= i < w as int && 0 <= j < h as int
                        && !(i == xx as int && j == yy as int) implies
                    i * (h as int) + j != idx as int by {
                    if i * (h as int) + j == idx as int {
                        lemma_linear_injective(h as int, i, j, xx as int, yy as int);
                    }
                }
            }
            k += 1;
        }
    }

    /// Number of flagged covered tiles among the neighbors of `pos`.
    fn count_neighbor_flags(&self, pos: Position) -> (n: u8)
        requires
            self@.dims_ok(),
        ensures
            n as nat == self@.flags_at(pos),
    {
        let x = pos.x as i32;
        let y = pos.y as i32;
        self.flag_bit(x - 1, y - 1) + self.flag_bit(x - 1, y) + self.flag_bit(x - 1, y + 1)
            + self.flag_bit(x, y - 1) + self.flag_bit(x, y + 1)
            + self.flag_bit(x + 1, y - 1) + self.flag_bit(x + 1, y) + self.flag_bit(x + 1, y + 1)
    }

    /// Writes one tile of the grid, handing back the model-level update
    /// equation.
    fn write_tile(&mut self, pos: Position, t2: StdTile)
        requires
            old(self)@.dims_ok(),
            old(self)@.in_bounds(pos),
        ensures
            final(self)@.started == old(self)@.started,
            final(self)@.game_over == old(self)@.game_over,
            final(self)@.width == old(self)@.width,
            final(self)@.height == old(self)@.height,
            final(self)@.mine_count == old(self)@.mine_count,
            final(self)@.tiles == old(self)@.tiles.update(
                pos.x as int,
                old(self)@.tiles[pos.x as int].update(pos.y as int, t2),
            ),
    {
        let ghost prev = self@;
        let px = pos.x as usize;
        let py = pos.y as usize;
        proof {
            assert(self@.tiles[px as int] == self.board@[px as int]@);
        }
        self.board[px][py] = t2;
        proof {
            assert forall|i: int| 0 <= i < prev.tiles.len() && i != px as int implies
                #[trigger] self@.tiles[i] == prev.tiles[i] by {
                assert(self@.tiles[i] == self.board@[i]@);
            }
            assert(self@.tiles[px as int] =~= prev.tiles[px as int].update(py as int, t2));
            assert(self@.tiles =~~= prev.tiles.update(
                px as int,
                prev.tiles[px as int].update(py as int, t2),
            ));
        }
    }

    /// Pushes the cell `(x, y)` onto the worklist if it exists on the board.
    fn push_if_valid(&self, stack: &mut Vec<Position>, x: i32, y: i32)
        requires
            self@.dims_ok(),
        ensures
            (0 <= x && x < self@.width as i32 && 0 <= y && y < self@.height as i32)
                ==> final(stack)@ == old(stack)@.push((Position { x: x as u8, y: y as u8 })),
            !(0 <= x && x < self@.width as i32 && 0 <= y && y < self@.height as i32)
                ==> final(stack)@ == old(stack)@,
    {
        if 0 <= x && x < self.width as i32 && 0 <= y && y < self.height as i32 {
            stack.push(Position { x: x as u8, y: y as u8 });
        }
    }

    /// Pushes every existing neighbor of `q` onto the worklist: the old
    /// entries stay where they were, everything added is an in-bounds
    /// neighbor of `q`, and every in-bounds neighbor of `q` is on the list
    /// afterwards.
    fn push_neighbors(&self, stack: &mut Vec<Position>, q: Position)
        requires
            self@.dims_ok(),
        ensures
            old(stack)@.len() <= final(stack)@.len(),
            final(stack)@.len() <= old(stack)@.len() + 8,
            forall|i: int| 0 <= i < old(stack)@.len() ==> final(stack)@[i] == old(stack)@[i],
            forall|i: int|
                old(stack)@.len() <= i < final(stack)@.len()
                    ==> self@.in_bounds(#[trigger] final(stack)@[i])
                        && GameModel::is_neighbor(q, final(stack)@[i]),
            forall|r: Position|
                self@.in_bounds(r) && GameModel::is_neighbor(q, r)
                    ==> final(stack)@.contains(r),
            forall|r: Position| old(stack)@.contains(r) ==> final(stack)@.contains(r),
            forall|i: int, j: int|
                old(stack)@.len() <= i < j < final(stack)@.len()
                    ==> final(stack)@[i] != final(stack)@[j],
    {
        let x = q.x as i32;
        let y = q.y as i32;
        let ghost s0 = stack@;
        self.push_if_valid(stack, x - 1, y - 1);
        let ghost s1 = stack@;
        self.push_if_valid(stack, x - 1, y);
        let ghost s2 = stack@;
        self.push_if_valid(stack, x - 1, y + 1);
        let ghost s3 = stack@;
        self.push_if_valid(stack, x, y - 1);
        let ghost s4 = stack@;
        self.push_if_valid(stack, x, y + 1);
        let ghost s5 = stack@;
        self.push_if_valid(stack, x + 1, y - 1);
        let ghost s6 = stack@;
        self.push_if_valid(stack, x + 1, y);
        let ghost s7 = stack@;
        self.push_if_valid(stack, x + 1, y + 1);
        proof {
            assert forall|r: Position|
                self@.in_bounds(r) && GameModel::is_neighbor(q, r) implies
                stack@.contains(r) by {
                let dx = r.x as int - q.x as int;
                let dy = r.y as int - q.y as int;
                if dx == -1 && dy == -1 {
                    assert(s1 == s0.push(r));
                    assert(stack@[s0.len() as int] == r);
                } else if dx == -1 && dy == 0 {
                    assert(s2 == s1.push(r));
                    assert(stack@[s1.len() as int] == r);
                } else if dx == -1 && dy == 1 {
                    assert(s3 == s2.push(r));
                    assert(stack@[s2.len() as int] == r);
                } else if dx == 0 && dy == -1 {
                    assert(s4 == s3.push(r));
                    assert(stack@[s3.len() as int] == r);
                } else if dx == 0 && dy == 1 {
                    assert(s5 == s4.push(r));
                    assert(stack@[s4.len() as int] == r);
                } else if dx == 1 && dy == -1 {
                    assert(s6 == s5.push(r));
                    assert(stack@[s5.len() as int] == r);
                } else if dx == 1 && dy == 0 {
                    assert(s7 == s6.push(r));
                    assert(stack@[s6.len() as int] == r);
                } else {
                    assert(dx == 1 && dy == 1);
                    assert(stack@ == s7.push(r));
                    assert(stack@[s7.len() as int] == r);
                }
                assert(stack@.contains(r));
            }
            assert forall|r: Position| old(stack)@.contains(r) implies stack@.contains(r) by {
                let i = choose|i: int| 0 <= i < old(stack)@.len() && old(stack)@[i] == r;
                assert(stack@[i] == r);
            }
        }
    }

    /// The flood fill: starting from a covered zero-count tile, uncovers it
    /// and every tile the reach relation names — the connected zero-count
    /// region and its numbered border — clearing their flags, and nothing
    /// else.
    #[verifier::rlimit(100)]
    fn flood(&mut self, start: Position)
        requires
            old(self).wf(),
            old(self)@.started,
            !old(self)@.game_over,
            old(self)@.in_bounds(start),
            old(self)@.tile_at(start).covered,
            !old(self)@.tile_at(start).mine,
            old(self)@.count_at(start) == 0,
        ensures
            final(self).wf(),
            final(self)@ == old(self)@.reveal_model(start),
    {
        let ghost m0 = self@;
        let mut stack: Vec<Position> = Vec::new();
        stack.push(start);
        proof {
            crate::model::lemma_reach_refl(m0, start);
            assert(stack@[0] == start);
            assert(stack@.contains(start));
        }
        while stack.len() > 0
            invariant
                self@.width == m0.width,
                self@.height == m0.height,
                self@.started == m0.started,
                self@.game_over == m0.game_over,
                self@.mine_count == m0.mine_count,
                self@.dims_ok(),
                m0.wf(),
                m0.in_bounds(start),
                m0.tile_at(start).covered,
                !m0.tile_at(start).mine,
                m0.count_at(start) == 0,
                forall|q: Position|
                    m0.in_bounds(q) && (#[trigger] self@.tile_at(q)).covered
                        ==> self@.tile_at(q) == m0.tile_at(q) && m0.tile_at(q).covered,
                forall|q: Position|
                    m0.in_bounds(q) && !(#[trigger] self@.tile_at(q)).covered
                        && m0.tile_at(q).covered
                        ==> self@.tile_at(q)
                            == (StdTile { covered: false, mine: m0.tile_at(q).mine, flag: None })
                            && m0.reach(start, q),
                forall|q: Position|
                    m0.in_bounds(q) && !m0.tile_at(q).covered
                        ==> #[trigger] self@.tile_at(q) == m0.tile_at(q),
                forall|i: int|
                    0 <= i < stack@.len()
                        ==> m0.in_bounds(#[trigger] stack@[i]) && m0.reach(start, stack@[i])
                            && !m0.tile_at(stack@[i]).mine,
                forall|p: Position, q: Position|
                    m0.covered_zero(p) && !(#[trigger] self@.tile_at(p)).covered
                        && GameModel::is_neighbor(p, q) && m0.in_bounds(q)
                        && (#[trigger] self@.tile_at(q)).covered ==> stack@.contains(q),
                !self@.tile_at(start).covered || stack@.contains(start),
            decreases covered_in_grid(self@.tiles) * 9 + stack@.len(),
        {
            let ghost stack_before = stack@;
            let q = stack.pop().unwrap();
            proof {
                assert(stack@ =~= stack_before.drop_last());
                assert(q == stack_before[stack_before.len() - 1]);
            }
            proof {
                assert(self@.tiles[q.x as int] == self.board@[q.x as int]@);
            }
            let t = self.board[q.x as usize][q.y as usize];
            if t.covered {
                let ghost prev = self@;
                let t2 = StdTile { covered: false, mine: t.mine, flag: None };
                self.write_tile(q, t2);
                proof {
                    lemma_after_tile_write(prev, self@, q, t2);
                }
                let n = self.count_neighbor_mines(q);
                proof {
                    assert forall|a: int, b: int|
                        0 <= a < self@.width && 0 <= b < self@.height implies (
                        #[trigger] self@.tiles[a][b]).mine == m0.tiles[a][b].mine by {
                        let r = Position { x: a as u8, y: b as u8 };
                        assert(self@.tile_at(r).mine == m0.tile_at(r).mine);
                    }
                    crate::model::lemma_count_at_mines_eq(self@, m0, q);
                }
                if n == 0 {
                    let ghost sbefore = stack@;
                    self.push_neighbors(&mut stack, q);
                    proof {
                        assert(m0.covered_zero(q));
                        assert forall|i: int| sbefore.len() <= i < stack@.len() implies
                            m0.in_bounds(#[trigger] stack@[i]) && m0.reach(start, stack@[i])
                                && !m0.tile_at(stack@[i]).mine by {
                            crate::model::lemma_reach_step(m0, start, q, stack@[i]);
                            crate::model::lemma_zero_no_mine_neighbor(m0, q, stack@[i]);
                        }
                        assert forall|i: int| 0 <= i < sbefore.len() implies
                            m0.in_bounds(#[trigger] stack@[i]) && m0.reach(start, stack@[i])
                                && !m0.tile_at(stack@[i]).mine by {
                            assert(stack@[i] == sbefore[i]);
                            assert(sbefore[i] == stack_before[i]);
                        }
                        // The frontier demand: every covered tile beside an
                        // uncovered zero tile is on the worklist.
                        assert forall|p: Position, r: Position|
                            m0.covered_zero(p) && !(#[trigger] self@.tile_at(p)).covered
                                && GameModel::is_neighbor(p, r) && m0.in_bounds(r)
                                && (#[trigger] self@.tile_at(r)).covered implies
                            stack@.contains(r) by {
                            if p == q {
                                assert(stack@.contains(r));
                            } else {
                                assert(prev.tile_at(p) == self@.tile_at(p));
                                assert(r != q);
                                assert(prev.tile_at(r) == self@.tile_at(r));
                                assert(stack_before.contains(r));
                                lemma_seq_drop_last_contains(stack_before, r);
                                assert(sbefore.contains(r));
                                let i = choose|i: int| 0 <= i < sbefore.len() && sbefore[i] == r;
                                assert(stack@[i] == r);
                            }
                        }
                        if self@.tile_at(start).covered {
                            assert(start != q);
                            assert(prev.tile_at(start) == self@.tile_at(start));
                            assert(stack_before.contains(start));
                            lemma_seq_drop_last_contains(stack_before, start);
                            assert(sbefore.contains(start));
                            assert(stack@.contains(start));
                        }
                    }
                } else {
                    proof {
                        assert(!m0.covered_zero(q));
                        assert forall|i: int| 0 <= i < stack@.len() implies
                            m0.in_bounds(#[trigger] stack@[i]) && m0.reach(start, stack@[i])
                                && !m0.tile_at(stack@[i]).mine by {
                            assert(stack@[i] == stack_before[i]);
                        }
                        assert forall|p: Position, r: Position|
                            m0.covered_zero(p) && !(#[trigger] self@.tile_at(p)).covered
                                && GameModel::is_neighbor(p, r) && m0.in_bounds(r)
                                && (#[trigger] self@.tile_at(r)).covered implies
                            stack@.contains(r) by {
                            assert(p != q);
                            assert(prev.tile_at(p) == self@.tile_at(p));
                            assert(r != q);
                            assert(prev.tile_at(r) == self@.tile_at(r));
                            assert(stack_before.contains(r));
                            lemma_seq_drop_last_contains(stack_before, r);
                        }
                        if self@.tile_at(start).covered {
                            assert(start != q);
                            assert(prev.tile_at(start) == self@.tile_at(start));
                            assert(stack_before.contains(start));
                            lemma_seq_drop_last_contains(stack_before, start);
                        }
                    }
                }
            } else {
                proof {
                    assert forall|p: Position, r: Position|
                        m0.covered_zero(p) && !(#[trigger] self@.tile_at(p)).covered
                            && GameModel::is_neighbor(p, r) && m0.in_bounds(r)
                            && (#[trigger] self@.tile_at(r)).covered implies
                        stack@.contains(r) by {
                        assert(r != q);
                        assert(stack_before.contains(r));
                        lemma_seq_drop_last_contains(stack_before, r);
                    }
                    if self@.tile_at(start).covered {
                        assert(start != q);
                        assert(stack_before.contains(start));
                        lemma_seq_drop_last_contains(stack_before, start);
                    }
                }
            }
        }
        proof {
            let rv = m0.reveal_model(start);
            assert(!self@.tile_at(start).covered);
            assert forall|dst: Position|
                m0.reach(start, dst) && (#[trigger] m0.tile_at(dst)).covered implies
                !self@.tile_at(dst).covered by {
                crate::model::lemma_closure_uncovers(m0, self@, start, dst);
            }
            assert forall|a: int|
                0 <= a < m0.tiles.len() implies #[trigger] self@.tiles[a] =~= rv.tiles[a] by {
                assert forall|b: int|
                    0 <= b < m0.tiles[a].len() implies #[trigger] self@.tiles[a][b]
                        == rv.tiles[a][b] by {
                    let r = Position { x: a as u8, y: b as u8 };
                    assert(self@.tile_at(r) == self@.tiles[a][b]);
                    assert(m0.tile_at(r) == m0.tiles[a][b]);
                    if m0.tile_at(r).covered && m0.reach(start, r) {
                        assert(!self@.tile_at(r).covered);
                    } else if m0.tile_at(r).covered {
                        assert(self@.tile_at(r).covered);
                    }
                }
            }
            assert(self@.tiles =~~= rv.tiles);
            assert(self@ =~~= rv);
            // The invariant of a well-formed board carries over.
            assert forall|a: int, b: int|
                0 <= a < m0.width && 0 <= b < m0.height implies (
                #[trigger] self@.tiles[a][b]).mine == m0.tiles[a][b].mine by {
                let r = Position { x: a as u8, y: b as u8 };
                assert(self@.tile_at(r).mine == m0.tile_at(r).mine);
            }
            crate::counting::lemma_mines_grid_eq(self@.tiles, m0.tiles);
            assert forall|r: Position|
                self@.in_bounds(r) && !(#[trigger] self@.tile_at(r)).covered implies
                self@.tile_at(r).flag is None by {
                if m0.tile_at(r).covered {
                } else {
                    assert(self@.tile_at(r) == m0.tile_at(r));
                }
            }
            assert(self@.wf());
        }
    }

    /// One reveal that is past all its checks: uncovers the target, losing
    /// the game on a mine, flooding from a zero-count tile, and uncovering
    /// just the one tile otherwise.
    fn reveal_inner(&mut self, pos: Position)
        requires
            old(self).wf(),
            old(self)@.started,
            !old(self)@.game_over,
            old(self)@.in_bounds(pos),
            old(self)@.tile_at(pos).covered,
        ensures
            final(self).wf(),
            final(self)@ == old(self)@.reveal_model(pos),
    {
        proof {
            assert(self@.tiles[pos.x as int] == self.board@[pos.x as int]@);
        }
        let t = self.board[pos.x as usize][pos.y as usize];
        if t.mine {
            let ghost prev = self@;
            let t2 = StdTile { covered: false, mine: true, flag: None };
            self.write_tile(pos, t2);
            self.game_over = true;
            proof {
                lemma_after_tile_write(prev, self@, pos, t2);
                self.lemma_single_reveal_shape(prev, pos, t2);
            }
        } else {
            let n = self.count_neighbor_mines(pos);
            if n > 0 {
                let ghost prev = self@;
                let t2 = StdTile { covered: false, mine: false, flag: None };
                self.write_tile(pos, t2);
                proof {
                    lemma_after_tile_write(prev, self@, pos, t2);
                    self.lemma_single_reveal_shape(prev, pos, t2);
                }
            } else {
                self.flood(pos);
            }
        }
    }

    /// After uncovering one tile whose reach is itself alone — a mine or a
    /// numbered tile — the new model is exactly the reveal of that tile.
    proof fn lemma_single_reveal_shape(&self, prev: GameModel, pos: Position, t2: StdTile)
        requires
            prev.wf(),
            prev.started,
            !prev.game_over,
            prev.in_bounds(pos),
            prev.tile_at(pos).covered,
            !prev.covered_zero(pos),
            t2 == (StdTile { covered: false, mine: prev.tile_at(pos).mine, flag: None }),
            self@.width == prev.width,
            self@.height == prev.height,
            self@.mine_count == prev.mine_count,
            self@.started == prev.started,
            self@.game_over == (prev.game_over || prev.tile_at(pos).mine),
            self@.dims_ok(),
            self@.tile_at(pos) == t2,
            forall|q: Position|
                prev.in_bounds(q) && q != pos
                    ==> #[trigger] self@.tile_at(q) == prev.tile_at(q),
            mines_in_grid(self@.tiles) + (if prev.tile_at(pos).mine { 1nat } else { 0nat })
                == mines_in_grid(prev.tiles) + (if t2.mine { 1nat } else { 0nat }),
        ensures
            self@ == prev.reveal_model(pos),
            self@.wf(),
    {
        let rv = prev.reveal_model(pos);
        crate::model::lemma_reach_refl(prev, pos);
        assert forall|a: int|
            0 <= a < prev.tiles.len() implies #[trigger] self@.tiles[a] =~= rv.tiles[a] by {
            assert forall|b: int|
                0 <= b < prev.tiles[a].len() implies #[trigger] self@.tiles[a][b]
                    == rv.tiles[a][b] by {
                let r = Position { x: a as u8, y: b as u8 };
                assert(self@.tile_at(r) == self@.tiles[a][b]);
                assert(prev.tile_at(r) == prev.tiles[a][b]);
                if r != pos && prev.reach(pos, r) {
                    crate::model::lemma_reach_from_nonzero(prev, pos, r);
                }
            }
        }
        assert(self@.tiles =~~= rv.tiles);
        assert(self@ =~~= rv);
        assert forall|q: Position|
            self@.in_bounds(q) && !(#[trigger] self@.tile_at(q)).covered implies
            self@.tile_at(q).flag is None by {
            if q != pos {
                assert(self@.tile_at(q) == prev.tile_at(q));
            }
        }
        if self@.game_over {
            assert(self@.tile_at(pos).mine && !self@.tile_at(pos).covered);
        }
        assert(self@.wf());
    }

    /// Cycles the flag of a covered tile: none, red flag, questionable, and
    /// around again. Uncovered tiles are left untouched; a finished game
    /// refuses the move.
    pub fn cycle_flag(&mut self, position: &Position) -> (r: MinrsResult<()>)
        requires
            old(self).wf(),
        ensures
            final(self).wf(),
            old(self)@.game_over ==> r == Err::<(), MinrsError>(MinrsError::GameOver)
                && final(self)@ == old(self)@,
            !old(self)@.game_over && !old(self)@.in_bounds(*position)
                ==> r == Err::<(), MinrsError>(MinrsError::OobPosition)
                && final(self)@ == old(self)@,
            !old(self)@.game_over && old(self)@.in_bounds(*position)
                && !old(self)@.tile_at(*position).covered
                ==> r == Ok::<(), MinrsError>(()) && final(self)@ == old(self)@,
            !old(self)@.game_over && old(self)@.in_bounds(*position)
                && old(self)@.tile_at(*position).covered
                ==> r == Ok::<(), MinrsError>(())
                && final(self)@ == old(self)@.cycle_model(*position),
    {
        if self.game_over {
            return Err(MinrsError::GameOver);
        }
        if !(position.x < self.width && position.y < self.height) {
            return Err(MinrsError::OobPosition);
        }
        proof {
            assert(self@.tiles[position.x as int] == self.board@[position.x as int]@);
        }
        let t = self.board[position.x as usize][position.y as usize];
        if !t.covered {
            return Ok(());
        }
        let ghost prev = self@;
        let newflag = match t.flag {
            None => Some(FlagState::RedFlag),
            Some(FlagState::RedFlag) => Some(FlagState::Questionable),
            Some(FlagState::Questionable) => None,
        };
        let t2 = StdTile { covered: t.covered, mine: t.mine, flag: newflag };
        self.write_tile(*position, t2);
        proof {
            let p = *position;
            lemma_after_tile_write(prev, self@, p, t2);
            assert(self@ =~~= prev.cycle_model(p));
            assert forall|q: Position|
                self@.in_bounds(q) && !(#[trigger] self@.tile_at(q)).covered implies
                self@.tile_at(q).flag is None by {
                if q != p {
                    assert(self@.tile_at(q) == prev.tile_at(q));
                }
            }
            assert(self@.wf());
        }
        Ok(())
    }

    /// Sets or clears the mine bit of one tile, keeping the board's mine
    /// count in step; refuses to turn the last mine-free tile into a mine.
    pub fn set_mine_at(&mut self, pos: &Position, mine: bool) -> (r: MinrsResult<()>)
        requires
            old(self).wf(),
        ensures
            final(self).wf(),
            old(self)@.game_over ==> r == Err::<(), MinrsError>(MinrsError::GameOver)
                && final(self)@ == old(self)@,
            !old(self)@.game_over && !old(self)@.in_bounds(*pos)
                ==> r == Err::<(), MinrsError>(MinrsError::OobPosition)
                && final(self)@ == old(self)@,
            !old(self)@.game_over && old(self)@.in_bounds(*pos)
                && mine && !old(self)@.tile_at(*pos).mine
                && old(self)@.mine_count as int + 1
                    == old(self)@.width as int * old(self)@.height as int
                ==> r == Err::<(), MinrsError>(MinrsError::InvalidArgument)
                && final(self)@ == old(self)@,
            !old(self)@.game_over && old(self)@.in_bounds(*pos)
                && !(mine && !old(self)@.tile_at(*pos).mine
                    && old(self)@.mine_count as int + 1
                        == old(self)@.width as int * old(self)@.height as int)
                ==> r == Ok::<(), MinrsError>(())
                && final(self)@ == old(self)@.set_mine_model(*pos, mine),
    {
        if self.game_over {
            return Err(MinrsError::GameOver);
        }
        if !(pos.x < self.width && pos.y < self.height) {
            return Err(MinrsError::OobPosition);
        }
        proof {
            assert(self@.tiles[pos.x as int] == self.board@[pos.x as int]@);
            assert((self.width as int) * (self.height as int) <= 65025) by (nonlinear_arith)
                requires
                    self.width <= 255,
                    self.height <= 255,
            ;
        }
        let t = self.board[pos.x as usize][pos.y as usize];
        let tile_count: u16 = (self.width as u16) * (self.height as u16);
        if mine && !t.mine && self.mine_count + 1 == tile_count {
            return Err(MinrsError::InvalidArgument);
        }
        let ghost prev = self@;
        let t2 = StdTile { covered: t.covered, mine, flag: t.flag };
        self.write_tile(*pos, t2);
        if mine && !t.mine {
            self.mine_count = self.mine_count + 1;
        } else if !mine && t.mine {
            proof {
                lemma_after_tile_write(prev, self@, *pos, t2);
            }
            self.mine_count = self.mine_count - 1;
        }
        proof {
            let p = *pos;
            lemma_after_tile_write(prev, self@, p, t2);
            assert(self@ =~~= prev.set_mine_model(p, mine));
            assert forall|q: Position|
                self@.in_bounds(q) && !(#[trigger] self@.tile_at(q)).covered implies
                self@.tile_at(q).flag is None by {
                if q != p {
                    assert(self@.tile_at(q) == prev.tile_at(q));
                }
            }
            if !self@.started {
                assert forall|q: Position| self@.in_bounds(q) implies (
                    #[trigger] self@.tile_at(q)).covered by {
                    if q != p {
                        assert(self@.tile_at(q) == prev.tile_at(q));
                    }
                }
            }
            assert(self@.wf());
        }
        Ok(())
    }

    /// Uncovers the single tile at a position — no propagation, no game
    /// over — and reports whether it held a mine. The session counts as
    /// started afterwards.
    pub fn uncover_at(&mut self, pos: &Position) -> (r: MinrsResult<bool>)
        requires
            old(self).wf(),
        ensures
            final(self).wf(),
            old(self)@.game_over ==> r == Err::<bool, MinrsError>(MinrsError::GameOver)
                && final(self)@ == old(self)@,
            !old(self)@.game_over && !old(self)@.in_bounds(*pos)
                ==> r == Err::<bool, MinrsError>(MinrsError::OobPosition)
                && final(self)@ == old(self)@,
            !old(self)@.game_over && old(self)@.in_bounds(*pos)
                && !old(self)@.tile_at(*pos).covered
                ==> r == Err::<bool, MinrsError>(MinrsError::InvalidPosition)
                && final(self)@ == old(self)@,
            !old(self)@.game_over && old(self)@.in_bounds(*pos)
                && old(self)@.tile_at(*pos).covered
                ==> r == Ok::<bool, MinrsError>(old(self)@.tile_at(*pos).mine)
                && final(self)@ == old(self)@.uncover_one(*pos),
    {
        if self.game_over {
            return Err(MinrsError::GameOver);
        }
        if !(pos.x < self.width && pos.y < self.height) {
            return Err(MinrsError::OobPosition);
        }
        proof {
            assert(self@.tiles[pos.x as int] == self.board@[pos.x as int]@);
        }
        let t = self.board[pos.x as usize][pos.y as usize];
        if !t.covered {
            return Err(MinrsError::InvalidPosition);
        }
        let ghost prev = self@;
        let t2 = StdTile { covered: false, mine: t.mine, flag: None };
        self.write_tile(*pos, t2);
        self.started = true;
        proof {
            let p = *pos;
            lemma_after_tile_write(prev, self@, p, t2);
            assert(self@ =~~= prev.uncover_one(p));
            assert forall|q: Position|
                self@.in_bounds(q) && !(#[trigger] self@.tile_at(q)).covered implies
                self@.tile_at(q).flag is None by {
                if q != p {
                    assert(self@.tile_at(q) == prev.tile_at(q));
                }
            }
            assert(self@.wf());
        }
        Ok(t.mine)
    }

    /// Get the TileState of the tile at a position: its flag while covered,
    /// its contents — computed fresh from the live grid — once uncovered.
    pub fn get_tile_state(&self, position: &Position) -> (r: MinrsResult<TileState>)
        requires
            self.wf(),
        ensures
            self@.in_bounds(*position)
                ==> r == Ok::<TileState, MinrsError>(self@.spec_tile_state(*position)),
            !self@.in_bounds(*position)
                ==> r == Err::<TileState, MinrsError>(MinrsError::OobPosition),
    {
        if !(position.x < self.width && position.y < self.height) {
            return Err(MinrsError::OobPosition);
        }
        proof {
            assert(self@.tiles[position.x as int] == self.board@[position.x as int]@);
        }
        let t = self.board[position.x as usize][position.y as usize];
        if t.covered {
            Ok(TileState::Covered(t.flag))
        } else if t.mine {
            Ok(TileState::Uncovered(TileContents::Mine))
        } else {
            let n = self.count_neighbor_mines(*position);
            Ok(TileState::Uncovered(TileContents::MineCount(n)))
        }
    }

    /// Check if the game is won: no covered mine-free tile remains, whatever
    /// flags may sit on the covered mines.
    pub fn victory(&self) -> (v: bool)
        requires
            self.wf(),
        ensures
            v == self@.spec_victory(),
    {
        let mut x: u8 = 0;
        while x < self.width
            invariant
                self.wf(),
                x <= self.width,
                forall|q: Position|
                    self@.in_bounds(q) && q.x < x && (#[trigger] self@.tile_at(q)).covered
                        ==> self@.tile_at(q).mine,
            decreases self.width - x,
        {
            let mut y: u8 = 0;
            while y < self.height
                invariant
                    self.wf(),
                    x < self.width,
                    y <= self.height,
                    forall|q: Position|
                        self@.in_bounds(q) && q.x < x && (#[trigger] self@.tile_at(q)).covered
                            ==> self@.tile_at(q).mine,
                    forall|q: Position|
                        self@.in_bounds(q) && q.x == x && q.y < y
                            && (#[trigger] self@.tile_at(q)).covered ==> self@.tile_at(q).mine,
                decreases self.height - y,
            {
                proof {
                    assert(self@.tiles[x as int] == self.board@[x as int]@);
                }
                let t = self.board[x as usize][y as usize];
                if t.covered && !t.mine {
                    proof {
                        let w = Position { x, y };
                        assert(self@.tile_at(w).covered && !self@.tile_at(w).mine);
                    }
                    return false;
                }
                y += 1;
            }
            x += 1;
        }
        true
    }

    /// One chord visit to the cell `(x, y)`: reveals it when the game is
    /// still on and the cell exists, is covered, and carries no flag;
    /// otherwise leaves everything alone.
    fn chord_try(&mut self, x: i32, y: i32)
        requires
            old(self).wf(),
            old(self)@.started,
        ensures
            final(self).wf(),
            final(self)@.started,
            final(self)@ == old(self)@.chord_step(x as int, y as int),
    {
        if self.game_over {
            return ;
        }
        if !(0 <= x && x < self.width as i32 && 0 <= y && y < self.height as i32) {
            return ;
        }
        proof {
            assert(self@.tiles[x as int] == self.board@[x as int]@);
        }
        let t = self.board[x as usize][y as usize];
        if !t.covered {
            return ;
        }
        if t.flag.is_some() {
            return ;
        }
        self.reveal_inner(Position { x: x as u8, y: y as u8 });
    }

    /// Uncovers a tile. The first reveal of a session that would not open a
    /// zero-count region silently draws fresh mine placements until one
    /// does (or, after very many tries, gives up with `InvalidArgument` and
    /// no visible change). After that, revealing a mine loses the game;
    /// revealing a zero-count tile floods its whole region and border.
    pub fn uncover_tile(&mut self, pos: &Position) -> (r: MinrsResult<()>)
        requires
            old(self).wf(),
        ensures
            final(self).wf(),
            final(self)@.width == old(self)@.width,
            final(self)@.height == old(self)@.height,
            final(self)@.mine_count == old(self)@.mine_count,
            !old(self)@.started ==> !final(self)@.game_over,
            old(self)@.game_over ==> r == Err::<(), MinrsError>(MinrsError::GameOver)
                && final(self)@ == old(self)@,
            !old(self)@.game_over && !old(self)@.in_bounds(*pos)
                ==> r == Err::<(), MinrsError>(MinrsError::OobPosition)
                && final(self)@ == old(self)@,
            !old(self)@.game_over && old(self)@.in_bounds(*pos)
                && !old(self)@.tile_at(*pos).covered
                ==> r == Err::<(), MinrsError>(MinrsError::InvalidArgument)
                && final(self)@ == old(self)@,
            !old(self)@.game_over && old(self)@.in_bounds(*pos)
                && old(self)@.tile_at(*pos).covered && old(self)@.started
                ==> r == Ok::<(), MinrsError>(())
                && final(self)@ == old(self)@.reveal_model(*pos),
            !old(self)@.game_over && old(self)@.in_bounds(*pos)
                && old(self)@.tile_at(*pos).covered && !old(self)@.started
                ==> (r == Ok::<(), MinrsError>(()) ==> {
                    let g = old(self)@.with_mines_of(final(self)@).with_started();
                    &&& final(self)@ == g.reveal_model(*pos)
                    &&& !g.tile_at(*pos).mine
                    &&& g.count_at(*pos) == 0
                })
                && (r != Ok::<(), MinrsError>(())
                    ==> r == Err::<(), MinrsError>(MinrsError::InvalidArgument)
                    && !final(self)@.started && !final(self)@.game_over
                    && forall|q: Position|
                        old(self)@.in_bounds(q)
                            ==> (#[trigger] final(self)@.tile_at(q)).covered
                                == old(self)@.tile_at(q).covered
                                && final(self)@.tile_at(q).flag == old(self)@.tile_at(q).flag),
    {
        if self.game_over {
            return Err(MinrsError::GameOver);
        }
        if !(pos.x < self.width && pos.y < self.height) {
            return Err(MinrsError::OobPosition);
        }
        proof {
            assert(self@.tiles[pos.x as int] == self.board@[pos.x as int]@);
        }
        let t0 = self.board[pos.x as usize][pos.y as usize];
        if !t0.covered {
            return Err(MinrsError::InvalidArgument);
        }
        if !self.started {
            // First-move fairness: redraw the placement until this reveal
            // would open a zero-count region.
            let mc = self.mine_count;
            let mut tries: u32 = 0;
            while tries < MAX_FIRST_MOVE_TRIES
                invariant
                    self.wf(),
                    !self@.started,
                    !self@.game_over,
                    self@.width == old(self)@.width,
                    self@.height == old(self)@.height,
                    self@.mine_count == old(self)@.mine_count,
                    mc == self@.mine_count,
                    self@.in_bounds(*pos),
                    tries <= MAX_FIRST_MOVE_TRIES,
                    forall|q: Position|
                        old(self)@.in_bounds(q)
                            ==> (#[trigger] self@.tile_at(q)).covered
                                == old(self)@.tile_at(q).covered
                                && self@.tile_at(q).flag == old(self)@.tile_at(q).flag,
                ensures
                    self.wf(),
                    !self@.started,
                    !self@.game_over,
                    self@.width == old(self)@.width,
                    self@.height == old(self)@.height,
                    self@.mine_count == old(self)@.mine_count,
                    self@.in_bounds(*pos),
                    forall|q: Position|
                        old(self)@.in_bounds(q)
                            ==> (#[trigger] self@.tile_at(q)).covered
                                == old(self)@.tile_at(q).covered
                                && self@.tile_at(q).flag == old(self)@.tile_at(q).flag,
                decreases MAX_FIRST_MOVE_TRIES - tries,
            {
                proof {
                    assert(self@.tiles[pos.x as int] == self.board@[pos.x as int]@);
                }
                let t = self.board[pos.x as usize][pos.y as usize];
                if !t.mine && self.count_neighbor_mines(*pos) == 0 {
                    break ;
                }
                let ghost prev = self@;
                self.generate_mines(mc);
                proof {
                    assert forall|q: Position| prev.in_bounds(q) implies (
                        #[trigger] self@.tile_at(q)).covered == prev.tile_at(q).covered
                        && self@.tile_at(q).flag == prev.tile_at(q).flag by {
                        assert(self@.tiles[q.x as int][q.y as int].covered
                            == prev.tiles[q.x as int][q.y as int].covered);
                    }
                    assert forall|q: Position|
                        self@.in_bounds(q) && !(#[trigger] self@.tile_at(q)).covered implies
                        self@.tile_at(q).flag is None by {
                        assert(prev.tile_at(q).flag is None);
                    }
                    assert(self@.wf());
                }
                tries += 1;
            }
            proof {
                assert(self@.tiles[pos.x as int] == self.board@[pos.x as int]@);
            }
            let t1 = self.board[pos.x as usize][pos.y as usize];
            if t1.mine || self.count_neighbor_mines(*pos) > 0 {
                return Err(MinrsError::InvalidArgument);
            }
        }
        let ghost before = self@;
        self.started = true;
        let ghost s1 = self@;
        proof {
            assert(s1 =~~= before.with_started());
            assert(s1.tiles == before.tiles);
            assert forall|x: int| 0 <= x < s1.tiles.len() implies (#[trigger] s1.tiles[x]).len()
                == s1.height by {
                assert(s1.tiles[x] == before.tiles[x]);
            }
            assert forall|p: Position|
                s1.in_bounds(p) && !(#[trigger] s1.tile_at(p)).covered implies
                s1.tile_at(p).flag is None by {
                assert(s1.tile_at(p) == before.tile_at(p));
            }
            assert(s1.wf());
            assert(s1.tile_at(*pos) == before.tile_at(*pos));
            assert(s1.tile_at(*pos).covered);
        }
        self.reveal_inner(*pos);
        proof {
            if old(self)@.started {
                assert(s1 =~~= old(self)@);
            } else {
                let g = old(self)@.with_mines_of(self@).with_started();
                assert forall|a: int|
                    0 <= a < s1.tiles.len() implies #[trigger] s1.tiles[a] =~= g.tiles[a] by {
                    assert forall|b: int|
                        0 <= b < s1.tiles[a].len() implies #[trigger] s1.tiles[a][b]
                            == g.tiles[a][b] by {
                        let q = Position { x: a as u8, y: b as u8 };
                        assert(s1.tiles.len() == old(self)@.width);
                        assert(s1.tiles[a].len() == old(self)@.height);
                        assert(q.x as int == a && q.y as int == b);
                        assert(old(self)@.in_bounds(q));
                        assert(s1.tile_at(q) == s1.tiles[a][b]);
                        assert(old(self)@.tile_at(q) == old(self)@.tiles[a][b]);
                        assert(s1.tile_at(q) == before.tile_at(q));
                        assert(s1.tile_at(q).covered == old(self)@.tile_at(q).covered);
                        assert(s1.tile_at(q).flag == old(self)@.tile_at(q).flag);
                        assert(self@.tiles[a][b].mine == s1.tiles[a][b].mine);
                    }
                }
                assert(s1.tiles =~~= g.tiles);
                assert(s1 =~~= g);
            }
        }
        Ok(())
    }

    /// Uncovers all unflagged covered neighbors of an uncovered numbered
    /// tile, each by the full reveal rules, stopping if one of them loses
    /// the game. Requires at least as many flagged neighbors as the tile
    /// counts mines; rejected with `InvalidArgument` otherwise, and on
    /// covered or mine tiles.
    pub fn uncover_neighbors(&mut self, pos: &Position) -> (r: MinrsResult<()>)
        requires
            old(self).wf(),
        ensures
            final(self).wf(),
            old(self)@.game_over ==> r == Err::<(), MinrsError>(MinrsError::GameOver)
                && final(self)@ == old(self)@,
            !old(self)@.game_over && !old(self)@.in_bounds(*pos)
                ==> r == Err::<(), MinrsError>(MinrsError::OobPosition)
                && final(self)@ == old(self)@,
            !old(self)@.game_over && old(self)@.in_bounds(*pos)
                && (old(self)@.tile_at(*pos).covered || old(self)@.tile_at(*pos).mine
                    || old(self)@.flags_at(*pos) < old(self)@.count_at(*pos))
                ==> r == Err::<(), MinrsError>(MinrsError::InvalidArgument)
                && final(self)@ == old(self)@,
            !old(self)@.game_over && old(self)@.in_bounds(*pos)
                && !old(self)@.tile_at(*pos).covered && !old(self)@.tile_at(*pos).mine
                && old(self)@.flags_at(*pos) >= old(self)@.count_at(*pos)
                ==> r == Ok::<(), MinrsError>(())
                && final(self)@ == old(self)@.chord_model(*pos),
    {
        if self.game_over {
            return Err(MinrsError::GameOver);
        }
        if !(pos.x < self.width && pos.y < self.height) {
            return Err(MinrsError::OobPosition);
        }
        proof {
            assert(self@.tiles[pos.x as int] == self.board@[pos.x as int]@);
        }
        let t = self.board[pos.x as usize][pos.y as usize];
        if t.covered || t.mine {
            return Err(MinrsError::InvalidArgument);
        }
        let flags = self.count_neighbor_flags(*pos);
        let mines = self.count_neighbor_mines(*pos);
        if flags < mines {
            return Err(MinrsError::InvalidArgument);
        }
        proof {
            // An uncovered tile exists, so the session has started.
            assert(self@.started);
        }
        let x = pos.x as i32;
        let y = pos.y as i32;
        self.chord_try(x - 1, y - 1);
        self.chord_try(x - 1, y);
        self.chord_try(x - 1, y + 1);
        self.chord_try(x, y - 1);
        self.chord_try(x, y + 1);
        self.chord_try(x + 1, y - 1);
        self.chord_try(x + 1, y);
        self.chord_try(x + 1, y + 1);
        proof {
            assert(final(self)@ == old(self)@.chord_model(*pos));
        }
        Ok(())
    }

    /// The positions of all existing neighbors of a position: board edges
    /// and corners have three or five instead of eight.
    pub fn get_neighbors_pos(&self, pos: &Position) -> (r: MinrsResult<Vec<Position>>)
        requires
            self.wf(),
        ensures
            r is Ok,
            forall|i: int|
                0 <= i < r->Ok_0@.len()
                    ==> self@.in_bounds(#[trigger] r->Ok_0@[i])
                        && GameModel::is_neighbor(*pos, r->Ok_0@[i]),
            forall|q: Position|
                self@.in_bounds(q) && GameModel::is_neighbor(*pos, q)
                    ==> r->Ok_0@.contains(q),
            forall|i: int, j: int| 0 <= i < j < r->Ok_0@.len() ==> r->Ok_0@[i] != r->Ok_0@[j],
    {
        let mut v: Vec<Position> = Vec::new();
        self.push_neighbors(&mut v, *pos);
        Ok(v)
    }
}

/// The game API that a presentation layer drives: forward the player's
/// gestures as reveals, chords and flag cycles, then re-read every tile
/// state plus the two booleans to redraw.
pub trait MinrsGame {
    /// The invariant that every board of this game maintains.
    spec fn inv(&self) -> bool;

    /// Check if the current game is in progress.
    fn game_over(&self) -> bool
        requires
            self.inv(),
    ;

    /// Cycles the flag of a covered tile.
    fn cycle_flag(&mut self, position: &Position) -> (r: MinrsResult<()>)
        requires
            old(self).inv(),
        ensures
            final(self).inv(),
    ;

    /// Uncovers a tile.
    fn uncover_tile(&mut self, position: &Position) -> (r: MinrsResult<()>)
        requires
            old(self).inv(),
        ensures
            final(self).inv(),
    ;

    /// Uncovers all neighbors from an uncovered tile.
    fn uncover_neighbors(&mut self, position: &Position) -> (r: MinrsResult<()>)
        requires
            old(self).inv(),
        ensures
            final(self).inv(),
    ;

    /// Get the TileState of a tile at a position.
    fn get_tile_state(&self, position: &Position) -> MinrsResult<TileState>
        requires
            self.inv(),
    ;

    /// Get the width of the current game.
    fn get_width(&self) -> u8
        requires
            self.inv(),
    ;

    /// Get the height of the current game.
    fn get_height(&self) -> u8
        requires
            self.inv(),
    ;

    /// Check if the game is won.
    fn victory(&self) -> bool
        requires
            self.inv(),
    ;
}

impl MinrsGame for StdMinrsGame {
    open spec fn inv(&self) -> bool {
        self.wf()
    }

    fn game_over(&self) -> bool {
        StdMinrsGame::game_over(self)
    }

    fn cycle_flag(&mut self, position: &Position) -> MinrsResult<()> {
        StdMinrsGame::cycle_flag(self, position)
    }

    fn uncover_tile(&mut self, position: &Position) -> MinrsResult<()> {
        StdMinrsGame::uncover_tile(self, position)
    }

    fn uncover_neighbors(&mut self, position: &Position) -> MinrsResult<()> {
        StdMinrsGame::uncover_neighbors(self, position)
    }

    fn get_tile_state(&self, position: &Position) -> MinrsResult<TileState> {
        StdMinrsGame::get_tile_state(self, position)
    }

    fn get_width(&self) -> u8 {
        StdMinrsGame::get_width(self)
    }

    fn get_height(&self) -> u8 {
        StdMinrsGame::get_height(self)
    }

    fn victory(&self) -> bool {
        StdMinrsGame::victory(self)
    }
}

} // verus!
