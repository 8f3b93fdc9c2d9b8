//! The mathematical model of a board: a ghost mirror of the game state that
//! all contracts speak about, together with the reachability relation that
//! pins down flood-fill reveals.

use vstd::prelude::*;
use crate::counting::mines_in_grid;
use crate::tile::{next_flag, Position, StdTile, TileContents, TileState};

verus! {

/// The abstract state of one game: dimensions, progress flags, and the grid
/// of tiles in column-major order (`tiles[x][y]` is column `x`, row `y`).
#[verifier::ext_equal]
pub ghost struct GameModel {
    pub started: bool,
    pub game_over: bool,
    pub width: u8,
    pub height: u8,
    pub mine_count: u16,
    pub tiles: Seq<Seq<StdTile>>,
}

impl GameModel {
    /// The grid really is `width` columns of `height` tiles.
    pub open spec fn dims_ok(self) -> bool {
        &&& self.tiles.len() == self.width
        &&& forall|x: int| 0 <= x < self.tiles.len() ==> (#[trigger] self.tiles[x]).len() == self.height
    }

    pub open spec fn in_bounds(self, p: Position) -> bool {
        p.x < self.width && p.y < self.height
    }

    pub open spec fn tile_at(self, p: Position) -> StdTile {
        self.tiles[p.x as int][p.y as int]
    }

    /// One if the cell `(x, y)` exists and holds a mine, else zero.
    pub open spec fn mine_b(self, x: int, y: int) -> nat {
        if 0 <= x < self.width && 0 <= y < self.height && self.tiles[x][y].mine {
            1
        } else {
            0
        }
    }

    /// Number of mines among the up to eight neighbors of `p`.
    pub open spec fn count_at(self, p: Position) -> nat {
        let x = p.x as int;
        let y = p.y as int;
        self.mine_b(x - 1, y - 1) + self.mine_b(x - 1, y) + self.mine_b(x - 1, y + 1)
            + self.mine_b(x, y - 1) + self.mine_b(x, y + 1)
            + self.mine_b(x + 1, y - 1) + self.mine_b(x + 1, y) + self.mine_b(x + 1, y + 1)
    }

    /// One if the cell `(x, y)` exists, is covered and carries any flag.
    pub open spec fn flag_b(self, x: int, y: int) -> nat {
        if 0 <= x < self.width && 0 <= y < self.height && self.tiles[x][y].covered
            && self.tiles[x][y].flag is Some {
            1
        } else {
            0
        }
    }

    /// Number of flagged covered tiles among the neighbors of `p`.
    pub open spec fn flags_at(self, p: Position) -> nat {
        let x = p.x as int;
        let y = p.y as int;
        self.flag_b(x - 1, y - 1) + self.flag_b(x - 1, y) + self.flag_b(x - 1, y + 1)
            + self.flag_b(x, y - 1) + self.flag_b(x, y + 1)
            + self.flag_b(x + 1, y - 1) + self.flag_b(x + 1, y) + self.flag_b(x + 1, y + 1)
    }

    /// A covered, mine-free tile with no mine neighbor: flood fill spreads
    /// through exactly these.
    pub open spec fn covered_zero(self, p: Position) -> bool {
        &&& self.in_bounds(p)
        &&& self.tile_at(p).covered
        &&& !self.tile_at(p).mine
        &&& self.count_at(p) == 0
    }

    /// The board invariant: legal dimensions, exactly `mine_count` mines,
    /// no flag on an uncovered tile, a lost game has an uncovered mine and
    /// was started, and before the first reveal everything is covered.
    pub open spec fn wf(self) -> bool {
        &&& 8 <= self.width
        &&& 8 <= self.height
        &&& (self.mine_count as int) < (self.width as int) * (self.height as int)
        &&& self.dims_ok()
        &&& mines_in_grid(self.tiles) == self.mine_count
        &&& forall|p: Position|
            self.in_bounds(p) && !(#[trigger] self.tile_at(p)).covered
                ==> self.tile_at(p).flag is None
        &&& (self.game_over ==> self.started)
        &&& (self.game_over ==> exists|p: Position|
            self.in_bounds(p) && (#[trigger] self.tile_at(p)).mine && !self.tile_at(p).covered)
        &&& (!self.started ==> forall|p: Position|
            self.in_bounds(p) ==> (#[trigger] self.tile_at(p)).covered)
    }

    /// A chain of in-bounds positions from `src` to `dst` along which a
    /// flood fill spreads: consecutive entries are neighbors, and every
    /// entry but the last is a covered zero-count tile.
    pub open spec fn is_flood_path(self, path: Seq<Position>, src: Position, dst: Position) -> bool {
        &&& path.len() >= 1
        &&& path[0] == src
        &&& path.last() == dst
        &&& forall|i: int| 0 <= i < path.len() ==> self.in_bounds(#[trigger] path[i])
        &&& forall|i: int| 0 <= i < path.len() - 1 ==> self.covered_zero(#[trigger] path[i])
        &&& forall|i: int| 1 <= i < path.len() ==> GameModel::is_neighbor(path[i - 1], #[trigger] path[i])
    }

    /// Whether a flood fill that enters at `src` uncovers `dst`: either it
    /// is `src` itself, or a chain of covered zero-count tiles starting at
    /// `src` ends on a neighbor of `dst`.
    pub open spec fn reach(self, src: Position, dst: Position) -> bool {
        exists|path: Seq<Position>| self.is_flood_path(path, src, dst)
    }

    /// Two distinct positions whose coordinates differ by at most one each.
    pub open spec fn is_neighbor(p: Position, q: Position) -> bool {
        let dx = q.x as int - p.x as int;
        let dy = q.y as int - p.y as int;
        -1 <= dx <= 1 && -1 <= dy <= 1 && !(dx == 0 && dy == 0)
    }

    /// The state a successful reveal at `p` produces: every covered tile the
    /// flood reaches is uncovered with its flag cleared, and revealing a mine
    /// loses the game. (On a non-zero or mine tile the reach is `p` alone.)
    pub open spec fn reveal_model(self, p: Position) -> GameModel {
        GameModel {
            game_over: self.game_over || self.tile_at(p).mine,
            tiles: Seq::new(self.tiles.len(), |x: int| Seq::new(self.tiles[x].len(), |y: int|
                {
                    let t = self.tiles[x][y];
                    if t.covered && self.reach(p, (Position { x: x as u8, y: y as u8 })) {
                        StdTile { covered: false, mine: t.mine, flag: None }
                    } else {
                        t
                    }
                })),
            ..self
        }
    }

    /// One chord visit to the cell `(x, y)`: nothing once the game is over
    /// or when the cell is missing, uncovered, or flagged; otherwise a
    /// reveal at that cell.
    pub open spec fn chord_step(self, x: int, y: int) -> GameModel {
        if self.game_over || !(0 <= x < self.width && 0 <= y < self.height) {
            self
        } else {
            let t = self.tiles[x][y];
            if !t.covered || t.flag is Some {
                self
            } else {
                self.reveal_model((Position { x: x as u8, y: y as u8 }))
            }
        }
    }

    /// The state a successful chord at `p` produces: its neighbors are
    /// visited in column-major order, each as `chord_step` says.
    pub open spec fn chord_model(self, p: Position) -> GameModel {
        let x = p.x as int;
        let y = p.y as int;
        let m1 = self.chord_step(x - 1, y - 1);
        let m2 = m1.chord_step(x - 1, y);
        let m3 = m2.chord_step(x - 1, y + 1);
        let m4 = m3.chord_step(x, y - 1);
        let m5 = m4.chord_step(x, y + 1);
        let m6 = m5.chord_step(x + 1, y - 1);
        let m7 = m6.chord_step(x + 1, y);
        m7.chord_step(x + 1, y + 1)
    }

    /// The state one `cycle_flag` call on a covered tile produces.
    pub open spec fn cycle_model(self, p: Position) -> GameModel {
        let t = self.tile_at(p);
        GameModel {
            tiles: self.tiles.update(p.x as int, self.tiles[p.x as int].update(p.y as int,
                (StdTile { covered: t.covered, mine: t.mine, flag: next_flag(t.flag) }))),
            ..self
        }
    }

    /// The state that setting the mine bit at `p` produces: the tile's mine
    /// bit becomes `mine` and the board's mine count moves with it.
    pub open spec fn set_mine_model(self, p: Position, mine: bool) -> GameModel {
        let t = self.tile_at(p);
        let delta = (if mine { 1int } else { 0int }) - (if t.mine { 1int } else { 0int });
        GameModel {
            mine_count: (self.mine_count + delta) as u16,
            tiles: self.tiles.update(p.x as int, self.tiles[p.x as int].update(p.y as int,
                (StdTile { covered: t.covered, mine: mine, flag: t.flag }))),
            ..self
        }
    }

    /// The state that uncovering the single tile at `p` produces: the tile
    /// loses its cover and flag, and the session counts as started.
    pub open spec fn uncover_one(self, p: Position) -> GameModel {
        let t = self.tile_at(p);
        GameModel {
            started: true,
            tiles: self.tiles.update(p.x as int, self.tiles[p.x as int].update(p.y as int,
                (StdTile { covered: false, mine: t.mine, flag: None }))),
            ..self
        }
    }

    /// What a query at `p` shows: the flag while covered, the contents once
    /// uncovered.
    pub open spec fn spec_tile_state(self, p: Position) -> TileState {
        let t = self.tile_at(p);
        if t.covered {
            TileState::Covered(t.flag)
        } else if t.mine {
            TileState::Uncovered(TileContents::Mine)
        } else {
            TileState::Uncovered(TileContents::MineCount(self.count_at(p) as u8))
        }
    }

    /// Won: no covered mine-free tile remains. Flags play no part.
    pub open spec fn spec_victory(self) -> bool {
        forall|p: Position|
            self.in_bounds(p) && (#[trigger] self.tile_at(p)).covered ==> self.tile_at(p).mine
    }

    /// This model with the game marked as started.
    pub open spec fn with_started(self) -> GameModel {
        GameModel { started: true, ..self }
    }

    /// This model carrying the mine placement of `other`: covered state,
    /// flags and everything else stay as in `self`.
    pub open spec fn with_mines_of(self, other: GameModel) -> GameModel {
        GameModel {
            tiles: Seq::new(self.tiles.len(), |x: int| Seq::new(self.tiles[x].len(), |y: int|
                {
                    let t = self.tiles[x][y];
                    StdTile { covered: t.covered, mine: other.tiles[x][y].mine, flag: t.flag }
                })),
            ..self
        }
    }
}

/// A flood fill entering at an in-bounds position reaches at least that
/// position.
pub proof fn lemma_reach_refl(m: GameModel, src: Position)
    requires
        m.in_bounds(src),
    ensures
        m.reach(src, src),
{
    let path = seq![src];
    assert(m.is_flood_path(path, src, src));
}

/// The reach relation is closed under stepping from a covered zero-count
/// tile to any of its neighbors.
pub proof fn lemma_reach_step(m: GameModel, src: Position, mid: Position, dst: Position)
    requires
        m.covered_zero(mid),
        m.reach(src, mid),
        GameModel::is_neighbor(mid, dst),
        m.in_bounds(dst),
    ensures
        m.reach(src, dst),
{
    let path = choose|path: Seq<Position>| m.is_flood_path(path, src, mid);
    let path2 = path.push(dst);
    assert(path2.last() == dst);
    assert(forall|i: int| 0 <= i < path.len() ==> path2[i] == path[i]);
    assert(m.is_flood_path(path2, src, dst));
}

/// From a tile that is not a covered zero-count tile (a mine, a numbered
/// tile, or an uncovered one) a flood reaches nothing but the tile itself.
pub proof fn lemma_reach_from_nonzero(m: GameModel, src: Position, dst: Position)
    requires
        !m.covered_zero(src),
        m.reach(src, dst),
    ensures
        dst == src,
{
    let path = choose|path: Seq<Position>| m.is_flood_path(path, src, dst);
    if path.len() >= 2 {
        assert(m.covered_zero(path[0]));
    }
}

/// A tile with zero mine neighbors has no mine neighbor.
pub proof fn lemma_zero_no_mine_neighbor(m: GameModel, p: Position, q: Position)
    requires
        m.count_at(p) == 0,
        GameModel::is_neighbor(p, q),
        m.in_bounds(q),
    ensures
        !m.tile_at(q).mine,
{
    let qx = q.x as int;
    let qy = q.y as int;
    assert(m.mine_b(qx, qy) == (if m.tiles[qx][qy].mine { 1nat } else { 0nat }));
}

/// Flood fill from a mine-free tile never reaches a mine: whatever a
/// zero-count reveal uncovers besides the target is mine-free as well.
pub proof fn lemma_reach_no_mine(m: GameModel, src: Position, dst: Position)
    requires
        !m.tile_at(src).mine,
        m.reach(src, dst),
    ensures
        !m.tile_at(dst).mine,
{
    let path = choose|path: Seq<Position>| m.is_flood_path(path, src, dst);
    if path.len() >= 2 {
        let prev = path[path.len() - 2];
        assert(m.covered_zero(prev));
        assert(GameModel::is_neighbor(prev, dst));
        lemma_zero_no_mine_neighbor(m, prev, dst);
    }
}

/// Neighbor counts depend on the mine placement alone: models that agree
/// on dimensions and mine bits agree on every neighbor count.
pub proof fn lemma_count_at_mines_eq(m1: GameModel, m2: GameModel, p: Position)
    requires
        m1.width == m2.width,
        m1.height == m2.height,
        forall|x: int, y: int|
            0 <= x < m1.width && 0 <= y < m1.height
                ==> (#[trigger] m1.tiles[x][y]).mine == m2.tiles[x][y].mine,
    ensures
        m1.count_at(p) == m2.count_at(p),
{
    let x = p.x as int;
    let y = p.y as int;
    assert forall|a: int, b: int| true implies m1.mine_b(a, b) == m2.mine_b(a, b) by {
        if 0 <= a < m1.width && 0 <= b < m1.height {
            assert(m1.tiles[a][b].mine == m2.tiles[a][b].mine);
        }
    }
}

proof fn lemma_closure_uncovers_path(
    m0: GameModel,
    mf: GameModel,
    src: Position,
    dst: Position,
    path: Seq<Position>,
)
    requires
        forall|p: Position, q: Position|
            m0.covered_zero(p) && !(#[trigger] mf.tile_at(p)).covered
                && GameModel::is_neighbor(p, q) && m0.in_bounds(q)
                ==> !(#[trigger] mf.tile_at(q)).covered,
        !mf.tile_at(src).covered,
        m0.is_flood_path(path, src, dst),
    ensures
        !mf.tile_at(dst).covered,
    decreases path.len(),
{
    if path.len() >= 2 {
        let prev = path[path.len() - 2];
        let shorter = path.drop_last();
        assert(shorter.last() == prev);
        assert(forall|i: int| 0 <= i < shorter.len() ==> shorter[i] == path[i]);
        assert(m0.is_flood_path(shorter, src, prev));
        lemma_closure_uncovers_path(m0, mf, src, prev, shorter);
        assert(m0.covered_zero(prev));
        assert(GameModel::is_neighbor(prev, dst));
    }
}

/// Once every uncovered covered-zero frontier is exhausted — every tile the
/// flood has uncovered has all of its neighbors uncovered too — everything
/// the reach relation names is uncovered: the flood is complete.
pub proof fn lemma_closure_uncovers(m0: GameModel, mf: GameModel, src: Position, dst: Position)
    requires
        forall|p: Position, q: Position|
            m0.covered_zero(p) && !(#[trigger] mf.tile_at(p)).covered
                && GameModel::is_neighbor(p, q) && m0.in_bounds(q)
                ==> !(#[trigger] mf.tile_at(q)).covered,
        !mf.tile_at(src).covered,
        m0.reach(src, dst),
    ensures
        !mf.tile_at(dst).covered,
{
    let path = choose|path: Seq<Position>| m0.is_flood_path(path, src, dst);
    lemma_closure_uncovers_path(m0, mf, src, dst, path);
}

/// Where the linear cell index `idx` of a column-major grid with columns of
/// height `h` lands: column `idx / h`, row `idx % h`.
pub proof fn lemma_linear_index(w: int, h: int, idx: int)
    requires
        0 < h,
        0 <= idx < w * h,
    ensures
        0 <= idx / h < w,
        0 <= idx % h < h,
        (idx / h) * h + (idx % h) == idx,
{
    vstd::arithmetic::div_mod::lemma_fundamental_div_mod(idx, h);
    vstd::arithmetic::div_mod::lemma_mod_bound(idx, h);
    let q = idx / h;
    let r = idx % h;
    assert(0 <= r < h);
    assert(q >= 0) by (nonlinear_arith)
        requires
            h * q + r == idx,
            0 <= idx,
            0 <= r < h,
    ;
    assert(q < w) by (nonlinear_arith)
        requires
            h * q + r == idx,
            idx < w * h,
            0 <= r < h,
    ;
    assert(q * h == h * q) by (nonlinear_arith);
}

/// Distinct cells have distinct linear indices.
pub proof fn lemma_linear_injective(h: int, x1: int, y1: int, x2: int, y2: int)
    requires
        0 < h,
        0 <= y1 < h,
        0 <= y2 < h,
        x1 * h + y1 == x2 * h + y2,
    ensures
        x1 == x2,
        y1 == y2,
{
    assert(x1 == x2 && y1 == y2) by (nonlinear_arith)
        requires
            0 < h,
            0 <= y1 < h,
            0 <= y2 < h,
            x1 * h + y1 == x2 * h + y2,
    ;
}

} // verus!
