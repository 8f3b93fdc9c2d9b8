//! The game's laws, stated and proved over the board model: what a fresh
//! board shows, what reveals may and must uncover, how flags cycle, what a
//! chord uncovers, and what victory depends on.

use vstd::prelude::*;
use crate::model::{
    lemma_reach_from_nonzero, lemma_reach_no_mine, lemma_reach_refl, GameModel,
};
use crate::tile::{FlagState, Position, TileState};

verus! {

/// On a freshly constructed board — all tiles covered and unflagged — every
/// position shows `Covered(None)`.
pub proof fn lemma_fresh_board_covered(m: GameModel, p: Position)
    requires
        m.in_bounds(p),
        forall|q: Position|
            m.in_bounds(q) ==> (#[trigger] m.tile_at(q)).covered && m.tile_at(q).flag is None,
    ensures
        m.spec_tile_state(p) == TileState::Covered(None::<FlagState>),
{
}

/// A reveal of a mine-free tile never uncovers a mine: every tile it takes
/// the cover from is mine-free as well.
pub proof fn lemma_reveal_no_mine_uncovered(m: GameModel, p: Position, q: Position)
    requires
        m.dims_ok(),
        m.in_bounds(q),
        !m.tile_at(p).mine,
        m.tile_at(q).covered,
        !m.reveal_model(p).tile_at(q).covered,
    ensures
        !m.tile_at(q).mine,
{
    assert(m.reach(p, q));
    lemma_reach_no_mine(m, p, q);
}

/// A reveal uncovers everything its flood reaches: the connected zero-count
/// region around the target and its numbered border.
pub proof fn lemma_reveal_uncovers_region(m: GameModel, p: Position, q: Position)
    requires
        m.dims_ok(),
        m.in_bounds(q),
        m.tile_at(q).covered,
        m.reach(p, q),
    ensures
        !m.reveal_model(p).tile_at(q).covered,
{
}

/// Revealing a covered mine loses the game, uncovers that mine, and leaves
/// every other tile exactly as it was.
pub proof fn lemma_reveal_mine(m: GameModel, p: Position, q: Position)
    requires
        m.dims_ok(),
        m.in_bounds(p),
        m.tile_at(p).mine,
        m.tile_at(p).covered,
        m.in_bounds(q),
        q != p,
    ensures
        m.reveal_model(p).game_over,
        !m.reveal_model(p).tile_at(p).covered,
        m.reveal_model(p).tile_at(q) == m.tile_at(q),
{
    lemma_reach_refl(m, p);
    if m.reach(p, q) {
        lemma_reach_from_nonzero(m, p, q);
    }
}

/// Three consecutive flag cycles restore a board exactly.
pub proof fn lemma_cycle_flag_three(m: GameModel, p: Position)
    requires
        m.dims_ok(),
        m.in_bounds(p),
    ensures
        m.cycle_model(p).cycle_model(p).cycle_model(p) == m,
{
    let px = p.x as int;
    let py = p.y as int;
    let m3 = m.cycle_model(p).cycle_model(p).cycle_model(p);
    assert(m.cycle_model(p).tiles.len() == m.tiles.len());
    assert forall|a: int| 0 <= a < m.tiles.len() implies #[trigger] m3.tiles[a] =~= m.tiles[a] by {
        if a == px {
            assert forall|b: int| 0 <= b < m.tiles[a].len() implies #[trigger] m3.tiles[a][b]
                == m.tiles[a][b] by {
                if b == py {
                    assert(m3.tiles[a][b].flag == m.tiles[a][b].flag);
                }
            }
        }
    }
    assert(m3.tiles =~~= m.tiles);
    assert(m3 =~~= m);
}

/// How one chord visit to the cell `(x, y)` treats the tile at `q`: an
/// uncovered tile stays uncovered, a tile that stays covered is untouched,
/// and when the visit lands on `q` itself — in a running game, covered and
/// unflagged — its cover comes off.
proof fn lemma_chord_step_tile(m: GameModel, x: int, y: int, q: Position)
    requires
        m.dims_ok(),
        m.in_bounds(q),
    ensures
        m.chord_step(x, y).width == m.width,
        m.chord_step(x, y).height == m.height,
        m.chord_step(x, y).dims_ok(),
        !m.chord_step(x, y).game_over ==> !m.game_over,
        !m.tile_at(q).covered ==> !m.chord_step(x, y).tile_at(q).covered,
        m.tile_at(q).covered && m.chord_step(x, y).tile_at(q).covered
            ==> m.chord_step(x, y).tile_at(q) == m.tile_at(q),
        (!m.game_over && x == q.x as int && y == q.y as int && m.tile_at(q).covered
            && m.tile_at(q).flag is None) ==> !m.chord_step(x, y).tile_at(q).covered,
{
    let cs = m.chord_step(x, y);
    if !m.game_over && 0 <= x < m.width && 0 <= y < m.height {
        let t = m.tiles[x][y];
        if t.covered && t.flag is None {
            let target = Position { x: x as u8, y: y as u8 };
            assert(cs == m.reveal_model(target));
            assert(cs.tiles[q.x as int].len() == m.tiles[q.x as int].len());
            if x == q.x as int && y == q.y as int {
                assert(target == q);
                lemma_reach_refl(m, q);
                assert(!cs.tile_at(q).covered);
            }
        }
    }
    assert forall|a: int| 0 <= a < cs.tiles.len() implies (#[trigger] cs.tiles[a]).len()
        == m.height by {
        assert(m.tiles[a].len() == m.height);
    }
}

/// A successful chord uncovers every neighbor that was covered and
/// unflagged, provided no visited neighbor held a mine and ended the game.
pub proof fn lemma_chord_uncovers_neighbors(m: GameModel, p: Position, q: Position)
    requires
        m.dims_ok(),
        m.in_bounds(q),
        GameModel::is_neighbor(p, q),
        m.tile_at(q).covered,
        m.tile_at(q).flag is None,
        !m.chord_model(p).game_over,
    ensures
        !m.chord_model(p).tile_at(q).covered,
{
    let x = p.x as int;
    let y = p.y as int;
    let m1 = m.chord_step(x - 1, y - 1);
    let m2 = m1.chord_step(x - 1, y);
    let m3 = m2.chord_step(x - 1, y + 1);
    let m4 = m3.chord_step(x, y - 1);
    let m5 = m4.chord_step(x, y + 1);
    let m6 = m5.chord_step(x + 1, y - 1);
    let m7 = m6.chord_step(x + 1, y);
    lemma_chord_step_tile(m, x - 1, y - 1, q);
    lemma_chord_step_tile(m1, x - 1, y, q);
    lemma_chord_step_tile(m2, x - 1, y + 1, q);
    lemma_chord_step_tile(m3, x, y - 1, q);
    lemma_chord_step_tile(m4, x, y + 1, q);
    lemma_chord_step_tile(m5, x + 1, y - 1, q);
    lemma_chord_step_tile(m6, x + 1, y, q);
    lemma_chord_step_tile(m7, x + 1, y + 1, q);
}

/// Victory depends on covers and mines alone: boards that agree on those
/// agree on victory, whatever flags sit on the remaining tiles.
pub proof fn lemma_victory_ignores_flags(m1: GameModel, m2: GameModel)
    requires
        m1.width == m2.width,
        m1.height == m2.height,
        forall|q: Position|
            m1.in_bounds(q)
                ==> (#[trigger] m1.tile_at(q)).covered == m2.tile_at(q).covered
                    && m1.tile_at(q).mine == m2.tile_at(q).mine,
    ensures
        m1.spec_victory() == m2.spec_victory(),
{
    if m1.spec_victory() {
        assert forall|q: Position|
            m2.in_bounds(q) && (#[trigger] m2.tile_at(q)).covered implies
            m2.tile_at(q).mine by {
            assert(m1.tile_at(q).covered);
        }
    }
    if m2.spec_victory() {
        assert forall|q: Position|
            m1.in_bounds(q) && (#[trigger] m1.tile_at(q)).covered implies
            m1.tile_at(q).mine by {
            assert(m2.tile_at(q).covered);
        }
    }
}

/// While a tile stays covered, its shown state is its flag alone: two
/// boards that agree on that tile's cover and flag show it alike, whatever
/// became of the mines beneath. This is why a failed first reveal, though
/// it redrew the mine placement, changes nothing a caller can see.
pub proof fn lemma_covered_view_eq(m1: GameModel, m2: GameModel, p: Position)
    requires
        m1.in_bounds(p),
        m2.in_bounds(p),
        m1.tile_at(p).covered,
        m2.tile_at(p).covered,
        m1.tile_at(p).flag == m2.tile_at(p).flag,
    ensures
        m1.spec_tile_state(p) == m2.spec_tile_state(p),
{
}

} // verus!
