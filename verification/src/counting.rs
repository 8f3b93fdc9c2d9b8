//! Counting mines and covered tiles over a column-major grid of tiles.

use vstd::prelude::*;
use crate::tile::StdTile;

verus! {

/// Number of mine tiles in one column.
pub open spec fn mines_in_col(col: Seq<StdTile>) -> nat
    decreases col.len(),
{
    if col.len() == 0 {
        0
    } else {
        mines_in_col(col.drop_last()) + (if col.last().mine { 1nat } else { 0nat })
    }
}

/// Number of mine tiles on the whole grid.
pub open spec fn mines_in_grid(grid: Seq<Seq<StdTile>>) -> nat
    decreases grid.len(),
{
    if grid.len() == 0 {
        0
    } else {
        mines_in_grid(grid.drop_last()) + mines_in_col(grid.last())
    }
}

/// Number of covered tiles in one column.
pub open spec fn covered_in_col(col: Seq<StdTile>) -> nat
    decreases col.len(),
{
    if col.len() == 0 {
        0
    } else {
        covered_in_col(col.drop_last()) + (if col.last().covered { 1nat } else { 0nat })
    }
}

/// Number of covered tiles on the whole grid.
pub open spec fn covered_in_grid(grid: Seq<Seq<StdTile>>) -> nat
    decreases grid.len(),
{
    if grid.len() == 0 {
        0
    } else {
        covered_in_grid(grid.drop_last()) + covered_in_col(grid.last())
    }
}

/// Replacing one tile of a column changes its mine count by the difference
/// of the two tiles' mine bits.
pub proof fn lemma_mines_col_update(col: Seq<StdTile>, j: int, t: StdTile)
    requires
        0 <= j < col.len(),
    ensures
        mines_in_col(col.update(j, t)) + (if col[j].mine { 1nat } else { 0nat })
            == mines_in_col(col) + (if t.mine { 1nat } else { 0nat }),
    decreases col.len(),
{
    let upd = col.update(j, t);
    if j == col.len() - 1 {
        assert(upd.drop_last() =~= col.drop_last());
        assert(upd.last() == t);
    } else {
        assert(upd.drop_last() =~= col.drop_last().update(j, t));
        assert(upd.last() == col.last());
        lemma_mines_col_update(col.drop_last(), j, t);
    }
}

/// Replacing one column of a grid changes its mine count by the difference
/// of the two columns' counts.
pub proof fn lemma_mines_grid_update(grid: Seq<Seq<StdTile>>, x: int, col: Seq<StdTile>)
    requires
        0 <= x < grid.len(),
    ensures
        mines_in_grid(grid.update(x, col)) + mines_in_col(grid[x])
            == mines_in_grid(grid) + mines_in_col(col),
    decreases grid.len(),
{
    let upd = grid.update(x, col);
    if x == grid.len() - 1 {
        assert(upd.drop_last() =~= grid.drop_last());
        assert(upd.last() == col);
    } else {
        assert(upd.drop_last() =~= grid.drop_last().update(x, col));
        assert(upd.last() == grid.last());
        lemma_mines_grid_update(grid.drop_last(), x, col);
    }
}

/// Columns whose tiles agree on the mine bit have the same mine count.
pub proof fn lemma_mines_col_eq(a: Seq<StdTile>, b: Seq<StdTile>)
    requires
        a.len() == b.len(),
        forall|j: int| 0 <= j < a.len() ==> (#[trigger] a[j]).mine == b[j].mine,
    ensures
        mines_in_col(a) == mines_in_col(b),
    decreases a.len(),
{
    if a.len() > 0 {
        lemma_mines_col_eq(a.drop_last(), b.drop_last());
    }
}

/// Grids whose tiles agree on the mine bit have the same mine count.
pub proof fn lemma_mines_grid_eq(a: Seq<Seq<StdTile>>, b: Seq<Seq<StdTile>>)
    requires
        a.len() == b.len(),
        forall|x: int| 0 <= x < a.len() ==> (#[trigger] a[x]).len() == b[x].len(),
        forall|x: int, j: int|
            0 <= x < a.len() && 0 <= j < a[x].len() ==> (#[trigger] a[x][j]).mine == b[x][j].mine,
    ensures
        mines_in_grid(a) == mines_in_grid(b),
    decreases a.len(),
{
    if a.len() > 0 {
        lemma_mines_grid_eq(a.drop_last(), b.drop_last());
        lemma_mines_col_eq(a.last(), b.last());
    }
}

/// A column with no mine tile counts zero mines.
pub proof fn lemma_mines_col_zero(col: Seq<StdTile>)
    requires
        forall|j: int| 0 <= j < col.len() ==> !(#[trigger] col[j]).mine,
    ensures
        mines_in_col(col) == 0,
    decreases col.len(),
{
    if col.len() > 0 {
        lemma_mines_col_zero(col.drop_last());
    }
}

/// A grid with no mine tile counts zero mines.
pub proof fn lemma_mines_grid_zero(grid: Seq<Seq<StdTile>>)
    requires
        forall|x: int, j: int|
            0 <= x < grid.len() && 0 <= j < grid[x].len() ==> !(#[trigger] grid[x][j]).mine,
    ensures
        mines_in_grid(grid) == 0,
    decreases grid.len(),
{
    if grid.len() > 0 {
        lemma_mines_grid_zero(grid.drop_last());
        lemma_mines_col_zero(grid.last());
    }
}

/// Replacing one tile of a column changes its covered count by the
/// difference of the two tiles' covered bits.
pub proof fn lemma_covered_col_update(col: Seq<StdTile>, j: int, t: StdTile)
    requires
        0 <= j < col.len(),
    ensures
        covered_in_col(col.update(j, t)) + (if col[j].covered { 1nat } else { 0nat })
            == covered_in_col(col) + (if t.covered { 1nat } else { 0nat }),
    decreases col.len(),
{
    let upd = col.update(j, t);
    if j == col.len() - 1 {
        assert(upd.drop_last() =~= col.drop_last());
        assert(upd.last() == t);
    } else {
        assert(upd.drop_last() =~= col.drop_last().update(j, t));
        assert(upd.last() == col.last());
        lemma_covered_col_update(col.drop_last(), j, t);
    }
}

/// Replacing one column of a grid changes its covered count by the
/// difference of the two columns' counts.
pub proof fn lemma_covered_grid_update(grid: Seq<Seq<StdTile>>, x: int, col: Seq<StdTile>)
    requires
        0 <= x < grid.len(),
    ensures
        covered_in_grid(grid.update(x, col)) + covered_in_col(grid[x])
            == covered_in_grid(grid) + covered_in_col(col),
    decreases grid.len(),
{
    let upd = grid.update(x, col);
    if x == grid.len() - 1 {
        assert(upd.drop_last() =~= grid.drop_last());
        assert(upd.last() == col);
    } else {
        assert(upd.drop_last() =~= grid.drop_last().update(x, col));
        assert(upd.last() == grid.last());
        lemma_covered_grid_update(grid.drop_last(), x, col);
    }
}

} // verus!
