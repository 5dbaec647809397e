//! The mathematical model of the cell matrix.
//!
//! A grid is a `Seq<Seq<bool>>`: `g[y][x]` tells whether the cell in column
//! `x` of row `y` is alive. Everything here is ghost code; the executable
//! engine states its contracts in these terms.

use vstd::prelude::*;

verus! {

/// Every row of `g` has `width` cells and there are `height` rows.
pub open spec fn is_rect(g: Seq<Seq<bool>>, width: nat, height: nat) -> bool {
    &&& g.len() == height
    &&& forall|y: int| 0 <= y < g.len() ==> (#[trigger] g[y]).len() == width
}

/// Whether `(x, y)` names a cell of `g`.
pub open spec fn in_bounds(g: Seq<Seq<bool>>, x: int, y: int) -> bool {
    0 <= y < g.len() && 0 <= x < g[y].len()
}

/// Whether the cell at `(x, y)` is alive. Coordinates outside the grid name
/// no cell, so nothing is alive there: the grid does not wrap.
pub open spec fn alive_at(g: Seq<Seq<bool>>, x: int, y: int) -> bool {
    in_bounds(g, x, y) && g[y][x]
}

/// One for a cell in the given state, zero otherwise.
pub open spec fn one_if(b: bool) -> nat {
    if b {
        1
    } else {
        0
    }
}

/// The number of live cells among the eight cells of the Moore neighbourhood
/// of `(x, y)`.
pub open spec fn live_neighbors(g: Seq<Seq<bool>>, x: int, y: int) -> nat {
    one_if(alive_at(g, x - 1, y - 1)) + one_if(alive_at(g, x, y - 1)) + one_if(
        alive_at(g, x + 1, y - 1),
    ) + one_if(alive_at(g, x - 1, y)) + one_if(alive_at(g, x + 1, y)) + one_if(
        alive_at(g, x - 1, y + 1),
    ) + one_if(alive_at(g, x, y + 1)) + one_if(alive_at(g, x + 1, y + 1))
}

/// The birth and survival rule: a live cell stays alive with two or three
/// live neighbours, a dead cell comes alive with exactly three.
pub open spec fn next_state(alive: bool, neighbors: nat) -> bool {
    if alive {
        neighbors == 2 || neighbors == 3
    } else {
        neighbors == 3
    }
}

/// The next generation: every cell's new state is decided from `g` alone, so
/// no decision sees another cell's new state.
pub open spec fn step(g: Seq<Seq<bool>>) -> Seq<Seq<bool>> {
    Seq::new(
        g.len(),
        |y: int| Seq::new(g[y].len(), |x: int| next_state(g[y][x], live_neighbors(g, x, y))),
    )
}

/// The grid of the given extent in which every cell is dead.
pub open spec fn empty_grid(width: nat, height: nat) -> Seq<Seq<bool>> {
    Seq::new(height, |y: int| Seq::new(width, |x: int| false))
}

/// `g` with the cell at `(x, y)` set to `alive`.
pub open spec fn with_cell(g: Seq<Seq<bool>>, x: int, y: int, alive: bool) -> Seq<Seq<bool>> {
    g.update(y, g[y].update(x, alive))
}

/// The number of cells of `row` that are in state `state`.
pub open spec fn count_in_row(row: Seq<bool>, state: bool) -> nat
    decreases row.len(),
{
    if row.len() == 0 {
        0
    } else {
        count_in_row(row.drop_last(), state) + one_if(row.last() == state)
    }
}

/// The number of cells of `g` that are in state `state`.
pub open spec fn count_in_grid(g: Seq<Seq<bool>>, state: bool) -> nat
    decreases g.len(),
{
    if g.len() == 0 {
        0
    } else {
        count_in_grid(g.drop_last(), state) + count_in_row(g.last(), state)
    }
}

/// The number of live cells of `g`.
pub open spec fn live_count(g: Seq<Seq<bool>>) -> nat {
    count_in_grid(g, true)
}

/// The number of dead cells of `g`.
pub open spec fn dead_count(g: Seq<Seq<bool>>) -> nat {
    count_in_grid(g, false)
}

/// The number of cells in state `state` that come before `(x, y)` in
/// row-major order: all of the rows above `y`, then row `y` up to column `x`.
pub open spec fn rank_of(g: Seq<Seq<bool>>, x: int, y: int, state: bool) -> nat {
    count_in_grid(g.take(y), state) + count_in_row(g[y].take(x), state)
}

/// A row's cells are either alive or dead.
pub proof fn lemma_row_partition(row: Seq<bool>)
    ensures
        count_in_row(row, true) + count_in_row(row, false) == row.len(),
    decreases row.len(),
{
    if row.len() > 0 {
        lemma_row_partition(row.drop_last());
    }
}

/// A rectangular grid's cells are either alive or dead.
pub proof fn lemma_grid_partition(g: Seq<Seq<bool>>, width: nat, height: nat)
    requires
        is_rect(g, width, height),
    ensures
        live_count(g) + dead_count(g) == width * height,
    decreases g.len(),
{
    if g.len() > 0 {
        let rest = g.drop_last();
        assert(is_rect(rest, width, (height - 1) as nat));
        lemma_grid_partition(rest, width, (height - 1) as nat);
        lemma_row_partition(g.last());
        assert(width * height == width * (height - 1) + width) by (nonlinear_arith)
            requires
                height >= 1,
        ;
    } else {
        assert(width * height == 0) by (nonlinear_arith)
            requires
                height == 0,
        ;
    }
}

/// Appending a cell to a row counts it once if it is in the state counted.
pub proof fn lemma_count_in_row_push(row: Seq<bool>, cell: bool, state: bool)
    ensures
        count_in_row(row.push(cell), state) == count_in_row(row, state) + one_if(cell == state),
{
    assert(row.push(cell).drop_last() =~= row);
}

/// Appending a row to a grid adds the row's count.
pub proof fn lemma_count_in_grid_push(g: Seq<Seq<bool>>, row: Seq<bool>, state: bool)
    ensures
        count_in_grid(g.push(row), state) == count_in_grid(g, state) + count_in_row(row, state),
{
    assert(g.push(row).drop_last() =~= g);
}

/// Counting one more cell of a row's prefix.
pub proof fn lemma_count_in_row_take(row: Seq<bool>, x: int, state: bool)
    requires
        0 <= x < row.len(),
    ensures
        count_in_row(row.take(x + 1), state) == count_in_row(row.take(x), state) + one_if(
            row[x] == state,
        ),
{
    assert(row.take(x + 1).drop_last() =~= row.take(x));
}

/// Counting one more row of a grid's prefix.
pub proof fn lemma_count_in_grid_take(g: Seq<Seq<bool>>, y: int, state: bool)
    requires
        0 <= y < g.len(),
    ensures
        count_in_grid(g.take(y + 1), state) == count_in_grid(g.take(y), state) + count_in_row(
            g[y],
            state,
        ),
{
    assert(g.take(y + 1).drop_last() =~= g.take(y));
}

/// Changing one cell of a row moves one unit from the count of its old state
/// to the count of its new state.
pub proof fn lemma_count_in_row_update(row: Seq<bool>, x: int, alive: bool, state: bool)
    requires
        0 <= x < row.len(),
    ensures
        count_in_row(row.update(x, alive), state) + one_if(row[x] == state) == count_in_row(
            row,
            state,
        ) + one_if(alive == state),
    decreases row.len(),
{
    let changed = row.update(x, alive);
    if x == row.len() - 1 {
        assert(changed.drop_last() =~= row.drop_last());
    } else {
        assert(changed.drop_last() =~= row.drop_last().update(x, alive));
        lemma_count_in_row_update(row.drop_last(), x, alive, state);
    }
}

/// Replacing one row of a grid replaces that row's share of the count.
pub proof fn lemma_count_in_grid_update(g: Seq<Seq<bool>>, y: int, row: Seq<bool>, state: bool)
    requires
        0 <= y < g.len(),
    ensures
        count_in_grid(g.update(y, row), state) + count_in_row(g[y], state) == count_in_grid(
            g,
            state,
        ) + count_in_row(row, state),
    decreases g.len(),
{
    let changed = g.update(y, row);
    if y == g.len() - 1 {
        assert(changed.drop_last() =~= g.drop_last());
    } else {
        assert(changed.drop_last() =~= g.drop_last().update(y, row));
        lemma_count_in_grid_update(g.drop_last(), y, row, state);
    }
}

/// Setting one cell of a grid moves one unit from the count of its old state
/// to the count of its new state, and leaves the extent alone.
pub proof fn lemma_with_cell(g: Seq<Seq<bool>>, x: int, y: int, alive: bool, state: bool)
    requires
        in_bounds(g, x, y),
    ensures
        count_in_grid(with_cell(g, x, y, alive), state) + one_if(g[y][x] == state)
            == count_in_grid(g, state) + one_if(alive == state),
        forall|width: nat, height: nat|
            is_rect(g, width, height) ==> is_rect(with_cell(g, x, y, alive), width, height),
{
    lemma_count_in_row_update(g[y], x, alive, state);
    lemma_count_in_grid_update(g, y, g[y].update(x, alive), state);
}

/// A row counts no cell in a state exactly when none of its cells is in it.
pub proof fn lemma_count_in_row_zero(row: Seq<bool>, state: bool)
    ensures
        count_in_row(row, state) == 0 <==> forall|x: int| 0 <= x < row.len() ==> row[x] != state,
    decreases row.len(),
{
    if row.len() > 0 {
        let rest = row.drop_last();
        lemma_count_in_row_zero(rest, state);
        if count_in_row(row, state) == 0 {
            assert forall|x: int| 0 <= x < row.len() implies row[x] != state by {
                if x < rest.len() {
                    assert(rest[x] == row[x]);
                }
            }
        } else if row.last() != state {
            let x = choose|x: int| 0 <= x < rest.len() && rest[x] == state;
            assert(row[x] == state);
        }
    }
}

/// A grid has no live cell exactly when its live count is zero.
pub proof fn lemma_live_count_zero(g: Seq<Seq<bool>>)
    ensures
        live_count(g) == 0 <==> forall|x: int, y: int| !alive_at(g, x, y),
    decreases g.len(),
{
    if g.len() > 0 {
        let rest = g.drop_last();
        let last = g.len() - 1;
        lemma_live_count_zero(rest);
        lemma_count_in_row_zero(g.last(), true);
        if live_count(g) == 0 {
            assert forall|x: int, y: int| !alive_at(g, x, y) by {
                if 0 <= y < last {
                    assert(rest[y] == g[y]);
                    assert(!alive_at(rest, x, y));
                }
            }
        } else if count_in_row(g.last(), true) != 0 {
            let x = choose|x: int| 0 <= x < g.last().len() && g.last()[x];
            assert(alive_at(g, x, last));
        } else {
            let (x, y) = choose|x: int, y: int| alive_at(rest, x, y);
            assert(alive_at(g, x, y));
        }
    }
}

/// The empty grid is rectangular and holds no live cell.
pub proof fn lemma_empty_grid(width: nat, height: nat)
    ensures
        is_rect(empty_grid(width, height), width, height),
        live_count(empty_grid(width, height)) == 0,
        forall|x: int, y: int| !alive_at(empty_grid(width, height), x, y),
{
    lemma_live_count_zero(empty_grid(width, height));
}

/// A generation keeps the grid's extent: no cell is made and none is lost.
pub proof fn law_step_keeps_extent(g: Seq<Seq<bool>>, width: nat, height: nat)
    requires
        is_rect(g, width, height),
    ensures
        is_rect(step(g), width, height),
{
}

/// A grid without live cells is its own next generation.
pub proof fn lemma_step_of_extinct(g: Seq<Seq<bool>>)
    requires
        live_count(g) == 0,
    ensures
        step(g) == g,
{
    lemma_live_count_zero(g);
    assert forall|y: int| 0 <= y < g.len() implies step(g)[y] =~= g[y] by {
        assert forall|x: int| 0 <= x < g[y].len() implies step(g)[y][x] == g[y][x] by {
            assert(!alive_at(g, x, y));
            assert(!alive_at(g, x - 1, y - 1) && !alive_at(g, x, y - 1) && !alive_at(
                g,
                x + 1,
                y - 1,
            ));
            assert(!alive_at(g, x - 1, y) && !alive_at(g, x + 1, y));
            assert(!alive_at(g, x - 1, y + 1) && !alive_at(g, x, y + 1) && !alive_at(
                g,
                x + 1,
                y + 1,
            ));
        }
    }
    assert(step(g) =~= g);
}

/// No more cells of a rectangular grid are in one state than it has cells.
pub proof fn lemma_count_bound(g: Seq<Seq<bool>>, width: nat, height: nat, state: bool)
    requires
        is_rect(g, width, height),
    ensures
        count_in_grid(g, state) <= width * height,
{
    lemma_grid_partition(g, width, height);
}

/// A prefix of a row counts no more cells than the row.
pub proof fn lemma_count_in_row_prefix(row: Seq<bool>, x: int, state: bool)
    requires
        0 <= x <= row.len(),
    ensures
        count_in_row(row.take(x), state) <= count_in_row(row, state),
    decreases row.len(),
{
    if x == row.len() {
        assert(row.take(x) =~= row);
    } else {
        assert(row.drop_last().take(x) =~= row.take(x));
        lemma_count_in_row_prefix(row.drop_last(), x, state);
    }
}

/// A prefix of a grid counts no more cells than the grid.
pub proof fn lemma_count_in_grid_prefix(g: Seq<Seq<bool>>, y: int, state: bool)
    requires
        0 <= y <= g.len(),
    ensures
        count_in_grid(g.take(y), state) <= count_in_grid(g, state),
    decreases g.len(),
{
    if y == g.len() {
        assert(g.take(y) =~= g);
    } else {
        assert(g.drop_last().take(y) =~= g.take(y));
        lemma_count_in_grid_prefix(g.drop_last(), y, state);
    }
}

/// The rank of a cell among the cells of its state is below their number.
pub proof fn lemma_rank_below_count(g: Seq<Seq<bool>>, x: int, y: int, state: bool)
    requires
        in_bounds(g, x, y),
        g[y][x] == state,
    ensures
        rank_of(g, x, y, state) < count_in_grid(g, state),
{
    lemma_count_in_row_take(g[y], x, state);
    lemma_count_in_row_prefix(g[y], x + 1, state);
    lemma_count_in_grid_take(g, y, state);
    lemma_count_in_grid_prefix(g, y + 1, state);
}

/// The rule of the game, case by case, for a cell of the grid: a dead cell
/// with exactly three live neighbours comes alive and no other dead cell
/// does; a live cell with fewer than two live neighbours dies, one with two
/// or three stays alive, and one with four or more dies.
pub proof fn law_generation_rule(g: Seq<Seq<bool>>, x: int, y: int)
    requires
        in_bounds(g, x, y),
    ensures
        !g[y][x] && live_neighbors(g, x, y) == 3 ==> step(g)[y][x],
        !g[y][x] && live_neighbors(g, x, y) != 3 ==> !step(g)[y][x],
        g[y][x] && live_neighbors(g, x, y) < 2 ==> !step(g)[y][x],
        g[y][x] && 2 <= live_neighbors(g, x, y) <= 3 ==> step(g)[y][x],
        g[y][x] && live_neighbors(g, x, y) >= 4 ==> !step(g)[y][x],
        live_neighbors(g, x, y) <= 8,
{
}

/// Among the cells of one state, no two have the same rank: a state and a
/// rank name at most one cell.
pub proof fn law_rank_names_one_cell(
    g: Seq<Seq<bool>>,
    x1: int,
    y1: int,
    x2: int,
    y2: int,
    state: bool,
)
    requires
        in_bounds(g, x1, y1),
        in_bounds(g, x2, y2),
        g[y1][x1] == state,
        g[y2][x2] == state,
        rank_of(g, x1, y1, state) == rank_of(g, x2, y2, state),
    ensures
        x1 == x2 && y1 == y2,
{
    if y1 < y2 {
        lemma_rank_grows(g, x1, y1, x2, y2, state);
    } else if y2 < y1 {
        lemma_rank_grows(g, x2, y2, x1, y1, state);
    } else if x1 < x2 {
        lemma_rank_grows(g, x1, y1, x2, y2, state);
    } else if x2 < x1 {
        lemma_rank_grows(g, x2, y2, x1, y1, state);
    }
}

/// A cell that comes after a cell of the counted state has a larger rank.
proof fn lemma_rank_grows(g: Seq<Seq<bool>>, x1: int, y1: int, x2: int, y2: int, state: bool)
    requires
        in_bounds(g, x1, y1),
        in_bounds(g, x2, y2),
        g[y1][x1] == state,
        y1 < y2 || (y1 == y2 && x1 < x2),
    ensures
        rank_of(g, x1, y1, state) < rank_of(g, x2, y2, state),
{
    lemma_count_in_row_take(g[y1], x1, state);
    if y1 < y2 {
        lemma_count_in_row_prefix(g[y1], x1 + 1, state);
        lemma_count_in_grid_take(g, y1, state);
        assert(g.take(y2).take(y1 + 1) =~= g.take(y1 + 1));
        lemma_count_in_grid_prefix(g.take(y2), y1 + 1, state);
    } else {
        assert(g[y1].take(x2).take(x1 + 1) =~= g[y1].take(x1 + 1));
        lemma_count_in_row_prefix(g[y1].take(x2), x1 + 1, state);
    }
}

} // verus!
