//! The executable grid engine: the world owns the cell matrix, counts
//! neighbours, applies the rule and keeps the number of live cells.

use crate::grid::{
    alive_at, count_in_grid, count_in_row, dead_count, empty_grid, in_bounds, is_rect,
    lemma_count_bound, lemma_count_in_grid_push, lemma_count_in_grid_take,
    lemma_count_in_row_push, lemma_count_in_row_take, lemma_empty_grid, lemma_grid_partition,
    lemma_rank_below_count, lemma_step_of_extinct, lemma_with_cell, live_count, live_neighbors,
    next_state, one_if, rank_of, step, with_cell,
};
use rand::Rng;
use vstd::prelude::*;

verus! {

/// A coordinate pair; also used for the extent of a world.
#[derive(Debug, Clone, Copy, PartialEq, Eq, Structural)]
pub struct Position {
    pub x: usize,
    pub y: usize,
}

/// One cell of the matrix.
#[derive(Debug, Clone, Copy, PartialEq, Eq, Structural)]
pub struct Cell {
    pub alive: bool,
    pub position: Position,
}

/// Why an operation on a world was refused.
#[derive(Debug, Clone, Copy, PartialEq, Eq, Structural)]
pub enum WorldError {
    /// A coordinate names no cell of the world.
    OutOfBounds,
    /// More cells were asked for than the world has dead cells left.
    InvalidPopulationRequest,
}

/// A request to set one cell, with the coordinates as an operator gives
/// them: signed, and not yet known to name a cell.
#[derive(Debug, Clone, Copy, PartialEq, Eq, Structural)]
pub struct CellEdit {
    pub x: i32,
    pub y: i32,
    pub alive: bool,
}

/// The world: a fixed `width × height` matrix of cells, indexed `[y][x]`.
///
/// The population is kept equal to the number of live cells, whichever way
/// they came to be alive or dead: insertions, seeding and generations all
/// keep it in step. A world is therefore extinct exactly when its
/// population is zero, and `tick` may leave such a world untouched once a
/// first generation has been computed.
pub struct World {
    start: bool,
    population: u64,
    size: Position,
    space: Vec<Vec<Cell>>,
}

/// The alive flags of a row of cells.
spec fn flags(row: Seq<Cell>) -> Seq<bool> {
    Seq::new(row.len(), |x: int| row[x].alive)
}

/// The alive flags of a matrix of cells.
spec fn flag_rows(space: Seq<Vec<Cell>>) -> Seq<Seq<bool>> {
    Seq::new(space.len(), |y: int| flags(space[y]@))
}

/// Every cell's stored position equals its indices in the matrix.
spec fn positions_match(space: Seq<Vec<Cell>>) -> bool {
    forall|y: int, x: int|
        0 <= y < space.len() && 0 <= x < space[y]@.len() ==> (#[trigger] space[y]@[x]).position
            == (Position { x: x as usize, y: y as usize })
}

impl View for World {
    type V = Seq<Seq<bool>>;

    /// The world as a grid of alive flags, `self@[y][x]`.
    closed spec fn view(&self) -> Seq<Seq<bool>> {
        flag_rows(self.space@)
    }
}

impl WorldError {
    /// The text of `message`.
    pub open spec fn message_text(self) -> Seq<char> {
        match self {
            WorldError::OutOfBounds => "the position is outside the world"@,
            WorldError::InvalidPopulationRequest => "the world has too few dead cells left"@,
        }
    }

    /// A sentence that says what went wrong.
    pub fn message(&self) -> (text: &'static str)
        ensures
            text@ == self.message_text(),
    {
        match self {
            WorldError::OutOfBounds => "the position is outside the world",
            WorldError::InvalidPopulationRequest => "the world has too few dead cells left",
        }
    }
}

impl Cell {
    /// A dead cell at `(x, y)`.
    pub fn new(x: usize, y: usize) -> (cell: Self)
        ensures
            cell == (Cell { alive: false, position: Position { x, y } }),
    {
        Self { alive: false, position: Position { x, y } }
    }

    /// A live cell at `(x, y)`.
    pub fn new_alive(x: usize, y: usize) -> (cell: Self)
        ensures
            cell == (Cell { alive: true, position: Position { x, y } }),
    {
        Self { alive: true, position: Position { x, y } }
    }

    /// Marks the cell dead and leaves it where it is.
    pub fn kill(&mut self)
        ensures
            *final(self) == (Cell { alive: false, position: old(self).position }),
    {
        self.alive = false;
    }

    /// The number of live cells of `world` among the eight neighbours of this
    /// cell's position. Neighbours that fall outside the world are skipped.
    pub fn count_neighbor(&self, world: &World) -> (counter: u8)
        requires
            world.wf(),
        ensures
            counter == live_neighbors(world@, self.position.x as int, self.position.y as int),
            counter <= 8,
    {
        let x = self.position.x;
        let y = self.position.y;
        let mut counter: u8 = 0;
        if y > 0 {
            counter = counter + world.count_in_span(x, y - 1, true);
        }
        counter = counter + world.count_in_span(x, y, false);
        if y < usize::MAX {
            counter = counter + world.count_in_span(x, y + 1, true);
        }
        counter
    }
}

impl World {
    /// The number of columns.
    pub closed spec fn spec_width(&self) -> nat {
        self.size.x as nat
    }

    /// The number of rows.
    pub closed spec fn spec_height(&self) -> nat {
        self.size.y as nat
    }

    /// The tracked number of live cells.
    pub closed spec fn spec_population(&self) -> nat {
        self.population as nat
    }

    /// Whether no generation has been computed yet.
    pub closed spec fn spec_first_generation(&self) -> bool {
        self.start
    }

    /// What holds of the stored matrix beyond its view: each cell knows its
    /// own place.
    pub closed spec fn cells_in_place(&self) -> bool {
        positions_match(self.space@)
    }

    /// The invariant of a world: the matrix has the world's extent, each
    /// cell sits at its own position, the population is the number of live
    /// cells, and the number of cells fits the machine.
    pub open spec fn wf(&self) -> bool {
        &&& is_rect(self@, self.spec_width(), self.spec_height())
        &&& self.cells_in_place()
        &&& self.spec_population() == live_count(self@)
        &&& self.spec_width() * self.spec_height() <= usize::MAX
    }

    /// A world is frozen once a generation has been computed and no live
    /// cell is left.
    pub open spec fn frozen(&self) -> bool {
        !self.spec_first_generation() && self.spec_population() == 0
    }

    /// A world of the given extent in which every cell is dead.
    pub fn new(size: Position) -> (world: Self)
        requires
            size.x * size.y <= usize::MAX,
        ensures
            world.wf(),
            world.spec_width() == size.x,
            world.spec_height() == size.y,
            world@ == empty_grid(size.x as nat, size.y as nat),
            forall|x: int, y: int| !alive_at(world@, x, y),
            world.spec_population() == 0,
            world.spec_first_generation(),
    {
        let mut space: Vec<Vec<Cell>> = Vec::new();
        let mut y: usize = 0;
        while y < size.y
            invariant
                y <= size.y,
                space@.len() == y,
                flag_rows(space@) == empty_grid(size.x as nat, y as nat),
                positions_match(space@),
            decreases size.y - y,
        {
            let mut row: Vec<Cell> = Vec::new();
            let mut x: usize = 0;
            while x < size.x
                invariant
                    x <= size.x,
                    row@.len() == x,
                    forall|i: int|
                        0 <= i < x ==> (#[trigger] row@[i]) == (Cell {
                            alive: false,
                            position: Position { x: i as usize, y },
                        }),
                decreases size.x - x,
            {
                row.push(Cell::new(x, y));
                x = x + 1;
            }
            let ghost before = space@;
            space.push(row);
            proof {
                assert forall|j: int| 0 <= j < space@.len() implies flag_rows(space@)[j]
                    =~= empty_grid(size.x as nat, (y + 1) as nat)[j] by {
                    if j < y {
                        assert(space@[j] == before[j]);
                        assert(flag_rows(before)[j] == empty_grid(size.x as nat, y as nat)[j]);
                    }
                }
                assert(flag_rows(space@) =~= empty_grid(size.x as nat, (y + 1) as nat));
                assert forall|j: int, i: int|
                    0 <= j < space@.len() && 0 <= i < space@[j]@.len() implies (
                #[trigger] space@[j]@[i]).position == (Position {
                    x: i as usize,
                    y: j as usize,
                }) by {
                    if j < y {
                        assert(space@[j] == before[j]);
                    }
                }
            }
            y = y + 1;
        }
        proof {
            lemma_empty_grid(size.x as nat, size.y as nat);
        }
        Self { start: true, population: 0, size, space }
    }

    /// Overwrites the cell at `cell.position` with `cell`'s state.
    ///
    /// Fails with `OutOfBounds`, changing nothing, exactly when the position
    /// names no cell of the world. The population follows the change: it goes
    /// up by one where a dead cell is made alive and down by one where a live
    /// cell is made dead.
    pub fn add_cell(&mut self, cell: Cell) -> (result: Result<(), WorldError>)
        requires
            old(self).wf(),
        ensures
            final(self).wf(),
            final(self).spec_width() == old(self).spec_width(),
            final(self).spec_height() == old(self).spec_height(),
            final(self).spec_first_generation() == old(self).spec_first_generation(),
            match result {
                Ok(_) => {
                    &&& cell.position.x < old(self).spec_width()
                    &&& cell.position.y < old(self).spec_height()
                    &&& final(self)@ == with_cell(
                        old(self)@,
                        cell.position.x as int,
                        cell.position.y as int,
                        cell.alive,
                    )
                    &&& final(self).spec_population() + one_if(
                        old(self)@[cell.position.y as int][cell.position.x as int],
                    ) == old(self).spec_population() + one_if(cell.alive)
                },
                Err(e) => {
                    &&& e == WorldError::OutOfBounds
                    &&& (cell.position.x >= old(self).spec_width() || cell.position.y >= old(
                        self,
                    ).spec_height())
                    &&& *final(self) == *old(self)
                },
            },
    {
        let x = cell.position.x;
        let y = cell.position.y;
        if x >= self.size.x || y >= self.size.y {
            return Err(WorldError::OutOfBounds);
        }
        let ghost before = self@;
        let ghost rows = self.space@;
        assert(before[y as int].len() == self.space@[y as int]@.len());
        let was_alive = self.space[y][x].alive;
        proof {
            lemma_with_cell(before, x as int, y as int, cell.alive, true);
            lemma_count_bound(
                with_cell(before, x as int, y as int, cell.alive),
                self.spec_width(),
                self.spec_height(),
                true,
            );
        }
        self.space[y][x] = cell;
        if cell.alive && !was_alive {
            self.population = self.population + 1;
        } else if was_alive && !cell.alive {
            self.population = self.population - 1;
        }
        proof {
            assert(self.space@[y as int]@ == rows[y as int]@.update(x as int, cell));
            assert forall|j: int| 0 <= j < self.space@.len() implies flag_rows(self.space@)[j]
                =~= with_cell(before, x as int, y as int, cell.alive)[j] by {
                if j != y {
                    assert(self.space@[j] == rows[j]);
                    assert(flag_rows(rows)[j] == before[j]);
                }
            }
            assert(self@ =~= with_cell(before, x as int, y as int, cell.alive));
            assert forall|j: int, i: int|
                0 <= j < self.space@.len() && 0 <= i < self.space@[j]@.len() implies (
            #[trigger] self.space@[j]@[i]).position == (Position {
                x: i as usize,
                y: j as usize,
            }) by {
                if j != y {
                    assert(self.space@[j] == rows[j]);
                }
            }
        }
        Ok(())
    }

    /// Advances the world by one generation.
    ///
    /// Every cell's next state is decided from the grid as it was before the
    /// call; the new matrix then replaces the old one. A frozen world is left
    /// untouched, which is the same thing: an extinct grid is its own next
    /// generation.
    pub fn tick(&mut self)
        requires
            old(self).wf(),
        ensures
            final(self).wf(),
            final(self).spec_width() == old(self).spec_width(),
            final(self).spec_height() == old(self).spec_height(),
            final(self)@ == step(old(self)@),
            forall|x: int, y: int|
                in_bounds(old(self)@, x, y) ==> #[trigger] final(self)@[y][x] == next_state(
                    old(self)@[y][x],
                    live_neighbors(old(self)@, x, y),
                ),
            !final(self).spec_first_generation(),
            old(self).frozen() ==> *final(self) == *old(self),
    {
        if !self.start && self.population == 0 {
            proof {
                lemma_step_of_extinct(self@);
            }
            return;
        }
        let ghost g = self@;
        let width = self.size.x;
        let height = self.size.y;
        let mut space: Vec<Vec<Cell>> = Vec::new();
        let mut live: usize = 0;
        let mut row: usize = 0;
        while row < height
            invariant
                *self == *old(self),
                self.wf(),
                g == self@,
                width == self.spec_width(),
                height == self.spec_height(),
                row <= height,
                space@.len() == row,
                flag_rows(space@) == step(g).take(row as int),
                positions_match(space@),
                live == live_count(flag_rows(space@)),
                live <= row * width,
            decreases height - row,
        {
            let mut cells: Vec<Cell> = Vec::new();
            let mut live_here: usize = 0;
            let mut column: usize = 0;
            assert(g[row as int].len() == self.space@[row as int]@.len());
            while column < width
                invariant
                    *self == *old(self),
                    self.wf(),
                    g == self@,
                    width == self.spec_width(),
                    row < height == self.spec_height(),
                    column <= width,
                    cells@.len() == column,
                    flags(cells@) == step(g)[row as int].take(column as int),
                    forall|i: int|
                        0 <= i < column ==> (#[trigger] cells@[i]).position == (Position {
                            x: i as usize,
                            y: row,
                        }),
                    live_here == count_in_row(flags(cells@), true),
                    live_here <= column,
                decreases width - column,
            {
                assert(g[row as int].len() == self.space@[row as int]@.len());
                let mut a = self.space[row][column];
                let neighbor = a.count_neighbor(self);
                if a.alive {
                    if neighbor < 2 {
                        a.kill();
                    }
                    if neighbor > 3 {
                        a.kill();
                    }
                } else {
                    if neighbor == 3 {
                        a.alive = true;
                    }
                }
                if a.alive {
                    live_here = live_here + 1;
                }
                proof {
                    lemma_count_in_row_push(flags(cells@), a.alive, true);
                    assert(flags(cells@.push(a)) =~= flags(cells@).push(a.alive));
                    assert(flags(cells@).push(a.alive) =~= step(g)[row as int].take(column + 1));
                }
                cells.push(a);
                column = column + 1;
            }
            proof {
                assert(flags(cells@) =~= step(g)[row as int]);
                lemma_count_in_grid_push(flag_rows(space@), flags(cells@), true);
                assert(flag_rows(space@.push(cells)) =~= flag_rows(space@).push(flags(cells@)));
                assert(flag_rows(space@).push(flags(cells@)) =~= step(g).take(row + 1));
                assert((row + 1) * width == row * width + width) by (nonlinear_arith);
                assert((row + 1) * width <= height * width) by (nonlinear_arith)
                    requires
                        row + 1 <= height,
                ;
                assert(height * width == width * height) by (nonlinear_arith);
            }
            let ghost before = space@;
            live = live + live_here;
            space.push(cells);
            proof {
                assert forall|j: int, i: int|
                    0 <= j < space@.len() && 0 <= i < space@[j]@.len() implies (
                #[trigger] space@[j]@[i]).position == (Position {
                    x: i as usize,
                    y: j as usize,
                }) by {
                    if j < row {
                        assert(space@[j] == before[j]);
                    }
                }
            }
            row = row + 1;
        }
        assert(step(g).take(height as int) =~= step(g));
        self.space = space;
        self.population = live as u64;
        self.start = false;
    }

    /// Sets the cell that `edit` names to the state it asks for.
    ///
    /// Fails with `OutOfBounds`, changing nothing, exactly when a coordinate
    /// is negative or not below the world's extent.
    pub fn apply_edit(&mut self, edit: CellEdit) -> (result: Result<(), WorldError>)
        requires
            old(self).wf(),
        ensures
            final(self).wf(),
            final(self).spec_width() == old(self).spec_width(),
            final(self).spec_height() == old(self).spec_height(),
            final(self).spec_first_generation() == old(self).spec_first_generation(),
            result is Ok <==> in_bounds(old(self)@, edit.x as int, edit.y as int),
            match result {
                Ok(_) => {
                    &&& final(self)@ == with_cell(
                        old(self)@,
                        edit.x as int,
                        edit.y as int,
                        edit.alive,
                    )
                    &&& final(self).spec_population() + one_if(
                        old(self)@[edit.y as int][edit.x as int],
                    ) == old(self).spec_population() + one_if(edit.alive)
                },
                Err(e) => e == WorldError::OutOfBounds && *final(self) == *old(self),
            },
    {
        if edit.x < 0 || edit.y < 0 {
            return Err(WorldError::OutOfBounds);
        }
        let position = Position { x: edit.x as usize, y: edit.y as usize };
        self.add_cell(Cell { alive: edit.alive, position })
    }

    /// Whether the cell at `(x, y)` is alive.
    ///
    /// Fails with `OutOfBounds` exactly when a coordinate is negative or not
    /// below the world's extent.
    pub fn is_alive(&self, x: i32, y: i32) -> (result: Result<bool, WorldError>)
        requires
            self.wf(),
        ensures
            match result {
                Ok(alive) => {
                    &&& in_bounds(self@, x as int, y as int)
                    &&& alive == self@[y as int][x as int]
                },
                Err(e) => e == WorldError::OutOfBounds && !in_bounds(self@, x as int, y as int),
            },
    {
        if x < 0 || y < 0 {
            return Err(WorldError::OutOfBounds);
        }
        let column = x as usize;
        let row = y as usize;
        if column >= self.size.x || row >= self.size.y {
            return Err(WorldError::OutOfBounds);
        }
        assert(self@[row as int].len() == self.space@[row as int]@.len());
        Ok(self.space[row][column].alive)
    }

    /// The alive flags of all cells, row by row: `rows[y][x]`.
    pub fn snapshot(&self) -> (rows: Vec<Vec<bool>>)
        requires
            self.wf(),
        ensures
            rows.deep_view() == self@,
    {
        let mut rows: Vec<Vec<bool>> = Vec::new();
        let mut y: usize = 0;
        while y < self.size.y
            invariant
                self.wf(),
                y <= self.size.y,
                rows@.len() == y,
                forall|j: int| 0 <= j < y ==> (#[trigger] rows@[j])@ == self@[j],
            decreases self.size.y - y,
        {
            let mut row: Vec<bool> = Vec::new();
            let mut x: usize = 0;
            assert(self@[y as int].len() == self.space@[y as int]@.len());
            while x < self.size.x
                invariant
                    self.wf(),
                    y < self.size.y,
                    x <= self.size.x,
                    row@.len() == x,
                    forall|i: int| 0 <= i < x ==> #[trigger] row@[i] == self@[y as int][i],
                decreases self.size.x - x,
            {
                assert(self@[y as int].len() == self.space@[y as int]@.len());
                row.push(self.space[y][x].alive);
                x = x + 1;
            }
            assert(row@ =~= self@[y as int]);
            rows.push(row);
            y = y + 1;
        }
        assert(rows.deep_view() =~~= self@);
        rows
    }

    /// The number of columns.
    pub fn width(&self) -> (width: usize)
        ensures
            width == self.spec_width(),
    {
        self.size.x
    }

    /// The number of rows.
    pub fn height(&self) -> (height: usize)
        ensures
            height == self.spec_height(),
    {
        self.size.y
    }

    /// The number of live cells.
    pub fn population(&self) -> (population: u64)
        ensures
            population == self.spec_population(),
    {
        self.population
    }

    /// Whether no generation has been computed yet.
    pub fn is_first_generation(&self) -> (first: bool)
        ensures
            first == self.spec_first_generation(),
    {
        self.start
    }

    /// Brings to life the dead cell that has `rank` dead cells before it in
    /// row-major order, and says where it is.
    ///
    /// Returns `None`, changing nothing, exactly when the world has no more
    /// than `rank` dead cells.
    pub fn seed_nth_dead(&mut self, rank: usize) -> (placed: Option<Position>)
        requires
            old(self).wf(),
        ensures
            final(self).wf(),
            final(self).spec_width() == old(self).spec_width(),
            final(self).spec_height() == old(self).spec_height(),
            final(self).spec_first_generation() == old(self).spec_first_generation(),
            placed is Some <==> rank + old(self).spec_population() < old(self).spec_width() * old(
                self,
            ).spec_height(),
            match placed {
                Some(at) => {
                    &&& rank < dead_count(old(self)@)
                    &&& in_bounds(old(self)@, at.x as int, at.y as int)
                    &&& !old(self)@[at.y as int][at.x as int]
                    &&& rank_of(old(self)@, at.x as int, at.y as int, false) == rank
                    &&& final(self)@ == with_cell(old(self)@, at.x as int, at.y as int, true)
                    &&& final(self).spec_population() == old(self).spec_population() + 1
                },
                None => rank >= dead_count(old(self)@) && *final(self) == *old(self),
            },
    {
        let ghost g = self@;
        let width = self.size.x;
        let height = self.size.y;
        let mut seen: usize = 0;
        let mut y: usize = 0;
        assert(g.take(0).len() == 0);
        while y < height
            invariant
                *self == *old(self),
                self.wf(),
                g == self@,
                width == self.spec_width(),
                height == self.spec_height(),
                y <= height,
                seen == count_in_grid(g.take(y as int), false),
                seen <= rank,
            decreases height - y,
        {
            let mut x: usize = 0;
            assert(g[y as int].take(0).len() == 0);
            while x < width
                invariant
                    *self == *old(self),
                    self.wf(),
                    g == self@,
                    width == self.spec_width(),
                    y < height == self.spec_height(),
                    x <= width,
                    seen == rank_of(g, x as int, y as int, false),
                    seen <= rank,
                decreases width - x,
            {
                assert(g[y as int].len() == self.space@[y as int]@.len());
                proof {
                    lemma_count_in_row_take(g[y as int], x as int, false);
                }
                if !self.space[y][x].alive {
                    if seen == rank {
                        proof {
                            lemma_rank_below_count(g, x as int, y as int, false);
                            lemma_grid_partition(g, self.spec_width(), self.spec_height());
                        }
                        let _ = self.add_cell(Cell::new_alive(x, y));
                        return Some(Position { x, y });
                    }
                    seen = seen + 1;
                }
                x = x + 1;
            }
            proof {
                assert(g[y as int].take(width as int) =~= g[y as int]);
                lemma_count_in_grid_take(g, y as int, false);
            }
            y = y + 1;
        }
        proof {
            assert(g.take(height as int) =~= g);
            lemma_grid_partition(g, self.spec_width(), self.spec_height());
        }
        None
    }

    /// Brings `population` cells to life that were dead before, each chosen
    /// at random, so that no coordinate is taken twice.
    ///
    /// Each round draws a coordinate anywhere in the world. If its cell is
    /// dead it is taken; if it is alive the draw is repeated among the dead
    /// cells only, so a round always seeds one cell and the loop ends after
    /// `population` rounds.
    ///
    /// Fails with `InvalidPopulationRequest`, changing nothing, exactly when
    /// the world has fewer than `population` dead cells; in an empty world
    /// that is when `population` exceeds `width * height`.
    pub fn randon_populate_world(&mut self, population: u32) -> (result: Result<(), WorldError>)
        requires
            old(self).wf(),
        ensures
            final(self).wf(),
            final(self).spec_width() == old(self).spec_width(),
            final(self).spec_height() == old(self).spec_height(),
            final(self).spec_first_generation() == old(self).spec_first_generation(),
            result is Err <==> old(self).spec_population() + population > old(self).spec_width()
                * old(self).spec_height(),
            match result {
                Ok(_) => {
                    &&& final(self).spec_population() == old(self).spec_population() + population
                    &&& forall|x: int, y: int|
                        alive_at(old(self)@, x, y) ==> alive_at(final(self)@, x, y)
                },
                Err(e) => e == WorldError::InvalidPopulationRequest && *final(self) == *old(self),
            },
    {
        proof {
            lemma_grid_partition(self@, self.spec_width(), self.spec_height());
        }
        let capacity = self.size.x * self.size.y;
        let mut free = capacity - self.population as usize;
        if population as usize > free {
            return Err(WorldError::InvalidPopulationRequest);
        }
        let mut remaining = population;
        while remaining > 0
            invariant
                self.wf(),
                self.spec_width() == old(self).spec_width(),
                self.spec_height() == old(self).spec_height(),
                self.spec_first_generation() == old(self).spec_first_generation(),
                free == dead_count(self@),
                remaining <= free,
                remaining <= population,
                self.spec_population() == old(self).spec_population() + (population - remaining),
                forall|x: int, y: int| alive_at(old(self)@, x, y) ==> alive_at(self@, x, y),
            decreases remaining,
        {
            let ghost g = self@;
            proof {
                lemma_count_bound(g, self.spec_width(), self.spec_height(), false);
                assert(self.spec_width() > 0 && self.spec_height() > 0) by (nonlinear_arith)
                    requires
                        self.spec_width() * self.spec_height() > 0,
                ;
            }
            let rand_x_poss = random_below(self.size.x);
            let rand_y_poss = random_below(self.size.y);
            assert(g[rand_y_poss as int].len() == self.space@[rand_y_poss as int]@.len());
            if !self.space[rand_y_poss][rand_x_poss].alive {
                let _ = self.add_cell(Cell::new_alive(rand_x_poss, rand_y_poss));
                proof {
                    lemma_with_cell(g, rand_x_poss as int, rand_y_poss as int, true, false);
                }
            } else {
                let placed = self.seed_nth_dead(random_below(free));
                proof {
                    let at = placed.unwrap();
                    lemma_with_cell(g, at.x as int, at.y as int, true, false);
                }
            }
            free = free - 1;
            remaining = remaining - 1;
        }
        Ok(())
    }

    /// Whether `(x, y)` names a cell of the world that is alive.
    fn alive_at(&self, x: usize, y: usize) -> (alive: bool)
        requires
            self.wf(),
        ensures
            alive == crate::grid::alive_at(self@, x as int, y as int),
    {
        if y < self.space.len() {
            assert(self@[y as int].len() == self.space@[y as int]@.len());
            if x < self.space[y].len() {
                self.space[y][x].alive
            } else {
                false
            }
        } else {
            false
        }
    }

    /// The number of live cells among `(x - 1, y)`, `(x + 1, y)` and, where
    /// `with_middle` is set, `(x, y)`.
    fn count_in_span(&self, x: usize, y: usize, with_middle: bool) -> (counter: u8)
        requires
            self.wf(),
        ensures
            counter == one_if(alive_at(self@, x - 1, y as int)) + one_if(
                with_middle && alive_at(self@, x as int, y as int),
            ) + one_if(alive_at(self@, x + 1, y as int)),
    {
        let mut counter: u8 = 0;
        if x > 0 && self.alive_at(x - 1, y) {
            counter = counter + 1;
        }
        if with_middle && self.alive_at(x, y) {
            counter = counter + 1;
        }
        if x < usize::MAX && self.alive_at(x + 1, y) {
            counter = counter + 1;
        }
        counter
    }
}

/// A number below `bound`, drawn by `rand::rng().random_range(0..bound)`.
///
/// Trusted, not proved: `Rng::random_range` returns a member of the
/// half-open range it is given, and `bound > 0` keeps the range from being
/// empty, on which it panics. Nothing is claimed about which member comes
/// back, nor that the members are equally likely; two calls with one bound
/// may differ. `rand::rng()` hands out the thread-local generator, which
/// panics if the operating system gives it no seed when a thread first
/// uses it.
#[verifier::external_body]
fn random_below(bound: usize) -> (drawn: usize)
    requires
        bound > 0,
    ensures
        drawn < bound,
{
    rand::rng().random_range(0..bound)
}

} // verus!
