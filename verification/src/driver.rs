//! What a terminal front end shows and how it is configured. Nothing here
//! prints or sleeps: a frame is computed as lines of text, and the caller
//! puts them on the screen.

use crate::world::World;
use vstd::prelude::*;
use vstd::string::StringExecFns;

verus! {

/// The extent of the default world, in both directions.
pub const WORLD_SIZE: usize = 20;

/// The number of cells that are alive when the default simulation starts.
pub const INITIAL_POPULATION: u64 = 200;

/// The default pause between two frames, in milliseconds.
pub const FRAME_TIME: usize = 600;

/// The settings of a front end.
#[derive(Debug, Clone, Copy, PartialEq, Eq, Structural)]
pub struct DriverConfig {
    /// The pause between two frames, in milliseconds.
    pub frame_interval_millis: u64,
    /// The number of columns of the world.
    pub width: usize,
    /// The number of rows of the world.
    pub height: usize,
    /// The number of cells to bring to life before the first frame.
    pub initial_population: u32,
}

/// A front end that draws the world as text.
#[derive(Debug, Clone, Copy, PartialEq, Eq, Structural)]
pub struct TerminalDriver {
    pub config: DriverConfig,
}

/// The settings used where none are given.
pub open spec fn default_config() -> DriverConfig {
    DriverConfig {
        frame_interval_millis: FRAME_TIME as u64,
        width: WORLD_SIZE,
        height: WORLD_SIZE,
        initial_population: INITIAL_POPULATION as u32,
    }
}

/// The character that stands for a cell.
pub open spec fn glyph(alive: bool) -> char {
    if alive {
        'O'
    } else {
        ' '
    }
}

/// The line above and below the matrix: `+`, one `-` for each column, `+`.
pub open spec fn separator_text(width: nat) -> Seq<char> {
    seq!['+'] + Seq::new(width, |x: int| '-') + seq!['+']
}

/// One row of the matrix between two bars.
pub open spec fn row_text(row: Seq<bool>) -> Seq<char> {
    seq!['|'] + Seq::new(row.len(), |x: int| glyph(row[x])) + seq!['|']
}

/// The whole frame: separator, the rows from top to bottom, separator.
pub open spec fn frame_text(g: Seq<Seq<bool>>, width: nat) -> Seq<Seq<char>> {
    seq![separator_text(width)] + Seq::new(g.len(), |y: int| row_text(g[y])) + seq![
        separator_text(width),
    ]
}

/// The control sequence that clears the screen: escape, then `[2J`.
pub open spec fn clear_text() -> Seq<char> {
    seq!['\u{1b}', '[', '2', 'J']
}

impl DriverConfig {
    /// The default settings.
    pub fn new() -> (config: Self)
        ensures
            config == default_config(),
    {
        DriverConfig {
            frame_interval_millis: FRAME_TIME as u64,
            width: WORLD_SIZE,
            height: WORLD_SIZE,
            initial_population: INITIAL_POPULATION as u32,
        }
    }
}

impl TerminalDriver {
    /// A front end with the default settings.
    pub fn new() -> (driver: Self)
        ensures
            driver.config == default_config(),
    {
        Self { config: DriverConfig::new() }
    }

    /// A front end with the given settings.
    pub fn with_config(config: DriverConfig) -> (driver: Self)
        ensures
            driver.config == config,
    {
        Self { config }
    }

    /// The control sequence that clears the screen.
    pub fn clear_sequence() -> (code: String)
        ensures
            code@ == clear_text(),
    {
        proof {
            reveal_strlit("\u{1b}[2J");
        }
        let code = String::from_str("\u{1b}[2J");
        assert(code@ =~= clear_text());
        code
    }

    /// The separator line for a world of `world_x_dimension` columns.
    pub fn horizontal_separator(world_x_dimension: usize) -> (line: String)
        ensures
            line@ == separator_text(world_x_dimension as nat),
    {
        proof {
            reveal_strlit("+");
            reveal_strlit("-");
        }
        let mut line = String::from_str("+");
        let mut x: usize = 0;
        while x < world_x_dimension
            invariant
                x <= world_x_dimension,
                "-"@ == seq!['-'],
                "+"@ == seq!['+'],
                line@ == seq!['+'] + Seq::new(x as nat, |i: int| '-'),
            decreases world_x_dimension - x,
        {
            line.append("-");
            assert(line@ =~= seq!['+'] + Seq::new((x + 1) as nat, |i: int| '-'));
            x = x + 1;
        }
        line.append("+");
        assert(line@ =~= separator_text(world_x_dimension as nat));
        line
    }

    /// One row of cells as text.
    pub fn row_line(row: &Vec<bool>) -> (line: String)
        ensures
            line@ == row_text(row@),
    {
        proof {
            reveal_strlit("|");
            reveal_strlit("O");
            reveal_strlit(" ");
        }
        let mut line = String::from_str("|");
        let mut x: usize = 0;
        while x < row.len()
            invariant
                x <= row.len(),
                "|"@ == seq!['|'],
                "O"@ == seq!['O'],
                " "@ == seq![' '],
                line@ == seq!['|'] + Seq::new(x as nat, |i: int| glyph(row@[i])),
            decreases row.len() - x,
        {
            match row[x] {
                true => line.append("O"),
                false => line.append(" "),
            }
            assert(line@ =~= seq!['|'] + Seq::new((x + 1) as nat, |i: int| glyph(row@[i])));
            x = x + 1;
        }
        line.append("|");
        assert(line@ =~= row_text(row@));
        line
    }

    /// The frame that shows `world`: its rows between two separator lines,
    /// live cells as `O` and dead cells as blanks.
    pub fn frame(&self, world: &World) -> (lines: Vec<String>)
        requires
            world.wf(),
        ensures
            lines.deep_view() == frame_text(world@, world.spec_width()),
    {
        let rows = world.snapshot();
        let width = world.width();
        let mut lines: Vec<String> = Vec::new();
        lines.push(Self::horizontal_separator(width));
        let mut y: usize = 0;
        while y < rows.len()
            invariant
                y <= rows.len(),
                rows.deep_view() == world@,
                lines@.len() == y + 1,
                lines@[0]@ == separator_text(width as nat),
                forall|j: int| 0 <= j < y ==> (#[trigger] lines@[j + 1])@ == row_text(world@[j]),
            decreases rows.len() - y,
        {
            assert(rows.deep_view()[y as int] == rows@[y as int]@);
            lines.push(Self::row_line(&rows[y]));
            y = y + 1;
        }
        lines.push(Self::horizontal_separator(width));
        proof {
            let expected = frame_text(world@, world.spec_width());
            assert(world@.len() == rows@.len());
            assert(lines.deep_view().len() == expected.len());
            assert forall|j: int| 0 <= j < expected.len() implies lines.deep_view()[j]
                == expected[j] by {
                if 0 < j < expected.len() - 1 {
                    assert(lines@[(j - 1) + 1]@ == row_text(world@[j - 1]));
                }
            }
            assert(lines.deep_view() =~= expected);
        }
        lines
    }
}

} // verus!
