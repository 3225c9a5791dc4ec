//! The benchmark viewer's model: the maze the camera walks, the tick budget
//! the speed buttons adjust, and the labels its controls show.

use vstd::prelude::*;
use vstd::string::StringExecFns;

verus! {

/// Side length of the square maze, in cells.
pub const MAP_SIZE: usize = 13;

/// Row `row` of the maze, top to bottom; `#` is a wall.
pub open spec fn maze_row(row: int) -> Seq<char> {
    if row == 0 || row == 12 {
        "#############"@
    } else if row == 1 || row == 5 || row == 9 || row == 11 {
        "#.....#.....#"@
    } else if row == 2 || row == 10 {
        "#.###.#.###.#"@
    } else if row == 3 {
        "#.#.......#.#"@
    } else if row == 4 {
        "#.#.#####.#.#"@
    } else if row == 6 {
        "###.#.#.#.###"@
    } else if row == 7 {
        "#...#...#...#"@
    } else {
        "#.#####.###.#"@
    }
}

/// Whether maze cell `(col, row)` is a wall; everything off the map is.
pub open spec fn wall(col: int, row: int) -> bool {
    row >= 13 || col >= 13 || maze_row(row)[col] == '#'
}

fn maze_line(row: usize) -> (s: &'static str)
    requires
        row < 13,
    ensures
        s@ == maze_row(row as int),
        s.is_ascii(),
        s@.len() == 13,
{
    proof {
        reveal_strlit("#############");
        reveal_strlit("#.....#.....#");
        reveal_strlit("#.###.#.###.#");
        reveal_strlit("#.#.......#.#");
        reveal_strlit("#.#.#####.#.#");
        reveal_strlit("###.#.#.#.###");
        reveal_strlit("#...#...#...#");
        reveal_strlit("#.#####.###.#");
    }
    if row == 0 || row == 12 {
        "#############"
    } else if row == 1 || row == 5 || row == 9 || row == 11 {
        "#.....#.....#"
    } else if row == 2 || row == 10 {
        "#.###.#.###.#"
    } else if row == 3 {
        "#.#.......#.#"
    } else if row == 4 {
        "#.#.#####.#.#"
    } else if row == 6 {
        "###.#.#.#.###"
    } else if row == 7 {
        "#...#...#...#"
    } else {
        "#.#####.###.#"
    }
}

/// Whether maze cell `(col, row)` is a wall; anything off the map counts
/// as one.
pub fn is_wall_cell(col: usize, row: usize) -> (r: bool)
    ensures
        r == wall(col as int, row as int),
{
    if row >= MAP_SIZE || col >= MAP_SIZE {
        return true;
    }
    let line = maze_line(row);
    let b = line.get_ascii(col);
    proof {
        assert(maze_row(row as int)[col as int] < 128);
    }
    b == 35u8
}

/// Halve the ticks run per frame, never below 128.
pub fn slower(ticks: u64) -> (r: u64)
    ensures
        r == if ticks / 2 >= 128 {
            ticks / 2
        } else {
            128
        },
{
    let half = ticks / 2;
    if half >= 128 {
        half
    } else {
        128
    }
}

/// Double the ticks run per frame, never above 65 536.
pub fn faster(ticks: u64) -> (r: u64)
    ensures
        r == if ticks <= 32_768 {
            2 * ticks
        } else {
            65_536
        },
{
    if ticks <= 32_768 {
        ticks * 2
    } else {
        65_536
    }
}

/// The viewer's on-screen buttons.
#[derive(Clone, Copy, PartialEq, Eq, Debug, Structural)]
pub enum ControlKind {
    RunPause,
    Slower,
    Faster,
    Reset,
}

/// A button's caption: the run/pause toggle shows what pressing it does.
pub fn button_label(kind: ControlKind, running: bool) -> (s: String)
    ensures
        s@ == match kind {
            ControlKind::RunPause => if running {
                "Pause"@
            } else {
                "Run"@
            },
            ControlKind::Slower => "-"@,
            ControlKind::Faster => "+"@,
            ControlKind::Reset => "Reset"@,
        },
{
    match kind {
        ControlKind::RunPause => if running {
            String::from_str("Pause")
        } else {
            String::from_str("Run")
        },
        ControlKind::Slower => String::from_str("-"),
        ControlKind::Faster => String::from_str("+"),
        ControlKind::Reset => String::from_str("Reset"),
    }
}

/// The status line: complete once the program has finished, else running
/// or paused.
pub fn status_text(done: bool, running: bool) -> (s: String)
    ensures
        s@ == if done {
            "ryzr: complete"@
        } else if running {
            "ryzr: running"@
        } else {
            "ryzr: paused"@
        },
{
    if done {
        String::from_str("ryzr: complete")
    } else if running {
        String::from_str("ryzr: running")
    } else {
        String::from_str("ryzr: paused")
    }
}

} // verus!
