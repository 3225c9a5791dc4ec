//! The editor's model: tools and what they paint, line painting between
//! dragged cells, the key bindings that change the tool state, the starter
//! canvas, and the labels the status line shows.

use vstd::prelude::*;

use crate::board::{Board, Cell};
use crate::demos::{clock_blinker, clock_blinker_tile, sr_latch, sr_latch_tile, via_bridge, via_bridge_tile};
use crate::sim::{is_led_cell, is_switch_cell, led_output, switched, Sim};
use crate::tile::{is_conductor_spec, is_driver_spec, rotate_cw_spec, Direction, GateKind, Tile};

verus! {

/// The error term of Bresenham's algorithm `u` steps along x and `v` along y
/// into a segment spanning `ax` columns and `ay` rows.
pub open spec fn bres_err(ax: int, ay: int, u: int, v: int) -> int {
    ax - ay + v * ax - u * ay
}

/// One step of the walk: advance along x when twice the error reaches
/// `-ay`, along y when it is at most `ax`.
pub open spec fn bres_step(ax: int, ay: int, p: (int, int)) -> (int, int) {
    let e = bres_err(ax, ay, p.0, p.1);
    (if 2 * e >= -ay { p.0 + 1 } else { p.0 }, if 2 * e <= ax { p.1 + 1 } else { p.1 })
}

/// Steps taken along each axis after `k` steps of the walk.
pub open spec fn bres_walk(ax: int, ay: int, k: nat) -> (int, int)
    decreases k,
{
    if k == 0 {
        (0, 0)
    } else {
        bres_step(ax, ay, bres_walk(ax, ay, (k - 1) as nat))
    }
}

/// Direction of travel from `a` to `b` along one axis.
pub open spec fn sign_to(a: int, b: int) -> int {
    if a < b {
        1
    } else {
        -1
    }
}

pub open spec fn abs(a: int) -> int {
    if a < 0 {
        -a
    } else {
        a
    }
}

pub open spec fn max(a: int, b: int) -> int {
    if a >= b {
        a
    } else {
        b
    }
}

/// Point `k` of the Bresenham line from `(x0, y0)` to `(x1, y1)`.
pub open spec fn line_point(x0: int, y0: int, x1: int, y1: int, k: nat) -> (int, int) {
    let w = bres_walk(abs(x1 - x0), abs(y1 - y0), k);
    (x0 + sign_to(x0, x1) * w.0, y0 + sign_to(y0, y1) * w.1)
}

/// One step keeps the walk on track: inside the box, within half a cell of
/// the exact segment, the error term bounded, and the major axis advancing.
proof fn lemma_bres_step(ax: int, ay: int, u: int, v: int)
    requires
        ax >= 0,
        ay >= 0,
        0 <= u <= ax,
        0 <= v <= ay,
        !(u == ax && v == ay),
        -max(ax, ay) <= 2 * (v * ax - u * ay) <= max(ax, ay),
    ensures
        ({
            let p = bres_step(ax, ay, (u, v));
            &&& 0 <= p.0 <= ax
            &&& 0 <= p.1 <= ay
            &&& u <= p.0 <= u + 1
            &&& v <= p.1 <= v + 1
            &&& ax >= ay ==> p.0 == u + 1
            &&& ax < ay ==> p.1 == v + 1
            &&& -max(ax, ay) <= 2 * (p.1 * ax - p.0 * ay) <= max(ax, ay)
        }),
{
    let e = bres_err(ax, ay, u, v);
    let c = v * ax - u * ay;
    assert(e == ax - ay + c);
    let p = bres_step(ax, ay, (u, v));
    assert((u + 1) * ay == u * ay + ay) by (nonlinear_arith);
    assert((v + 1) * ax == v * ax + ax) by (nonlinear_arith);
    assert(p.1 * ax - p.0 * ay == c + (if p.1 == v + 1 { ax } else { 0 }) - (if p.0 == u + 1 { ay } else { 0 }));
    // No overshoot along x: at the last column the walk is on the last row
    // unless the error forbids an x step.
    if u == ax && v < ay {
        assert(c == ax * (v - ay)) by (nonlinear_arith)
            requires
                c == v * ax - u * ay,
                u == ax,
        ;
        assert(ax * (v - ay) <= -ax) by (nonlinear_arith)
            requires
                ax >= 0,
                v < ay,
        ;
    }
    if v == ay && u < ax {
        assert(c == ay * (ax - u)) by (nonlinear_arith)
            requires
                c == v * ax - u * ay,
                v == ay,
        ;
        assert(ay * (ax - u) >= ay) by (nonlinear_arith)
            requires
                ay >= 0,
                u < ax,
        ;
    }
}

/// The walk after `k <= max(ax, ay)` steps: `k` along the major axis, inside
/// the box and within half a cell of the segment.
proof fn lemma_bres_walk(ax: int, ay: int, k: nat)
    requires
        ax >= 0,
        ay >= 0,
        k <= max(ax, ay),
    ensures
        ({
            let p = bres_walk(ax, ay, k);
            &&& 0 <= p.0 <= ax
            &&& 0 <= p.1 <= ay
            &&& ax >= ay ==> p.0 == k
            &&& ax < ay ==> p.1 == k
            &&& -max(ax, ay) <= 2 * (p.1 * ax - p.0 * ay) <= max(ax, ay)
        }),
    decreases k,
{
    if k > 0 {
        lemma_bres_walk(ax, ay, (k - 1) as nat);
        let p = bres_walk(ax, ay, (k - 1) as nat);
        lemma_bres_step(ax, ay, p.0, p.1);
    }
}

/// After `max(ax, ay)` steps the walk has reached the far corner.
proof fn lemma_bres_end(ax: int, ay: int)
    requires
        ax >= 0,
        ay >= 0,
    ensures
        bres_walk(ax, ay, max(ax, ay) as nat) == (ax, ay),
{
    let m = max(ax, ay);
    lemma_bres_walk(ax, ay, m as nat);
    let p = bres_walk(ax, ay, m as nat);
    let c = p.1 * ax - p.0 * ay;
    if ax >= ay && ax > 0 {
        assert(c == ax * (p.1 - ay)) by (nonlinear_arith)
            requires
                c == p.1 * ax - p.0 * ay,
                p.0 == ax,
        ;
        assert(-ax <= 2 * (ax * (p.1 - ay)) <= ax ==> p.1 == ay) by (nonlinear_arith)
            requires
                ax > 0,
        ;
    } else if ay > ax {
        assert(c == ay * (ax - p.0)) by (nonlinear_arith)
            requires
                c == p.1 * ax - p.0 * ay,
                p.1 == ay,
        ;
        assert(-ay <= 2 * (ay * (ax - p.0)) <= ay ==> p.0 == ax) by (nonlinear_arith)
            requires
                ay > 0,
        ;
    }
}

/// Every point of the line, in order, lies within half a cell of the
/// exact segment from `(x0, y0)` to `(x1, y1)`.
proof fn lemma_line_close(x0: int, y0: int, x1: int, y1: int, k: nat)
    requires
        k <= max(abs(x1 - x0), abs(y1 - y0)),
    ensures
        ({
            let p = line_point(x0, y0, x1, y1, k);
            let m = max(abs(x1 - x0), abs(y1 - y0));
            -m <= 2 * ((p.1 - y0) * (x1 - x0) - (p.0 - x0) * (y1 - y0)) <= m
        }),
{
    let (ax, ay) = (abs(x1 - x0), abs(y1 - y0));
    let (sx, sy) = (sign_to(x0, x1), sign_to(y0, y1));
    lemma_bres_walk(ax, ay, k);
    let w = bres_walk(ax, ay, k);
    assert(x1 - x0 == sx * ax);
    assert(y1 - y0 == sy * ay);
    let c = w.1 * ax - w.0 * ay;
    let d = (sy * w.1) * (sx * ax) - (sx * w.0) * (sy * ay);
    if sx == 1 && sy == 1 {
        assert(d == c);
    } else if sx == 1 {
        assert(d == -c) by (nonlinear_arith)
            requires
                sx == 1,
                sy == -1,
                c == w.1 * ax - w.0 * ay,
                d == (sy * w.1) * (sx * ax) - (sx * w.0) * (sy * ay),
        ;
    } else if sy == 1 {
        assert(d == -c) by (nonlinear_arith)
            requires
                sx == -1,
                sy == 1,
                c == w.1 * ax - w.0 * ay,
                d == (sy * w.1) * (sx * ax) - (sx * w.0) * (sy * ay),
        ;
    } else {
        assert(d == c) by (nonlinear_arith)
            requires
                sx == -1,
                sy == -1,
                c == w.1 * ax - w.0 * ay,
                d == (sy * w.1) * (sx * ax) - (sx * w.0) * (sy * ay),
        ;
    }
}

/// At walk point `p`, twice the error and the error after a step along x
/// are `i32` values.
pub open spec fn bres_step_fits(ax: int, ay: int, p: (int, int)) -> bool {
    let e = bres_err(ax, ay, p.0, p.1);
    &&& i32::MIN <= 2 * e <= i32::MAX
    &&& 2 * e >= -ay ==> i32::MIN <= e - ay <= i32::MAX
}

/// The rasterizer's `i32` error arithmetic stays in range along the whole
/// line: every step's doubled error and partial update fit.
pub open spec fn bres_fits(ax: int, ay: int) -> bool {
    forall|k: nat| k < max(ax, ay) ==> #[trigger] bres_step_fits(ax, ay, bres_walk(ax, ay, k))
}

/// Lines whose spans stay below a third of the `i32` range always fit.
pub proof fn lemma_bres_fits_short(ax: int, ay: int)
    requires
        0 <= ax,
        0 <= ay,
        3 * ax < 0x8000_0000,
        3 * ay < 0x8000_0000,
    ensures
        bres_fits(ax, ay),
{
    assert forall|k: nat| k < max(ax, ay) implies #[trigger] bres_step_fits(ax, ay, bres_walk(ax, ay, k)) by {
        lemma_bres_walk(ax, ay, k);
    }
}

/// Integer line rasterization (Bresenham) from `(x0, y0)` to `(x1, y1)`,
/// both ends included: one point per step along the longer axis, each an
/// 8-neighbour of the one before and within half a cell of the segment.
pub fn bresenham(x0: i32, y0: i32, x1: i32, y1: i32) -> (pts: Vec<(i32, i32)>)
    requires
        abs(x1 - x0) <= i32::MAX,
        abs(y1 - y0) <= i32::MAX,
        bres_fits(abs(x1 - x0), abs(y1 - y0)),
    ensures
        pts@.len() == max(abs(x1 - x0), abs(y1 - y0)) + 1,
        forall|k: int|
            0 <= k < pts@.len() ==> (#[trigger] pts@[k].0 as int, pts@[k].1 as int) == line_point(
                x0 as int,
                y0 as int,
                x1 as int,
                y1 as int,
                k as nat,
            ),
        pts@[0] == (x0, y0),
        pts@.last() == (x1, y1),
        forall|k: int|
            0 <= k < pts@.len() - 1 ==> abs(pts@[k + 1].0 - #[trigger] pts@[k].0) <= 1 && abs(pts@[k + 1].1 - pts@[k].1) <= 1,
        forall|k: int|
            0 <= k < pts@.len() ==> -max(abs(x1 - x0), abs(y1 - y0)) <= 2 * ((#[trigger] pts@[k].1 - y0) * (x1 - x0) - (
            pts@[k].0 - x0) * (y1 - y0)) <= max(abs(x1 - x0), abs(y1 - y0)),
{
    let ghost ax = abs(x1 - x0);
    let ghost ay = abs(y1 - y0);
    let ghost m = max(ax, ay);
    let dx: i32 = if x1 >= x0 {
        x1 - x0
    } else {
        x0 - x1
    };
    let dy: i32 = if y1 >= y0 {
        y0 - y1
    } else {
        y1 - y0
    };
    let sx: i32 = if x0 < x1 {
        1
    } else {
        -1
    };
    let sy: i32 = if y0 < y1 {
        1
    } else {
        -1
    };
    let mut err: i32 = dx + dy;
    let mut x: i32 = x0;
    let mut y: i32 = y0;
    let mut pts: Vec<(i32, i32)> = Vec::new();
    let ghost mut k: int = 0;
    proof {
        lemma_bres_end(ax, ay);
        assert(bres_walk(ax, ay, 0) == (0int, 0int));
        assert(bres_err(ax, ay, 0, 0) == ax - ay);
        assert(sx * 0 == 0 && sy * 0 == 0) by (nonlinear_arith);
    }
    loop
        invariant_except_break
            0 <= k <= m,
            pts@.len() == k,
            ({
                let w = bres_walk(ax, ay, k as nat);
                &&& x == x0 + sx * w.0
                &&& y == y0 + sy * w.1
                &&& err == bres_err(ax, ay, w.0, w.1)
            }),
        invariant
            ax == abs(x1 - x0),
            ay == abs(y1 - y0),
            m == max(ax, ay),
            ax <= i32::MAX,
            ay <= i32::MAX,
            bres_fits(ax, ay),
            dx == ax,
            dy == -ay,
            sx == sign_to(x0 as int, x1 as int),
            sy == sign_to(y0 as int, y1 as int),
            bres_walk(ax, ay, m as nat) == (ax, ay),
            forall|j: int|
                0 <= j < pts@.len() ==> (#[trigger] pts@[j].0 as int, pts@[j].1 as int) == line_point(
                    x0 as int,
                    y0 as int,
                    x1 as int,
                    y1 as int,
                    j as nat,
                ),
        ensures
            pts@.len() == m + 1,
        decreases m - k,
    {
        proof {
            lemma_bres_walk(ax, ay, k as nat);
        }
        pts.push((x, y));
        if x == x1 && y == y1 {
            proof {
                let w = bres_walk(ax, ay, k as nat);
                assert(x1 == x0 + sx * ax);
                assert(y1 == y0 + sy * ay);
                assert(sx * w.0 == sx * ax);
                assert(w.0 == ax) by (nonlinear_arith)
                    requires
                        sx * w.0 == sx * ax,
                        sx == 1 || sx == -1,
                ;
                assert(sy * w.1 == sy * ay);
                assert(w.1 == ay) by (nonlinear_arith)
                    requires
                        sy * w.1 == sy * ay,
                        sy == 1 || sy == -1,
                ;
            }
            break;
        }
        proof {
            let w = bres_walk(ax, ay, k as nat);
            if k == m {
                assert(w == (ax, ay));
                assert(x == x1 && y == y1);
            }
            lemma_bres_step(ax, ay, w.0, w.1);
            let c = w.1 * ax - w.0 * ay;
            assert(err == ax - ay + c);
            assert(bres_step_fits(ax, ay, w));
            let w2 = bres_walk(ax, ay, (k + 1) as nat);
            if k + 1 < m {
                assert(bres_step_fits(ax, ay, w2));
            } else {
                lemma_bres_end(ax, ay);
                assert(w2 == (ax, ay));
                assert(bres_err(ax, ay, ax, ay) == ax - ay) by (nonlinear_arith);
            }
            assert(w2 == bres_step(ax, ay, w));
            assert((w.0 + 1) * ay == w.0 * ay + ay) by (nonlinear_arith);
            assert((w.1 + 1) * ax == w.1 * ax + ax) by (nonlinear_arith);
        }
        let e2 = 2 * err;
        if e2 >= dy {
            err += dy;
            x += sx;
        }
        if e2 <= dx {
            err += dx;
            y += sy;
        }
        proof {
            let w = bres_walk(ax, ay, k as nat);
            let w2 = bres_walk(ax, ay, (k + 1) as nat);
            assert(w2 == bres_step(ax, ay, w));
            assert((w.0 + 1) * ay == w.0 * ay + ay) by (nonlinear_arith);
            assert((w.1 + 1) * ax == w.1 * ax + ax) by (nonlinear_arith);
            assert(sx * (w.0 + 1) == sx * w.0 + sx) by (nonlinear_arith);
            assert(sy * (w.1 + 1) == sy * w.1 + sy) by (nonlinear_arith);
            k = k + 1;
        }
    }
    proof {
        assert forall|j: int| 0 <= j < pts@.len() - 1 implies abs(pts@[j + 1].0 - #[trigger] pts@[j].0) <= 1 && abs(
            pts@[j + 1].1 - pts@[j].1,
        ) <= 1 by {
            lemma_bres_walk(ax, ay, j as nat);
            lemma_bres_walk(ax, ay, (j + 1) as nat);
            let w = bres_walk(ax, ay, j as nat);
            lemma_bres_step(ax, ay, w.0, w.1);
            assert(sx * (w.0 + 1) == sx * w.0 + sx) by (nonlinear_arith);
            assert(sy * (w.1 + 1) == sy * w.1 + sy) by (nonlinear_arith);
            assert((pts@[j].0 as int, pts@[j].1 as int) == line_point(x0 as int, y0 as int, x1 as int, y1 as int, j as nat));
            assert((pts@[j + 1].0 as int, pts@[j + 1].1 as int) == line_point(
                x0 as int,
                y0 as int,
                x1 as int,
                y1 as int,
                (j + 1) as nat,
            ));
            assert(bres_walk(ax, ay, (j + 1) as nat) == bres_step(ax, ay, w));
            if w == (ax, ay) {
                lemma_bres_walk(ax, ay, m as nat);
            }
        }
        assert forall|j: int| 0 <= j < pts@.len() implies -max(abs(x1 - x0), abs(y1 - y0)) <= 2 * ((#[trigger] pts@[j].1 - y0) * (x1
            - x0) - (pts@[j].0 - x0) * (y1 - y0)) <= max(abs(x1 - x0), abs(y1 - y0)) by {
            lemma_line_close(x0 as int, y0 as int, x1 as int, y1 as int, j as nat);
        }
        assert(pts@[0].0 as int == x0 && pts@[0].1 as int == y0);
        assert(pts@.last().0 as int == x1 && pts@.last().1 as int == y1) by {
            lemma_bres_end(ax, ay);
            assert(sx * ax == x1 - x0);
            assert(sy * ay == y1 - y0);
        }
    }
    pts
}

/// A tile-placing tool. `Gate` paints a gate of the kind and facing held by the
/// editor.
#[derive(Clone, Copy, PartialEq, Eq, Debug, Structural)]
pub enum Tool {
    Wire,
    Cross,
    Via,
    Gate,
    Switch,
    Source,
    Clock,
    Led,
    Erase,
}

/// A tool's place in the palette, the order `Tab` cycles through.
pub open spec fn tool_index(t: Tool) -> int {
    match t {
        Tool::Wire => 0,
        Tool::Cross => 1,
        Tool::Via => 2,
        Tool::Gate => 3,
        Tool::Switch => 4,
        Tool::Source => 5,
        Tool::Clock => 6,
        Tool::Led => 7,
        Tool::Erase => 8,
    }
}

/// The tool at palette position `i`.
pub open spec fn tool_at(i: int) -> Tool {
    if i == 0 {
        Tool::Wire
    } else if i == 1 {
        Tool::Cross
    } else if i == 2 {
        Tool::Via
    } else if i == 3 {
        Tool::Gate
    } else if i == 4 {
        Tool::Switch
    } else if i == 5 {
        Tool::Source
    } else if i == 6 {
        Tool::Clock
    } else if i == 7 {
        Tool::Led
    } else {
        Tool::Erase
    }
}

/// What `tool` paints, given the active gate kind and facing.
pub open spec fn tool_tile(tool: Tool, kind: GateKind, facing: Direction) -> Tile {
    match tool {
        Tool::Wire => Tile::Wire,
        Tool::Cross => Tile::Cross,
        Tool::Via => Tile::Via,
        Tool::Gate => Tile::Gate { kind, facing },
        Tool::Switch => Tile::Switch,
        Tool::Source => Tile::Source { on: true },
        Tool::Clock => Tile::Clock,
        Tool::Led => Tile::Led,
        Tool::Erase => Tile::Empty,
    }
}

impl Tool {
    fn index(self) -> (i: usize)
        ensures
            i == tool_index(self),
    {
        match self {
            Tool::Wire => 0,
            Tool::Cross => 1,
            Tool::Via => 2,
            Tool::Gate => 3,
            Tool::Switch => 4,
            Tool::Source => 5,
            Tool::Clock => 6,
            Tool::Led => 7,
            Tool::Erase => 8,
        }
    }

    fn at(i: usize) -> (t: Tool)
        requires
            i < 9,
        ensures
            t == tool_at(i as int),
    {
        match i {
            0 => Tool::Wire,
            1 => Tool::Cross,
            2 => Tool::Via,
            3 => Tool::Gate,
            4 => Tool::Switch,
            5 => Tool::Source,
            6 => Tool::Clock,
            7 => Tool::Led,
            _ => Tool::Erase,
        }
    }

    /// Short status-line label for this tool.
    pub fn label(self) -> (s: &'static str)
        ensures
            s@ == tool_label(self),
    {
        match self {
            Tool::Wire => "Wire",
            Tool::Cross => "Cross",
            Tool::Via => "Via",
            Tool::Gate => "Gate",
            Tool::Switch => "Switch",
            Tool::Source => "Source",
            Tool::Clock => "Clock",
            Tool::Led => "Led",
            Tool::Erase => "Erase",
        }
    }

    /// The next tool in palette order, wrapping around.
    pub fn next(self) -> (t: Tool)
        ensures
            t == tool_at((tool_index(self) + 1) % 9),
    {
        Tool::at((self.index() + 1) % 9)
    }

    /// The tile this tool paints, given the active gate kind and facing;
    /// `Erase` paints `Empty`.
    pub fn tile(self, kind: GateKind, facing: Direction) -> (t: Tile)
        ensures
            t == tool_tile(self, kind, facing),
    {
        match self {
            Tool::Wire => Tile::Wire,
            Tool::Cross => Tile::Cross,
            Tool::Via => Tile::Via,
            Tool::Gate => Tile::Gate { kind, facing },
            Tool::Switch => Tile::Switch,
            Tool::Source => Tile::Source { on: true },
            Tool::Clock => Tile::Clock,
            Tool::Led => Tile::Led,
            Tool::Erase => Tile::Empty,
        }
    }
}

/// The status-line label of a tool.
pub open spec fn tool_label(t: Tool) -> Seq<char> {
    match t {
        Tool::Wire => "Wire"@,
        Tool::Cross => "Cross"@,
        Tool::Via => "Via"@,
        Tool::Gate => "Gate"@,
        Tool::Switch => "Switch"@,
        Tool::Source => "Source"@,
        Tool::Clock => "Clock"@,
        Tool::Led => "Led"@,
        Tool::Erase => "Erase"@,
    }
}

/// The status-line label of a gate kind.
pub open spec fn gate_kind_label(kind: GateKind) -> Seq<char> {
    match kind {
        GateKind::And => "AND"@,
        GateKind::Or => "OR"@,
        GateKind::Xor => "XOR"@,
        GateKind::Nand => "NAND"@,
        GateKind::Nor => "NOR"@,
        GateKind::Xnor => "XNOR"@,
        GateKind::Buf => "BUF"@,
        GateKind::Not => "NOT"@,
    }
}

/// The status-line label of a facing.
pub open spec fn direction_label(dir: Direction) -> Seq<char> {
    match dir {
        Direction::North => "N"@,
        Direction::East => "E"@,
        Direction::South => "S"@,
        Direction::West => "W"@,
    }
}

/// Compact gate-kind label for the status line.
pub fn gate_label(kind: GateKind) -> (s: &'static str)
    ensures
        s@ == gate_kind_label(kind),
{
    match kind {
        GateKind::And => "AND",
        GateKind::Or => "OR",
        GateKind::Xor => "XOR",
        GateKind::Nand => "NAND",
        GateKind::Nor => "NOR",
        GateKind::Xnor => "XNOR",
        GateKind::Buf => "BUF",
        GateKind::Not => "NOT",
    }
}

/// Single-letter facing label for the status line.
pub fn facing_label(dir: Direction) -> (s: &'static str)
    ensures
        s@ == direction_label(dir),
{
    match dir {
        Direction::North => "N",
        Direction::East => "E",
        Direction::South => "S",
        Direction::West => "W",
    }
}

/// Whether a drag from `from` to `to` paints `c`: the Bresenham line between
/// them when both are on one layer, otherwise `to` alone.
pub open spec fn on_drag(from: Option<Cell>, to: Cell, c: Cell) -> bool {
    match from {
        Some(f) => if f.layer == to.layer {
            c.layer == to.layer && exists|k: nat|
                k <= max(abs(to.x - f.x), abs(to.y - f.y)) && #[trigger] line_point(f.x as int, f.y as int, to.x as int, to.y as int, k)
                    == (c.x as int, c.y as int)
        } else {
            c == to
        },
        None => c == to,
    }
}

/// Set every cell of the drag from `from` to `to` to `tile`; cells off the
/// board are skipped.
pub fn paint_line(board: &mut Board, from: Option<Cell>, to: Cell, tile: Tile)
    requires
        old(board).wf(),
        to.x < 0x2aaa_aaaa && to.y < 0x2aaa_aaaa,
        from matches Some(f) ==> f.x < 0x2aaa_aaaa && f.y < 0x2aaa_aaaa,
    ensures
        final(board).wf(),
        final(board).layers_spec() == old(board).layers_spec(),
        final(board).width_spec() == old(board).width_spec(),
        final(board).height_spec() == old(board).height_spec(),
        forall|c: Cell|
            #[trigger] final(board).tile_at(c) == if on_drag(from, to, c) && old(board).contains_spec(c) {
                tile
            } else {
                old(board).tile_at(c)
            },
{
    if let Some(f) = from {
        if f.layer == to.layer {
            proof {
                lemma_bres_fits_short(abs(to.x as i32 - f.x as i32), abs(to.y as i32 - f.y as i32));
            }
            let pts = bresenham(f.x as i32, f.y as i32, to.x as i32, to.y as i32);
            let ghost b0 = *board;
            let mut i: usize = 0;
            while i < pts.len()
                invariant
                    board.wf(),
                    b0.wf(),
                    board.layers_spec() == b0.layers_spec(),
                    board.width_spec() == b0.width_spec(),
                    board.height_spec() == b0.height_spec(),
                    i <= pts@.len(),
                    forall|c: Cell|
                        #[trigger] board.tile_at(c) == if c.layer == to.layer && (exists|j: int|
                            0 <= j < i && #[trigger] pts@[j] == (c.x as i32, c.y as i32) && c.x < 0x8000_0000 && c.y
                                < 0x8000_0000) && b0.contains_spec(c) {
                            tile
                        } else {
                            b0.tile_at(c)
                        },
                decreases pts@.len() - i,
            {
                let (x, y) = pts[i];
                let ghost bi = *board;
                if x >= 0 && y >= 0 {
                    board.set(Cell::new(to.layer, x as u32, y as u32), tile);
                }
                proof {
                    assert forall|c: Cell| #[trigger] board.tile_at(c) == if c.layer == to.layer && (exists|j: int|
                        0 <= j < i + 1 && #[trigger] pts@[j] == (c.x as i32, c.y as i32) && c.x < 0x8000_0000 && c.y
                            < 0x8000_0000) && b0.contains_spec(c) {
                        tile
                    } else {
                        b0.tile_at(c)
                    } by {
                        if c.layer == to.layer && pts@[i as int] == (c.x as i32, c.y as i32) && c.x < 0x8000_0000 && c.y < 0x8000_0000 {
                            assert(x >= 0 && y >= 0);
                            assert(c == Cell { layer: to.layer, x: x as u32, y: y as u32 });
                        }
                        if c.layer == to.layer && x >= 0 && y >= 0 && c == (Cell { layer: to.layer, x: x as u32, y: y as u32 }) {
                            assert(pts@[i as int] == (c.x as i32, c.y as i32));
                        }
                    }
                }
                i += 1;
            }
            proof {
                let m = max(abs(to.x - f.x), abs(to.y - f.y));
                assert forall|c: Cell| #[trigger] board.tile_at(c) == if on_drag(from, to, c) && b0.contains_spec(c) {
                    tile
                } else {
                    b0.tile_at(c)
                } by {
                    if c.layer == to.layer {
                        if exists|j: int|
                            0 <= j < pts@.len() && #[trigger] pts@[j] == (c.x as i32, c.y as i32) && c.x < 0x8000_0000 && c.y
                                < 0x8000_0000 {
                            let j = choose|j: int|
                                0 <= j < pts@.len() && #[trigger] pts@[j] == (c.x as i32, c.y as i32) && c.x < 0x8000_0000 && c.y
                                    < 0x8000_0000;
                            assert(line_point(f.x as int, f.y as int, to.x as int, to.y as int, j as nat) == (c.x as int, c.y as int));
                        }
                        if exists|k: nat|
                            k <= m && #[trigger] line_point(f.x as int, f.y as int, to.x as int, to.y as int, k) == (
                            c.x as int, c.y as int) {
                            let k = choose|k: nat|
                                k <= m && #[trigger] line_point(f.x as int, f.y as int, to.x as int, to.y as int, k) == (
                                c.x as int, c.y as int);
                            assert((pts@[k as int].0 as int, pts@[k as int].1 as int) == line_point(
                                f.x as int,
                                f.y as int,
                                to.x as int,
                                to.y as int,
                                k,
                            ));
                            assert(pts@[k as int] == (c.x as i32, c.y as i32));
                        }
                    }
                }
            }
            return;
        }
    }
    board.set(to, tile);
}

/// The tile at `c` after stamping `src` into `dst` shifted by
/// `(dl, dx, dy)`: every non-empty tile of `src` lands on the board.
pub open spec fn stamped(dst: Board, src: Board, dl: int, dx: int, dy: int, c: Cell) -> Tile {
    let s = Cell { layer: (c.layer - dl) as u32, x: (c.x - dx) as u32, y: (c.y - dy) as u32 };
    if dst.contains_spec(c) && c.layer >= dl && c.x >= dx && c.y >= dy && src.tile_at(s) != Tile::Empty {
        src.tile_at(s)
    } else {
        dst.tile_at(c)
    }
}

/// Copy every non-empty tile of `src` into `dst`, translated by
/// `(dl, dx, dy)`; tiles landing off `dst` are dropped.
pub fn stamp(dst: &mut Board, src: &Board, dl: u32, dx: u32, dy: u32)
    requires
        old(dst).wf(),
        src.wf(),
        forall|k: int|
            0 <= k < src.occupied().len() ==> (#[trigger] src.occupied()[k]).0.layer + dl <= u32::MAX
                && src.occupied()[k].0.x + dx <= u32::MAX && src.occupied()[k].0.y + dy <= u32::MAX,
    ensures
        final(dst).wf(),
        final(dst).layers_spec() == old(dst).layers_spec(),
        final(dst).width_spec() == old(dst).width_spec(),
        final(dst).height_spec() == old(dst).height_spec(),
        forall|c: Cell| #[trigger] final(dst).tile_at(c) == stamped(*old(dst), *src, dl as int, dx as int, dy as int, c),
{
    let entries = src.iter();
    let ghost occ = src.occupied();
    let ghost d0 = *dst;
    proof {
        crate::board::lemma_occupied_facts(*src);
    }
    let mut i: usize = 0;
    while i < entries.len()
        invariant
            src.wf(),
            entries@ == occ,
            occ == src.occupied(),
            dst.wf(),
            d0.wf(),
            dst.layers_spec() == d0.layers_spec(),
            dst.width_spec() == d0.width_spec(),
            dst.height_spec() == d0.height_spec(),
            i <= occ.len(),
            forall|k: int|
                0 <= k < occ.len() ==> (#[trigger] occ[k]).0.layer + dl <= u32::MAX && occ[k].0.x + dx <= u32::MAX
                    && occ[k].0.y + dy <= u32::MAX,
            forall|k: int|
                0 <= k < occ.len() ==> {
                    &&& src.contains_spec((#[trigger] occ[k]).0)
                    &&& occ[k].1 == src.tile_at(occ[k].0)
                    &&& occ[k].1 != Tile::Empty
                },
            forall|c: Cell|
                #[trigger] dst.tile_at(c) == if exists|k: int|
                    0 <= k < i && #[trigger] occ[k].0 == (Cell {
                        layer: (c.layer - dl) as u32,
                        x: (c.x - dx) as u32,
                        y: (c.y - dy) as u32,
                    }) && c.layer >= dl && c.x >= dx && c.y >= dy && d0.contains_spec(c) {
                    src.tile_at(Cell { layer: (c.layer - dl) as u32, x: (c.x - dx) as u32, y: (c.y - dy) as u32 })
                } else {
                    d0.tile_at(c)
                },
        decreases occ.len() - i,
    {
        let (cell, tile) = entries[i];
        let target = Cell::new(cell.layer + dl, cell.x + dx, cell.y + dy);
        dst.set(target, tile);
        proof {
            assert forall|c: Cell|
                #[trigger] dst.tile_at(c) == if exists|k: int|
                    0 <= k < i + 1 && #[trigger] occ[k].0 == (Cell {
                        layer: (c.layer - dl) as u32,
                        x: (c.x - dx) as u32,
                        y: (c.y - dy) as u32,
                    }) && c.layer >= dl && c.x >= dx && c.y >= dy && d0.contains_spec(c) {
                    src.tile_at(Cell { layer: (c.layer - dl) as u32, x: (c.x - dx) as u32, y: (c.y - dy) as u32 })
                } else {
                    d0.tile_at(c)
                } by {
                let back = Cell { layer: (c.layer - dl) as u32, x: (c.x - dx) as u32, y: (c.y - dy) as u32 };
                if c == target {
                    assert(occ[i as int].0 == back);
                } else if c.layer >= dl && c.x >= dx && c.y >= dy && occ[i as int].0 == back {
                    assert(c == target);
                }
            }
        }
        i += 1;
    }
    proof {
        assert forall|c: Cell| #[trigger] dst.tile_at(c) == stamped(d0, *src, dl as int, dx as int, dy as int, c) by {
            let back = Cell { layer: (c.layer - dl) as u32, x: (c.x - dx) as u32, y: (c.y - dy) as u32 };
            if c.layer >= dl && c.x >= dx && c.y >= dy && src.tile_at(back) != Tile::Empty {
                assert(src.contains_spec(back));
                let k = choose|k: int| 0 <= k < occ.len() && (#[trigger] occ[k]).0 == back;
                assert(occ[k].0 == back);
            }
        }
    }
}

/// A demo's tile at `c` once stamped at `(dl, dx, dy)`.
pub open spec fn placed(tile: spec_fn(Cell) -> Tile, dl: int, dx: int, dy: int, c: Cell) -> Tile {
    if c.layer >= dl && c.x >= dx && c.y >= dy {
        tile(Cell { layer: (c.layer - dl) as u32, x: (c.x - dx) as u32, y: (c.y - dy) as u32 })
    } else {
        Tile::Empty
    }
}

/// The starter canvas at `c`: the SR latch at `(15, 5)`, the via bridge at
/// `(5, 6)` and the clock blinker at `(5, 11)`, later stamps on top.
pub open spec fn starter_tile(c: Cell) -> Tile {
    let clock = placed(|d: Cell| clock_blinker_tile(d), 0, 5, 11, c);
    let via = placed(|d: Cell| via_bridge_tile(d), 0, 5, 6, c);
    let latch = placed(|d: Cell| sr_latch_tile(d), 0, 15, 5, c);
    if c.layer >= 4 || c.x >= 30 || c.y >= 18 {
        Tile::Empty
    } else if clock != Tile::Empty {
        clock
    } else if via != Tile::Empty {
        via
    } else {
        latch
    }
}

/// A four-layer 30×18 canvas seeded with three demos at non-overlapping
/// offsets: the SR latch on the right, the via bridge and the clock blinker
/// stacked down the left.
pub fn starter_board() -> (b: Board)
    ensures
        b.wf(),
        b.layers_spec() == 4 && b.width_spec() == 30 && b.height_spec() == 18,
        forall|c: Cell| #[trigger] b.tile_at(c) == starter_tile(c),
{
    let mut board = Board::new(4, 30, 18);
    let ghost b0 = board;
    let latch = sr_latch();
    proof {
        crate::board::lemma_occupied_facts(latch);
    }
    stamp(&mut board, &latch, 0, 15, 5);
    let ghost b1 = board;
    let via = via_bridge();
    proof {
        crate::board::lemma_occupied_facts(via);
    }
    stamp(&mut board, &via, 0, 5, 6);
    let ghost b2 = board;
    let clock = clock_blinker();
    proof {
        crate::board::lemma_occupied_facts(clock);
    }
    stamp(&mut board, &clock, 0, 5, 11);
    proof {
        assert forall|c: Cell| #[trigger] board.tile_at(c) == starter_tile(c) by {
            assert(b0.tile_at(c) == Tile::Empty);
            assert(b1.tile_at(c) == stamped(b0, latch, 0, 15, 5, c));
            assert(b2.tile_at(c) == stamped(b1, via, 0, 5, 6, c));
            assert(board.tile_at(c) == stamped(b2, clock, 0, 5, 11, c));
        }
    }
    board
}

/// Whether the same-layer neighbour of `cell` in `dir` is something a wire
/// visibly joins: a conductor, a driver or an LED.
pub fn connects_to(board: &Board, cell: Cell, dir: Direction) -> (r: bool)
    requires
        board.wf(),
    ensures
        r == match board.neighbour_spec(cell, dir) {
            Some(n) => is_conductor_spec(board.tile_at(n)) || is_driver_spec(board.tile_at(n)) || board.tile_at(n) == Tile::Led,
            None => false,
        },
{
    match board.neighbour(cell, dir) {
        Some(n) => {
            let t = board.get(n);
            t.is_conductor() || t.is_driver() || t == Tile::Led
        },
        None => false,
    }
}

/// Whether `tile` at `cell` reads as high in `sim`: an LED when lit, a
/// source by its fixed level, anything else when a net it shows is high.
pub open spec fn lit(sim: Sim, cell: Cell, tile: Tile) -> bool {
    match tile {
        Tile::Led => is_led_cell(sim.board_spec(), cell) && sim.output_high(
            led_output(sim.board_spec(), sim.nets_spec().count_spec(), cell),
        ),
        Tile::Source { on } => on,
        _ => sim.display_spec(cell) matches Some(ns) && exists|q: int|
            0 <= q < ns.len() && #[trigger] sim.output_high(ns[q] as int),
    }
}

/// Whether a tile reads as high right now, for lighting.
pub fn cell_lit(sim: &Sim, cell: Cell, tile: Tile) -> (r: bool)
    requires
        sim.wf(),
    ensures
        r == lit(*sim, cell, tile),
{
    match tile {
        Tile::Led => sim.led_on(cell),
        Tile::Source { on } => on,
        _ => sim.cell_on(cell),
    }
}

/// Whether the editor paints tiles or runs the circuit.
#[derive(Clone, Copy, PartialEq, Eq, Debug, Structural)]
pub enum Mode {
    /// Paint, erase, rotate, change layers.
    Edit,
    /// The board is compiled and ticking; switches are clickable.
    Run,
}

impl Mode {
    /// The other mode: what `Space` switches to.
    pub fn toggled(self) -> (m: Mode)
        ensures
            m == match self {
                Mode::Edit => Mode::Run,
                Mode::Run => Mode::Edit,
            },
    {
        match self {
            Mode::Edit => Mode::Run,
            Mode::Run => Mode::Edit,
        }
    }
}

/// The keys the editor responds to.
#[derive(Clone, Copy, PartialEq, Eq, Debug, Structural)]
pub enum Key {
    Digit1,
    Digit2,
    Digit3,
    Digit4,
    Digit5,
    Digit6,
    Digit7,
    Digit8,
    W,
    X,
    V,
    G,
    S,
    O,
    C,
    L,
    E,
    R,
    Tab,
    BracketLeft,
    BracketRight,
}

/// Gate-kind bindings, in the order they are applied: `1`–`8`.
pub open spec fn kind_bindings() -> Seq<(Key, GateKind)> {
    seq![
        (Key::Digit1, GateKind::And),
        (Key::Digit2, GateKind::Or),
        (Key::Digit3, GateKind::Xor),
        (Key::Digit4, GateKind::Nand),
        (Key::Digit5, GateKind::Nor),
        (Key::Digit6, GateKind::Xnor),
        (Key::Digit7, GateKind::Buf),
        (Key::Digit8, GateKind::Not),
    ]
}

/// The tool bindings, in the order they are applied.
pub open spec fn tool_bindings() -> Seq<(Key, Tool)> {
    seq![
        (Key::W, Tool::Wire),
        (Key::X, Tool::Cross),
        (Key::V, Tool::Via),
        (Key::G, Tool::Gate),
        (Key::S, Tool::Switch),
        (Key::O, Tool::Source),
        (Key::C, Tool::Clock),
        (Key::L, Tool::Led),
    ]
}

/// The editor's tool state after applying the first `n` kind bindings to
/// the pressed keys: a pressed digit selects its kind and `Tool::Gate`.
pub open spec fn after_kinds(tool: Tool, kind: GateKind, pressed: Seq<Key>, n: nat) -> (Tool, GateKind)
    decreases n,
{
    if n == 0 {
        (tool, kind)
    } else {
        let prev = after_kinds(tool, kind, pressed, (n - 1) as nat);
        let b = kind_bindings()[n - 1];
        if pressed.contains(b.0) {
            (Tool::Gate, b.1)
        } else {
            prev
        }
    }
}

/// The tool after applying the first `n` tool bindings.
pub open spec fn after_tools(tool: Tool, pressed: Seq<Key>, n: nat) -> Tool
    decreases n,
{
    if n == 0 {
        tool
    } else {
        let prev = after_tools(tool, pressed, (n - 1) as nat);
        let b = tool_bindings()[n - 1];
        if pressed.contains(b.0) {
            b.1
        } else {
            prev
        }
    }
}

/// The tool after every binding: kinds, then tools, then `E` (erase), then
/// `Tab` (next in palette).
pub open spec fn keyed_tool(tool: Tool, kind: GateKind, pressed: Seq<Key>) -> Tool {
    let t1 = after_kinds(tool, kind, pressed, 8).0;
    let t2 = after_tools(t1, pressed, 8);
    let t3 = if pressed.contains(Key::E) {
        Tool::Erase
    } else {
        t2
    };
    if pressed.contains(Key::Tab) {
        tool_at((tool_index(t3) + 1) % 9)
    } else {
        t3
    }
}

/// Whether `key` is among the pressed keys.
fn is_pressed(pressed: &[Key], key: Key) -> (r: bool)
    ensures
        r == pressed@.contains(key),
{
    let mut i: usize = 0;
    while i < pressed.len()
        invariant
            i <= pressed@.len(),
            forall|j: int| 0 <= j < i ==> pressed@[j] != key,
        decreases pressed@.len() - i,
    {
        if pressed[i] == key {
            return true;
        }
        i += 1;
    }
    false
}

/// All of the editor's tool state: the tool, its gate kind and facing it
/// stamps, the active layer, the cursor and paint bookkeeping, and a short
/// status message.
pub struct Editor {
    pub tool: Tool,
    pub gate_kind: GateKind,
    pub facing: Direction,
    pub active_layer: u32,
    /// The cell under the cursor on the active layer, if on the board.
    pub hovered: Option<Cell>,
    /// The last cell painted this drag, so fast drags fill a continuous line.
    pub last_paint: Option<Cell>,
    /// A short message shown at the end of the status line.
    pub status: String,
}

impl Default for Editor {
    fn default() -> (e: Editor)
        ensures
            e.tool == Tool::Wire,
            e.gate_kind == GateKind::And,
            e.facing == Direction::East,
            e.active_layer == 0,
            e.hovered is None,
            e.last_paint is None,
            e.status@ == Seq::<char>::empty(),
    {
        Editor {
            tool: Tool::Wire,
            gate_kind: GateKind::And,
            facing: Direction::East,
            active_layer: 0,
            hovered: None,
            last_paint: None,
            status: String::new(),
        }
    }
}

impl Editor {
    /// Tool selection: `1`–`8` pick a gate kind (and `Tool::Gate`), letters
    /// pick tools, `E` erases, `Tab` cycles, `R` rotates the stamp facing.
    /// Bindings apply in that order, so a later one wins.
    pub fn tool_keys(&mut self, pressed: &[Key])
        ensures
            final(self).tool == keyed_tool(old(self).tool, old(self).gate_kind, pressed@),
            final(self).gate_kind == after_kinds(old(self).tool, old(self).gate_kind, pressed@, 8).1,
            final(self).facing == if pressed@.contains(Key::R) {
                rotate_cw_spec(old(self).facing)
            } else {
                old(self).facing
            },
            final(self).active_layer == old(self).active_layer,
            final(self).hovered == old(self).hovered,
            final(self).last_paint == old(self).last_paint,
            final(self).status == old(self).status,
    {
        let kinds = [
            (Key::Digit1, GateKind::And),
            (Key::Digit2, GateKind::Or),
            (Key::Digit3, GateKind::Xor),
            (Key::Digit4, GateKind::Nand),
            (Key::Digit5, GateKind::Nor),
            (Key::Digit6, GateKind::Xnor),
            (Key::Digit7, GateKind::Buf),
            (Key::Digit8, GateKind::Not),
        ];
        let tools = [
            (Key::W, Tool::Wire),
            (Key::X, Tool::Cross),
            (Key::V, Tool::Via),
            (Key::G, Tool::Gate),
            (Key::S, Tool::Switch),
            (Key::O, Tool::Source),
            (Key::C, Tool::Clock),
            (Key::L, Tool::Led),
        ];
        proof {
            assert(kinds@ =~= kind_bindings());
            assert(tools@ =~= tool_bindings());
        }
        let ghost (tool0, kind0) = (self.tool, self.gate_kind);
        let ghost e0 = *self;
        let mut i: usize = 0;
        while i < 8
            invariant
                kinds@ == kind_bindings(),
                self.facing == e0.facing && self.active_layer == e0.active_layer && self.hovered == e0.hovered
                    && self.last_paint == e0.last_paint && self.status == e0.status,
                i <= 8,
                (self.tool, self.gate_kind) == after_kinds(tool0, kind0, pressed@, i as nat),
            decreases 8 - i,
        {
            let (key, kind) = kinds[i];
            if is_pressed(pressed, key) {
                self.gate_kind = kind;
                self.tool = Tool::Gate;
            }
            i += 1;
        }
        let ghost tool1 = self.tool;
        let mut i: usize = 0;
        while i < 8
            invariant
                tools@ == tool_bindings(),
                self.facing == e0.facing && self.active_layer == e0.active_layer && self.hovered == e0.hovered
                    && self.last_paint == e0.last_paint && self.status == e0.status,
                self.gate_kind == after_kinds(tool0, kind0, pressed@, 8).1,
                i <= 8,
                self.tool == after_tools(tool1, pressed@, i as nat),
            decreases 8 - i,
        {
            let (key, tool) = tools[i];
            if is_pressed(pressed, key) {
                self.tool = tool;
            }
            i += 1;
        }
        if is_pressed(pressed, Key::E) {
            self.tool = Tool::Erase;
        }
        if is_pressed(pressed, Key::Tab) {
            self.tool = self.tool.next();
        }
        if is_pressed(pressed, Key::R) {
            self.facing = self.facing.rotate_cw();
        }
    }

    /// `]` moves up a layer, `[` moves down, clamped to the board's stack.
    pub fn layer_keys(&mut self, pressed: &[Key], layers: u32)
        ensures
            final(self).active_layer == ({
                let up = if pressed@.contains(Key::BracketRight) && old(self).active_layer + 1 < layers {
                    old(self).active_layer + 1
                } else {
                    old(self).active_layer as int
                };
                if pressed@.contains(Key::BracketLeft) && up > 0 {
                    up - 1
                } else {
                    up
                }
            }),
            final(self).tool == old(self).tool,
            final(self).gate_kind == old(self).gate_kind,
            final(self).facing == old(self).facing,
            final(self).hovered == old(self).hovered,
            final(self).last_paint == old(self).last_paint,
            final(self).status == old(self).status,
    {
        if is_pressed(pressed, Key::BracketRight) && (self.active_layer as u64) + 1 < layers as u64 {
            self.active_layer += 1;
        }
        if is_pressed(pressed, Key::BracketLeft) && self.active_layer > 0 {
            self.active_layer -= 1;
        }
    }

    /// One frame of painting: with the left button held, paint the tool's
    /// tile along the drag from the last painted cell to the hovered one;
    /// with the right button, erase along it; otherwise end the drag.
    pub fn paint(&mut self, board: &mut Board, left: bool, right: bool)
        requires
            old(board).wf(),
            old(self).hovered matches Some(h) ==> h.x < 0x2aaa_aaaa && h.y < 0x2aaa_aaaa,
            old(self).last_paint matches Some(f) ==> f.x < 0x2aaa_aaaa && f.y < 0x2aaa_aaaa,
        ensures
            final(board).wf(),
            final(board).layers_spec() == old(board).layers_spec(),
            final(board).width_spec() == old(board).width_spec(),
            final(board).height_spec() == old(board).height_spec(),
            final(self).tool == old(self).tool && final(self).gate_kind == old(self).gate_kind && final(self).facing
                == old(self).facing && final(self).active_layer == old(self).active_layer && final(self).hovered
                == old(self).hovered && final(self).status == old(self).status,
            final(self).last_paint == match old(self).hovered {
                Some(h) => if left || right {
                    Some(h)
                } else {
                    None
                },
                None => None,
            },
            forall|c: Cell|
                #[trigger] final(board).tile_at(c) == match old(self).hovered {
                    Some(h) => if (left || right) && on_drag(old(self).last_paint, h, c) && old(board).contains_spec(c) {
                        if left {
                            tool_tile(old(self).tool, old(self).gate_kind, old(self).facing)
                        } else {
                            Tile::Empty
                        }
                    } else {
                        old(board).tile_at(c)
                    },
                    None => old(board).tile_at(c),
                },
    {
        let hovered = match self.hovered {
            Some(h) => h,
            None => {
                self.last_paint = None;
                return;
            },
        };
        if left {
            let tile = self.tool.tile(self.gate_kind, self.facing);
            paint_line(board, self.last_paint, hovered, tile);
            self.last_paint = Some(hovered);
        } else if right {
            paint_line(board, self.last_paint, hovered, Tile::Empty);
            self.last_paint = Some(hovered);
        } else {
            self.last_paint = None;
        }
    }
}

/// A click on the hovered cell while running toggles it if it holds a
/// switch; anything else leaves the simulation alone.
pub fn click_switch(sim: &mut Sim, hovered: Option<Cell>)
    requires
        old(sim).wf(),
    ensures
        final(sim).wf(),
        match hovered {
            Some(c) => if is_switch_cell(old(sim).board_spec(), c) {
                switched(*old(sim), *final(sim), c, old(sim).switch_spec(c) != Some(true))
            } else {
                *final(sim) == *old(sim)
            },
            None => *final(sim) == *old(sim),
        },
{
    let cell = match hovered {
        Some(c) => c,
        None => return,
    };
    if sim.is_switch(cell) {
        sim.toggle_switch(cell);
    }
}

/// `Tab` once: the next tool in palette order.
pub open spec fn next_tool(t: Tool) -> Tool {
    tool_at((tool_index(t) + 1) % 9)
}

/// `Tab` pressed `n` times.
pub open spec fn tabbed(t: Tool, n: nat) -> Tool
    decreases n,
{
    if n == 0 {
        t
    } else {
        next_tool(tabbed(t, (n - 1) as nat))
    }
}

/// `k` presses of `Tab` move `k` places along the palette.
proof fn lemma_tabbed(t: Tool, k: nat)
    ensures
        tabbed(t, k) == tool_at((tool_index(t) + k) % 9),
    decreases k,
{
    if k > 0 {
        lemma_tabbed(t, (k - 1) as nat);
        let j = (tool_index(t) + k - 1) % 9;
        assert(tool_index(tool_at(j)) == j);
        assert((j + 1) % 9 == (tool_index(t) + k) % 9);
    } else {
        assert(tool_at(tool_index(t) % 9) == t);
    }
}

/// Cycling with `Tab` comes back around: nine presses return to the
/// starting tool, and one never stays put.
pub proof fn lemma_tool_cycle(t: Tool)
    ensures
        tabbed(t, 9) == t,
        next_tool(t) != t,
{
    lemma_tabbed(t, 9);
    assert((tool_index(t) + 9) % 9 == tool_index(t));
    assert(tool_at(tool_index(t)) == t);
}

/// `c` moved by `(dl, dx, dy)`.
pub open spec fn shifted(c: Cell, dl: int, dx: int, dy: int) -> Cell {
    Cell { layer: (c.layer + dl) as u32, x: (c.x + dx) as u32, y: (c.y + dy) as u32 }
}

/// Stamping is a rigid translation, so it keeps adjacency: a neighbour in
/// the source is the same-direction neighbour of the stamped cell, wherever
/// both land on the destination.
pub proof fn lemma_stamp_keeps_adjacency(src: Board, dst: Board, dl: u32, dx: u32, dy: u32, c: Cell, dir: Direction)
    requires
        src.neighbour_spec(c, dir) is Some,
        c.layer + dl <= u32::MAX && c.x + dx <= u32::MAX && c.y + dy <= u32::MAX,
        ({
            let n = src.neighbour_spec(c, dir)->0;
            &&& n.layer + dl <= u32::MAX && n.x + dx <= u32::MAX && n.y + dy <= u32::MAX
            &&& dst.contains_spec(shifted(n, dl as int, dx as int, dy as int))
        }),
    ensures
        dst.neighbour_spec(shifted(c, dl as int, dx as int, dy as int), dir) == Some(
            shifted(src.neighbour_spec(c, dir)->0, dl as int, dx as int, dy as int),
        ),
{
}


/// Every placing tool paints its namesake tile; `Tool::Gate` paints a gate
/// of the chosen kind and facing, `Tool::Source` an on source, and
/// `Tool::Erase` clears.
pub proof fn lemma_tools_paint_their_tiles(kind: GateKind, facing: Direction)
    ensures
        tool_tile(Tool::Wire, kind, facing) == Tile::Wire,
        tool_tile(Tool::Cross, kind, facing) == Tile::Cross,
        tool_tile(Tool::Via, kind, facing) == Tile::Via,
        tool_tile(Tool::Gate, kind, facing) == (Tile::Gate { kind, facing }),
        tool_tile(Tool::Switch, kind, facing) == Tile::Switch,
        tool_tile(Tool::Source, kind, facing) == (Tile::Source { on: true }),
        tool_tile(Tool::Clock, kind, facing) == Tile::Clock,
        tool_tile(Tool::Led, kind, facing) == Tile::Led,
        tool_tile(Tool::Erase, kind, facing) == Tile::Empty,
{
}

/// Digit `k` pressed alone selects `Tool::Gate` and the `k`-th gate kind
/// in the order AND, OR, XOR, NAND, NOR, XNOR, BUF, NOT.
pub proof fn lemma_digit_selects_kind(tool: Tool, kind: GateKind)
    ensures
        keyed_tool(tool, kind, seq![Key::Digit1]) == Tool::Gate && after_kinds(tool, kind, seq![Key::Digit1], 8).1 == GateKind::And,
        keyed_tool(tool, kind, seq![Key::Digit2]) == Tool::Gate && after_kinds(tool, kind, seq![Key::Digit2], 8).1 == GateKind::Or,
        keyed_tool(tool, kind, seq![Key::Digit3]) == Tool::Gate && after_kinds(tool, kind, seq![Key::Digit3], 8).1 == GateKind::Xor,
        keyed_tool(tool, kind, seq![Key::Digit4]) == Tool::Gate && after_kinds(tool, kind, seq![Key::Digit4], 8).1 == GateKind::Nand,
        keyed_tool(tool, kind, seq![Key::Digit5]) == Tool::Gate && after_kinds(tool, kind, seq![Key::Digit5], 8).1 == GateKind::Nor,
        keyed_tool(tool, kind, seq![Key::Digit6]) == Tool::Gate && after_kinds(tool, kind, seq![Key::Digit6], 8).1 == GateKind::Xnor,
        keyed_tool(tool, kind, seq![Key::Digit7]) == Tool::Gate && after_kinds(tool, kind, seq![Key::Digit7], 8).1 == GateKind::Buf,
        keyed_tool(tool, kind, seq![Key::Digit8]) == Tool::Gate && after_kinds(tool, kind, seq![Key::Digit8], 8).1 == GateKind::Not,
{
    lemma_single_digit(tool, kind, Key::Digit1, 0);
    lemma_single_digit(tool, kind, Key::Digit2, 1);
    lemma_single_digit(tool, kind, Key::Digit3, 2);
    lemma_single_digit(tool, kind, Key::Digit4, 3);
    lemma_single_digit(tool, kind, Key::Digit5, 4);
    lemma_single_digit(tool, kind, Key::Digit6, 5);
    lemma_single_digit(tool, kind, Key::Digit7, 6);
    lemma_single_digit(tool, kind, Key::Digit8, 7);
}

proof fn lemma_single_digit(tool: Tool, kind: GateKind, key: Key, i: int)
    requires
        0 <= i < 8,
        kind_bindings()[i].0 == key,
        forall|t: int| 0 <= t < 8 && t != i ==> kind_bindings()[t].0 != key,
        forall|t: int| 0 <= t < 8 ==> tool_bindings()[t].0 != key,
        key != Key::E && key != Key::Tab,
    ensures
        keyed_tool(tool, kind, seq![key]) == Tool::Gate,
        after_kinds(tool, kind, seq![key], 8) == (Tool::Gate, kind_bindings()[i].1),
{
    let p = seq![key];
    assert forall|x: Key| p.contains(x) <==> x == key by {
        if x == key {
            assert(p[0] == x);
        }
    }
    lemma_after_kinds_single(tool, kind, key, i, 8);
    lemma_after_tools_none(Tool::Gate, p, 8);
}

proof fn lemma_after_kinds_single(tool: Tool, kind: GateKind, key: Key, i: int, n: nat)
    requires
        0 <= i < 8,
        i < n <= 8,
        kind_bindings()[i].0 == key,
        forall|t: int| 0 <= t < 8 && t != i ==> kind_bindings()[t].0 != key,
        forall|x: Key| seq![key].contains(x) <==> x == key,
    ensures
        after_kinds(tool, kind, seq![key], n) == (Tool::Gate, kind_bindings()[i].1),
    decreases n,
{
    if n - 1 > i {
        lemma_after_kinds_single(tool, kind, key, i, (n - 1) as nat);
        assert(!seq![key].contains(kind_bindings()[n - 1].0));
    } else {
        assert(seq![key].contains(kind_bindings()[n - 1].0));
    }
}

proof fn lemma_after_tools_none(tool: Tool, pressed: Seq<Key>, n: nat)
    requires
        n <= 8,
        forall|t: int| 0 <= t < 8 ==> !pressed.contains(#[trigger] tool_bindings()[t].0),
    ensures
        after_tools(tool, pressed, n) == tool,
    decreases n,
{
    if n > 0 {
        lemma_after_tools_none(tool, pressed, (n - 1) as nat);
        assert(!pressed.contains(tool_bindings()[n - 1].0));
    }
}


/// A tool letter pressed alone selects its tool: W wire, X cross, V via,
/// G gate, S switch, O source, C clock, L LED; E erases.
pub proof fn lemma_letter_selects_tool(tool: Tool, kind: GateKind)
    ensures
        keyed_tool(tool, kind, seq![Key::W]) == Tool::Wire,
        keyed_tool(tool, kind, seq![Key::X]) == Tool::Cross,
        keyed_tool(tool, kind, seq![Key::V]) == Tool::Via,
        keyed_tool(tool, kind, seq![Key::G]) == Tool::Gate,
        keyed_tool(tool, kind, seq![Key::S]) == Tool::Switch,
        keyed_tool(tool, kind, seq![Key::O]) == Tool::Source,
        keyed_tool(tool, kind, seq![Key::C]) == Tool::Clock,
        keyed_tool(tool, kind, seq![Key::L]) == Tool::Led,
        keyed_tool(tool, kind, seq![Key::E]) == Tool::Erase,
{
    lemma_single_letter(tool, kind, Key::W, 0);
    lemma_single_letter(tool, kind, Key::X, 1);
    lemma_single_letter(tool, kind, Key::V, 2);
    lemma_single_letter(tool, kind, Key::G, 3);
    lemma_single_letter(tool, kind, Key::S, 4);
    lemma_single_letter(tool, kind, Key::O, 5);
    lemma_single_letter(tool, kind, Key::C, 6);
    lemma_single_letter(tool, kind, Key::L, 7);
    let p = seq![Key::E];
    assert forall|x: Key| p.contains(x) <==> x == Key::E by {
        if x == Key::E {
            assert(p[0] == x);
        }
    }
    lemma_after_kinds_none(tool, kind, p, 8);
}

proof fn lemma_single_letter(tool: Tool, kind: GateKind, key: Key, i: int)
    requires
        0 <= i < 8,
        tool_bindings()[i].0 == key,
        forall|t: int| 0 <= t < 8 && t != i ==> tool_bindings()[t].0 != key,
        forall|t: int| 0 <= t < 8 ==> kind_bindings()[t].0 != key,
        key != Key::E && key != Key::Tab,
    ensures
        keyed_tool(tool, kind, seq![key]) == tool_bindings()[i].1,
{
    let p = seq![key];
    assert forall|x: Key| p.contains(x) <==> x == key by {
        if x == key {
            assert(p[0] == x);
        }
    }
    lemma_after_kinds_none(tool, kind, p, 8);
    lemma_after_tools_single(tool, key, i, 8);
}

proof fn lemma_after_kinds_none(tool: Tool, kind: GateKind, pressed: Seq<Key>, n: nat)
    requires
        n <= 8,
        forall|t: int| 0 <= t < 8 ==> !pressed.contains(#[trigger] kind_bindings()[t].0),
    ensures
        after_kinds(tool, kind, pressed, n) == (tool, kind),
    decreases n,
{
    if n > 0 {
        lemma_after_kinds_none(tool, kind, pressed, (n - 1) as nat);
        assert(!pressed.contains(kind_bindings()[n - 1].0));
    }
}

proof fn lemma_after_tools_single(tool: Tool, key: Key, i: int, n: nat)
    requires
        0 <= i < 8,
        i < n <= 8,
        tool_bindings()[i].0 == key,
        forall|t: int| 0 <= t < 8 && t != i ==> tool_bindings()[t].0 != key,
        forall|x: Key| seq![key].contains(x) <==> x == key,
    ensures
        after_tools(tool, seq![key], n) == tool_bindings()[i].1,
    decreases n,
{
    if n - 1 > i {
        lemma_after_tools_single(tool, key, i, (n - 1) as nat);
        assert(!seq![key].contains(tool_bindings()[n - 1].0));
    } else {
        assert(seq![key].contains(tool_bindings()[n - 1].0));
    }
}


/// `Tab` alone steps through the palette in order, Wire, Cross, Via,
/// Gate, Switch, Source, Clock, Led, Erase, and back to Wire.
pub proof fn lemma_tab_cycles_tools(kind: GateKind)
    ensures
        keyed_tool(Tool::Wire, kind, seq![Key::Tab]) == Tool::Cross,
        keyed_tool(Tool::Cross, kind, seq![Key::Tab]) == Tool::Via,
        keyed_tool(Tool::Via, kind, seq![Key::Tab]) == Tool::Gate,
        keyed_tool(Tool::Gate, kind, seq![Key::Tab]) == Tool::Switch,
        keyed_tool(Tool::Switch, kind, seq![Key::Tab]) == Tool::Source,
        keyed_tool(Tool::Source, kind, seq![Key::Tab]) == Tool::Clock,
        keyed_tool(Tool::Clock, kind, seq![Key::Tab]) == Tool::Led,
        keyed_tool(Tool::Led, kind, seq![Key::Tab]) == Tool::Erase,
        keyed_tool(Tool::Erase, kind, seq![Key::Tab]) == Tool::Wire,
{
    let p = seq![Key::Tab];
    assert forall|x: Key| p.contains(x) <==> x == Key::Tab by {
        if x == Key::Tab {
            assert(p[0] == x);
        }
    }
    assert forall|t: Tool| after_tools(t, p, 8) == t by {
        lemma_after_tools_none(t, p, 8);
    }
    assert forall|t: Tool| after_kinds(t, kind, p, 8) == (t, kind) by {
        lemma_after_kinds_none(t, kind, p, 8);
    }
}

/// `R` turns the stamp a quarter clockwise: its step `(dx, dy)` becomes
/// `(dy, -dx)`, north to east, east to south.
pub proof fn lemma_rotate_is_clockwise(d: Direction)
    ensures
        crate::tile::delta_spec(rotate_cw_spec(d)) == (crate::tile::delta_spec(d).1, -crate::tile::delta_spec(d).0),
        rotate_cw_spec(Direction::North) == Direction::East,
{
}

} // verus!
