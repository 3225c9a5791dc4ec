//! Ready-made boards: the editor's starter content and the test suite's
//! fixtures in one place. Each one is small enough to read by hand; its
//! contract spells out every tile.

use vstd::prelude::*;

use crate::board::{Board, Cell};
use crate::tile::{Direction, GateKind, Tile};

verus! {

/// Set a tile on layer 0.
fn put(board: &mut Board, x: u32, y: u32, tile: Tile)
    requires
        old(board).wf(),
    ensures
        final(board).wf(),
        final(board).layers_spec() == old(board).layers_spec(),
        final(board).width_spec() == old(board).width_spec(),
        final(board).height_spec() == old(board).height_spec(),
        forall|c: Cell|
            #[trigger] final(board).tile_at(c) == if c == (Cell { layer: 0, x, y }) && old(board).contains_spec(c) {
                tile
            } else {
                old(board).tile_at(c)
            },
{
    board.set(Cell::new(0, x, y), tile);
}

/// Lay a run of plain wire on layer 0.
fn wires(board: &mut Board, cells: &[(u32, u32)])
    requires
        old(board).wf(),
    ensures
        final(board).wf(),
        final(board).layers_spec() == old(board).layers_spec(),
        final(board).width_spec() == old(board).width_spec(),
        final(board).height_spec() == old(board).height_spec(),
        forall|c: Cell|
            #[trigger] final(board).tile_at(c) == if c.layer == 0 && cells@.contains((c.x, c.y)) && old(
                board,
            ).contains_spec(c) {
                Tile::Wire
            } else {
                old(board).tile_at(c)
            },
{
    let ghost b0 = *board;
    let mut i: usize = 0;
    while i < cells.len()
        invariant
            board.wf(),
            i <= cells@.len(),
            board.layers_spec() == b0.layers_spec(),
            board.width_spec() == b0.width_spec(),
            board.height_spec() == b0.height_spec(),
            forall|c: Cell|
                #[trigger] board.tile_at(c) == if c.layer == 0 && cells@.take(i as int).contains((c.x, c.y))
                    && b0.contains_spec(c) {
                    Tile::Wire
                } else {
                    b0.tile_at(c)
                },
        decreases cells@.len() - i,
    {
        let (x, y) = cells[i];
        let ghost before = *board;
        put(board, x, y, Tile::Wire);
        proof {
            assert forall|c: Cell|
                #[trigger] board.tile_at(c) == if c.layer == 0 && cells@.take(i + 1).contains((c.x, c.y))
                    && b0.contains_spec(c) {
                    Tile::Wire
                } else {
                    b0.tile_at(c)
                } by {
                assert(cells@.take(i + 1) =~= cells@.take(i as int).push((x, y)));
                assert(cells@.take(i + 1)[i as int] == (x, y));
                assert(before.tile_at(c) == if c.layer == 0 && cells@.take(i as int).contains((c.x, c.y))
                    && b0.contains_spec(c) {
                    Tile::Wire
                } else {
                    b0.tile_at(c)
                });
                if cells@.take(i + 1).contains((c.x, c.y)) && !cells@.take(i as int).contains((c.x, c.y)) {
                    let k = choose|k: int| 0 <= k < i + 1 && #[trigger] cells@.take(i + 1)[k] == (c.x, c.y);
                    if k < i {
                        assert(cells@.take(i as int)[k] == (c.x, c.y));
                    }
                }
                if cells@.take(i as int).contains((c.x, c.y)) {
                    let k = choose|k: int| 0 <= k < i && #[trigger] cells@.take(i as int)[k] == (c.x, c.y);
                    assert(cells@.take(i + 1)[k] == (c.x, c.y));
                }
            }
        }
        i += 1;
    }
    proof {
        assert(cells@.take(cells@.len() as int) =~= cells@);
    }
}

/// The tiles of [`two_input`]: gate at (2,1) facing east, switches at (2,2)
/// and (2,0), an output stub at (3,1) and the LED at (4,1).
pub open spec fn two_input_tile(kind: GateKind, c: Cell) -> Tile {
    if c.layer != 0 {
        Tile::Empty
    } else if c.x == 4 && c.y == 1 {
        Tile::Led
    } else if c.x == 3 && c.y == 1 {
        Tile::Wire
    } else if c.x == 2 && (c.y == 0 || c.y == 2) {
        Tile::Switch
    } else if c.x == 2 && c.y == 1 {
        Tile::Gate { kind, facing: Direction::East }
    } else {
        Tile::Empty
    }
}

pub open spec fn is_two_input(b: Board, kind: GateKind) -> bool {
    &&& b.wf()
    &&& b.layers_spec() == 1 && b.width_spec() == 5 && b.height_spec() == 3
    &&& forall|c: Cell| #[trigger] b.tile_at(c) == two_input_tile(kind, c)
}

/// Two switches into an AND gate into an LED — the canonical first circuit.
///
/// ```text
///   B↓
///   [&]→─◧     (& = AND facing east, ◧ = LED)
///   A↑
/// ```
pub fn and_gate() -> (b: Board)
    ensures
        is_two_input(b, GateKind::And),
{
    two_input(GateKind::And)
}

/// Same shape as [`and_gate`] but any gate kind, so one layout drives the
/// whole truth-table test matrix.
pub fn two_input(kind: GateKind) -> (b: Board)
    ensures
        is_two_input(b, kind),
{
    let mut board = Board::new(1, 5, 3);
    put(&mut board, 2, 1, Tile::Gate { kind, facing: Direction::East });
    put(&mut board, 2, 2, Tile::Switch);  // input A, north side
    put(&mut board, 2, 0, Tile::Switch);  // input B, south side
    put(&mut board, 3, 1, Tile::Wire);  // output stub
    put(&mut board, 4, 1, Tile::Led);
    board
}

/// The two switch cells of a [`two_input`] board, in `(A, B)` order.
pub fn two_input_switches() -> (r: (Cell, Cell))
    ensures
        r == (Cell { layer: 0, x: 2, y: 2 }, Cell { layer: 0, x: 2, y: 0 }),
{
    (Cell::new(0, 2, 2), Cell::new(0, 2, 0))
}

/// The LED cell of a [`two_input`] board.
pub fn two_input_led() -> (r: Cell)
    ensures
        r == (Cell { layer: 0, x: 4, y: 1 }),
{
    Cell::new(0, 4, 1)
}

/// The wire loop of [`ring_oscillator`].
pub open spec fn ring_loop() -> Seq<(u32, u32)> {
    seq![(2, 1), (2, 0), (1, 0), (0, 0), (0, 1)]
}

pub open spec fn ring_tile(c: Cell) -> Tile {
    if c.layer != 0 || c.x >= 3 || c.y >= 3 {
        Tile::Empty
    } else if ring_loop().contains((c.x, c.y)) {
        Tile::Wire
    } else if c.x == 1 && c.y == 1 {
        Tile::Gate { kind: GateKind::Not, facing: Direction::East }
    } else {
        Tile::Empty
    }
}

pub open spec fn is_ring_oscillator(b: Board) -> bool {
    &&& b.wf()
    &&& b.layers_spec() == 1 && b.width_spec() == 3 && b.height_spec() == 3
    &&& forall|c: Cell| #[trigger] b.tile_at(c) == ring_tile(c)
}

/// A single inverter feeding its own input through a wire loop: the output
/// flips every tick, the smallest possible oscillator and a direct test that
/// feedback is legal under the register lowering.
pub fn ring_oscillator() -> (b: Board)
    ensures
        is_ring_oscillator(b),
{
    let mut board = Board::new(1, 3, 3);
    put(&mut board, 1, 1, Tile::Gate { kind: GateKind::Not, facing: Direction::East });
    // Output at (2,1) loops back around the bottom into the inverter's west input.
    let cells = [(2u32, 1u32), (2, 0), (1, 0), (0, 0), (0, 1)];
    assert(cells@ =~= ring_loop());
    wires(&mut board, &cells);
    board
}

pub open spec fn clock_blinker_tile(c: Cell) -> Tile {
    if c.layer != 0 || c.y != 0 {
        Tile::Empty
    } else if c.x == 2 {
        Tile::Led
    } else if c.x == 1 {
        Tile::Wire
    } else if c.x == 0 {
        Tile::Clock
    } else {
        Tile::Empty
    }
}

pub open spec fn is_clock_blinker(b: Board) -> bool {
    &&& b.wf()
    &&& b.layers_spec() == 1 && b.width_spec() == 3 && b.height_spec() == 1
    &&& forall|c: Cell| #[trigger] b.tile_at(c) == clock_blinker_tile(c)
}

/// A free-running clock straight into an LED — the simplest "something
/// moves" board, and a test that [`Tile::Clock`] toggles.
pub fn clock_blinker() -> (b: Board)
    ensures
        is_clock_blinker(b),
{
    let mut board = Board::new(1, 3, 1);
    put(&mut board, 0, 0, Tile::Clock);
    put(&mut board, 1, 0, Tile::Wire);
    put(&mut board, 2, 0, Tile::Led);
    board
}

/// The LED cell of [`clock_blinker`].
pub fn clock_blinker_led() -> (r: Cell)
    ensures
        r == (Cell { layer: 0, x: 2, y: 0 }),
{
    Cell::new(0, 2, 0)
}

/// The Q feedback bus of [`sr_latch`].
pub open spec fn sr_q_bus() -> Seq<(u32, u32)> {
    seq![(2, 7), (3, 7), (3, 6), (3, 4), (3, 3), (2, 3), (1, 3), (1, 2)]
}

/// The Qn feedback bus of [`sr_latch`].
pub open spec fn sr_qn_bus() -> Seq<(u32, u32)> {
    seq![(2, 1), (3, 1), (4, 1), (5, 1), (5, 2), (5, 3), (5, 4), (5, 5), (4, 5), (2, 5), (1, 5), (1, 6)]
}

pub open spec fn sr_latch_tile(c: Cell) -> Tile {
    if c.layer != 0 || c.x >= 9 || c.y >= 9 {
        Tile::Empty
    } else if c.x == 0 && (c.y == 3 || c.y == 5) {
        Tile::Led
    } else if c.x == 3 && c.y == 5 {
        Tile::Cross
    } else if sr_qn_bus().contains((c.x, c.y)) || sr_q_bus().contains((c.x, c.y)) {
        Tile::Wire
    } else if c.x == 1 && (c.y == 1 || c.y == 7) {
        Tile::Gate { kind: GateKind::Nor, facing: Direction::East }
    } else if c.x == 0 && (c.y == 1 || c.y == 7) {
        Tile::Switch
    } else {
        Tile::Empty
    }
}

pub open spec fn is_sr_latch(b: Board) -> bool {
    &&& b.wf()
    &&& b.layers_spec() == 1 && b.width_spec() == 9 && b.height_spec() == 9
    &&& forall|c: Cell| #[trigger] b.tile_at(c) == sr_latch_tile(c)
}

/// A cross-coupled NOR pair: the textbook set/reset latch, and the demo that
/// shows the editor handling true bistable feedback. `S` at (0,1) sets, `R`
/// at (0,7) resets; the `Q`/`Qn` LEDs sit at (0,3)/(0,5). The two feedback
/// buses cross exactly once, through the [`Tile::Cross`] at (3,5).
pub fn sr_latch() -> (b: Board)
    ensures
        is_sr_latch(b),
{
    let mut board = Board::new(1, 9, 9);

    // Qn = NOR(S, Q): gate at (1,1) facing east, set switch to its west.
    put(&mut board, 0, 1, Tile::Switch);  // S
    put(&mut board, 1, 1, Tile::Gate { kind: GateKind::Nor, facing: Direction::East });
    // Q = NOR(R, Qn): gate at (1,7) facing east, reset switch to its west.
    put(&mut board, 0, 7, Tile::Switch);  // R
    put(&mut board, 1, 7, Tile::Gate { kind: GateKind::Nor, facing: Direction::East });

    // Q bus: from the (1,7) gate's output down column 3 and into the (1,1)
    // gate's north input at (1,2).
    let q_bus = [(2u32, 7u32), (3, 7), (3, 6), (3, 4), (3, 3), (2, 3), (1, 3), (1, 2)];
    assert(q_bus@ =~= sr_q_bus());
    wires(&mut board, &q_bus);
    // Qn bus: from the (1,1) gate's output up and around column 5 into the
    // (1,7) gate's south input at (1,6).
    let qn_bus = [
        (2u32, 1u32),
        (3, 1),
        (4, 1),
        (5, 1),
        (5, 2),
        (5, 3),
        (5, 4),
        (5, 5),
        (4, 5),
        (2, 5),
        (1, 5),
        (1, 6),
    ];
    assert(qn_bus@ =~= sr_qn_bus());
    wires(&mut board, &qn_bus);
    // The single crossing of the two buses: Q runs vertically, Qn horizontally.
    put(&mut board, 3, 5, Tile::Cross);

    // Indicator LEDs tapping each bus.
    put(&mut board, 0, 3, Tile::Led);  // Q
    put(&mut board, 0, 5, Tile::Led);  // Qn
    board
}

/// Cells the latch test pokes: `(set, reset, q_led, qn_led)`.
pub fn sr_latch_ports() -> (r: (Cell, Cell, Cell, Cell))
    ensures
        r == (
            Cell { layer: 0, x: 0, y: 1 },
            Cell { layer: 0, x: 0, y: 7 },
            Cell { layer: 0, x: 0, y: 3 },
            Cell { layer: 0, x: 0, y: 5 },
        ),
{
    (Cell::new(0, 0, 1), Cell::new(0, 0, 7), Cell::new(0, 0, 3), Cell::new(0, 0, 5))
}

pub open spec fn via_bridge_tile(c: Cell) -> Tile {
    if c.y != 0 || c.layer >= 2 || c.x >= 3 {
        Tile::Empty
    } else if c.x == 2 {
        Tile::Via
    } else if c.x == 1 {
        Tile::Wire
    } else if c.layer == 0 {
        Tile::Switch
    } else {
        Tile::Led
    }
}

pub open spec fn is_via_bridge(b: Board) -> bool {
    &&& b.wf()
    &&& b.layers_spec() == 2 && b.width_spec() == 3 && b.height_spec() == 1
    &&& forall|c: Cell| #[trigger] b.tile_at(c) == via_bridge_tile(c)
}

/// A signal leaves a switch on layer 0, climbs a via stack to layer 1, and
/// lights an LED there: nets span layers.
pub fn via_bridge() -> (b: Board)
    ensures
        is_via_bridge(b),
{
    let mut board = Board::new(2, 3, 1);
    board.set(Cell::new(0, 0, 0), Tile::Switch);
    board.set(Cell::new(0, 1, 0), Tile::Wire);
    board.set(Cell::new(0, 2, 0), Tile::Via);
    board.set(Cell::new(1, 2, 0), Tile::Via);
    board.set(Cell::new(1, 1, 0), Tile::Wire);
    board.set(Cell::new(1, 0, 0), Tile::Led);
    board
}

/// Cells the via test pokes: `(switch_layer0, led_layer1)`.
pub fn via_bridge_ports() -> (r: (Cell, Cell))
    ensures
        r == (Cell { layer: 0, x: 0, y: 0 }, Cell { layer: 1, x: 0, y: 0 }),
{
    (Cell::new(0, 0, 0), Cell::new(1, 0, 0))
}

/// Every demo paired with a display name, for the editor's "load example"
/// cycle.
pub fn gallery() -> (r: Vec<(&'static str, Board)>)
    ensures
        r@.len() == 5,
        r@[0].0@ == "AND gate"@ && is_two_input(r@[0].1, GateKind::And),
        r@[1].0@ == "Ring oscillator"@ && is_ring_oscillator(r@[1].1),
        r@[2].0@ == "Clock blinker"@ && is_clock_blinker(r@[2].1),
        r@[3].0@ == "SR latch"@ && is_sr_latch(r@[3].1),
        r@[4].0@ == "Multi-layer via bridge"@ && is_via_bridge(r@[4].1),
{
    let mut r: Vec<(&'static str, Board)> = Vec::new();
    r.push(("AND gate", and_gate()));
    r.push(("Ring oscillator", ring_oscillator()));
    r.push(("Clock blinker", clock_blinker()));
    r.push(("SR latch", sr_latch()));
    r.push(("Multi-layer via bridge", via_bridge()));
    r
}

} // verus!
