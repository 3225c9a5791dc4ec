//! The editor model: tools, key bindings, line painting, the starter
//! canvas and the capture sequence.

use ryzr::capture::{Capture, CaptureAction, Phase};
use ryzr::editor::{
    bresenham, cell_lit, click_switch, connects_to, facing_label, gate_label, paint_line, starter_board, stamp, Editor,
    Key, Mode, Tool,
};
use ryzr::tile::{Direction, GateKind, Tile};
use ryzr::{demos, Board, Cell, Sim};

#[test]
fn bresenham_includes_both_ends() {
    assert_eq!(bresenham(0, 0, 0, 0), vec![(0, 0)]);
    assert_eq!(bresenham(0, 0, 3, 0), vec![(0, 0), (1, 0), (2, 0), (3, 0)]);
    assert_eq!(bresenham(2, 5, 2, 2), vec![(2, 5), (2, 4), (2, 3), (2, 2)]);
    assert_eq!(bresenham(0, 0, 3, 3), vec![(0, 0), (1, 1), (2, 2), (3, 3)]);
}

#[test]
fn bresenham_shallow_and_steep_lines() {
    assert_eq!(bresenham(0, 0, 4, 2), vec![(0, 0), (1, 1), (2, 1), (3, 2), (4, 2)]);
    assert_eq!(bresenham(0, 0, 1, 3), vec![(0, 0), (0, 1), (1, 2), (1, 3)]);
    assert_eq!(bresenham(4, 2, 0, 0), vec![(4, 2), (3, 1), (2, 1), (1, 0), (0, 0)]);
    assert_eq!(bresenham(-2, 1, 3, -1), vec![(-2, 1), (-1, 1), (0, 0), (1, 0), (2, -1), (3, -1)]);
}

#[test]
fn bresenham_steps_are_connected_and_close() {
    for (x0, y0, x1, y1) in [(0, 0, 7, 3), (5, -4, -6, 2), (-3, -3, 9, 11), (1, 8, 1, -8)] {
        let pts = bresenham(x0, y0, x1, y1);
        let (dx, dy) = ((x1 - x0) as i64, (y1 - y0) as i64);
        let m = dx.abs().max(dy.abs());
        assert_eq!(pts.len() as i64, m + 1);
        assert_eq!(pts[0], (x0, y0));
        assert_eq!(*pts.last().unwrap(), (x1, y1));
        for w in pts.windows(2) {
            assert!((w[1].0 - w[0].0).abs() <= 1 && (w[1].1 - w[0].1).abs() <= 1);
        }
        for &(x, y) in &pts {
            let cross = (y as i64 - y0 as i64) * dx - (x as i64 - x0 as i64) * dy;
            assert!((2 * cross).abs() <= m, "({x},{y}) strays from the segment");
        }
    }
}

#[test]
fn tool_labels_cycle_and_tiles() {
    assert_eq!(Tool::Wire.label(), "Wire");
    assert_eq!(Tool::Erase.label(), "Erase");
    assert_eq!(Tool::Wire.next(), Tool::Cross);
    assert_eq!(Tool::Led.next(), Tool::Erase);
    assert_eq!(Tool::Erase.next(), Tool::Wire);
    let mut t = Tool::Gate;
    for _ in 0..9 {
        t = t.next();
    }
    assert_eq!(t, Tool::Gate, "nine steps come back around");
    assert_eq!(
        Tool::Gate.tile(GateKind::Nor, Direction::South),
        Tile::Gate { kind: GateKind::Nor, facing: Direction::South }
    );
    assert_eq!(Tool::Source.tile(GateKind::And, Direction::East), Tile::Source { on: true });
    assert_eq!(Tool::Erase.tile(GateKind::And, Direction::East), Tile::Empty);
}

#[test]
fn status_labels() {
    assert_eq!(gate_label(GateKind::Xnor), "XNOR");
    assert_eq!(gate_label(GateKind::Buf), "BUF");
    assert_eq!(facing_label(Direction::West), "W");
    assert_eq!(facing_label(Direction::North), "N");
    assert_eq!(Mode::Edit.toggled(), Mode::Run);
    assert_eq!(Mode::Run.toggled(), Mode::Edit);
}

#[test]
fn tool_keys_apply_in_binding_order() {
    let mut e = Editor::default();
    assert_eq!(e.tool, Tool::Wire);
    e.tool_keys(&[Key::Digit4]);
    assert_eq!((e.tool, e.gate_kind), (Tool::Gate, GateKind::Nand));
    e.tool_keys(&[Key::Digit8, Key::Digit2]);
    assert_eq!(e.gate_kind, GateKind::Not, "the later binding wins");
    e.tool_keys(&[Key::L, Key::Digit1]);
    assert_eq!((e.tool, e.gate_kind), (Tool::Led, GateKind::And), "tool keys apply after kinds");
    e.tool_keys(&[Key::E, Key::Tab]);
    assert_eq!(e.tool, Tool::Wire, "erase, then tab wraps to the first tool");
    e.tool_keys(&[Key::R]);
    assert_eq!(e.facing, Direction::South);
    e.tool_keys(&[]);
    assert_eq!(e.facing, Direction::South);
}

#[test]
fn layer_keys_clamp_to_the_stack() {
    let mut e = Editor::default();
    e.layer_keys(&[Key::BracketLeft], 3);
    assert_eq!(e.active_layer, 0);
    e.layer_keys(&[Key::BracketRight], 3);
    e.layer_keys(&[Key::BracketRight], 3);
    e.layer_keys(&[Key::BracketRight], 3);
    assert_eq!(e.active_layer, 2);
    e.layer_keys(&[Key::BracketRight, Key::BracketLeft], 3);
    assert_eq!(e.active_layer, 1);
}

#[test]
fn paint_line_fills_a_drag() {
    let mut b = Board::new(2, 6, 6);
    paint_line(&mut b, Some(Cell::new(0, 0, 0)), Cell::new(0, 4, 2), Tile::Wire);
    let painted: Vec<Cell> = b.iter().into_iter().map(|(c, _)| c).collect();
    assert_eq!(
        painted,
        vec![Cell::new(0, 0, 0), Cell::new(0, 1, 1), Cell::new(0, 2, 1), Cell::new(0, 3, 2), Cell::new(0, 4, 2)]
    );
    // A drag across layers paints only the target.
    paint_line(&mut b, Some(Cell::new(0, 0, 5)), Cell::new(1, 3, 5), Tile::Via);
    assert_eq!(b.get(Cell::new(1, 3, 5)), Tile::Via);
    assert_eq!(b.tile_count(), 6);
    // No previous cell: just the target; off the board: nothing.
    paint_line(&mut b, None, Cell::new(0, 5, 5), Tile::Led);
    assert_eq!(b.get(Cell::new(0, 5, 5)), Tile::Led);
    paint_line(&mut b, None, Cell::new(0, 9, 9), Tile::Led);
    assert_eq!(b.tile_count(), 7);
}

#[test]
fn paint_follows_the_buttons() {
    let mut b = Board::new(1, 8, 8);
    let mut e = Editor::default();
    e.hovered = Some(Cell::new(0, 1, 1));
    e.paint(&mut b, true, false);
    assert_eq!(b.get(Cell::new(0, 1, 1)), Tile::Wire);
    assert_eq!(e.last_paint, Some(Cell::new(0, 1, 1)));
    e.hovered = Some(Cell::new(0, 4, 1));
    e.paint(&mut b, true, false);
    assert_eq!(b.tile_count(), 4);
    e.hovered = Some(Cell::new(0, 2, 1));
    e.paint(&mut b, false, true);
    assert_eq!(b.get(Cell::new(0, 3, 1)), Tile::Empty);
    assert_eq!(b.get(Cell::new(0, 4, 1)), Tile::Empty);
    assert_eq!(b.get(Cell::new(0, 1, 1)), Tile::Wire);
    e.paint(&mut b, false, false);
    assert_eq!(e.last_paint, None);
    e.hovered = None;
    e.last_paint = Some(Cell::new(0, 1, 1));
    e.paint(&mut b, true, false);
    assert_eq!(e.last_paint, None);
}

#[test]
fn stamp_translates_every_tile() {
    let mut dst = Board::new(2, 10, 10);
    let src = demos::via_bridge();
    stamp(&mut dst, &src, 0, 4, 7);
    assert_eq!(dst.tile_count(), src.tile_count());
    for (cell, tile) in src.iter() {
        assert_eq!(dst.get(Cell::new(cell.layer, cell.x + 4, cell.y + 7)), tile);
    }
    // Tiles landing off the board are dropped.
    let mut small = Board::new(1, 3, 3);
    stamp(&mut small, &demos::clock_blinker(), 0, 1, 1);
    assert_eq!(small.tile_count(), 2);
}

#[test]
fn starter_board_holds_three_demos() {
    let b = starter_board();
    assert_eq!((b.layers(), b.width(), b.height()), (4, 30, 18));
    let expected = demos::sr_latch().tile_count() + demos::via_bridge().tile_count() + demos::clock_blinker().tile_count();
    assert_eq!(b.tile_count(), expected);
    assert_eq!(b.get(Cell::new(0, 5, 11)), Tile::Clock);
    assert_eq!(b.get(Cell::new(1, 7, 6)), Tile::Via);
    assert!(Sim::new(&b).is_ok());
}

#[test]
fn wires_connect_to_conductors_drivers_and_leds() {
    let mut b = Board::new(1, 4, 3);
    let centre = Cell::new(0, 1, 1);
    b.set(centre, Tile::Wire);
    b.set(Cell::new(0, 2, 1), Tile::Led);
    b.set(Cell::new(0, 1, 2), Tile::Switch);
    assert!(connects_to(&b, centre, Direction::East));
    assert!(connects_to(&b, centre, Direction::North));
    assert!(!connects_to(&b, centre, Direction::West));
    assert!(!connects_to(&b, centre, Direction::South));
    assert!(!connects_to(&b, Cell::new(0, 0, 0), Direction::West), "off the board");
}

#[test]
fn cell_lit_reads_the_simulation() {
    let board = demos::via_bridge();
    let (switch, led) = demos::via_bridge_ports();
    let mut sim = Sim::new(&board).expect("via bridge compiles");
    assert!(cell_lit(&sim, Cell::new(0, 0, 0), Tile::Source { on: true }));
    click_switch(&mut sim, Some(switch));
    assert!(sim.switch_on(switch));
    sim.run(8);
    assert!(cell_lit(&sim, led, Tile::Led));
    assert!(cell_lit(&sim, Cell::new(0, 1, 0), Tile::Wire));
    click_switch(&mut sim, Some(Cell::new(0, 1, 0)));
    click_switch(&mut sim, None);
    assert!(sim.switch_on(switch));
    click_switch(&mut sim, Some(switch));
    sim.run(8);
    assert!(!cell_lit(&sim, led, Tile::Led));
}

#[test]
fn capture_settles_shoots_and_exits() {
    let mut c = Capture::new("shot.png".to_string(), false);
    for _ in 0..16 {
        assert_eq!(c.step(false), CaptureAction::Wait);
    }
    assert_eq!(c.step(false), CaptureAction::Shoot);
    assert_eq!(c.step(false), CaptureAction::Wait, "not seen in flight yet");
    assert_eq!(c.step(true), CaptureAction::Wait);
    assert_eq!(c.phase, Phase::Flush { started: true });
    assert_eq!(c.step(false), CaptureAction::Exit);
}

#[test]
fn capture_runs_and_ticks_first() {
    let mut c = Capture::new("shot.png".to_string(), true);
    c.frames = 0;
    assert_eq!(c.step(false), CaptureAction::EnterRun);
    assert_eq!(c.frames, 24);
    for _ in 0..24 {
        assert_eq!(c.step(false), CaptureAction::Step);
    }
    assert_eq!(c.step(false), CaptureAction::Shoot);
}

#[test]
fn stamp_keeps_neighbours_adjacent() {
    let src = demos::sr_latch();
    let mut dst = Board::new(1, 20, 20);
    stamp(&mut dst, &src, 0, 6, 3);
    for (cell, _) in src.iter() {
        for dir in Direction::all() {
            if let Some(n) = src.neighbour(cell, dir) {
                let moved = Cell::new(cell.layer, cell.x + 6, cell.y + 3);
                let moved_n = Cell::new(n.layer, n.x + 6, n.y + 3);
                assert_eq!(dst.neighbour(moved, dir), Some(moved_n));
                assert_eq!(dst.get(moved_n), src.get(n));
            }
        }
    }
}

#[test]
fn hud_line_spells_out_edit_and_run_state() {
    let board = demos::and_gate();
    let mut editor = Editor::default();
    let edit = ryzr::hud::hud_line(Mode::Edit, &editor, &board, None, false, "60");
    assert_eq!(edit, "EDIT | layer L1/1 | Wire | facing E | 5 tiles | 0 nets");
    let sim = Sim::new(&board).unwrap();
    editor.tool = Tool::Gate;
    editor.gate_kind = GateKind::Xor;
    editor.hovered = Some(Cell::new(0, 2, 0));
    editor.status = "ok".to_string();
    let run = ryzr::hud::hud_line(Mode::Run, &editor, &board, Some(&sim), true, "60");
    assert_eq!(
        run,
        "RUN | layer L1/1 | Gate:XOR | facing E | 5 tiles | 3 nets | 0 ticks | 60 Hz | play | probe (2,0) low | ok"
    );
}

#[test]
fn bresenham_steps_along_the_longer_axis() {
    assert_eq!(bresenham(0, 0, 3, 1), vec![(0, 0), (1, 0), (2, 1), (3, 1)]);
    assert_eq!(bresenham(2, 2, 2, 2), vec![(2, 2)]);
}
