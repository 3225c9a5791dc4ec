//! The board model: directions, tiles, the grid, union-find, net
//! extraction, display nets and the lowering to a circuit.

use ryzr::demos;
use ryzr::net::extract;
use ryzr::uf::UnionFind;
use ryzr::{compile, Board, Cell, Direction, GateKind, Tile};

#[test]
fn direction_steps_turns_and_opposites() {
    assert_eq!(Direction::all(), [Direction::North, Direction::East, Direction::South, Direction::West]);
    assert_eq!(Direction::North.delta(), (0, 1));
    assert_eq!(Direction::East.delta(), (1, 0));
    assert_eq!(Direction::South.delta(), (0, -1));
    assert_eq!(Direction::West.delta(), (-1, 0));
    for d in Direction::all() {
        assert_eq!(d.opposite().opposite(), d);
        assert_ne!(d.opposite(), d);
        assert_eq!(d.rotate_cw().rotate_cw(), d.opposite());
        assert_eq!(d.rotate_cw().rotate_cw().rotate_cw().rotate_cw(), d);
        let (dx, dy) = d.delta();
        assert_eq!(d.opposite().delta(), (-dx, -dy));
    }
    assert_eq!(Direction::West.rotate_cw(), Direction::North);
}

#[test]
fn tile_roles_are_disjoint() {
    let gate = Tile::Gate { kind: GateKind::And, facing: Direction::East };
    for t in [Tile::Wire, Tile::Cross, Tile::Via] {
        assert!(t.is_conductor() && !t.is_driver(), "{t:?}");
    }
    for t in [Tile::Switch, Tile::Source { on: false }, Tile::Clock, gate] {
        assert!(t.is_driver() && !t.is_conductor(), "{t:?}");
    }
    for t in [Tile::Led, Tile::Empty] {
        assert!(!t.is_driver() && !t.is_conductor(), "{t:?}");
    }
}

#[test]
fn board_stores_and_bounds_tiles() {
    let mut b = Board::new(2, 4, 3);
    assert_eq!((b.layers(), b.width(), b.height()), (2, 4, 3));
    assert!(b.contains(Cell::new(1, 3, 2)));
    assert!(!b.contains(Cell::new(2, 0, 0)));
    assert!(!b.contains(Cell::new(0, 4, 0)));
    assert_eq!(b.get(Cell::new(0, 1, 1)), Tile::Empty);
    b.set(Cell::new(0, 1, 1), Tile::Wire);
    b.set(Cell::new(1, 0, 2), Tile::Led);
    b.set(Cell::new(0, 9, 9), Tile::Wire);
    assert_eq!(b.get(Cell::new(0, 1, 1)), Tile::Wire);
    assert_eq!(b.get(Cell::new(0, 9, 9)), Tile::Empty, "off-board writes are dropped");
    assert_eq!(b.tile_count(), 2);
    assert_eq!(b.iter(), vec![(Cell::new(0, 1, 1), Tile::Wire), (Cell::new(1, 0, 2), Tile::Led)]);
    b.set(Cell::new(0, 1, 1), Tile::Empty);
    assert_eq!(b.tile_count(), 1);
}

#[test]
fn board_neighbours_stay_on_the_board() {
    let b = Board::new(3, 4, 3);
    let corner = Cell::new(1, 0, 0);
    assert_eq!(b.neighbour(corner, Direction::West), None);
    assert_eq!(b.neighbour(corner, Direction::South), None);
    assert_eq!(b.neighbour(corner, Direction::North), Some(Cell::new(1, 0, 1)));
    assert_eq!(b.neighbour(corner, Direction::East), Some(Cell::new(1, 1, 0)));
    assert_eq!(b.neighbour(Cell::new(0, 3, 2), Direction::East), None);
    assert_eq!(b.vertical_neighbours(corner), vec![Cell::new(0, 0, 0), Cell::new(2, 0, 0)]);
    assert_eq!(b.vertical_neighbours(Cell::new(0, 1, 1)), vec![Cell::new(1, 1, 1)]);
    assert_eq!(b.vertical_neighbours(Cell::new(2, 1, 1)), vec![Cell::new(1, 1, 1)]);
    assert_eq!(Cell::new(1, 2, 3).key(), (1u128 << 64) + (2u128 << 32) + 3);
}

#[test]
fn union_find_merges_classes() {
    let mut uf = UnionFind::new(6);
    for i in 0..6 {
        assert_eq!(uf.find(i), i);
    }
    uf.union(0, 1);
    uf.union(3, 4);
    uf.union(1, 4);
    let r = uf.find(0);
    assert_eq!(uf.find(1), r);
    assert_eq!(uf.find(3), r);
    assert_eq!(uf.find(4), r);
    assert_ne!(uf.find(2), r);
    assert_ne!(uf.find(5), r);
    assert_ne!(uf.find(2), uf.find(5));
}

/// A cross at (2, 2): a switch drives its vertical axis up to an LED at
/// (2, 4), a source drives its horizontal axis across to an LED at (4, 2).
fn sample() -> Board {
    let mut b = Board::new(1, 5, 5);
    b.set(Cell::new(0, 2, 2), Tile::Cross);
    b.set(Cell::new(0, 2, 0), Tile::Switch);
    b.set(Cell::new(0, 2, 1), Tile::Wire);
    b.set(Cell::new(0, 2, 3), Tile::Wire);
    b.set(Cell::new(0, 2, 4), Tile::Led);
    b.set(Cell::new(0, 0, 2), Tile::Source { on: true });
    b.set(Cell::new(0, 1, 2), Tile::Wire);
    b.set(Cell::new(0, 3, 2), Tile::Wire);
    b.set(Cell::new(0, 4, 2), Tile::Led);
    b
}

#[test]
fn nets_merge_through_wires_and_keep_a_cross_apart() {
    let b = sample();
    let nets = extract(&b);
    let v = nets.driver_net(Cell::new(0, 2, 0)).expect("a switch drives a net");
    let h = nets.driver_net(Cell::new(0, 0, 2)).expect("a source drives a net");
    assert_ne!(v, h, "the cross keeps its axes apart");
    assert_eq!(nets.count(), 2);
    assert_eq!(nets.neighbour_net(&b, Cell::new(0, 2, 4), Direction::South), Some(v));
    assert_eq!(nets.neighbour_net(&b, Cell::new(0, 4, 2), Direction::West), Some(h));
    assert_eq!(nets.neighbour_net(&b, Cell::new(0, 2, 4), Direction::East), None);
    assert_eq!(nets.neighbour_net(&b, Cell::new(0, 2, 4), Direction::North), None, "off the board");
    assert_eq!(nets.driver_net(Cell::new(0, 2, 4)), None);
    assert_eq!(nets.driver_net(Cell::new(0, 2, 1)), Some(v));
    assert_eq!(nets.driver_net(Cell::new(0, 3, 2)), Some(h));
}

#[test]
fn display_nets_per_tile() {
    let b = sample();
    let nets = extract(&b);
    let v = nets.driver_net(Cell::new(0, 2, 0)).unwrap();
    let h = nets.driver_net(Cell::new(0, 0, 2)).unwrap();
    assert_eq!(nets.display_nets(&b, Cell::new(0, 2, 2)), vec![v, h], "a cross shows its vertical, then horizontal net");
    assert_eq!(nets.display_nets(&b, Cell::new(0, 2, 4)), vec![v]);
    assert_eq!(nets.display_nets(&b, Cell::new(0, 1, 2)), vec![h]);
    assert_eq!(nets.display_nets(&b, Cell::new(0, 0, 0)), Vec::<usize>::new());
    // An LED reading one net from four sides shows it once; one reading two
    // nets shows both in order.
    let mut ring = Board::new(1, 3, 3);
    for (x, y) in [(0, 0), (1, 0), (2, 0), (0, 1), (2, 1), (0, 2), (1, 2), (2, 2)] {
        ring.set(Cell::new(0, x, y), Tile::Wire);
    }
    ring.set(Cell::new(0, 1, 1), Tile::Led);
    let rn = extract(&ring);
    assert_eq!(rn.count(), 1);
    assert_eq!(rn.display_nets(&ring, Cell::new(0, 1, 1)), vec![0]);
    let mut two = sample();
    two.set(Cell::new(0, 3, 1), Tile::Led);
    two.set(Cell::new(0, 1, 3), Tile::Led);
    let tn = extract(&two);
    let mut both = vec![tn.driver_net(Cell::new(0, 2, 1)).unwrap(), tn.driver_net(Cell::new(0, 3, 2)).unwrap()];
    both.sort_unstable();
    // The two LEDs meet the nets in opposite orders; both show them sorted.
    assert_eq!(tn.display_nets(&two, Cell::new(0, 3, 1)), both);
    assert_eq!(tn.display_nets(&two, Cell::new(0, 1, 3)), both);
}

#[test]
fn lowering_exports_nets_and_leds() {
    let b = sample();
    let c = compile(&b).expect("a board always lowers");
    assert_eq!(c.map.net_count, 2);
    assert_eq!(c.map.leds, vec![(Cell::new(0, 4, 2), 2), (Cell::new(0, 2, 4), 3)]);
    assert_eq!(c.map.switch_inputs.get(&Cell::new(0, 2, 0).key()), Some(&0));
    assert_eq!(c.map.switch_inputs.len(), 1);
    assert_eq!(c.circuit.input_count, 1);
    assert_eq!(c.circuit.output_count, 4);
    assert_eq!(c.circuit.register_count, 0, "only gates and clocks hold registers");
}

#[test]
fn nets_are_numbered_in_scan_order_and_gates_keep_inputs_apart() {
    let b = demos::and_gate();
    let n = extract(&b);
    assert_eq!(n.count(), 3);
    assert_eq!(n.driver_net(Cell::new(0, 2, 0)), Some(0));
    assert_eq!(n.driver_net(Cell::new(0, 2, 1)), Some(1));
    assert_eq!(n.driver_net(Cell::new(0, 3, 1)), Some(1));
    assert_eq!(n.driver_net(Cell::new(0, 2, 2)), Some(2));
    assert_eq!(n.neighbour_net(&b, Cell::new(0, 4, 1), Direction::West), Some(1));
    assert_eq!(n.neighbour_net(&b, Cell::new(0, 2, 1), Direction::North), Some(2));
    assert_eq!(n.neighbour_net(&b, Cell::new(0, 2, 2), Direction::South), None);
    assert_eq!(n.neighbour_net(&b, Cell::new(0, 4, 1), Direction::East), None);
}

#[test]
fn a_lone_cross_keeps_its_axes_apart() {
    let mut b = Board::new(1, 3, 3);
    b.set(Cell::new(0, 1, 1), Tile::Cross);
    for (x, y) in [(1, 0), (1, 2), (0, 1), (2, 1)] {
        b.set(Cell::new(0, x, y), Tile::Wire);
    }
    let n = extract(&b);
    assert_eq!(n.count(), 2);
    assert_eq!(n.driver_net(Cell::new(0, 1, 0)), n.driver_net(Cell::new(0, 1, 2)));
    assert_eq!(n.driver_net(Cell::new(0, 0, 1)), n.driver_net(Cell::new(0, 2, 1)));
    assert_ne!(n.driver_net(Cell::new(0, 1, 0)), n.driver_net(Cell::new(0, 0, 1)));
    assert_eq!(n.driver_net(Cell::new(0, 1, 1)), None);
}

#[test]
fn only_stacked_vias_join_layers() {
    assert_eq!(extract(&demos::via_bridge()).count(), 1);
    let mut wires = Board::new(2, 1, 1);
    wires.set(Cell::new(0, 0, 0), Tile::Wire);
    wires.set(Cell::new(1, 0, 0), Tile::Wire);
    assert_eq!(extract(&wires).count(), 2);
    let mut mixed = Board::new(2, 1, 1);
    mixed.set(Cell::new(0, 0, 0), Tile::Via);
    mixed.set(Cell::new(1, 0, 0), Tile::Wire);
    assert_eq!(extract(&mixed).count(), 2);
}

#[test]
fn lowering_an_and_gate_exports_three_nets_and_one_led() {
    let b = demos::and_gate();
    let c = compile(&b).expect("a board always lowers");
    assert_eq!(c.map.net_count, 3);
    assert_eq!(c.map.leds, vec![(Cell::new(0, 4, 1), 3)]);
    assert_eq!(c.map.switch_inputs.get(&Cell::new(0, 2, 0).key()), Some(&0));
    assert_eq!(c.map.switch_inputs.get(&Cell::new(0, 2, 2).key()), Some(&1));
    assert_eq!(c.map.switch_inputs.len(), 2);
    assert_eq!(c.circuit.input_count, 2);
    assert_eq!(c.circuit.output_count, 4);
    assert_eq!(c.circuit.register_count, 1);
}

#[test]
fn an_led_reads_lit_exactly_when_its_cell_is_on() {
    for board in [demos::and_gate(), demos::sr_latch(), demos::ring_oscillator(), demos::via_bridge()] {
        let mut sim = ryzr::Sim::new(&board).unwrap();
        let switches: Vec<Cell> = board.iter().into_iter().filter(|(_, t)| *t == Tile::Switch).map(|(c, _)| c).collect();
        for step in 0..8usize {
            if !switches.is_empty() {
                sim.toggle_switch(switches[step % switches.len()]);
            }
            sim.tick();
            for (cell, tile) in board.iter() {
                assert_eq!(sim.led_on(cell), tile == Tile::Led && sim.cell_on(cell));
            }
        }
    }
}

#[test]
fn run_equals_that_many_ticks() {
    let board = demos::ring_oscillator();
    let mut a = ryzr::Sim::new(&board).unwrap();
    let mut b = ryzr::Sim::new(&board).unwrap();
    a.run(0);
    assert_eq!(a.ticks(), 0);
    a.run(7);
    for _ in 0..7 {
        b.tick();
    }
    assert_eq!(a.ticks(), b.ticks());
    for (cell, _) in board.iter() {
        assert_eq!(a.cell_on(cell), b.cell_on(cell));
        assert_eq!(a.led_on(cell), b.led_on(cell));
    }
    for n in 0..a.net_count() {
        assert_eq!(a.net_value(n), b.net_value(n));
    }
}
