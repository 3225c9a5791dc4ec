//! Net extraction: collapse the grid's conductors into electrical nets.
//!
//! Conductors that touch share a net; a `Cross` keeps its two axes apart; a
//! `Via` also fuses with a via directly above or below it. Drivers attach to
//! the net on each side they expose without merging their sides together.
//! The whole pass is one union-find over "side nodes" `(cell, port)`.

use std::collections::HashMap;
use vstd::prelude::*;

use crate::board::{lemma_occupied_facts, Board, Cell};
use crate::tile::{all_directions, opposite_spec, Direction, Tile};
use crate::uf::UnionFind;

verus! {

broadcast use vstd::std_specs::hash::group_hash_axioms;

/// Identifies an electrical net within one extraction; dense and zero-based.
pub type NetId = usize;

/// Which conductor of a cell a side belongs to: every conducting or driving
/// tile has one `Single` node, a `Cross` has one node per axis.
#[derive(Clone, Copy, PartialEq, Eq, Hash, Debug, Structural)]
pub enum Port {
    Single,
    CrossVertical,
    CrossHorizontal,
}

/// The node a tile exposes on `side`, if that side connects. A gate exposes
/// only its output side.
pub open spec fn port_on_side_spec(tile: Tile, side: Direction) -> Option<Port> {
    match tile {
        Tile::Wire | Tile::Via | Tile::Switch | Tile::Source { .. } | Tile::Clock => Some(Port::Single),
        Tile::Cross => Some(
            match side {
                Direction::North | Direction::South => Port::CrossVertical,
                Direction::East | Direction::West => Port::CrossHorizontal,
            },
        ),
        Tile::Gate { facing, .. } => if facing == side {
            Some(Port::Single)
        } else {
            None
        },
        Tile::Led | Tile::Empty => None,
    }
}

/// The nodes a tile owns regardless of orientation.
pub open spec fn nodes_of_spec(tile: Tile) -> Seq<Port> {
    match tile {
        Tile::Wire | Tile::Via | Tile::Switch | Tile::Source { .. } | Tile::Clock | Tile::Gate {
            ..
        } => seq![Port::Single],
        Tile::Cross => seq![Port::CrossVertical, Port::CrossHorizontal],
        Tile::Led | Tile::Empty => Seq::empty(),
    }
}

fn port_on_side(tile: Tile, side: Direction) -> (r: Option<Port>)
    ensures
        r == port_on_side_spec(tile, side),
{
    match tile {
        Tile::Wire | Tile::Via | Tile::Switch | Tile::Source { .. } | Tile::Clock => Some(Port::Single),
        Tile::Cross => Some(
            match side {
                Direction::North | Direction::South => Port::CrossVertical,
                Direction::East | Direction::West => Port::CrossHorizontal,
            },
        ),
        Tile::Gate { facing, .. } => if facing == side {
            Some(Port::Single)
        } else {
            None
        },
        Tile::Led | Tile::Empty => None,
    }
}

fn nodes_of(tile: Tile) -> (r: Vec<Port>)
    ensures
        r@ == nodes_of_spec(tile),
{
    let mut r: Vec<Port> = Vec::new();
    match tile {
        Tile::Wire | Tile::Via | Tile::Switch | Tile::Source { .. } | Tile::Clock | Tile::Gate {
            ..
        } => {
            r.push(Port::Single);
        },
        Tile::Cross => {
            r.push(Port::CrossVertical);
            r.push(Port::CrossHorizontal);
        },
        Tile::Led | Tile::Empty => {},
    }
    assert(r@ =~= nodes_of_spec(tile));
    r
}

/// A side that connects belongs to one of the tile's own nodes.
pub proof fn lemma_port_is_node(tile: Tile, side: Direction)
    ensures
        port_on_side_spec(tile, side) matches Some(p) ==> nodes_of_spec(tile).contains(p),
{
    match port_on_side_spec(tile, side) {
        Some(p) => {
            if p == Port::CrossHorizontal {
                assert(nodes_of_spec(tile)[1] == p);
            } else {
                assert(nodes_of_spec(tile)[0] == p);
            }
        },
        None => {},
    }
}

pub open spec fn port_code(p: Port) -> int {
    match p {
        Port::Single => 0,
        Port::CrossVertical => 1,
        Port::CrossHorizontal => 2,
    }
}

/// The map key of a side node: cell coordinates and port packed into one integer.
#[verifier::opaque]
pub open spec fn node_key(c: Cell, p: Port) -> u128 {
    (c.layer * 0x4_0000_0000_0000_0000int + c.x * 0x4_0000_0000int + c.y * 4 + port_code(p)) as u128
}

pub proof fn lemma_node_key_injective(c1: Cell, p1: Port, c2: Cell, p2: Port)
    requires
        node_key(c1, p1) == node_key(c2, p2),
    ensures
        c1 == c2,
        p1 == p2,
{
    reveal(node_key);
    assert(c1.layer == c2.layer && c1.x == c2.x && c1.y == c2.y && port_code(p1) == port_code(p2));
}

fn key_of(c: Cell, p: Port) -> (k: u128)
    ensures
        k == node_key(c, p),
{
    reveal(node_key);
    let code: u128 = match p {
        Port::Single => 0,
        Port::CrossVertical => 1,
        Port::CrossHorizontal => 2,
    };
    c.layer as u128 * 0x4_0000_0000_0000_0000u128 + c.x as u128 * 0x4_0000_0000u128 + c.y as u128 * 4 + code
}

/// `(c, p)` is a side node of the board.
pub open spec fn is_node(b: Board, c: Cell, p: Port) -> bool {
    b.contains_spec(c) && nodes_of_spec(b.tile_at(c)).contains(p)
}

/// Across `side`, the node `(c, p)` touches node `(n, np)` of the neighbour.
pub open spec fn planar_link(b: Board, c: Cell, side: Direction) -> Option<(Port, Cell, Port)> {
    match port_on_side_spec(b.tile_at(c), side) {
        Some(p) => match b.neighbour_spec(c, side) {
            Some(n) => match port_on_side_spec(b.tile_at(n), opposite_spec(side)) {
                Some(np) => Some((p, n, np)),
                None => None,
            },
            None => None,
        },
        None => None,
    }
}

/// A via fuses with a via directly above or below it.
pub open spec fn via_link(b: Board, c: Cell, n: Cell) -> bool {
    b.tile_at(c) == Tile::Via && b.vertical_spec(c).contains(n) && b.tile_at(n) == Tile::Via
}

/// Node `x` touches node `y`: across one of `x`'s sides, or as a via
/// stacked directly on another via.
pub open spec fn touches(b: Board, x: (Cell, Port), y: (Cell, Port)) -> bool {
    ||| is_node(b, x.0, x.1) && exists|side: Direction| #[trigger] planar_link(b, x.0, side) == Some((x.1, y.0, y.1))
    ||| x.1 == Port::Single && y.1 == Port::Single && b.contains_spec(x.0) && via_link(b, x.0, y.0)
}

/// `x` and `y` touch, one way or the other.
pub open spec fn joined(b: Board, x: (Cell, Port), y: (Cell, Port)) -> bool {
    touches(b, x, y) || touches(b, y, x)
}

/// Step `i` of `path` joins two touching nodes.
pub open spec fn step_ok(b: Board, path: Seq<(Cell, Port)>, i: int) -> bool {
    joined(b, path[i], path[i + 1])
}

/// Every two consecutive nodes of `path` touch.
pub open spec fn is_chain(b: Board, path: Seq<(Cell, Port)>) -> bool {
    path.len() > 0 && forall|i: int| 0 <= i < path.len() - 1 ==> #[trigger] step_ok(b, path, i)
}

/// A chain of touching nodes leads from `x` to `y`.
pub open spec fn connected(b: Board, x: (Cell, Port), y: (Cell, Port)) -> bool {
    exists|path: Seq<(Cell, Port)>| #[trigger] is_chain(b, path) && path[0] == x && path.last() == y
}

proof fn lemma_connected_refl(b: Board, x: (Cell, Port))
    ensures
        connected(b, x, x),
{
    let path = seq![x];
    assert(is_chain(b, path));
}

/// Two chains and a touching pair between them make one chain.
proof fn lemma_connected_join(b: Board, x: (Cell, Port), u: (Cell, Port), v: (Cell, Port), y: (Cell, Port))
    requires
        connected(b, x, u),
        joined(b, u, v),
        connected(b, v, y),
    ensures
        connected(b, x, y),
{
    let p1 = choose|path: Seq<(Cell, Port)>| #[trigger] is_chain(b, path) && path[0] == x && path.last() == u;
    let p2 = choose|path: Seq<(Cell, Port)>| #[trigger] is_chain(b, path) && path[0] == v && path.last() == y;
    let p = p1 + p2;
    assert forall|i: int| 0 <= i < p.len() - 1 implies #[trigger] step_ok(b, p, i) by {
        if i < p1.len() - 1 {
            assert(step_ok(b, p1, i));
            assert(p[i] == p1[i] && p[i + 1] == p1[i + 1]);
        } else if i == p1.len() - 1 {
            assert(p[i] == u && p[i + 1] == v);
        } else {
            let k = i - p1.len();
            assert(step_ok(b, p2, k));
            assert(p[i] == p2[k] && p[i + 1] == p2[k + 1]);
        }
    }
    assert(is_chain(b, p));
    assert(p[0] == x);
    assert(p.last() == y);
}

/// The result of net extraction: a dense net id for every side node.
#[derive(Clone, Debug)]
pub struct Nets {
    count: usize,
    node_net: HashMap<u128, NetId>,
}

impl Nets {
    pub closed spec fn count_spec(&self) -> nat {
        self.count as nat
    }

    pub closed spec fn net_map(&self) -> Map<u128, NetId> {
        self.node_net@
    }

    /// The net of node `(c, p)`, if it is a node.
    pub open spec fn net_of_spec(&self, c: Cell, p: Port) -> Option<NetId> {
        if self.net_map().contains_key(node_key(c, p)) {
            Some(self.net_map()[node_key(c, p)])
        } else {
            None
        }
    }

    /// What a device at `c` reads from its neighbour in `dir`.
    pub open spec fn neighbour_net_spec(&self, b: Board, c: Cell, dir: Direction) -> Option<NetId> {
        match b.neighbour_spec(c, dir) {
            Some(n) => match port_on_side_spec(b.tile_at(n), opposite_spec(dir)) {
                Some(p) => self.net_of_spec(n, p),
                None => None,
            },
            None => None,
        }
    }

    /// `self` is the net assignment of `b`: exactly the side nodes have nets,
    /// all below the count; touching nodes and fused vias share a net; every
    /// net below the count is used by some node; two nodes share a net only
    /// when a chain of touching nodes joins them; and nets are numbered in
    /// order of first appearance in the board's scan order.
    pub open spec fn extracted_from(&self, b: Board) -> bool {
        &&& forall|c: Cell, p: Port| #[trigger] self.net_of_spec(c, p) is Some <==> is_node(b, c, p)
        &&& forall|c: Cell, p: Port|
            #[trigger] self.net_of_spec(c, p) matches Some(n) ==> n < self.count_spec()
        &&& forall|c: Cell, side: Direction|
            #[trigger] planar_link(b, c, side) matches Some((p, n, np)) ==> is_node(b, c, p)
                ==> self.net_of_spec(c, p) == self.net_of_spec(n, np)
        &&& forall|c: Cell, n: Cell|
            #[trigger] via_link(b, c, n) && b.contains_spec(c) ==> self.net_of_spec(c, Port::Single)
                == self.net_of_spec(n, Port::Single)
        &&& forall|id: NetId| id < self.count_spec() ==> #[trigger] self.net_used(id)
        &&& forall|c1: Cell, p1: Port, c2: Cell, p2: Port|
            #[trigger] self.net_of_spec(c1, p1) is Some && self.net_of_spec(c1, p1) == #[trigger] self.net_of_spec(c2, p2)
                ==> connected(b, (c1, p1), (c2, p2))
        &&& forall|j: int| 0 <= j < board_nodes(b).len() ==> #[trigger] self.numbered_at(board_nodes(b), j)
    }

    /// Node `j` of `ns` carries the net of an earlier node, or a net
    /// numbered above every earlier node's: nets are numbered in order of
    /// first appearance.
    pub open spec fn numbered_at(&self, ns: Seq<(Cell, Port)>, j: int) -> bool {
        let nj = self.net_of_spec(ns[j].0, ns[j].1)->0;
        ||| exists|i: int| 0 <= i < j && self.net_of_spec(ns[i].0, ns[i].1)->0 == nj
        ||| forall|i: int| 0 <= i < j ==> self.net_of_spec(ns[i].0, ns[i].1)->0 < nj
    }

    /// Some node carries net `id`.
    pub open spec fn net_used(&self, id: NetId) -> bool {
        exists|c: Cell, p: Port| #[trigger] self.net_of_spec(c, p) == Some(id)
    }

    /// Number of distinct nets.
    pub fn count(&self) -> (n: usize)
        ensures
            n == self.count_spec(),
    {
        self.count
    }

    pub(crate) fn net_of(&self, cell: Cell, port: Port) -> (r: Option<NetId>)
        ensures
            r == self.net_of_spec(cell, port),
    {
        match self.node_net.get(&key_of(cell, port)) {
            Some(n) => Some(*n),
            None => None,
        }
    }

    /// The net a driver cell pushes its value onto.
    pub fn driver_net(&self, cell: Cell) -> (r: Option<NetId>)
        ensures
            r == self.net_of_spec(cell, Port::Single),
    {
        self.net_of(cell, Port::Single)
    }

    /// The net presented toward `cell` by its neighbour in `dir`: what a gate
    /// or LED at `cell` reads from that side.
    pub fn neighbour_net(&self, board: &Board, cell: Cell, dir: Direction) -> (r: Option<NetId>)
        requires
            board.wf(),
        ensures
            r == self.neighbour_net_spec(*board, cell, dir),
    {
        let neighbour = match board.neighbour(cell, dir) {
            Some(n) => n,
            None => return None,
        };
        let port = match port_on_side(board.get(neighbour), dir.opposite()) {
            Some(p) => p,
            None => return None,
        };
        self.net_of(neighbour, port)
    }
}

/// The side nodes of one cell, in port order.
pub open spec fn cell_nodes(c: Cell, t: Tile) -> Seq<(Cell, Port)> {
    nodes_of_spec(t).map_values(|p: Port| (c, p))
}

/// The side nodes of the first `k` listed cells, cell by cell.
pub open spec fn nodes_upto(cells: Seq<(Cell, Tile)>, k: int) -> Seq<(Cell, Port)>
    decreases k,
{
    if k <= 0 {
        Seq::empty()
    } else {
        nodes_upto(cells, k - 1) + cell_nodes(cells[k - 1].0, cells[k - 1].1)
    }
}

/// Every side node of the board in scan order: cells in storage order,
/// a cross's vertical node before its horizontal one.
pub open spec fn board_nodes(b: Board) -> Seq<(Cell, Port)> {
    nodes_upto(b.occupied(), b.occupied().len() as int)
}

/// Some of the first `k` listed cells is `c`.
spec fn listed_before(cells: Seq<(Cell, Tile)>, k: int, c: Cell) -> bool {
    exists|j: int| 0 <= j < k && cells[j].0 == c
}

/// A net read from a neighbour is one of the extraction's nets.
pub proof fn lemma_neighbour_net_bound(nets: Nets, b: Board, c: Cell, d: Direction)
    requires
        nets.extracted_from(b),
    ensures
        nets.neighbour_net_spec(b, c, d) matches Some(n) ==> n < nets.count_spec(),
{
    if let Some(n) = b.neighbour_spec(c, d) {
        if let Some(p) = port_on_side_spec(b.tile_at(n), opposite_spec(d)) {
            if nets.net_of_spec(n, p) is Some {
                assert(nets.net_of_spec(n, p)->0 < nets.count_spec());
            }
        }
    }
}

/// `index` maps the key of every listed node to its position.
pub open spec fn key_positions(nodes: Seq<(Cell, Port)>, index: Map<u128, usize>) -> bool {
    forall|i: int|
        0 <= i < nodes.len() ==> #[trigger] index.contains_key(node_key(nodes[i].0, nodes[i].1))
            && index[node_key(nodes[i].0, nodes[i].1)] == i
}

/// Every side node is listed once in `nodes` and `index` maps its key to
/// its position; nothing else is listed.
pub open spec fn interned(b: Board, nodes: Seq<(Cell, Port)>, index: Map<u128, usize>) -> bool {
    &&& key_positions(nodes, index)
    &&& forall|key: u128| #[trigger]
        index.contains_key(key) ==> exists|i: int| 0 <= i < nodes.len() && node_key(nodes[i].0, nodes[i].1) == key
    &&& forall|i: int| 0 <= i < nodes.len() ==> #[trigger] is_node(b, nodes[i].0, nodes[i].1)
    &&& forall|c: Cell, p: Port| is_node(b, c, p) ==> #[trigger] index.contains_key(node_key(c, p))
}

fn intern_nodes(board: &Board, cells: &Vec<(Cell, Tile)>) -> (r: (Vec<(Cell, Port)>, HashMap<u128, usize>))
    requires
        board.wf(),
        cells@ == board.occupied(),
    ensures
        interned(*board, r.0@, r.1@),
        r.0@.len() <= 2 * cells@.len(),
        r.0@ == board_nodes(*board),
{
    let ghost b = *board;
    proof {
        lemma_occupied_facts(b);
    }
    // Intern every side node so isolated tiles still receive a net.
    let mut index: HashMap<u128, usize> = HashMap::new();
    let mut nodes: Vec<(Cell, Port)> = Vec::new();
    let mut k: usize = 0;
    while k < cells.len()
        invariant
            board.wf(),
            b == *board,
            cells@ == b.occupied(),
            k <= cells@.len(),
            nodes@.len() <= 2 * k,
            forall|i: int|
                0 <= i < nodes@.len() ==> #[trigger] index@.contains_key(node_key(nodes@[i].0, nodes@[i].1))
                    && index@[node_key(nodes@[i].0, nodes@[i].1)] == i,
            forall|key: u128| #[trigger]
                index@.contains_key(key) ==> exists|i: int|
                    0 <= i < nodes@.len() && node_key(nodes@[i].0, nodes@[i].1) == key,
            forall|i: int| 0 <= i < nodes@.len() ==> #[trigger] is_node(b, nodes@[i].0, nodes@[i].1),
            forall|j: int, p: Port|
                0 <= j < k && nodes_of_spec(cells@[j].1).contains(p) ==> #[trigger] index@.contains_key(
                    node_key(cells@[j].0, p),
                ),
            nodes@ == nodes_upto(cells@, k as int),
            forall|i: int| 0 <= i < nodes@.len() ==> #[trigger] listed_before(cells@, k as int, nodes@[i].0),
        decreases cells@.len() - k,
    {
        proof {
            lemma_occupied_facts(b);
        }
        let (cell, tile) = cells[k];
        let ports = nodes_of(tile);
        assert(ports@.len() <= 2);
        let mut q: usize = 0;
        while q < ports.len()
            invariant
                board.wf(),
                b == *board,
                cells@ == b.occupied(),
                k < cells@.len(),
                cell == cells@[k as int].0,
                tile == cells@[k as int].1,
                ports@ == nodes_of_spec(tile),
                q <= ports@.len(),
                ports@.len() <= 2,
                nodes@.len() <= 2 * k + q,
                forall|i: int|
                    0 <= i < nodes@.len() ==> #[trigger] index@.contains_key(node_key(nodes@[i].0, nodes@[i].1))
                        && index@[node_key(nodes@[i].0, nodes@[i].1)] == i,
                forall|key: u128| #[trigger]
                    index@.contains_key(key) ==> exists|i: int|
                        0 <= i < nodes@.len() && node_key(nodes@[i].0, nodes@[i].1) == key,
                forall|i: int| 0 <= i < nodes@.len() ==> #[trigger] is_node(b, nodes@[i].0, nodes@[i].1),
                forall|j: int, p: Port|
                    0 <= j < k && nodes_of_spec(cells@[j].1).contains(p) ==> #[trigger] index@.contains_key(
                        node_key(cells@[j].0, p),
                    ),
                forall|r: int| 0 <= r < q ==> #[trigger] index@.contains_key(node_key(cell, ports@[r])),
                nodes@ == nodes_upto(cells@, k as int) + cell_nodes(cell, tile).take(q as int),
                forall|i: int|
                    0 <= i < nodes@.len() ==> #[trigger] listed_before(cells@, k as int, nodes@[i].0) || (nodes@[i].0 == cell
                        && exists|r: int| 0 <= r < q && ports@[r] == nodes@[i].1),
            decreases ports@.len() - q,
        {
            let port = ports[q];
            let key = key_of(cell, port);
            proof {
                if index@.contains_key(key) {
                    let i = choose|i: int| 0 <= i < nodes@.len() && node_key(nodes@[i].0, nodes@[i].1) == key;
                    lemma_node_key_injective(nodes@[i].0, nodes@[i].1, cell, port);
                    if listed_before(cells@, k as int, nodes@[i].0) {
                        let j = choose|j: int| 0 <= j < k && cells@[j].0 == nodes@[i].0;
                        crate::board::lemma_occupied_unique(b, j, k as int);
                    } else {
                        let r = choose|r: int| 0 <= r < q && ports@[r] == nodes@[i].1;
                        assert(ports@[r] == ports@[q as int]);
                        assert(false);
                    }
                }
            }
            let ghost nodes_before = nodes@;
            if !index.contains_key(&key) {
                let ghost old_index = index@;
                let ghost old_nodes = nodes@;
                index.insert(key, nodes.len());
                nodes.push((cell, port));
                proof {
                    lemma_occupied_facts(b);
                    assert(is_node(b, cell, port)) by {
                        assert(ports@[q as int] == port);
                        assert(b.occupied()[k as int] == (cell, tile));
                        assert(b.contains_spec(cell));
                    }
                    assert forall|i: int|
                        0 <= i < nodes@.len() implies #[trigger] index@.contains_key(node_key(nodes@[i].0, nodes@[i].1))
                            && index@[node_key(nodes@[i].0, nodes@[i].1)] == i by {
                        if i < old_nodes.len() {
                            assert(nodes@[i] == old_nodes[i]);
                            assert(old_index.contains_key(node_key(old_nodes[i].0, old_nodes[i].1)));
                        }
                    }
                    assert forall|key2: u128| #[trigger]
                        index@.contains_key(key2) implies exists|i: int|
                            0 <= i < nodes@.len() && node_key(nodes@[i].0, nodes@[i].1) == key2 by {
                        if key2 == key {
                            assert(node_key(nodes@[old_nodes.len() as int].0, nodes@[old_nodes.len() as int].1) == key2);
                        } else {
                            let i = choose|i: int| 0 <= i < old_nodes.len() && node_key(old_nodes[i].0, old_nodes[i].1) == key2;
                            assert(nodes@[i] == old_nodes[i]);
                        }
                    }
                    assert forall|i: int| 0 <= i < nodes@.len() implies #[trigger] is_node(b, nodes@[i].0, nodes@[i].1) by {
                        if i < old_nodes.len() {
                            assert(nodes@[i] == old_nodes[i]);
                        }
                    }
                }
            }
            proof {
                assert(cell_nodes(cell, tile).take(q + 1) =~= cell_nodes(cell, tile).take(q as int).push((cell, port)));
                assert(nodes@ =~= nodes_upto(cells@, k as int) + cell_nodes(cell, tile).take(q + 1));
                assert forall|i: int|
                    0 <= i < nodes@.len() implies #[trigger] listed_before(cells@, k as int, nodes@[i].0) || (nodes@[i].0
                        == cell && exists|r: int| 0 <= r < q + 1 && ports@[r] == nodes@[i].1) by {
                    if i < nodes_before.len() {
                        assert(nodes@[i] == nodes_before[i]);
                        if !listed_before(cells@, k as int, nodes@[i].0) {
                            let r = choose|r: int| 0 <= r < q && ports@[r] == nodes_before[i].1;
                            assert(0 <= r < q + 1 && ports@[r] == nodes@[i].1);
                        }
                    } else {
                        assert(nodes@[i] == (cell, port));
                        assert(ports@[q as int] == nodes@[i].1);
                    }
                }
            }
            q += 1;
        }
        proof {
            assert(cell_nodes(cell, tile).take(ports@.len() as int) =~= cell_nodes(cell, tile));
            assert(nodes_upto(cells@, k + 1) == nodes_upto(cells@, k as int) + cell_nodes(cells@[k as int].0, cells@[k as int].1));
            assert forall|i: int| 0 <= i < nodes@.len() implies #[trigger] listed_before(cells@, k + 1, nodes@[i].0) by {
                if listed_before(cells@, k as int, nodes@[i].0) {
                    let j = choose|j: int| 0 <= j < k && cells@[j].0 == nodes@[i].0;
                    assert(0 <= j < k + 1 && cells@[j].0 == nodes@[i].0);
                } else {
                    assert(cells@[k as int].0 == nodes@[i].0);
                }
            }
        }
        k += 1;
    }

    // Every side node of the board is interned.
    proof {
        assert forall|c: Cell, p: Port| is_node(b, c, p) implies #[trigger] index@.contains_key(node_key(c, p)) by {
            assert(b.tile_at(c) != Tile::Empty);
            let j = choose|j: int| 0 <= j < b.occupied().len() && (#[trigger] b.occupied()[j]).0 == c;
            assert(cells@[j].1 == b.tile_at(c));
            assert(nodes_of_spec(cells@[j].1).contains(p));
        }
    }

    (nodes, index)
}

/// Nodes in one set are joined by a chain of touching nodes.
pub open spec fn unions_connected(b: Board, nodes: Seq<(Cell, Port)>, uf: UnionFind) -> bool {
    forall|u: int, v: int|
        0 <= u < nodes.len() && 0 <= v < nodes.len() && #[trigger] uf.root(u) == #[trigger] uf.root(v) ==> connected(
            b,
            nodes[u],
            nodes[v],
        )
}

/// Merging the sets of two touching nodes keeps every set chain-connected.
proof fn lemma_union_connected(b: Board, nodes: Seq<(Cell, Port)>, uf0: UnionFind, uf1: UnionFind, a: int, c: int)
    requires
        unions_connected(b, nodes, uf0),
        0 <= a < nodes.len(),
        0 <= c < nodes.len(),
        joined(b, nodes[a], nodes[c]),
        forall|y: int|
            0 <= y < nodes.len() ==> #[trigger] uf1.root(y) == if uf0.root(y) == uf0.root(a) {
                uf0.root(c)
            } else {
                uf0.root(y)
            },
    ensures
        unions_connected(b, nodes, uf1),
{
    assert forall|u: int, v: int|
        0 <= u < nodes.len() && 0 <= v < nodes.len() && #[trigger] uf1.root(u) == #[trigger] uf1.root(v) implies connected(
        b,
        nodes[u],
        nodes[v],
    ) by {
        let ra = uf0.root(a);
        if uf0.root(u) == ra && uf0.root(v) == ra {
            assert(uf0.root(u) == uf0.root(v));
        } else if uf0.root(u) != ra && uf0.root(v) != ra {
            assert(uf0.root(u) == uf0.root(v));
        } else if uf0.root(u) == ra {
            assert(uf0.root(u) == uf0.root(a));
            assert(uf0.root(c) == uf0.root(v));
            lemma_connected_join(b, nodes[u], nodes[a], nodes[c], nodes[v]);
        } else {
            assert(uf0.root(u) == uf0.root(c));
            assert(uf0.root(a) == uf0.root(v));
            lemma_connected_join(b, nodes[u], nodes[c], nodes[a], nodes[v]);
        }
    }
}

/// The interned position of a side node holds that node.
proof fn lemma_index_node(b: Board, nodes: Seq<(Cell, Port)>, index: Map<u128, usize>, c: Cell, p: Port)
    requires
        interned(b, nodes, index),
        is_node(b, c, p),
    ensures
        index.contains_key(node_key(c, p)),
        (index[node_key(c, p)] as int) < nodes.len(),
        nodes[index[node_key(c, p)] as int] == (c, p),
{
    assert(index.contains_key(node_key(c, p)));
    let i = choose|i: int| 0 <= i < nodes.len() && node_key(nodes[i].0, nodes[i].1) == node_key(c, p);
    assert(index.contains_key(node_key(nodes[i].0, nodes[i].1)));
    lemma_node_key_injective(nodes[i].0, nodes[i].1, c, p);
}

/// Every touching pair and every fused via pair of the board is in one set.
pub open spec fn merged(b: Board, cells: Seq<(Cell, Tile)>, index: Map<u128, usize>, uf: UnionFind) -> bool {
    &&& forall|j: int, side: Direction|
        0 <= j < cells.len() ==> (#[trigger] planar_link(b, cells[j].0, side) matches Some((p, n, np))
            ==> same(uf, index, node_key(cells[j].0, p), node_key(n, np)))
    &&& forall|j: int, n: Cell|
        0 <= j < cells.len() ==> (#[trigger] via_link(b, cells[j].0, n) ==> same(
            uf,
            index,
            node_key(cells[j].0, Port::Single),
            node_key(n, Port::Single),
        ))
}

fn merge_nodes(board: &Board, cells: &Vec<(Cell, Tile)>, nodes: &Vec<(Cell, Port)>, index: &HashMap<u128, usize>) -> (uf: UnionFind)
    requires
        board.wf(),
        cells@ == board.occupied(),
        interned(*board, nodes@, index@),
    ensures
        uf.inv(),
        uf.len_spec() == nodes@.len(),
        merged(*board, cells@, index@, uf),
        unions_connected(*board, nodes@, uf),
{
    let ghost b = *board;
    proof {
        lemma_occupied_facts(b);
    }
    proof {
        assert forall|key: u128| #[trigger] index@.contains_key(key) implies index@[key] < nodes@.len() by {
            let i = choose|i: int| 0 <= i < nodes@.len() && node_key(nodes@[i].0, nodes@[i].1) == key;
        }
    }
    // Merge touching nodes.
    let mut uf = UnionFind::new(nodes.len());
    proof {
        assert forall|u: int, v: int|
            0 <= u < nodes@.len() && 0 <= v < nodes@.len() && #[trigger] uf.root(u) == #[trigger] uf.root(v) implies connected(
            b,
            nodes@[u],
            nodes@[v],
        ) by {
            lemma_connected_refl(b, nodes@[u]);
        }
    }
    let dirs = Direction::all();
    let mut k: usize = 0;
    while k < cells.len()
        invariant
            board.wf(),
            b == *board,
            cells@ == b.occupied(),
            dirs@ == all_directions(),
            k <= cells@.len(),
            uf.inv(),
            uf.len_spec() == nodes@.len(),
            interned(b, nodes@, index@),
            unions_connected(b, nodes@, uf),
            forall|key: u128| #[trigger] index@.contains_key(key) ==> index@[key] < nodes@.len(),
            forall|c: Cell, p: Port| is_node(b, c, p) ==> #[trigger] index@.contains_key(node_key(c, p)),
            forall|j: int, side: Direction|
                0 <= j < k ==> (#[trigger] planar_link(b, cells@[j].0, side) matches Some((p, n, np))
                    ==> same(uf, index@, node_key(cells@[j].0, p), node_key(n, np))),
            forall|j: int, n: Cell|
                0 <= j < k ==> (#[trigger] via_link(b, cells@[j].0, n) ==> same(
                    uf,
                    index@,
                    node_key(cells@[j].0, Port::Single),
                    node_key(n, Port::Single),
                )),
        decreases cells@.len() - k,
    {
        proof {
            lemma_occupied_facts(b);
        }
        let (cell, tile) = cells[k];
        proof {
            assert(b.occupied()[k as int] == (cell, tile));
        }
        let mut si: usize = 0;
        while si < 4
            invariant
                board.wf(),
                b == *board,
                cells@ == b.occupied(),
                dirs@ == all_directions(),
                k < cells@.len(),
                cell == cells@[k as int].0,
                tile == cells@[k as int].1,
                b.contains_spec(cell),
                tile == b.tile_at(cell),
                si <= 4,
                uf.inv(),
                uf.len_spec() == nodes@.len(),
                interned(b, nodes@, index@),
                unions_connected(b, nodes@, uf),
                forall|key: u128| #[trigger] index@.contains_key(key) ==> index@[key] < nodes@.len(),
                forall|c: Cell, p: Port| is_node(b, c, p) ==> #[trigger] index@.contains_key(node_key(c, p)),
                forall|j: int, side: Direction|
                    0 <= j < k ==> (#[trigger] planar_link(b, cells@[j].0, side) matches Some((p, n, np))
                        ==> same(uf, index@, node_key(cells@[j].0, p), node_key(n, np))),
                forall|j: int, n: Cell|
                    0 <= j < k ==> (#[trigger] via_link(b, cells@[j].0, n) ==> same(
                        uf,
                        index@,
                        node_key(cells@[j].0, Port::Single),
                        node_key(n, Port::Single),
                    )),
                forall|s: int|
                    0 <= s < si ==> (#[trigger] planar_link(b, cell, all_directions()[s]) matches Some((p, n, np))
                        ==> same(uf, index@, node_key(cell, p), node_key(n, np))),
            decreases 4 - si,
        {
            let side = dirs[si];
            let ghost uf0 = uf;
            if let Some(port) = port_on_side(tile, side) {
                if let Some(nb) = board.neighbour(cell, side) {
                    if let Some(np) = port_on_side(board.get(nb), side.opposite()) {
                        proof {
                            lemma_port_is_node(tile, side);
                            lemma_port_is_node(b.tile_at(nb), opposite_spec(side));
                            assert(is_node(b, cell, port));
                            assert(is_node(b, nb, np));
                        }
                        let ia = *index.get(&key_of(cell, port)).unwrap();
                        let ib = *index.get(&key_of(nb, np)).unwrap();
                        uf.union(ia, ib);
                        proof {
                            lemma_union_keeps(uf0, uf, index@, nodes@.len());
                            assert(same(uf, index@, node_key(cell, port), node_key(nb, np)));
                            lemma_index_node(b, nodes@, index@, cell, port);
                            lemma_index_node(b, nodes@, index@, nb, np);
                            assert(planar_link(b, cell, side) == Some((port, nb, np)));
                            assert(touches(b, nodes@[ia as int], nodes@[ib as int]));
                            lemma_union_connected(b, nodes@, uf0, uf, ia as int, ib as int);
                        }
                    }
                }
            }
            proof {
                assert forall|s: int|
                    0 <= s < si + 1 implies (#[trigger] planar_link(b, cell, all_directions()[s]) matches Some((p, n, np))
                        ==> same(uf, index@, node_key(cell, p), node_key(n, np))) by {
                    if s < si {
                        if planar_link(b, cell, all_directions()[s]) is Some {
                            let (p, n, np) = planar_link(b, cell, all_directions()[s]).unwrap();
                            assert(same(uf0, index@, node_key(cell, p), node_key(n, np)));
                        }
                    }
                }
            }
            si += 1;
        }
        if tile == Tile::Via {
            let others = board.vertical_neighbours(cell);
            let mut vi: usize = 0;
            while vi < others.len()
                invariant
                    board.wf(),
                    b == *board,
                    cells@ == b.occupied(),
                    k < cells@.len(),
                    cell == cells@[k as int].0,
                    tile == cells@[k as int].1,
                    b.contains_spec(cell),
                    tile == b.tile_at(cell),
                    tile == Tile::Via,
                    others@ == b.vertical_spec(cell),
                    vi <= others@.len(),
                    uf.inv(),
                    uf.len_spec() == nodes@.len(),
                    interned(b, nodes@, index@),
                    unions_connected(b, nodes@, uf),
                    forall|key: u128| #[trigger] index@.contains_key(key) ==> index@[key] < nodes@.len(),
                    forall|c: Cell, p: Port| is_node(b, c, p) ==> #[trigger] index@.contains_key(node_key(c, p)),
                    forall|j: int, side: Direction|
                        0 <= j < k ==> (#[trigger] planar_link(b, cells@[j].0, side) matches Some((p, n, np))
                            ==> same(uf, index@, node_key(cells@[j].0, p), node_key(n, np))),
                    forall|j: int, n: Cell|
                        0 <= j < k ==> (#[trigger] via_link(b, cells@[j].0, n) ==> same(
                            uf,
                            index@,
                            node_key(cells@[j].0, Port::Single),
                            node_key(n, Port::Single),
                        )),
                    forall|s: int|
                        0 <= s < 4 ==> (#[trigger] planar_link(b, cell, all_directions()[s]) matches Some((p, n, np))
                            ==> same(uf, index@, node_key(cell, p), node_key(n, np))),
                    forall|r: int|
                        0 <= r < vi ==> (via_link(b, cell, #[trigger] others@[r]) ==> same(
                            uf,
                            index@,
                            node_key(cell, Port::Single),
                            node_key(others@[r], Port::Single),
                        )),
                decreases others@.len() - vi,
            {
                let other = others[vi];
                let ghost uf0 = uf;
                if board.get(other) == Tile::Via {
                    proof {
                        assert(nodes_of_spec(Tile::Via)[0] == Port::Single);
                        assert(b.contains_spec(other));
                        assert(is_node(b, cell, Port::Single));
                        assert(is_node(b, other, Port::Single));
                    }
                    let ia = *index.get(&key_of(cell, Port::Single)).unwrap();
                    let ib = *index.get(&key_of(other, Port::Single)).unwrap();
                    uf.union(ia, ib);
                    proof {
                        lemma_union_keeps(uf0, uf, index@, nodes@.len());
                        assert(same(uf, index@, node_key(cell, Port::Single), node_key(other, Port::Single)));
                        lemma_index_node(b, nodes@, index@, cell, Port::Single);
                        lemma_index_node(b, nodes@, index@, other, Port::Single);
                        assert(via_link(b, cell, other));
                        assert(touches(b, nodes@[ia as int], nodes@[ib as int]));
                        lemma_union_connected(b, nodes@, uf0, uf, ia as int, ib as int);
                    }
                }
                proof {
                    assert forall|r: int|
                        0 <= r < vi + 1 implies (via_link(b, cell, #[trigger] others@[r]) ==> same(
                            uf,
                            index@,
                            node_key(cell, Port::Single),
                            node_key(others@[r], Port::Single),
                        )) by {
                        if r < vi && via_link(b, cell, others@[r]) {
                            assert(same(uf0, index@, node_key(cell, Port::Single), node_key(others@[r], Port::Single)));
                        }
                    }
                }
                vi += 1;
            }
            proof {
                assert forall|n: Cell| #[trigger] via_link(b, cell, n) implies same(
                    uf,
                    index@,
                    node_key(cell, Port::Single),
                    node_key(n, Port::Single),
                ) by {
                    let r = choose|r: int| 0 <= r < others@.len() && others@[r] == n;
                }
            }
        } else {
            proof {
                assert forall|n: Cell| #[trigger] via_link(b, cell, n) implies same(
                    uf,
                    index@,
                    node_key(cell, Port::Single),
                    node_key(n, Port::Single),
                ) by {
                }
            }
        }
        proof {
            assert forall|side: Direction| #[trigger] planar_link(b, cell, side) is Some implies ({
                let (p, n, np) = planar_link(b, cell, side).unwrap();
                same(uf, index@, node_key(cell, p), node_key(n, np))
            }) by {
                match side {
                    Direction::North => assert(all_directions()[0] == side),
                    Direction::East => assert(all_directions()[1] == side),
                    Direction::South => assert(all_directions()[2] == side),
                    Direction::West => assert(all_directions()[3] == side),
                }
            }
        }
        k += 1;
    }

    uf
}

/// Node `j` reuses the net of an earlier node, or opens a net numbered
/// above every earlier one.
pub open spec fn in_order_at(m: Map<u128, NetId>, nodes: Seq<(Cell, Port)>, j: int) -> bool {
    let nj = m[node_key(nodes[j].0, nodes[j].1)];
    ||| exists|i: int| 0 <= i < j && m[node_key(nodes[i].0, nodes[i].1)] == nj
    ||| forall|i: int| 0 <= i < j ==> m[node_key(nodes[i].0, nodes[i].1)] < nj
}

proof fn lemma_in_order_keep(m: Map<u128, NetId>, m2: Map<u128, NetId>, nodes: Seq<(Cell, Port)>, j: int)
    requires
        in_order_at(m, nodes, j),
        forall|t: int| 0 <= t <= j ==> m2[node_key(nodes[t].0, nodes[t].1)] == #[trigger] m[node_key(nodes[t].0, nodes[t].1)],
    ensures
        in_order_at(m2, nodes, j),
{
    let nj = m[node_key(nodes[j].0, nodes[j].1)];
    if exists|i: int| 0 <= i < j && m[node_key(nodes[i].0, nodes[i].1)] == nj {
        let i = choose|i: int| 0 <= i < j && m[node_key(nodes[i].0, nodes[i].1)] == nj;
        assert(m2[node_key(nodes[i].0, nodes[i].1)] == m[node_key(nodes[i].0, nodes[i].1)]);
        assert(m2[node_key(nodes[j].0, nodes[j].1)] == m[node_key(nodes[j].0, nodes[j].1)]);
    } else {
        assert forall|i: int| 0 <= i < j implies m2[node_key(nodes[i].0, nodes[i].1)] < m2[node_key(nodes[j].0, nodes[j].1)] by {
            assert(m2[node_key(nodes[i].0, nodes[i].1)] == m[node_key(nodes[i].0, nodes[i].1)]);
            assert(m2[node_key(nodes[j].0, nodes[j].1)] == m[node_key(nodes[j].0, nodes[j].1)]);
        }
    }
}

/// Root `r` is the root of one of the first `upto` nodes.
spec fn root_seen(uf: UnionFind, upto: int, r: usize) -> bool {
    exists|j: int| 0 <= j < upto && uf.root(j) as usize == r
}

#[verifier::spinoff_prover]
fn assign_nets(nodes: &Vec<(Cell, Port)>, index: &HashMap<u128, usize>, uf: UnionFind) -> (r: (usize, HashMap<u128, NetId>))
    requires
        uf.inv(),
        uf.len_spec() == nodes@.len(),
        key_positions(nodes@, index@),
    ensures
        forall|key: u128| #[trigger]
            r.1@.contains_key(key) ==> exists|j: int| 0 <= j < nodes@.len() && node_key(nodes@[j].0, nodes@[j].1) == key,
        forall|j: int|
            0 <= j < nodes@.len() ==> #[trigger] r.1@.contains_key(node_key(nodes@[j].0, nodes@[j].1))
                && r.1@[node_key(nodes@[j].0, nodes@[j].1)] < r.0,
        forall|j1: int, j2: int|
            0 <= j1 < nodes@.len() && 0 <= j2 < nodes@.len() && uf.root(j1) == uf.root(j2) ==> #[trigger] r.1@[node_key(
                nodes@[j1].0,
                nodes@[j1].1,
            )] == #[trigger] r.1@[node_key(nodes@[j2].0, nodes@[j2].1)],
        forall|id: NetId| id < r.0 ==> #[trigger] id_of_some_node(r.1@, nodes@, id),
        r.0 <= nodes@.len(),
        forall|j1: int, j2: int|
            0 <= j1 < nodes@.len() && 0 <= j2 < nodes@.len() && #[trigger] r.1@[node_key(nodes@[j1].0, nodes@[j1].1)]
                == #[trigger] r.1@[node_key(nodes@[j2].0, nodes@[j2].1)] ==> uf.root(j1) == uf.root(j2),
        forall|j: int| 0 <= j < nodes@.len() ==> #[trigger] in_order_at(r.1@, nodes@, j),
{
    let mut uf = uf;
    // Assign a dense net id per union-find root.
    let mut root_net: HashMap<usize, NetId> = HashMap::new();
    let mut node_net: HashMap<u128, NetId> = HashMap::new();
    let mut count: usize = 0;
    let ghost uf_merged = uf;
    let mut i: usize = 0;
    while i < nodes.len()
        invariant
            uf.inv(),
            uf.len_spec() == nodes@.len(),
            uf_merged.inv(),
            uf_merged.len_spec() == nodes@.len(),
            forall|y: int| 0 <= y < nodes@.len() ==> #[trigger] uf.root(y) == uf_merged.root(y),
            i <= nodes@.len(),
            count <= i,
            key_positions(nodes@, index@),
            forall|r: usize| #[trigger] root_net@.contains_key(r) ==> root_net@[r] < count,
            forall|j: int| 0 <= j < i ==> #[trigger] root_net@.contains_key(uf_merged.root(j) as usize),
            forall|r: usize| #[trigger] root_net@.contains_key(r) ==> root_seen(uf_merged, i as int, r),
            forall|j: int| 0 <= j < i ==> #[trigger] in_order_at(node_net@, nodes@, j),
            forall|r1: usize, r2: usize|
                root_net@.contains_key(r1) && root_net@.contains_key(r2) && r1 != r2 ==> #[trigger] root_net@[r1]
                    != #[trigger] root_net@[r2],
            forall|id: NetId| id < count ==> #[trigger] id_assigned(root_net@, uf_merged, i as int, id),
            forall|key: u128| #[trigger]
                node_net@.contains_key(key) ==> exists|j: int|
                    0 <= j < i && node_key(nodes@[j].0, nodes@[j].1) == key,
            forall|j: int|
                0 <= j < i ==> #[trigger] node_net@.contains_key(node_key(nodes@[j].0, nodes@[j].1))
                    && node_net@[node_key(nodes@[j].0, nodes@[j].1)] == root_net@[uf_merged.root(j) as usize],
        decreases nodes@.len() - i,
    {
        let ghost rn0 = root_net@;
        let ghost count0 = count;
        let root = uf.find(i);
        proof {
            uf_merged.lemma_root(i as int);
        }
        let net = match root_net.get(&root) {
            Some(n) => *n,
            None => {
                let id = count;
                root_net.insert(root, id);
                count += 1;
                id
            },
        };
        let key = key_of(nodes[i].0, nodes[i].1);
        let ghost nn0 = node_net@;
        node_net.insert(key, net);
        proof {
            let ri = uf_merged.root(i as int) as usize;
            assert(root == ri);
            assert(root_net@.contains_key(ri) && root_net@[ri] == net);
            assert(forall|r: usize| #[trigger] rn0.contains_key(r) ==> root_net@.contains_key(r) && root_net@[r] == rn0[r]);
            assert(index@.contains_key(node_key(nodes@[i as int].0, nodes@[i as int].1)));
            assert forall|j: int|
                0 <= j < i + 1 implies #[trigger] node_net@.contains_key(node_key(nodes@[j].0, nodes@[j].1))
                    && node_net@[node_key(nodes@[j].0, nodes@[j].1)] == root_net@[uf_merged.root(j) as usize] by {
                if j < i {
                    assert(index@.contains_key(node_key(nodes@[j].0, nodes@[j].1)));
                    assert(nn0.contains_key(node_key(nodes@[j].0, nodes@[j].1)));
                    assert(rn0.contains_key(uf_merged.root(j) as usize));
                    if node_key(nodes@[j].0, nodes@[j].1) == key {
                        assert(index@[key] == j);
                        assert(index@[key] == i);
                    }
                }
            }
            assert forall|id: NetId| id < count implies #[trigger] id_assigned(root_net@, uf_merged, i + 1, id) by {
                if id < count0 {
                    assert(id_assigned(rn0, uf_merged, i as int, id));
                    let j = choose|j: int| 0 <= j < i && rn0[uf_merged.root(j) as usize] == id;
                    assert(rn0.contains_key(uf_merged.root(j) as usize));
                    assert(root_net@[uf_merged.root(j) as usize] == id);
                } else {
                    assert(root_net@[uf_merged.root(i as int) as usize] == id);
                }
            }
            assert forall|key2: u128| #[trigger] node_net@.contains_key(key2) implies exists|j: int|
                0 <= j < i + 1 && node_key(nodes@[j].0, nodes@[j].1) == key2 by {
                if key2 != key {
                    assert(nn0.contains_key(key2));
                }
            }
            assert forall|r1: usize, r2: usize|
                root_net@.contains_key(r1) && root_net@.contains_key(r2) && r1 != r2 implies #[trigger] root_net@[r1]
                    != #[trigger] root_net@[r2] by {
                if rn0.contains_key(r1) && rn0.contains_key(r2) {
                } else if !rn0.contains_key(r1) {
                    assert(r1 == root);
                    if rn0.contains_key(r2) {
                        assert(rn0[r2] < count0);
                    }
                } else {
                    assert(r2 == root);
                    assert(rn0[r1] < count0);
                }
            }
            assert forall|r: usize| #[trigger] root_net@.contains_key(r) implies root_seen(uf_merged, i + 1, r) by {
                if rn0.contains_key(r) {
                    assert(root_seen(uf_merged, i as int, r));
                    let j = choose|j: int| 0 <= j < i && uf_merged.root(j) as usize == r;
                    assert(0 <= j < i + 1 && uf_merged.root(j) as usize == r);
                } else {
                    assert(r == root);
                    assert(uf_merged.root(i as int) as usize == r);
                }
            }
            assert forall|t: int| 0 <= t <= i - 1 implies node_net@[node_key(nodes@[t].0, nodes@[t].1)] == #[trigger] nn0[node_key(
                nodes@[t].0,
                nodes@[t].1,
            )] by {
                if node_key(nodes@[t].0, nodes@[t].1) == key {
                    assert(index@[key] == t);
                    assert(index@[key] == i);
                }
            }
            assert forall|j: int| 0 <= j < i implies #[trigger] in_order_at(node_net@, nodes@, j) by {
                lemma_in_order_keep(nn0, node_net@, nodes@, j);
            }
            let ki = node_key(nodes@[i as int].0, nodes@[i as int].1);
            assert(node_net@[ki] == net);
            if rn0.contains_key(root) {
                assert(root_seen(uf_merged, i as int, root));
                let j = choose|j: int| 0 <= j < i && uf_merged.root(j) as usize == root;
                assert(node_net@.contains_key(node_key(nodes@[j].0, nodes@[j].1)));
                assert(node_net@[node_key(nodes@[j].0, nodes@[j].1)] == root_net@[uf_merged.root(j) as usize]);
                assert(node_net@[node_key(nodes@[j].0, nodes@[j].1)] == net);
                assert(in_order_at(node_net@, nodes@, i as int));
            } else {
                assert(net == count0);
                assert forall|t: int| 0 <= t < i implies node_net@[node_key(nodes@[t].0, nodes@[t].1)] < node_net@[ki] by {
                    assert(rn0.contains_key(uf_merged.root(t) as usize));
                    assert(node_net@.contains_key(node_key(nodes@[t].0, nodes@[t].1)));
                    assert(node_net@[node_key(nodes@[t].0, nodes@[t].1)] == root_net@[uf_merged.root(t) as usize]);
                }
                assert(in_order_at(node_net@, nodes@, i as int));
            }
        }
        i += 1;
        proof {
            assert forall|j: int|
                0 <= j < i implies #[trigger] node_net@.contains_key(node_key(nodes@[j].0, nodes@[j].1))
                    && node_net@[node_key(nodes@[j].0, nodes@[j].1)] == root_net@[uf_merged.root(j) as usize] by {
                assert(0 <= j < (i - 1) + 1);
            }
            assert forall|j: int| 0 <= j < i implies #[trigger] in_order_at(node_net@, nodes@, j) by {
                assert(0 <= j < (i - 1) + 1);
            }
        }
    }

    proof {
        assert forall|j: int| 0 <= j < nodes@.len() implies #[trigger] node_net@.contains_key(node_key(nodes@[j].0, nodes@[j].1))
            && node_net@[node_key(nodes@[j].0, nodes@[j].1)] < count by {
            assert(i == nodes@.len());
            assert(0 <= j < i);
            assert(node_net@.contains_key(node_key(nodes@[j].0, nodes@[j].1)));
            assert(node_net@[node_key(nodes@[j].0, nodes@[j].1)] == root_net@[uf_merged.root(j) as usize]);
            assert(root_net@.contains_key(uf_merged.root(j) as usize));
        }
        assert forall|j1: int, j2: int|
            0 <= j1 < nodes@.len() && 0 <= j2 < nodes@.len() && uf_merged.root(j1) == uf_merged.root(j2) implies #[trigger] node_net@[node_key(
                nodes@[j1].0,
                nodes@[j1].1,
            )] == #[trigger] node_net@[node_key(nodes@[j2].0, nodes@[j2].1)] by {
            assert(i == nodes@.len());
            assert(node_net@.contains_key(node_key(nodes@[j1].0, nodes@[j1].1)));
            assert(node_net@.contains_key(node_key(nodes@[j2].0, nodes@[j2].1)));
        }
        assert forall|j1: int, j2: int|
            0 <= j1 < nodes@.len() && 0 <= j2 < nodes@.len() && #[trigger] node_net@[node_key(nodes@[j1].0, nodes@[j1].1)]
                == #[trigger] node_net@[node_key(nodes@[j2].0, nodes@[j2].1)] implies uf_merged.root(j1) == uf_merged.root(j2) by {
            assert(i == nodes@.len());
            assert(node_net@.contains_key(node_key(nodes@[j1].0, nodes@[j1].1)));
            assert(node_net@.contains_key(node_key(nodes@[j2].0, nodes@[j2].1)));
            assert(root_net@.contains_key(uf_merged.root(j1) as usize));
            assert(root_net@.contains_key(uf_merged.root(j2) as usize));
            uf_merged.lemma_root(j1);
            uf_merged.lemma_root(j2);
        }
        assert forall|id: NetId| id < count implies #[trigger] id_of_some_node(node_net@, nodes@, id) by {
            assert(id_assigned(root_net@, uf_merged, nodes@.len() as int, id));
            let j = choose|j: int| 0 <= j < nodes@.len() && root_net@[uf_merged.root(j) as usize] == id;
            assert(node_net@.contains_key(node_key(nodes@[j].0, nodes@[j].1)));
        }
    }
    (count, node_net)
}

/// Run net extraction over `board`.
pub fn extract(board: &Board) -> (nets: Nets)
    requires
        board.wf(),
    ensures
        nets.extracted_from(*board),
        nets.count_spec() <= 2 * board.occupied().len(),
{
    let cells = board.iter();
    let ghost b = *board;
    proof {
        lemma_occupied_facts(b);
    }
    let (nodes, index) = intern_nodes(board, &cells);
    let uf = merge_nodes(board, &cells, &nodes, &index);
    let ghost uf_merged = uf;
    let (count, node_net) = assign_nets(&nodes, &index, uf);
    let nets = Nets { count, node_net };
    proof {
        assert forall|c: Cell, p: Port| #[trigger] nets.net_of_spec(c, p) is Some <==> is_node(b, c, p) by {
            if nets.net_of_spec(c, p) is Some {
                assert(node_net@.contains_key(node_key(c, p)));
                let j = choose|j: int| 0 <= j < nodes@.len() && node_key(nodes@[j].0, nodes@[j].1) == node_key(c, p);
                lemma_node_key_injective(nodes@[j].0, nodes@[j].1, c, p);
                assert(is_node(b, nodes@[j].0, nodes@[j].1));
            }
            if is_node(b, c, p) {
                assert(index@.contains_key(node_key(c, p)));
                let w = choose|i: int| 0 <= i < nodes@.len() && node_key(nodes@[i].0, nodes@[i].1) == node_key(c, p);
                assert(node_net@.contains_key(node_key(nodes@[w].0, nodes@[w].1)));
            }
        }
        assert forall|c: Cell, p: Port| #[trigger] nets.net_of_spec(c, p) is Some implies nets.net_of_spec(c, p)->0 < nets.count_spec() by {
            assert(node_net@.contains_key(node_key(c, p)));
            let j = choose|j: int| 0 <= j < nodes@.len() && node_key(nodes@[j].0, nodes@[j].1) == node_key(c, p);
            assert(node_net@.contains_key(node_key(nodes@[j].0, nodes@[j].1)));
        }
        assert forall|c: Cell, side: Direction|
            #[trigger] planar_link(b, c, side) is Some implies ({
                let (p, n, np) = planar_link(b, c, side).unwrap();
                is_node(b, c, p) ==> nets.net_of_spec(c, p) == nets.net_of_spec(n, np)
            }) by {
            let (p, n, np) = planar_link(b, c, side).unwrap();
            if is_node(b, c, p) {
                assert(b.tile_at(c) != Tile::Empty);
                let j = choose|j: int| 0 <= j < b.occupied().len() && (#[trigger] b.occupied()[j]).0 == c;
                lemma_port_is_node(b.tile_at(n), opposite_spec(side));
                assert(same(uf_merged, index@, node_key(c, p), node_key(n, np)));
                let wa = choose|i: int| 0 <= i < nodes@.len() && node_key(nodes@[i].0, nodes@[i].1) == node_key(c, p);
                let wb = choose|i: int| 0 <= i < nodes@.len() && node_key(nodes@[i].0, nodes@[i].1) == node_key(n, np);
                assert(index@[node_key(nodes@[wa].0, nodes@[wa].1)] == wa);
                assert(index@[node_key(nodes@[wb].0, nodes@[wb].1)] == wb);
                assert(node_net@[node_key(nodes@[wa].0, nodes@[wa].1)] == node_net@[node_key(nodes@[wb].0, nodes@[wb].1)]);
            }
        }
        assert forall|c: Cell, n: Cell|
            #[trigger] via_link(b, c, n) && b.contains_spec(c) implies nets.net_of_spec(c, Port::Single)
                == nets.net_of_spec(n, Port::Single) by {
            let j = choose|j: int| 0 <= j < b.occupied().len() && (#[trigger] b.occupied()[j]).0 == c;
            assert(nodes_of_spec(Tile::Via)[0] == Port::Single);
            assert(is_node(b, c, Port::Single));
            assert(is_node(b, n, Port::Single));
            assert(same(uf_merged, index@, node_key(c, Port::Single), node_key(n, Port::Single)));
            let wa = choose|i: int| 0 <= i < nodes@.len() && node_key(nodes@[i].0, nodes@[i].1) == node_key(c, Port::Single);
            let wb = choose|i: int| 0 <= i < nodes@.len() && node_key(nodes@[i].0, nodes@[i].1) == node_key(n, Port::Single);
            assert(index@[node_key(nodes@[wa].0, nodes@[wa].1)] == wa);
            assert(index@[node_key(nodes@[wb].0, nodes@[wb].1)] == wb);
            assert(node_net@[node_key(nodes@[wa].0, nodes@[wa].1)] == node_net@[node_key(nodes@[wb].0, nodes@[wb].1)]);
        }
        assert forall|c1: Cell, p1: Port, c2: Cell, p2: Port|
            #[trigger] nets.net_of_spec(c1, p1) is Some && nets.net_of_spec(c1, p1) == #[trigger] nets.net_of_spec(c2, p2)
                implies connected(b, (c1, p1), (c2, p2)) by {
            assert(node_net@.contains_key(node_key(c1, p1)));
            assert(node_net@.contains_key(node_key(c2, p2)));
            let j1 = choose|j: int| 0 <= j < nodes@.len() && node_key(nodes@[j].0, nodes@[j].1) == node_key(c1, p1);
            let j2 = choose|j: int| 0 <= j < nodes@.len() && node_key(nodes@[j].0, nodes@[j].1) == node_key(c2, p2);
            lemma_node_key_injective(nodes@[j1].0, nodes@[j1].1, c1, p1);
            lemma_node_key_injective(nodes@[j2].0, nodes@[j2].1, c2, p2);
            assert(node_net@[node_key(nodes@[j1].0, nodes@[j1].1)] == node_net@[node_key(nodes@[j2].0, nodes@[j2].1)]);
            assert(uf_merged.root(j1) == uf_merged.root(j2));
            assert(nodes@[j1] == (c1, p1));
            assert(nodes@[j2] == (c2, p2));
        }
        assert forall|j: int| 0 <= j < board_nodes(b).len() implies #[trigger] nets.numbered_at(board_nodes(b), j) by {
            let ns = nodes@;
            assert(in_order_at(node_net@, ns, j));
            assert forall|t: int| 0 <= t < ns.len() implies #[trigger] nets.net_of_spec(ns[t].0, ns[t].1)->0 == node_net@[node_key(
                ns[t].0,
                ns[t].1,
            )] by {
                assert(node_net@.contains_key(node_key(ns[t].0, ns[t].1)));
            }
            let nj = node_net@[node_key(ns[j].0, ns[j].1)];
            assert(nets.net_of_spec(ns[j].0, ns[j].1)->0 == nj);
            if exists|i: int| 0 <= i < j && node_net@[node_key(ns[i].0, ns[i].1)] == nj {
                let i = choose|i: int| 0 <= i < j && node_net@[node_key(ns[i].0, ns[i].1)] == nj;
                assert(nets.net_of_spec(ns[i].0, ns[i].1)->0 == nj);
            } else {
                assert forall|i: int| 0 <= i < j implies nets.net_of_spec(ns[i].0, ns[i].1)->0 < nets.net_of_spec(ns[j].0, ns[j].1)->0 by {
                    assert(nets.net_of_spec(ns[i].0, ns[i].1)->0 == node_net@[node_key(ns[i].0, ns[i].1)]);
                }
            }
        }
        assert forall|id: NetId| id < nets.count_spec() implies #[trigger] nets.net_used(id) by {
            assert(id_of_some_node(node_net@, nodes@, id));
            let j = choose|j: int| 0 <= j < nodes@.len() && node_net@[node_key(nodes@[j].0, nodes@[j].1)] == id;
            assert(node_net@.contains_key(node_key(nodes@[j].0, nodes@[j].1)));
            assert(nets.net_of_spec(nodes@[j].0, nodes@[j].1) == Some(id));
        }
    }
    nets
}

/// Some listed node carries net `id`.
pub open spec fn id_of_some_node(m: Map<u128, NetId>, nodes: Seq<(Cell, Port)>, id: NetId) -> bool {
    exists|j: int| 0 <= j < nodes.len() && m[node_key(nodes[j].0, nodes[j].1)] == id
}

/// The nodes under keys `k1` and `k2` are interned and in the same set.
pub open spec fn same(uf: UnionFind, m: Map<u128, usize>, k1: u128, k2: u128) -> bool {
    m.contains_key(k1) && m.contains_key(k2) && uf.root(m[k1] as int) == uf.root(m[k2] as int)
}

/// A union never separates two interned nodes that were together.
proof fn lemma_union_keeps(uf0: UnionFind, uf1: UnionFind, m: Map<u128, usize>, n: nat)
    requires
        forall|key: u128| #[trigger] m.contains_key(key) ==> m[key] < n,
        forall|u: int, v: int|
            0 <= u < n && 0 <= v < n && uf0.root(u) == uf0.root(v) ==> #[trigger] uf1.root(u)
                == #[trigger] uf1.root(v),
    ensures
        forall|k1: u128, k2: u128| #[trigger] same(uf0, m, k1, k2) ==> #[trigger] same(uf1, m, k1, k2),
{
    assert forall|k1: u128, k2: u128| #[trigger] same(uf0, m, k1, k2) implies #[trigger] same(uf1, m, k1, k2) by {
        assert(uf1.root(m[k1] as int) == uf1.root(m[k2] as int));
    }
}

/// Net `id` was handed to the root of one of the first `upto` nodes.
spec fn id_assigned(m: Map<usize, NetId>, uf: UnionFind, upto: int, id: NetId) -> bool {
    exists|j: int| 0 <= j < upto && m[uf.root(j) as usize] == id
}


/// A switch, source or clock drives every side: a wire beside it, on any
/// side, is on the driver's own net.
pub proof fn lemma_driver_joins_adjacent_wire(nets: Nets, b: Board, c: Cell, d: Direction)
    requires
        nets.extracted_from(b),
        b.contains_spec(c),
        b.tile_at(c) == Tile::Switch || b.tile_at(c) == Tile::Clock || b.tile_at(c) matches Tile::Source { .. },
        b.neighbour_spec(c, d) matches Some(n) && b.tile_at(n) == Tile::Wire,
    ensures
        nets.net_of_spec(c, Port::Single) is Some,
        nets.net_of_spec(c, Port::Single) == nets.net_of_spec(b.neighbour_spec(c, d)->0, Port::Single),
{
    let n = b.neighbour_spec(c, d)->0;
    assert(nodes_of_spec(b.tile_at(c))[0] == Port::Single);
    assert(is_node(b, c, Port::Single));
    assert(planar_link(b, c, d) == Some((Port::Single, n, Port::Single)));
}


/// Conductors join through every side: a wire beside a wire, a via or a
/// driver, on any side, shares its net.
pub proof fn lemma_wire_joins_neighbours(nets: Nets, b: Board, c: Cell, d: Direction)
    requires
        nets.extracted_from(b),
        b.contains_spec(c),
        b.tile_at(c) == Tile::Wire || b.tile_at(c) == Tile::Via,
        b.neighbour_spec(c, d) matches Some(n) && b.tile_at(n) == Tile::Wire,
    ensures
        nets.net_of_spec(c, Port::Single) is Some,
        nets.net_of_spec(c, Port::Single) == nets.net_of_spec(b.neighbour_spec(c, d)->0, Port::Single),
{
    let n = b.neighbour_spec(c, d)->0;
    assert(nodes_of_spec(b.tile_at(c))[0] == Port::Single);
    assert(is_node(b, c, Port::Single));
    assert(planar_link(b, c, d) == Some((Port::Single, n, Port::Single)));
}

/// A cross carries each axis straight through: wires on its north and south
/// sides share its vertical net, wires on its east and west sides its
/// horizontal net.
pub proof fn lemma_cross_passes_straight(nets: Nets, b: Board, c: Cell, d: Direction)
    requires
        nets.extracted_from(b),
        b.contains_spec(c),
        b.tile_at(c) == Tile::Cross,
        b.neighbour_spec(c, d) matches Some(n) && b.tile_at(n) == Tile::Wire,
    ensures
        ({
            let axis = if d == Direction::North || d == Direction::South {
                Port::CrossVertical
            } else {
                Port::CrossHorizontal
            };
            &&& nets.net_of_spec(c, axis) is Some
            &&& nets.net_of_spec(c, axis) == nets.net_of_spec(b.neighbour_spec(c, d)->0, Port::Single)
        }),
{
    let n = b.neighbour_spec(c, d)->0;
    let axis = if d == Direction::North || d == Direction::South {
        Port::CrossVertical
    } else {
        Port::CrossHorizontal
    };
    assert(nodes_of_spec(Tile::Cross)[0] == Port::CrossVertical);
    assert(nodes_of_spec(Tile::Cross)[1] == Port::CrossHorizontal);
    assert(is_node(b, c, axis));
    assert(planar_link(b, c, d) == Some((axis, n, Port::Single)));
}

/// A gate drives the wire on its output side.
pub proof fn lemma_gate_drives_its_facing(nets: Nets, b: Board, c: Cell, kind: crate::tile::GateKind, facing: Direction)
    requires
        nets.extracted_from(b),
        b.contains_spec(c),
        b.tile_at(c) == (Tile::Gate { kind, facing }),
        b.neighbour_spec(c, facing) matches Some(n) && b.tile_at(n) == Tile::Wire,
    ensures
        nets.net_of_spec(c, Port::Single) is Some,
        nets.net_of_spec(c, Port::Single) == nets.net_of_spec(b.neighbour_spec(c, facing)->0, Port::Single),
{
    let n = b.neighbour_spec(c, facing)->0;
    assert(nodes_of_spec(b.tile_at(c))[0] == Port::Single);
    assert(is_node(b, c, Port::Single));
    assert(planar_link(b, c, facing) == Some((Port::Single, n, Port::Single)));
}

/// LEDs and empty cells own no node, so they carry no net; every other
/// tile carries one on its single node, a cross one per axis.
pub proof fn lemma_which_cells_carry_nets(nets: Nets, b: Board, c: Cell)
    requires
        nets.extracted_from(b),
        b.contains_spec(c),
    ensures
        (b.tile_at(c) == Tile::Led || b.tile_at(c) == Tile::Empty) ==> forall|p: Port| #[trigger] nets.net_of_spec(c, p) is None,
        b.tile_at(c) == Tile::Cross ==> nets.net_of_spec(c, Port::CrossVertical) is Some && nets.net_of_spec(
            c,
            Port::CrossHorizontal,
        ) is Some && nets.net_of_spec(c, Port::Single) is None,
        !(b.tile_at(c) == Tile::Led || b.tile_at(c) == Tile::Empty || b.tile_at(c) == Tile::Cross) ==> nets.net_of_spec(
            c,
            Port::Single,
        ) is Some,
{
    let t = b.tile_at(c);
    if t == Tile::Cross {
        assert(nodes_of_spec(t)[0] == Port::CrossVertical);
        assert(nodes_of_spec(t)[1] == Port::CrossHorizontal);
        assert(is_node(b, c, Port::CrossVertical));
        assert(is_node(b, c, Port::CrossHorizontal));
        assert(!nodes_of_spec(t).contains(Port::Single));
    } else if t != Tile::Led && t != Tile::Empty {
        assert(nodes_of_spec(t)[0] == Port::Single);
        assert(is_node(b, c, Port::Single));
    }
}

} // verus!
