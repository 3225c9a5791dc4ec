//! Running a compiled board and reading it back in cell terms.
//!
//! [`Sim`] drives the reference interpreter over a lowered board and answers
//! the per-cell questions a renderer asks: is this cell energised, is that
//! LED lit, where does this switch stand.

use std::collections::HashMap;
use vstd::prelude::*;

use crate::board::{cell_key, lemma_cell_key_injective, lemma_occupied_facts, lemma_occupied_unique, Board, Cell};
use crate::circuit::Circuit;
use crate::interp::{Backend, Interpreter};
use crate::lower::{
    compile, led_lit, net_level, rank, register_next, role, switch_map_ok, BoardMap, CompileError, Compiled, Role,
};
use crate::net::NetId;
use crate::tile::{Direction, Tile};

verus! {

broadcast use vstd::std_specs::hash::group_hash_axioms;

/// The reference interpreter together with the buffers it ticks.
struct InterpreterSim {
    circuit: Circuit,
    inputs: Vec<bool>,
    state: Vec<bool>,
    outputs: Vec<bool>,
}

/// `n` low values.
pub open spec fn lows(n: nat) -> Seq<bool> {
    Seq::new(n, |i: int| false)
}

fn low_buffer(n: usize) -> (v: Vec<bool>)
    ensures
        v@ == lows(n as nat),
{
    let v = vec![false; n];
    assert(v@ =~= lows(n as nat));
    v
}

impl InterpreterSim {
    spec fn wf(&self) -> bool {
        &&& self.circuit.wf()
        &&& self.inputs@.len() == self.circuit.input_count
        &&& self.state@.len() == self.circuit.regs_seq().len()
        &&& self.outputs@.len() == self.circuit.output_signals@.len()
    }

    fn new(circuit: Circuit) -> (s: Self)
        requires
            circuit.wf(),
        ensures
            s.wf(),
            s.circuit == circuit,
            s.inputs@ == lows(circuit.input_count as nat),
            s.state@ == circuit.initial_state_spec(),
            s.outputs@ == lows(circuit.output_signals@.len()),
    {
        let inputs = low_buffer(circuit.input_count as usize);
        let outputs = low_buffer(circuit.output_count as usize);
        let state = circuit.initial_state();
        InterpreterSim { circuit, inputs, state, outputs }
    }

    /// Drive input `index`; out-of-range indices are ignored.
    fn set_input(&mut self, index: usize, value: bool)
        ensures
            final(self).circuit == old(self).circuit,
            final(self).state@ == old(self).state@,
            final(self).outputs@ == old(self).outputs@,
            final(self).inputs@ == if index < old(self).inputs@.len() {
                old(self).inputs@.update(index as int, value)
            } else {
                old(self).inputs@
            },
    {
        if index < self.inputs.len() {
            self.inputs.set(index, value);
        }
    }

    /// Output `index` as of the last tick; low when out of range.
    fn output(&self, index: usize) -> (r: bool)
        ensures
            r == (index < self.outputs@.len() && self.outputs@[index as int]),
    {
        if index < self.outputs.len() {
            self.outputs[index]
        } else {
            false
        }
    }

    fn tick(&mut self)
        requires
            old(self).wf(),
        ensures
            final(self).wf(),
            final(self).circuit == old(self).circuit,
            final(self).inputs@ == old(self).inputs@,
            final(self).state@ == old(self).circuit.next_state(old(self).inputs@, old(self).state@),
            final(self).outputs@ == old(self).circuit.output_values(old(self).inputs@, old(self).state@),
    {
        let ghost inputs0 = self.inputs@;
        let ghost state0 = self.state@;
        Interpreter.tick(&self.circuit, self.inputs.as_slice(), self.state.as_mut_slice(), self.outputs.as_mut_slice());
        assert(self.state@ =~= self.circuit.next_state(inputs0, state0));
        assert(self.outputs@ =~= self.circuit.output_values(inputs0, state0));
    }
}

/// Register state after `n` ticks with the inputs held.
pub open spec fn run_state(c: Circuit, inputs: Seq<bool>, state: Seq<bool>, n: nat) -> Seq<bool>
    decreases n,
{
    if n == 0 {
        state
    } else {
        c.next_state(inputs, run_state(c, inputs, state, (n - 1) as nat))
    }
}

/// Outputs after `n` ticks with the inputs held: those of the last tick.
pub open spec fn run_outputs(c: Circuit, inputs: Seq<bool>, state: Seq<bool>, outputs: Seq<bool>, n: nat) -> Seq<bool> {
    if n == 0 {
        outputs
    } else {
        c.output_values(inputs, run_state(c, inputs, state, (n - 1) as nat))
    }
}

/// The list position of cell `c` among the board's non-empty cells.
pub open spec fn position(b: Board, c: Cell) -> int {
    choose|k: int| 0 <= k < b.occupied().len() && b.occupied()[k].0 == c
}

pub open spec fn is_switch_cell(b: Board, c: Cell) -> bool {
    b.contains_spec(c) && b.tile_at(c) == Tile::Switch
}

pub open spec fn is_led_cell(b: Board, c: Cell) -> bool {
    b.contains_spec(c) && b.tile_at(c) == Tile::Led
}

/// The circuit input a switch drives: switches are numbered in board order.
pub open spec fn switch_input(b: Board, c: Cell) -> int {
    rank(b.occupied(), position(b, c), Role::Input) as int
}

/// The circuit output of an LED: after every net, LEDs in board order.
pub open spec fn led_output(b: Board, count: nat, c: Cell) -> int {
    (count + rank(b.occupied(), position(b, c), Role::Indicator)) as int
}

/// A running board: a compiled circuit plus the maps that turn ticks into
/// cell readouts and cell clicks into inputs.
pub struct Sim {
    inner: InterpreterSim,
    map: BoardMap,
    /// Nets to sample for each non-empty cell's lit state, by cell key.
    display: HashMap<u128, Vec<NetId>>,
    /// Current switch positions, by cell key.
    switch_state: HashMap<u128, bool>,
    /// LED cell key to its output index.
    led_index: HashMap<u128, usize>,
    ticks: u64,
    board: Ghost<Board>,
}

impl Sim {
    pub closed spec fn board_spec(&self) -> Board {
        self.board@
    }

    /// The compiled board being run.
    pub closed spec fn compiled_spec(&self) -> Compiled {
        Compiled { circuit: self.inner.circuit, map: self.map }
    }

    pub open spec fn nets_spec(&self) -> crate::net::Nets {
        self.compiled_spec().map.nets
    }

    pub open spec fn circuit_spec(&self) -> Circuit {
        self.compiled_spec().circuit
    }

    pub closed spec fn inputs_spec(&self) -> Seq<bool> {
        self.inner.inputs@
    }

    pub closed spec fn state_spec(&self) -> Seq<bool> {
        self.inner.state@
    }

    pub closed spec fn outputs_spec(&self) -> Seq<bool> {
        self.inner.outputs@
    }

    pub closed spec fn ticks_spec(&self) -> nat {
        self.ticks as nat
    }

    /// The position of the switch at `c`, if `c` holds one.
    pub closed spec fn switch_spec(&self, c: Cell) -> Option<bool> {
        if self.switch_state@.contains_key(cell_key(c)) {
            Some(self.switch_state@[cell_key(c)])
        } else {
            None
        }
    }

    /// The nets sampled to draw `c`, if `c` is non-empty.
    pub closed spec fn display_spec(&self, c: Cell) -> Option<Seq<NetId>> {
        if self.display@.contains_key(cell_key(c)) {
            Some(self.display@[cell_key(c)]@)
        } else {
            None
        }
    }

    /// Whether `cell` renders as energised: some net it displays is high.
    pub open spec fn cell_on_spec(&self, cell: Cell) -> bool {
        self.display_spec(cell) matches Some(ns) && exists|q: int| 0 <= q < ns.len() && #[trigger] self.output_high(ns[q] as int)
    }

    /// Whether output `i` read high on the last tick.
    pub open spec fn output_high(&self, i: int) -> bool {
        0 <= i < self.outputs_spec().len() && self.outputs_spec()[i]
    }

    /// The simulator runs the lowering of its board: the circuit, its
    /// buffers and the cell tables all agree with the board.
    pub closed spec fn wf(&self) -> bool {
        let b = self.board@;
        let nets = self.map.nets;
        &&& b.wf()
        &&& 12 * b.size() + 2 < u32::MAX
        &&& self.inner.wf()
        &&& (Compiled { circuit: self.inner.circuit, map: self.map }).lowers(b)
        &&& forall|c: Cell| #[trigger] self.switch_state@.contains_key(cell_key(c)) <==> is_switch_cell(b, c)
        &&& forall|c: Cell|
            is_switch_cell(b, c) ==> #[trigger] self.map.switch_inputs@[cell_key(c)] == switch_input(b, c)
                && self.switch_state@[cell_key(c)] == self.inner.inputs@[switch_input(b, c)]
        &&& forall|c: Cell| #[trigger] self.led_index@.contains_key(cell_key(c)) <==> is_led_cell(b, c)
        &&& forall|c: Cell| is_led_cell(b, c) ==> #[trigger] self.led_index@[cell_key(c)] == led_output(b, nets.count_spec(), c)
        &&& forall|c: Cell|
            #[trigger] self.display@.contains_key(cell_key(c)) <==> (b.contains_spec(c) && b.tile_at(c) != Tile::Empty)
        &&& forall|c: Cell|
            #[trigger] self.display@.contains_key(cell_key(c)) ==> nets.displays(b, c, self.display@[cell_key(c)]@)
        &&& self.outputs_settled()
    }

    /// The outputs are all low, as at power-on, or one settled snapshot of
    /// the circuit: those of some inputs and some state.
    pub open spec fn outputs_settled(&self) -> bool {
        ||| self.outputs_spec() == lows(self.circuit_spec().output_signals@.len())
        ||| exists|inputs: Seq<bool>, state: Seq<bool>| self.outputs_spec() == #[trigger] self.circuit_spec().output_values(inputs, state)
    }

    /// What the lowering guarantees, in the simulator's own terms.
    pub proof fn lemma_wf(&self)
        requires
            self.wf(),
        ensures
            self.board_spec().wf(),
            self.compiled_spec().lowers(self.board_spec()),
            self.inputs_spec().len() == self.circuit_spec().input_count,
            self.state_spec().len() == self.circuit_spec().regs_seq().len(),
            self.outputs_spec().len() == self.circuit_spec().output_signals@.len(),
            forall|c: Cell| #[trigger] self.switch_spec(c) is Some <==> is_switch_cell(self.board_spec(), c),
            forall|c: Cell|
                is_switch_cell(self.board_spec(), c) ==> #[trigger] self.switch_spec(c) == Some(
                    self.inputs_spec()[switch_input(self.board_spec(), c)],
                ) && 0 <= switch_input(self.board_spec(), c) < self.inputs_spec().len(),
            forall|c: Cell|
                #[trigger] self.display_spec(c) is Some <==> (self.board_spec().contains_spec(c) && self.board_spec().tile_at(c)
                    != Tile::Empty),
            forall|c: Cell|
                #[trigger] self.display_spec(c) matches Some(ns) ==> self.nets_spec().displays(self.board_spec(), c, ns),
    {
        assert forall|c: Cell| is_switch_cell(self.board_spec(), c) implies #[trigger] self.switch_spec(c) == Some(
            self.inputs_spec()[switch_input(self.board_spec(), c)],
        ) && 0 <= switch_input(self.board_spec(), c) < self.inputs_spec().len() by {
            let b = self.board_spec();
            assert(self.switch_state@.contains_key(cell_key(c)));
            assert(self.map.switch_inputs@[cell_key(c)] == switch_input(b, c));
            lemma_position(b, c);
            lemma_occupied_facts(b);
            let p = position(b, c);
            assert(b.occupied()[p].1 == b.tile_at(c));
            crate::lower::lemma_rank_mono(b.occupied(), Role::Input, p, b.occupied().len() as int);
        }
    }
}

/// `new` is `old` one tick later.
pub open spec fn ticked(old: Sim, new: Sim) -> bool {
    &&& new.wf()
    &&& new.board_spec() == old.board_spec()
    &&& new.compiled_spec() == old.compiled_spec()
    &&& new.inputs_spec() == old.inputs_spec()
    &&& forall|c: Cell| #[trigger] new.switch_spec(c) == old.switch_spec(c)
    &&& forall|c: Cell| #[trigger] new.display_spec(c) == old.display_spec(c)
    &&& new.ticks_spec() == old.ticks_spec() + 1
    &&& new.state_spec() == old.circuit_spec().next_state(old.inputs_spec(), old.state_spec())
    &&& new.outputs_spec() == old.circuit_spec().output_values(old.inputs_spec(), old.state_spec())
}

/// A non-empty cell's list position holds that cell, and only it does.
pub proof fn lemma_position(b: Board, c: Cell)
    requires
        b.wf(),
        b.contains_spec(c),
        b.tile_at(c) != Tile::Empty,
    ensures
        0 <= position(b, c) < b.occupied().len(),
        b.occupied()[position(b, c)].0 == c,
        forall|j: int| 0 <= j < b.occupied().len() && #[trigger] b.occupied()[j].0 == c ==> j == position(b, c),
{
    lemma_occupied_facts(b);
    assert forall|j: int| 0 <= j < b.occupied().len() && #[trigger] b.occupied()[j].0 == c implies j == position(b, c) by {
        lemma_occupied_unique(b, j, position(b, c));
    }
}

/// The state of `new` is that of `old` after `set_switch(cell, on)`: the
/// switch at `cell`, if there is one, stands at `on` and drives its input;
/// nothing else changes.
pub open spec fn switched(old: Sim, new: Sim, cell: Cell, on: bool) -> bool {
    let b = old.board_spec();
    &&& new.wf()
    &&& new.board_spec() == b
    &&& new.compiled_spec() == old.compiled_spec()
    &&& new.state_spec() == old.state_spec()
    &&& new.outputs_spec() == old.outputs_spec()
    &&& new.ticks_spec() == old.ticks_spec()
    &&& forall|c: Cell| #[trigger] new.display_spec(c) == old.display_spec(c)
    &&& if is_switch_cell(b, cell) {
        &&& new.inputs_spec() == old.inputs_spec().update(switch_input(b, cell), on)
        &&& new.switch_spec(cell) == Some(on)
        &&& forall|c: Cell| c != cell ==> #[trigger] new.switch_spec(c) == old.switch_spec(c)
    } else {
        &&& new.inputs_spec() == old.inputs_spec()
        &&& forall|c: Cell| #[trigger] new.switch_spec(c) == old.switch_spec(c)
    }
}

impl Sim {
    /// Build the cell lookup tables for a freshly compiled board.
    fn assemble(board: &Board, inner: InterpreterSim, map: BoardMap) -> (s: Sim)
        requires
            board.wf(),
            12 * board.size() + 2 < u32::MAX,
            inner.wf(),
            (Compiled { circuit: inner.circuit, map }).lowers(*board),
            forall|i: int| 0 <= i < inner.inputs@.len() ==> !#[trigger] inner.inputs@[i],
            inner.outputs@ == lows(inner.circuit.output_signals@.len()),
        ensures
            s.wf(),
            s.board_spec() == *board,
            s.compiled_spec() == (Compiled { circuit: inner.circuit, map }),
            s.inputs_spec() == inner.inputs@,
            s.state_spec() == inner.state@,
            s.outputs_spec() == inner.outputs@,
            s.ticks_spec() == 0,
    {
        let ghost b = *board;
        let cells = board.iter();
        let ghost occ = cells@;
        let ghost count = map.nets.count_spec();
        proof {
            lemma_occupied_facts(b);
        }
        let mut display: HashMap<u128, Vec<NetId>> = HashMap::new();
        let mut switch_state: HashMap<u128, bool> = HashMap::new();
        let mut k: usize = 0;
        while k < cells.len()
            invariant
                board.wf(),
                b == *board,
                occ == b.occupied(),
                cells@ == occ,
                k <= occ.len(),
                switch_map_ok(map.switch_inputs@, occ, occ.len() as int),
                forall|key: u128|
                    #[trigger] display@.contains_key(key) <==> exists|j: int| 0 <= j < k && cell_key(occ[j].0) == key,
                forall|j: int|
                    0 <= j < k ==> #[trigger] map.nets.displays(b, occ[j].0, display@[cell_key(occ[j].0)]@),
                forall|key: u128|
                    #[trigger] switch_state@.contains_key(key) <==> exists|j: int|
                        0 <= j < k && occ[j].1 == Tile::Switch && cell_key(occ[j].0) == key,
                forall|key: u128| #[trigger] switch_state@.contains_key(key) ==> !switch_state@[key],
            decreases occ.len() - k,
        {
            let cell = cells[k].0;
            let key = cell.key();
            let ghost d0 = display@;
            let nets_here = map.nets.display_nets(board, cell);
            display.insert(key, nets_here);
            if map.switch_inputs.contains_key(&key) {
                switch_state.insert(key, false);
            }
            proof {
                assert forall|j: int| 0 <= j < k + 1 implies #[trigger] map.nets.displays(
                    b,
                    occ[j].0,
                    display@[cell_key(occ[j].0)]@,
                ) by {
                    if j < k {
                        if cell_key(occ[j].0) == key {
                            lemma_cell_key_injective(occ[j].0, cell);
                            lemma_occupied_unique(b, j, k as int);
                        }
                        assert(display@[cell_key(occ[j].0)] == d0[cell_key(occ[j].0)]);
                    }
                }
                assert forall|key2: u128|
                    #[trigger] switch_state@.contains_key(key2) <==> exists|j: int|
                        0 <= j < k + 1 && occ[j].1 == Tile::Switch && cell_key(occ[j].0) == key2 by {
                    if key2 == key && map.switch_inputs@.contains_key(key) {
                        let j = choose|j: int|
                            0 <= j < occ.len() && occ[j].1 == Tile::Switch && #[trigger] cell_key(occ[j].0) == key;
                        lemma_cell_key_injective(occ[j].0, cell);
                        lemma_occupied_unique(b, j, k as int);
                    }
                    if key2 == key && exists|j: int|
                        0 <= j < k + 1 && occ[j].1 == Tile::Switch && cell_key(occ[j].0) == key2 {
                        let j = choose|j: int| 0 <= j < k + 1 && occ[j].1 == Tile::Switch && cell_key(occ[j].0) == key2;
                        assert(map.switch_inputs@.contains_key(cell_key(occ[j].0)));
                    }
                }
            }
            k += 1;
        }

        let mut led_index: HashMap<u128, usize> = HashMap::new();
        let ghost leds = map.leds@;
        let mut q: usize = 0;
        while q < map.leds.len()
            invariant
                leds == map.leds@,
                q <= leds.len(),
                forall|key: u128|
                    #[trigger] led_index@.contains_key(key) <==> exists|i: int| 0 <= i < q && cell_key(leds[i].0) == key,
                forall|key: u128|
                    #[trigger] led_index@.contains_key(key) ==> exists|i: int|
                        0 <= i < q && cell_key(leds[i].0) == key && led_index@[key] == leds[i].1,
            decreases leds.len() - q,
        {
            let (cell, index) = map.leds[q];
            led_index.insert(cell.key(), index);
            q += 1;
        }

        let s = Sim { inner, map, display, switch_state, led_index, ticks: 0, board: Ghost(b) };
        proof {
            let nets = s.map.nets;
            assert forall|c: Cell| #[trigger] s.display@.contains_key(cell_key(c)) <==> (b.contains_spec(c) && b.tile_at(c)
                != Tile::Empty) by {
                if s.display@.contains_key(cell_key(c)) {
                    let j = choose|j: int| 0 <= j < occ.len() && cell_key(occ[j].0) == cell_key(c);
                    lemma_cell_key_injective(occ[j].0, c);
                }
                if b.contains_spec(c) && b.tile_at(c) != Tile::Empty {
                    lemma_position(b, c);
                    assert(cell_key(occ[position(b, c)].0) == cell_key(c));
                }
            }
            assert forall|c: Cell| #[trigger] s.display@.contains_key(cell_key(c)) implies nets.displays(
                b,
                c,
                s.display@[cell_key(c)]@,
            ) by {
                let j = choose|j: int| 0 <= j < occ.len() && cell_key(occ[j].0) == cell_key(c);
                lemma_cell_key_injective(occ[j].0, c);
                assert(nets.displays(b, occ[j].0, s.display@[cell_key(occ[j].0)]@));
            }
            assert forall|c: Cell| #[trigger] s.switch_state@.contains_key(cell_key(c)) <==> is_switch_cell(b, c) by {
                if s.switch_state@.contains_key(cell_key(c)) {
                    let j = choose|j: int| 0 <= j < occ.len() && occ[j].1 == Tile::Switch && cell_key(occ[j].0) == cell_key(c);
                    lemma_cell_key_injective(occ[j].0, c);
                }
                if is_switch_cell(b, c) {
                    lemma_position(b, c);
                    assert(cell_key(occ[position(b, c)].0) == cell_key(c));
                }
            }
            assert forall|c: Cell|
                is_switch_cell(b, c) implies #[trigger] s.map.switch_inputs@[cell_key(c)] == switch_input(b, c)
                    && s.switch_state@[cell_key(c)] == s.inner.inputs@[switch_input(b, c)] by {
                lemma_position(b, c);
                let j = position(b, c);
                assert(s.map.switch_inputs@[cell_key(occ[j].0)] == rank(occ, j, Role::Input));
                crate::lower::lemma_rank_mono(occ, Role::Input, j, occ.len() as int);
                assert(s.switch_state@.contains_key(cell_key(c)));
            }
            assert forall|c: Cell| #[trigger] s.led_index@.contains_key(cell_key(c)) <==> is_led_cell(b, c) by {
                if s.led_index@.contains_key(cell_key(c)) {
                    let i = choose|i: int| 0 <= i < leds.len() && cell_key(leds[i].0) == cell_key(c);
                    crate::lower::lemma_rank_onto(occ, Role::Indicator, occ.len() as int, i as nat);
                    let j = choose|j: int|
                        0 <= j < occ.len() && role(occ[j].1) == Role::Indicator && #[trigger] rank(occ, j, Role::Indicator) == i;
                    assert(leds[rank(occ, j, Role::Indicator) as int] == (occ[j].0, (count + rank(occ, j, Role::Indicator)) as usize));
                    lemma_cell_key_injective(leds[i].0, c);
                }
                if is_led_cell(b, c) {
                    lemma_position(b, c);
                    let j = position(b, c);
                    crate::lower::lemma_rank_mono(occ, Role::Indicator, j, occ.len() as int);
                    assert(leds[rank(occ, j, Role::Indicator) as int] == (occ[j].0, (count + rank(occ, j, Role::Indicator)) as usize));
                    assert(cell_key(leds[rank(occ, j, Role::Indicator) as int].0) == cell_key(c));
                }
            }
            assert forall|c: Cell| is_led_cell(b, c) implies #[trigger] s.led_index@[cell_key(c)] == led_output(
                b,
                nets.count_spec(),
                c,
            ) by {
                lemma_position(b, c);
                let j = position(b, c);
                crate::lower::lemma_rank_mono(occ, Role::Indicator, j, occ.len() as int);
                assert(leds[rank(occ, j, Role::Indicator) as int] == (occ[j].0, (count + rank(occ, j, Role::Indicator)) as usize));
                assert(s.led_index@.contains_key(cell_key(c)));
                let i = choose|i: int| 0 <= i < leds.len() && cell_key(leds[i].0) == cell_key(c) && s.led_index@[cell_key(c)] == leds[i].1;
                crate::lower::lemma_rank_onto(occ, Role::Indicator, occ.len() as int, i as nat);
                let j2 = choose|j2: int|
                    0 <= j2 < occ.len() && role(occ[j2].1) == Role::Indicator && #[trigger] rank(occ, j2, Role::Indicator) == i;
                assert(leds[rank(occ, j2, Role::Indicator) as int] == (occ[j2].0, (count + rank(occ, j2, Role::Indicator)) as usize));
                lemma_cell_key_injective(leds[i].0, c);
                assert(occ[j2].0 == c);
                assert(j2 == j);
                crate::lower::lemma_rank_mono(occ, Role::Indicator, j, occ.len() as int);
            }
        }
        s
    }
}

impl Sim {
    /// Compile `board` and run it on the reference interpreter, every
    /// register and input starting low.
    pub fn new(board: &Board) -> (res: Result<Sim, CompileError>)
        requires
            board.wf(),
            12 * board.size() + 2 < u32::MAX,
        ensures
            res is Ok,
            res matches Ok(s) ==> {
                &&& s.wf()
                &&& s.board_spec() == *board
                &&& s.ticks_spec() == 0
                &&& s.inputs_spec() == lows(s.circuit_spec().input_count as nat)
                &&& s.state_spec() == lows(s.circuit_spec().regs_seq().len())
                &&& s.outputs_spec() == lows(s.circuit_spec().output_signals@.len())
            },
    {
        match compile(board) {
            Ok(compiled) => {
                let Compiled { circuit, map } = compiled;
                let inner = InterpreterSim::new(circuit);
                proof {
                    assert(inner.state@ =~= lows(inner.circuit.regs_seq().len()));
                }
                Ok(Sim::assemble(board, inner, map))
            },
            Err(e) => Err(e),
        }
    }

    /// Advance the board by one tick: every net and LED output shows the
    /// value settled from the current state, then every register latches.
    pub fn tick(&mut self)
        requires
            old(self).wf(),
            old(self).ticks_spec() < u64::MAX,
        ensures
            ticked(*old(self), *final(self)),
    {
        let ghost i0 = self.inner.inputs@;
        let ghost st0 = self.inner.state@;
        self.inner.tick();
        self.ticks = self.ticks + 1;
        proof {
            assert(self.outputs_spec() == self.circuit_spec().output_values(i0, st0));
        }
    }

    /// Advance the board by `ticks` ticks with the switches held.
    pub fn run(&mut self, ticks: u64)
        requires
            old(self).wf(),
            old(self).ticks_spec() + ticks <= u64::MAX,
        ensures
            final(self).wf(),
            final(self).board_spec() == old(self).board_spec(),
            final(self).compiled_spec() == old(self).compiled_spec(),
            final(self).inputs_spec() == old(self).inputs_spec(),
            forall|c: Cell| #[trigger] final(self).switch_spec(c) == old(self).switch_spec(c),
            forall|c: Cell| #[trigger] final(self).display_spec(c) == old(self).display_spec(c),
            final(self).ticks_spec() == old(self).ticks_spec() + ticks,
            final(self).state_spec() == run_state(old(self).circuit_spec(), old(self).inputs_spec(), old(self).state_spec(), ticks as nat),
            final(self).outputs_spec() == run_outputs(
                old(self).circuit_spec(),
                old(self).inputs_spec(),
                old(self).state_spec(),
                old(self).outputs_spec(),
                ticks as nat,
            ),
    {
        let ghost s0 = *self;
        let mut i: u64 = 0;
        while i < ticks
            invariant
                s0.wf(),
                self.wf(),
                i <= ticks,
                self.board == s0.board,
                self.map == s0.map,
                self.display == s0.display,
                self.switch_state == s0.switch_state,
                self.led_index == s0.led_index,
                self.ticks == s0.ticks,
                self.inner.circuit == s0.inner.circuit,
                self.inner.inputs@ == s0.inner.inputs@,
                self.inner.state@ == run_state(s0.inner.circuit, s0.inner.inputs@, s0.inner.state@, i as nat),
                self.inner.outputs@ == run_outputs(s0.inner.circuit, s0.inner.inputs@, s0.inner.state@, s0.inner.outputs@, i as nat),
            decreases ticks - i,
        {
            let ghost i0 = self.inner.inputs@;
            let ghost st0 = self.inner.state@;
            self.inner.tick();
            proof {
                assert(self.outputs_spec() == self.circuit_spec().output_values(i0, st0));
            }
            i += 1;
        }
        self.ticks = self.ticks + ticks;
    }

    /// Ticks elapsed since construction.
    pub fn ticks(&self) -> (r: u64)
        ensures
            r == self.ticks_spec(),
    {
        self.ticks
    }

    /// Number of nets in the compiled board.
    pub fn net_count(&self) -> (r: usize)
        requires
            self.wf(),
        ensures
            r == self.nets_spec().count_spec(),
    {
        self.map.net_count
    }

    /// Whether net `net` is currently high. Net `n` lives at output index
    /// `n`; an index past every output reads low.
    pub fn net_value(&self, net: NetId) -> (r: bool)
        ensures
            r == self.output_high(net as int),
    {
        self.inner.output(net)
    }

    /// Whether `cell` should render as energised: true if any net it
    /// displays is high; an empty or off-board cell never is.
    pub fn cell_on(&self, cell: Cell) -> (r: bool)
        ensures
            r == self.cell_on_spec(cell),
    {
        match self.display.get(&cell.key()) {
            Some(nets) => {
                let mut i: usize = 0;
                while i < nets.len()
                    invariant
                        i <= nets@.len(),
                        self.display_spec(cell) == Some(nets@),
                        forall|q: int| 0 <= q < i ==> !#[trigger] self.output_high(nets@[q] as int),
                    decreases nets@.len() - i,
                {
                    if self.net_value(nets[i]) {
                        proof {
                            let ns = nets@;
                            assert(self.display_spec(cell) == Some(ns));
                            assert(self.display_spec(cell)->0 == ns);
                            assert(self.output_high(ns[i as int] as int));
                            assert(exists|q: int| 0 <= q < ns.len() && #[trigger] self.output_high(ns[q] as int));
                            assert(self.display_spec(cell) matches Some(ns2) && exists|q: int|
                                0 <= q < ns2.len() && #[trigger] self.output_high(ns2[q] as int));
                        }
                        return true;
                    }
                    i += 1;
                }
                false
            },
            None => false,
        }
    }

    /// Whether the LED at `cell` is lit (false if `cell` holds no LED).
    pub fn led_on(&self, cell: Cell) -> (r: bool)
        requires
            self.wf(),
        ensures
            r == (is_led_cell(self.board_spec(), cell) && self.output_high(
                led_output(self.board_spec(), self.nets_spec().count_spec(), cell),
            )),
    {
        match self.led_index.get(&cell.key()) {
            Some(i) => self.inner.output(*i),
            None => false,
        }
    }

    /// Whether `cell` holds a toggleable switch.
    pub fn is_switch(&self, cell: Cell) -> (r: bool)
        requires
            self.wf(),
        ensures
            r == is_switch_cell(self.board_spec(), cell),
    {
        self.switch_state.contains_key(&cell.key())
    }

    /// The current position of the switch at `cell` (false if it isn't one).
    pub fn switch_on(&self, cell: Cell) -> (r: bool)
        ensures
            r == (self.switch_spec(cell) == Some(true)),
    {
        match self.switch_state.get(&cell.key()) {
            Some(on) => *on,
            None => false,
        }
    }

    /// Drive the switch at `cell` to `on`. No-op if `cell` isn't a switch.
    pub fn set_switch(&mut self, cell: Cell, on: bool)
        requires
            old(self).wf(),
        ensures
            switched(*old(self), *final(self), cell, on),
    {
        let ghost s0 = *self;
        let ghost b = self.board@;
        let key = cell.key();
        proof {
            self.lemma_wf();
        }
        match self.map.switch_inputs.get(&key) {
            Some(index) => {
                let index = *index;
                proof {
                    assert(switch_map_ok(self.map.switch_inputs@, b.occupied(), b.occupied().len() as int));
                    let j = choose|j: int|
                        0 <= j < b.occupied().len() && b.occupied()[j].1 == Tile::Switch && #[trigger] cell_key(b.occupied()[j].0)
                            == key;
                    lemma_cell_key_injective(b.occupied()[j].0, cell);
                    lemma_occupied_facts(b);
                    assert(is_switch_cell(b, cell));
                    crate::lower::lemma_rank_mono(b.occupied(), Role::Input, position(b, cell), b.occupied().len() as int);
                    lemma_position(b, cell);
                }
                self.switch_state.insert(key, on);
                self.inner.set_input(index, on);
                proof {
                    assert forall|c: Cell|
                        is_switch_cell(b, c) implies #[trigger] self.map.switch_inputs@[cell_key(c)] == switch_input(b, c)
                            && self.switch_state@[cell_key(c)] == self.inner.inputs@[switch_input(b, c)] by {
                        assert(s0.map.switch_inputs@[cell_key(c)] == switch_input(b, c));
                        lemma_position(b, c);
                        let j1 = position(b, c);
                        let j2 = position(b, cell);
                        assert(b.occupied()[j1].1 == b.tile_at(c));
                        assert(b.occupied()[j2].1 == b.tile_at(cell));
                        crate::lower::lemma_rank_mono(b.occupied(), Role::Input, j1, b.occupied().len() as int);
                        if c != cell {
                            if cell_key(c) == key {
                                lemma_cell_key_injective(c, cell);
                            }
                            assert(j1 != j2);
                            if j1 < j2 {
                                crate::lower::lemma_rank_mono(b.occupied(), Role::Input, j1, j2);
                            } else {
                                crate::lower::lemma_rank_mono(b.occupied(), Role::Input, j2, j1);
                            }
                            assert(switch_input(b, c) != index);
                            assert(self.switch_state@[cell_key(c)] == s0.switch_state@[cell_key(c)]);
                            assert(s0.switch_state@[cell_key(c)] == s0.inner.inputs@[switch_input(b, c)]);
                        } else {
                            assert(index == switch_input(b, cell));
                        }
                    }
                    assert forall|c: Cell| c != cell implies #[trigger] self.switch_spec(c) == s0.switch_spec(c) by {
                        if cell_key(c) == key {
                            lemma_cell_key_injective(c, cell);
                        }
                    }
                    assert(self.inner.inputs@ == s0.inner.inputs@.update(switch_input(b, cell), on));
                }
            },
            None => {
                proof {
                    if is_switch_cell(b, cell) {
                        lemma_position(b, cell);
                        lemma_occupied_facts(b);
                        assert(b.occupied()[position(b, cell)].1 == Tile::Switch);
                        assert(switch_map_ok(self.map.switch_inputs@, b.occupied(), b.occupied().len() as int));
                        assert(self.map.switch_inputs@.contains_key(cell_key(b.occupied()[position(b, cell)].0)));
                    }
                }
            },
        }
    }

    /// Flip the switch at `cell`. No-op if `cell` isn't a switch.
    pub fn toggle_switch(&mut self, cell: Cell)
        requires
            old(self).wf(),
        ensures
            switched(*old(self), *final(self), cell, old(self).switch_spec(cell) != Some(true)),
    {
        let now = self.switch_on(cell);
        self.set_switch(cell, !now);
    }
}

/// Toggling a cell twice restores every switch and every input.
pub proof fn lemma_toggle_twice(s0: Sim, s1: Sim, s2: Sim, cell: Cell)
    requires
        s0.wf(),
        switched(s0, s1, cell, s0.switch_spec(cell) != Some(true)),
        switched(s1, s2, cell, s1.switch_spec(cell) != Some(true)),
    ensures
        s2.inputs_spec() == s0.inputs_spec(),
        forall|c: Cell| #[trigger] s2.switch_spec(c) == s0.switch_spec(c),
        s2.state_spec() == s0.state_spec(),
{
    s0.lemma_wf();
    let b = s0.board_spec();
    if is_switch_cell(b, cell) {
        let i = switch_input(b, cell);
        assert(s0.switch_spec(cell) == Some(s0.inputs_spec()[i]));
        assert(s2.inputs_spec() =~= s0.inputs_spec());
        assert forall|c: Cell| #[trigger] s2.switch_spec(c) == s0.switch_spec(c) by {
            if c != cell {
                assert(s1.switch_spec(c) == s0.switch_spec(c));
            }
        }
    } else {
        assert forall|c: Cell| #[trigger] s2.switch_spec(c) == s0.switch_spec(c) by {
            assert(s1.switch_spec(c) == s0.switch_spec(c));
        }
    }
}

/// Setting a cell that holds no switch changes nothing.
pub proof fn lemma_set_non_switch(s0: Sim, s1: Sim, cell: Cell, on: bool)
    requires
        s0.wf(),
        !is_switch_cell(s0.board_spec(), cell),
        switched(s0, s1, cell, on),
    ensures
        s1.inputs_spec() == s0.inputs_spec(),
        s1.state_spec() == s0.state_spec(),
        s1.outputs_spec() == s0.outputs_spec(),
        forall|c: Cell| #[trigger] s1.switch_spec(c) == s0.switch_spec(c),
{
}

/// One tick in board terms: afterwards net `n` reads high exactly when some
/// driver on it pushed a high value before the tick, an LED is lit exactly
/// when a net beside it was high, and every gate's register holds its
/// operation over its input nets as they were (a clock's, its inverted
/// value), so a signal advances one driver per tick.
pub proof fn lemma_tick(s0: Sim, s1: Sim)
    requires
        s0.wf(),
        ticked(s0, s1),
    ensures
        forall|n: int|
            0 <= n < s0.nets_spec().count_spec() ==> #[trigger] s1.output_high(n) == net_level(
                s0.board_spec(),
                s0.nets_spec(),
                n as NetId,
                s0.inputs_spec(),
                s0.state_spec(),
            ),
        forall|c: Cell|
            is_led_cell(s0.board_spec(), c) ==> #[trigger] s1.output_high(led_output(s0.board_spec(), s0.nets_spec().count_spec(), c))
                == led_lit(s0.board_spec(), s0.nets_spec(), c, s0.inputs_spec(), s0.state_spec()),
        forall|j: int|
            0 <= j < s0.board_spec().occupied().len() && role(s0.board_spec().occupied()[j].1) == Role::Register
                ==> #[trigger] s1.state_spec()[rank(s0.board_spec().occupied(), j, Role::Register) as int] == register_next(
                s0.board_spec(),
                s0.nets_spec(),
                j,
                s0.inputs_spec(),
                s0.state_spec(),
            ),
{
    s0.lemma_wf();
    let b = s0.board_spec();
    let occ = b.occupied();
    let c0 = s0.circuit_spec();
    let count = s0.nets_spec().count_spec();
    assert forall|n: int| 0 <= n < count implies #[trigger] s1.output_high(n) == net_level(
        b,
        s0.nets_spec(),
        n as NetId,
        s0.inputs_spec(),
        s0.state_spec(),
    ) by {
        assert(c0.output_values(s0.inputs_spec(), s0.state_spec())[n] == net_level(
            b,
            s0.nets_spec(),
            n as NetId,
            s0.inputs_spec(),
            s0.state_spec(),
        ));
    }
    assert forall|c: Cell| is_led_cell(b, c) implies #[trigger] s1.output_high(led_output(b, count, c)) == led_lit(
        b,
        s0.nets_spec(),
        c,
        s0.inputs_spec(),
        s0.state_spec(),
    ) by {
        lemma_position(b, c);
        lemma_occupied_facts(b);
        let j = position(b, c);
        assert(occ[j].1 == b.tile_at(c));
        crate::lower::lemma_rank_mono(occ, Role::Indicator, j, occ.len() as int);
        assert(led_lit(b, s0.nets_spec(), occ[j].0, s0.inputs_spec(), s0.state_spec()) == c0.output_values(
            s0.inputs_spec(),
            s0.state_spec(),
        )[(count + rank(occ, j, Role::Indicator)) as int]);
    }
    assert forall|j: int|
        0 <= j < occ.len() && role(occ[j].1) == Role::Register implies #[trigger] s1.state_spec()[rank(
            occ,
            j,
            Role::Register,
        ) as int] == register_next(b, s0.nets_spec(), j, s0.inputs_spec(), s0.state_spec()) by {
        crate::lower::lemma_rank_mono(occ, Role::Register, j, occ.len() as int);
        assert(register_next(b, s0.nets_spec(), j, s0.inputs_spec(), s0.state_spec()) == c0.next_state(
            s0.inputs_spec(),
            s0.state_spec(),
        )[rank(occ, j, Role::Register) as int]);
    }
}

/// An LED reads lit exactly when its cell renders as energised: the LED's
/// output and the nets beside it come from one settled snapshot, and a
/// cell holding no LED never reads lit.
pub proof fn lemma_led_on_is_cell_on(s: Sim, c: Cell)
    requires
        s.wf(),
    ensures
        (is_led_cell(s.board_spec(), c) && s.output_high(led_output(s.board_spec(), s.nets_spec().count_spec(), c))) == (
        s.board_spec().tile_at(c) == Tile::Led && s.cell_on_spec(c)),
{
    s.lemma_wf();
    let b = s.board_spec();
    let nets = s.nets_spec();
    let count = nets.count_spec();
    let circ = s.circuit_spec();
    if is_led_cell(b, c) {
        let occ = b.occupied();
        lemma_position(b, c);
        lemma_occupied_facts(b);
        let j = position(b, c);
        assert(occ[j].1 == b.tile_at(c));
        crate::lower::lemma_rank_mono(occ, Role::Indicator, j, occ.len() as int);
        let li = led_output(b, count, c);
        assert(0 <= li < s.outputs_spec().len());
        assert(s.display_spec(c) is Some);
        let ns = s.display_spec(c)->0;
        assert(nets.displays(b, c, ns));
        if s.outputs_spec() == lows(circ.output_signals@.len()) {
            assert(!s.output_high(li));
            assert forall|q: int| 0 <= q < ns.len() implies !#[trigger] s.output_high(ns[q] as int) by {
            }
        } else {
            let (ins, st) = choose|inputs: Seq<bool>, state: Seq<bool>|
                s.outputs_spec() == #[trigger] circ.output_values(inputs, state);
            assert(s.outputs_spec() == circ.output_values(ins, st));
            assert(circ.output_values(ins, st)[(count + rank(occ, j, Role::Indicator)) as int] == led_lit(b, nets, occ[j].0, ins, st));
            if s.output_high(li) {
                assert(led_lit(b, nets, c, ins, st));
                let (d, n) = choose|d: Direction, n: NetId|
                    #![trigger nets.neighbour_net_spec(b, c, d), net_level(b, nets, n, ins, st)]
                    nets.neighbour_net_spec(b, c, d) == Some(n) && net_level(b, nets, n, ins, st);
                assert(nets.neighbour_net_spec(b, c, d) == Some(n));
                assert(ns.contains(n));
                let q = choose|q: int| 0 <= q < ns.len() && ns[q] == n;
                crate::net::lemma_neighbour_net_bound(nets, b, c, d);
                assert(circ.output_values(ins, st)[n as int] == net_level(b, nets, n, ins, st));
                assert(s.output_high(ns[q] as int));
            }
            if s.cell_on_spec(c) {
                let q = choose|q: int| 0 <= q < ns.len() && #[trigger] s.output_high(ns[q] as int);
                let n = ns[q];
                assert(ns.contains(n));
                let d = choose|d: Direction| #[trigger] nets.neighbour_net_spec(b, c, d) == Some(n);
                crate::net::lemma_neighbour_net_bound(nets, b, c, d);
                assert(circ.output_values(ins, st)[n as int] == net_level(b, nets, n, ins, st));
                assert(net_level(b, nets, n, ins, st));
                assert(led_lit(b, nets, c, ins, st));
            }
        }
    }
}

/// `k` ticks in a row are one run of `k` ticks: the board, circuit,
/// inputs, switches and cell display stay, the tick count grows by `k`,
/// and the state and outputs are those of the run.
pub proof fn lemma_ticks_are_a_run(sims: Seq<Sim>)
    requires
        sims.len() > 0,
        sims[0].wf(),
        forall|j: int| 0 <= j < sims.len() - 1 ==> #[trigger] ticked(sims[j], sims[j + 1]),
    ensures
        ({
            let s0 = sims[0];
            let sk = sims.last();
            let k = (sims.len() - 1) as nat;
            &&& sk.wf()
            &&& sk.board_spec() == s0.board_spec()
            &&& sk.compiled_spec() == s0.compiled_spec()
            &&& sk.inputs_spec() == s0.inputs_spec()
            &&& forall|c: Cell| #[trigger] sk.switch_spec(c) == s0.switch_spec(c)
            &&& forall|c: Cell| #[trigger] sk.display_spec(c) == s0.display_spec(c)
            &&& sk.ticks_spec() == s0.ticks_spec() + k
            &&& sk.state_spec() == run_state(s0.circuit_spec(), s0.inputs_spec(), s0.state_spec(), k)
            &&& sk.outputs_spec() == run_outputs(s0.circuit_spec(), s0.inputs_spec(), s0.state_spec(), s0.outputs_spec(), k)
        }),
    decreases sims.len(),
{
    if sims.len() > 1 {
        let prev = sims.drop_last();
        assert forall|j: int| 0 <= j < prev.len() - 1 implies #[trigger] ticked(prev[j], prev[j + 1]) by {
            assert(ticked(sims[j], sims[j + 1]));
        }
        lemma_ticks_are_a_run(prev);
        let n = sims.len() - 2;
        assert(ticked(sims[n], sims[n + 1]));
        assert(prev.last() == sims[n]);
        assert forall|c: Cell| #[trigger] sims.last().switch_spec(c) == sims[0].switch_spec(c) by {
            assert(sims[n + 1].switch_spec(c) == sims[n].switch_spec(c));
        }
        assert forall|c: Cell| #[trigger] sims.last().display_spec(c) == sims[0].display_spec(c) by {
            assert(sims[n + 1].display_spec(c) == sims[n].display_spec(c));
        }
    }
}

} // verus!
