//! Dense forward-pass engine.
//!
//! A tick is one linear sweep over a tape's gate region. Gates were
//! sorted by `(level, op)` at compile time, so dispatch happens once per run
//! and the one-byte-per-signal value buffer is walked strictly forward.

use std::sync::Arc;
use vstd::prelude::*;

use crate::circuit::{gate_arity, gate_fn, is_input_inst, is_reg_inst, Circuit, InstData};
use crate::interp::{lemma_run_step, run_state, ticked_outputs, ticked_state};
use crate::tape::{arity, bit, gate_slot_ok, op_gate, runs_cover, Compiled, Op};

verus! {

/// Slots `[from, to)` hold the settled value of their signals.
pub open spec fn settled(t: Compiled, values: Seq<u8>, inputs: Seq<bool>, state: Seq<bool>, from: int, to: int) -> bool {
    forall|s: int|
        from <= s < to ==> #[trigger] values[s] == bit(t.netlist@.value(t.schedule@[s] as int, inputs, state))
}

/// One gate on value-buffer bytes: the same bit operations as on booleans,
/// where a byte is 0 or 1.
fn apply_op(op: Op, a: u8, b: u8, c: u8) -> (r: u8)
    requires
        a <= 1 && b <= 1 && c <= 1,
    ensures
        r == bit(gate_fn(op_gate(op), a == 1, b == 1, c == 1)),
{
    match op {
        Op::And => {
            assert(a <= 1 && b <= 1 ==> (a & b) == if a == 1 && b == 1 { 1u8 } else { 0u8 }) by (bit_vector);
            a & b
        },
        Op::Or => {
            assert(a <= 1 && b <= 1 ==> (a | b) == if a == 1 || b == 1 { 1u8 } else { 0u8 }) by (bit_vector);
            a | b
        },
        Op::Xor => {
            assert(a <= 1 && b <= 1 ==> (a ^ b) == if a != b { 1u8 } else { 0u8 }) by (bit_vector);
            a ^ b
        },
        Op::Nand => {
            assert(a <= 1 && b <= 1 ==> ((a & b) ^ 1) == if a == 1 && b == 1 { 0u8 } else { 1u8 }) by (bit_vector);
            (a & b) ^ 1
        },
        Op::Nor => {
            assert(a <= 1 && b <= 1 ==> ((a | b) ^ 1) == if a == 1 || b == 1 { 0u8 } else { 1u8 }) by (bit_vector);
            (a | b) ^ 1
        },
        Op::Xnor => {
            assert(a <= 1 && b <= 1 ==> (a ^ b ^ 1) == if a == b { 1u8 } else { 0u8 }) by (bit_vector);
            a ^ b ^ 1
        },
        Op::Not => {
            assert(a <= 1 ==> (a ^ 1) == if a == 1 { 0u8 } else { 1u8 }) by (bit_vector);
            a ^ 1
        },
        Op::Buf => a,
        Op::Mux => {
            assert(a <= 1 && b <= 1 && c <= 1 ==> ((a & b) | ((a ^ 1) & c)) == if a == 1 { b } else { c }) by (bit_vector);
            (a & b) | ((a ^ 1) & c)
        },
    }
}

/// A gate slot `s` computes its signal's value from settled operands.
proof fn lemma_gate_slot(t: Compiled, values: Seq<u8>, inputs: Seq<bool>, state: Seq<bool>, s: int, va: u8, vb: u8, vc: u8)
    requires
        t.wf(),
        t.gate_start <= s < t.ops@.len(),
        values.len() == t.ops@.len(),
        settled(t, values, inputs, state, 0, s),
        va == values[t.a@[s] as int],
        gate_arity(op_gate(t.ops@[s])) > 1 ==> vb == values[t.b@[s] as int],
        gate_arity(op_gate(t.ops@[s])) <= 1 ==> vb == 0,
        gate_arity(op_gate(t.ops@[s])) > 2 ==> vc == values[t.c@[s] as int],
        gate_arity(op_gate(t.ops@[s])) <= 2 ==> vc == 0,
    ensures
        bit(gate_fn(op_gate(t.ops@[s]), va == 1, vb == 1, vc == 1)) == bit(t.netlist@.value(t.schedule@[s] as int, inputs, state)),
{
    assert(gate_slot_ok(&t, s));
    let insts = t.netlist@.insts_seq();
    let x = t.schedule@[s] as int;
    assert(crate::circuit::inst_wf(insts[x], x, t.netlist@.input_count as nat, t.netlist@.regs_seq().len()));
    if let InstData::Gate { op, inputs: ins } = insts[x].data {
        assert(t.a@[s] < s);
        assert(values[t.a@[s] as int] == bit(t.netlist@.value(ins@[0].0 as int, inputs, state)));
        if ins@.len() > 1 {
            assert(values[t.b@[s] as int] == bit(t.netlist@.value(ins@[1].0 as int, inputs, state)));
        }
        if ins@.len() > 2 {
            assert(values[t.c@[s] as int] == bit(t.netlist@.value(ins@[2].0 as int, inputs, state)));
        }
    }
}

/// Evaluate the gates in slots `[start, end)`, all of opcode `op`.
fn eval_run(
    tape: &Compiled,
    values: &mut Vec<u8>,
    start: usize,
    end: usize,
    op: Op,
    Ghost(inputs): Ghost<Seq<bool>>,
    Ghost(state): Ghost<Seq<bool>>,
)
    requires
        tape.wf(),
        tape.gate_start <= start <= end <= tape.ops@.len(),
        forall|s: int| start <= s < end ==> #[trigger] tape.ops@[s] == op,
        old(values)@.len() == tape.ops@.len(),
        forall|s: int| 0 <= s < old(values)@.len() ==> #[trigger] old(values)@[s] <= 1,
        settled(*tape, old(values)@, inputs, state, 0, start as int),
    ensures
        final(values)@.len() == old(values)@.len(),
        forall|s: int| 0 <= s < final(values)@.len() ==> #[trigger] final(values)@[s] <= 1,
        settled(*tape, final(values)@, inputs, state, 0, end as int),
        forall|s: int| end <= s < final(values)@.len() ==> #[trigger] final(values)@[s] == old(values)@[s],
        forall|s: int| 0 <= s < start ==> #[trigger] final(values)@[s] == old(values)@[s],
{
    let ar = arity(op);
    let mut i: usize = start;
    while i < end
        invariant
            tape.wf(),
            tape.gate_start <= start <= i <= end <= tape.ops@.len(),
            forall|s: int| start <= s < end ==> #[trigger] tape.ops@[s] == op,
            ar == gate_arity(op_gate(op)),
            values@.len() == tape.ops@.len(),
            forall|s: int| 0 <= s < values@.len() ==> #[trigger] values@[s] <= 1,
            settled(*tape, values@, inputs, state, 0, i as int),
            forall|s: int| end <= s < values@.len() ==> #[trigger] values@[s] == old(values)@[s],
            forall|s: int| 0 <= s < start ==> #[trigger] values@[s] == old(values)@[s],
            old(values)@.len() == values@.len(),
        decreases end - i,
    {
        proof {
            assert(gate_slot_ok(tape, i as int));
        }
        let av = values[tape.a[i] as usize];
        let bv = if ar > 1 {
            values[tape.b[i] as usize]
        } else {
            0
        };
        let cv = if ar > 2 {
            values[tape.c[i] as usize]
        } else {
            0
        };
        let r = apply_op(op, av, bv, cv);
        proof {
            lemma_gate_slot(*tape, values@, inputs, state, i as int, av, bv, cv);
        }
        values.set(i, r);
        i += 1;
    }
}

/// Evaluate every run in order, from settled sources to a settled buffer.
fn eval_runs(tape: &Compiled, values: &mut Vec<u8>, Ghost(inputs): Ghost<Seq<bool>>, Ghost(state): Ghost<Seq<bool>>)
    requires
        tape.wf(),
        old(values)@.len() == tape.ops@.len(),
        forall|s: int| 0 <= s < old(values)@.len() ==> #[trigger] old(values)@[s] <= 1,
        settled(*tape, old(values)@, inputs, state, 0, tape.gate_start as int),
    ensures
        final(values)@.len() == old(values)@.len(),
        forall|s: int| 0 <= s < final(values)@.len() ==> #[trigger] final(values)@[s] <= 1,
        settled(*tape, final(values)@, inputs, state, 0, tape.ops@.len() as int),
        forall|s: int| 0 <= s < tape.gate_start ==> #[trigger] final(values)@[s] == old(values)@[s],
{
    let ghost n = tape.ops@.len() as int;
    let ghost g = tape.gate_start as int;
    proof {
        reveal(runs_cover);
    }
    let mut k: usize = 0;
    while k < tape.runs.len()
        invariant
            tape.wf(),
            n == tape.ops@.len(),
            g == tape.gate_start,
            runs_cover(tape.runs@, tape.ops@, tape.slot_level@, g, n),
            k <= tape.runs@.len(),
            values@.len() == n,
            forall|s: int| 0 <= s < values@.len() ==> #[trigger] values@[s] <= 1,
            settled(*tape, values@, inputs, state, 0, if k == 0 { g } else { tape.runs@[k - 1].end as int }),
            forall|s: int| 0 <= s < g ==> #[trigger] values@[s] == old(values)@[s],
            old(values)@.len() == n,
        decreases tape.runs@.len() - k,
    {
        let run = tape.runs[k];
        proof {
            reveal(runs_cover);
            if k > 0 {
                assert(tape.runs@[k - 1].end == tape.runs@[k as int].start);
            }
            assert(tape.runs@[k as int].start < tape.runs@[k as int].end);
            assert(tape.runs@.last().end == n);
            if k + 1 < tape.runs@.len() {
                assert(tape.runs@[k as int].end == tape.runs@[k + 1].start);
            }
            assert forall|s: int| run.start <= s < run.end implies #[trigger] tape.ops@[s] == run.op by {
                assert(tape.runs@[k as int].start <= s < tape.runs@[k as int].end);
            }
        }
        eval_run(tape, values, run.start as usize, run.end as usize, run.op, Ghost(inputs), Ghost(state));
        k += 1;
    }
    proof {
        reveal(runs_cover);
    }
}

/// Apply the clock edge captured at the end of the previous tick: every
/// register-output slot takes its register's latched value.
fn apply_edge(tape: &Compiled, values: &mut Vec<u8>, scratch: &Vec<u8>)
    requires
        tape.wf(),
        old(values)@.len() == tape.ops@.len(),
        scratch@.len() == tape.netlist@.regs_seq().len(),
    ensures
        final(values)@.len() == old(values)@.len(),
        forall|s: int|
            0 <= s < final(values)@.len() ==> #[trigger] final(values)@[s] == match tape.netlist@.insts_seq()[tape.schedule@[s] as int].data {
                InstData::RegisterOutput { reg } => scratch@[reg.0 as int],
                _ => old(values)@[s],
            },
{
    let ghost insts = tape.netlist@.insts_seq();
    let ghost sched = tape.schedule@;
    let ghost n = tape.ops@.len() as int;
    let nregs = tape.reg_out_slots.len();
    let mut r: usize = 0;
    while r < nregs
        invariant
            tape.wf(),
            insts == tape.netlist@.insts_seq(),
            sched == tape.schedule@,
            n == tape.ops@.len(),
            nregs == tape.reg_out_slots@.len(),
            scratch@.len() == nregs,
            r <= nregs,
            values@.len() == n,
            old(values)@.len() == n,
            forall|s: int|
                0 <= s < n ==> #[trigger] values@[s] == match insts[sched[s] as int].data {
                    InstData::RegisterOutput { reg } => if reg.0 < r {
                        scratch@[reg.0 as int]
                    } else {
                        old(values)@[s]
                    },
                    _ => old(values)@[s],
                },
        decreases nregs - r,
    {
        let slot = tape.reg_out_slots[r];
        if slot != u32::MAX {
            values.set(slot as usize, scratch[r]);
        }
        proof {
            assert forall|s: int| 0 <= s < n implies #[trigger] values@[s] == match insts[sched[s] as int].data {
                InstData::RegisterOutput { reg } => if reg.0 < r + 1 {
                    scratch@[reg.0 as int]
                } else {
                    old(values)@[s]
                },
                _ => old(values)@[s],
            } by {
                if is_reg_inst(insts[sched[s] as int], r as int) {
                    assert(tape.reg_out_slots@[r as int] == s);
                } else if slot != u32::MAX && s == slot {
                    assert(is_reg_inst(insts[sched[slot as int] as int], r as int));
                }
            }
        }
        r += 1;
    }
}

/// Capture every register's next state from the settled values.
fn capture_next(tape: &Compiled, values: &Vec<u8>, scratch: &mut Vec<u8>)
    requires
        tape.wf(),
        values@.len() == tape.ops@.len(),
        old(scratch)@.len() == tape.netlist@.regs_seq().len(),
    ensures
        final(scratch)@.len() == old(scratch)@.len(),
        forall|r: int| 0 <= r < final(scratch)@.len() ==> #[trigger] final(scratch)@[r] == values@[tape.reg_in_slots@[r] as int],
{
    let nregs = tape.reg_in_slots.len();
    let mut r: usize = 0;
    while r < nregs
        invariant
            tape.wf(),
            values@.len() == tape.ops@.len(),
            nregs == tape.reg_in_slots@.len(),
            scratch@.len() == nregs,
            r <= nregs,
            forall|q: int| 0 <= q < r ==> #[trigger] scratch@[q] == values@[tape.reg_in_slots@[q] as int],
        decreases nregs - r,
    {
        let v = values[tape.reg_in_slots[r] as usize];
        scratch.set(r, v);
        r += 1;
    }
}

/// Single-instance engine: one byte per signal, one forward sweep per tick.
pub struct ScalarEngine {
    tape: Arc<Compiled>,
    values: Vec<u8>,
    reg_scratch: Vec<u8>,
}

impl ScalarEngine {
    /// The tape this engine runs.
    pub closed spec fn tape_spec(&self) -> Compiled {
        *self.tape
    }

    /// The current external inputs.
    pub closed spec fn inputs_spec(&self) -> Seq<bool> {
        Seq::new(self.tape.input_slots@.len(), |k: int| self.values@[self.tape.input_slots@[k] as int] != 0)
    }

    /// The register state the next tick runs on.
    pub closed spec fn state_spec(&self) -> Seq<bool> {
        Seq::new(self.reg_scratch@.len(), |r: int| self.reg_scratch@[r] != 0)
    }

    /// What the declared outputs read now.
    pub closed spec fn outputs_spec(&self) -> Seq<bool> {
        Seq::new(self.tape.output_slots@.len(), |k: int| self.values@[self.tape.output_slots@[k] as int] != 0)
    }

    /// The value buffer matches the tape: one bit per slot and per
    /// register, constants in place.
    pub closed spec fn wf(&self) -> bool {
        let t = *self.tape;
        let insts = t.netlist@.insts_seq();
        &&& t.wf()
        &&& self.values@.len() == t.ops@.len()
        &&& self.reg_scratch@.len() == t.netlist@.regs_seq().len()
        &&& forall|s: int| 0 <= s < self.values@.len() ==> #[trigger] self.values@[s] <= 1
        &&& forall|r: int| 0 <= r < self.reg_scratch@.len() ==> #[trigger] self.reg_scratch@[r] <= 1
        &&& forall|s: int|
            0 <= s < t.ops@.len() ==> ((#[trigger] insts[t.schedule@[s] as int]).data matches InstData::Const { value }
                ==> self.values@[s] == bit(value))
    }

    /// The sizes the engine reports follow its tape's netlist.
    pub proof fn lemma_wf(&self)
        requires
            self.wf(),
        ensures
            self.tape_spec().wf(),
            self.inputs_spec().len() == self.tape_spec().netlist@.input_count,
            self.state_spec().len() == self.tape_spec().netlist@.regs_seq().len(),
            self.outputs_spec().len() == self.tape_spec().netlist@.output_signals@.len(),
    {
    }

    /// Compile `circuit` and run it.
    pub fn new(circuit: &Circuit) -> (e: ScalarEngine)
        requires
            circuit.wf(),
            6 * circuit.insts_seq().len() <= u32::MAX,
        ensures
            e.wf(),
            e.tape_spec().compiles(*circuit),
            e.inputs_spec() == Seq::new(circuit.input_count as nat, |k: int| false),
            e.state_spec() == circuit.initial_state_spec(),
            e.outputs_spec() == e.tape_spec().power_on_outputs(),
    {
        Self::with_tape(Arc::new(Compiled::new(circuit)))
    }

    /// Run an already compiled tape from its power-on state, inputs low.
    pub fn with_tape(tape: Arc<Compiled>) -> (e: ScalarEngine)
        requires
            tape.wf(),
        ensures
            e.wf(),
            e.tape_spec() == *tape,
            e.inputs_spec() == Seq::new(tape.netlist@.input_count as nat, |k: int| false),
            e.state_spec() == tape.netlist@.initial_state_spec(),
            e.outputs_spec() == tape.power_on_outputs(),
    {
        let values = tape.initial_values();
        let reg_scratch = tape.reg_initial.clone();
        let e = ScalarEngine { tape, values, reg_scratch };
        proof {
            let t = *e.tape;
            let insts = t.netlist@.insts_seq();
            assert(e.reg_scratch@ =~= t.reg_initial@);
            assert forall|s: int| 0 <= s < e.values@.len() implies #[trigger] e.values@[s] <= 1 by {
                assert(e.values@[s] == t.initial_value(s));
            }
            assert(e.inputs_spec() =~= Seq::new(t.netlist@.input_count as nat, |k: int| false)) by {
                assert forall|k: int| 0 <= k < t.netlist@.input_count implies #[trigger] e.values@[t.input_slots@[k] as int] == 0 by {
                    assert(is_input_inst(insts[t.schedule@[t.input_slots@[k] as int] as int], k));
                }
            }
            assert(e.state_spec() =~= t.netlist@.initial_state_spec());
            assert(e.outputs_spec() =~= t.power_on_outputs());
        }
        e
    }

    /// The tape this engine runs.
    pub fn tape(&self) -> (t: &Arc<Compiled>)
        ensures
            **t == self.tape_spec(),
    {
        &self.tape
    }

    /// Number of external inputs.
    pub fn input_count(&self) -> (n: usize)
        requires
            self.wf(),
        ensures
            n == self.inputs_spec().len(),
    {
        self.tape.input_count()
    }

    /// Number of declared outputs.
    pub fn output_count(&self) -> (n: usize)
        requires
            self.wf(),
        ensures
            n == self.outputs_spec().len(),
    {
        self.tape.output_count()
    }

    /// Set external input `index`; an output wired straight to that input
    /// reads the new value at once.
    pub fn set_input(&mut self, index: usize, value: bool)
        requires
            old(self).wf(),
            index < old(self).inputs_spec().len(),
        ensures
            final(self).wf(),
            final(self).tape_spec() == old(self).tape_spec(),
            final(self).inputs_spec() == old(self).inputs_spec().update(index as int, value),
            final(self).state_spec() == old(self).state_spec(),
            final(self).outputs_spec() == Seq::new(
                old(self).outputs_spec().len(),
                |k: int|
                    if old(self).tape_spec().output_slots@[k] == old(self).tape_spec().input_slots@[index as int] {
                        value
                    } else {
                        old(self).outputs_spec()[k]
                    },
            ),
    {
        let ghost t = self.tape_spec();
        let ghost insts = t.netlist@.insts_seq();
        let slot = self.tape.input_slots[index];
        let v: u8 = if value {
            1
        } else {
            0
        };
        self.values.set(slot as usize, v);
        proof {
            assert(is_input_inst(insts[t.schedule@[slot as int] as int], index as int));
            assert forall|k: int| 0 <= k < t.input_slots@.len() && k != index implies #[trigger] t.input_slots@[k] != slot by {
                assert(is_input_inst(insts[t.schedule@[t.input_slots@[k] as int] as int], k));
            }
            assert(self.inputs_spec() =~= old(self).inputs_spec().update(index as int, value));
            assert(self.state_spec() =~= old(self).state_spec());
            assert(self.outputs_spec() =~= Seq::new(
                old(self).outputs_spec().len(),
                |k: int|
                    if t.output_slots@[k] == t.input_slots@[index as int] {
                        value
                    } else {
                        old(self).outputs_spec()[k]
                    },
            ));
        }
    }

    /// Read declared output `index`.
    pub fn output(&self, index: usize) -> (b: bool)
        requires
            self.wf(),
            index < self.outputs_spec().len(),
        ensures
            b == self.outputs_spec()[index as int],
    {
        self.values[self.tape.output_slots[index] as usize] != 0
    }

    /// `after` is `before` one clock cycle later: same tape and inputs, the
    /// netlist's next state, and its outputs on the cycle's inputs and state.
    pub open spec fn ticked(before: ScalarEngine, after: ScalarEngine) -> bool {
        let net = before.tape_spec().netlist@;
        &&& after.wf()
        &&& after.tape_spec() == before.tape_spec()
        &&& after.inputs_spec() == before.inputs_spec()
        &&& after.state_spec() == net.next_state(before.inputs_spec(), before.state_spec())
        &&& after.outputs_spec() == net.output_values(before.inputs_spec(), before.state_spec())
    }

    /// One clock cycle: latch the previous cycle's next state, settle every
    /// gate, and capture the next state. Afterwards the outputs read this
    /// cycle's settled values.
    pub fn tick(&mut self)
        requires
            old(self).wf(),
        ensures
            Self::ticked(*old(self), *final(self)),
    {
        let ghost t = self.tape_spec();
        let ghost net = t.netlist@;
        let ghost insts = net.insts_seq();
        let ghost sched = t.schedule@;
        let ghost inputs = self.inputs_spec();
        let ghost state = self.state_spec();
        let ghost v0 = self.values@;
        apply_edge(&self.tape, &mut self.values, &self.reg_scratch);
        proof {
            assert forall|s: int| 0 <= s < t.gate_start implies #[trigger] self.values@[s] == bit(net.value(sched[s] as int, inputs, state)) by {
                let x = sched[s] as int;
                assert(crate::circuit::inst_wf(insts[x], x, net.input_count as nat, net.regs_seq().len()));
                match insts[x].data {
                    InstData::Input { index } => {
                        let k = index as int;
                        let s2 = t.input_slots@[k] as int;
                        assert(is_input_inst(insts[sched[s2] as int], k));
                        assert(is_input_inst(insts[x], k));
                        assert(sched[s2] == sched[s]);
                        assert(s2 == s);
                        assert(v0[s] <= 1);
                    },
                    InstData::RegisterOutput { reg } => {
                        assert(self.reg_scratch@[reg.0 as int] <= 1);
                    },
                    _ => {},
                }
            }
            assert forall|s: int| 0 <= s < self.values@.len() implies #[trigger] self.values@[s] <= 1 by {
                let x = sched[s] as int;
                assert(v0[s] <= 1);
                if let InstData::RegisterOutput { reg } = insts[x].data {
                    assert(crate::circuit::inst_wf(insts[x], x, net.input_count as nat, net.regs_seq().len()));
                    assert(self.reg_scratch@[reg.0 as int] <= 1);
                }
            }
        }
        let ghost v1 = self.values@;
        eval_runs(&self.tape, &mut self.values, Ghost(inputs), Ghost(state));
        capture_next(&self.tape, &self.values, &mut self.reg_scratch);
        proof {
            let v2 = self.values@;
            assert forall|s: int| 0 <= s < t.ops@.len() implies ((#[trigger] insts[t.schedule@[s] as int]).data matches InstData::Const { value }
                ==> v2[s] == bit(value)) by {
                if insts[sched[s] as int].data is Const {
                    assert(s < t.gate_start);
                    assert(v2[s] == v1[s]);
                }
            }
            assert forall|r: int| 0 <= r < self.reg_scratch@.len() implies #[trigger] self.reg_scratch@[r] <= 1 by {
                assert(v2[t.reg_in_slots@[r] as int] <= 1);
            }
            assert forall|k: int| 0 <= k < t.input_slots@.len() implies #[trigger] v2[t.input_slots@[k] as int] == v0[t.input_slots@[k] as int] by {
                let s = t.input_slots@[k] as int;
                assert(is_input_inst(insts[sched[s] as int], k));
                assert(s < t.gate_start);
            }
            assert(self.inputs_spec() =~= inputs);
            assert forall|r: int| 0 <= r < net.regs_seq().len() implies #[trigger] self.state_spec()[r] == net.next_state(inputs, state)[r] by {
                let s = t.reg_in_slots@[r] as int;
                assert(v2[s] == bit(net.value(sched[s] as int, inputs, state)));
            }
            assert(self.state_spec() =~= net.next_state(inputs, state));
            assert forall|k: int| 0 <= k < net.output_signals@.len() implies #[trigger] self.outputs_spec()[k] == net.output_values(inputs, state)[k] by {
                let s = t.output_slots@[k] as int;
                assert(v2[s] == bit(net.value(sched[s] as int, inputs, state)));
            }
            assert(self.outputs_spec() =~= net.output_values(inputs, state));
        }
    }
}

/// A tick of a scalar engine running a compiled circuit agrees with the
/// reference interpreter on that circuit: the same next state and the same
/// outputs, from the same inputs and state, whatever the interpreter's
/// output buffer held before.
pub proof fn lemma_scalar_matches_interpreter(before: ScalarEngine, after: ScalarEngine, c: Circuit, outputs: Seq<bool>)
    requires
        before.wf(),
        c.wf(),
        before.tape_spec().compiles(c),
        ScalarEngine::ticked(before, after),
        outputs.len() == c.output_signals@.len(),
    ensures
        after.state_spec() == ticked_state(&c, before.inputs_spec(), before.state_spec()),
        after.outputs_spec() == ticked_outputs(&c, before.inputs_spec(), before.state_spec(), outputs),
{
    before.lemma_wf();
    let net = before.tape_spec().netlist@;
    let (i, st) = (before.inputs_spec(), before.state_spec());
    assert(net.next_state(i, st) == c.next_state(i, st));
    assert(net.output_values(i, st) == c.output_values(i, st));
    assert(after.state_spec() =~= ticked_state(&c, i, st));
    assert(after.outputs_spec() =~= ticked_outputs(&c, i, st, outputs));
}

/// Over any run of ticks, a scalar engine running a compiled circuit
/// passes through the register states of the reference interpreter on that
/// circuit and reads the interpreter's outputs at every tick: tick `j` reads
/// inputs `ins[j]`, and between ticks only the inputs change.
pub proof fn lemma_scalar_run_matches_interpreter(
    c: Circuit,
    befores: Seq<ScalarEngine>,
    afters: Seq<ScalarEngine>,
    ins: Seq<Seq<bool>>,
)
    requires
        c.wf(),
        befores.len() == ins.len(),
        afters.len() == ins.len(),
        forall|j: int|
            0 <= j < ins.len() ==> (#[trigger] befores[j]).wf() && befores[j].tape_spec().compiles(c)
                && ScalarEngine::ticked(befores[j], afters[j]) && befores[j].inputs_spec() == ins[j],
        forall|j: int| 0 <= j < ins.len() - 1 ==> #[trigger] befores[j + 1].state_spec() == afters[j].state_spec(),
    ensures
        forall|j: int|
            0 <= j < ins.len() ==> (#[trigger] afters[j]).state_spec() == run_state(&c, befores[0].state_spec(), ins.take(j + 1))
                && afters[j].outputs_spec() == c.output_values(ins[j], run_state(&c, befores[0].state_spec(), ins.take(j))),
    decreases ins.len(),
{
    if ins.len() > 0 {
        let n = ins.len() - 1;
        lemma_scalar_run_matches_interpreter(c, befores.drop_last(), afters.drop_last(), ins.drop_last());
        let s0 = befores[0].state_spec();
        assert forall|j: int| 0 <= j < ins.len() implies (#[trigger] afters[j]).state_spec() == run_state(&c, s0, ins.take(j + 1))
            && afters[j].outputs_spec() == c.output_values(ins[j], run_state(&c, s0, ins.take(j))) by {
            if j < n {
                assert(befores.drop_last()[j] == befores[j]);
                assert(afters.drop_last()[j] == afters[j]);
                assert(ins.drop_last()[j] == ins[j]);
                assert(ins.drop_last().take(j + 1) =~= ins.take(j + 1));
                assert(ins.drop_last().take(j) =~= ins.take(j));
                if n > 0 {
                    assert(befores.drop_last()[0] == befores[0]);
                }
            } else {
                assert(befores[j].wf());
                lemma_scalar_matches_interpreter(befores[j], afters[j], c, afters[j].outputs_spec());
                lemma_run_step(&c, s0, ins, j);
                if j == 0 {
                    assert(ins.take(0) =~= Seq::<Seq<bool>>::empty());
                } else {
                    assert(befores.drop_last()[0] == befores[0]);
                    assert(afters.drop_last()[j - 1] == afters[j - 1]);
                    assert(ins.drop_last().take(j) =~= ins.take(j));
                    assert(befores[j].state_spec() == afters[j - 1].state_spec());
                }
                let st = befores[j].state_spec();
                assert(afters[j].outputs_spec() =~= c.output_values(ins[j], st));
            }
        }
    }
}

} // verus!
