//! Bit-parallel engine: 64 independent circuit instances per word.
//!
//! Each signal is one `u64`; bit `k` belongs to instance `k`. Every gate
//! evaluates all 64 instances with one word operation, so the instances
//! never interact: exhaustive truth-table checks, test-vector sweeps, or
//! many independent worlds at once.

use std::sync::Arc;
use vstd::prelude::*;

use crate::circuit::{gate_arity, gate_fn, is_input_inst, is_reg_inst, Circuit, InstData};
use crate::interp::{lemma_run_step, run_state, ticked_outputs, ticked_state};
use crate::scalar::ScalarEngine;
use crate::tape::{arity, gate_slot_ok, op_gate, runs_cover, Compiled, Op};

verus! {

/// Number of instances a batch engine runs at once.
pub const LANES: usize = 64;

/// Bit `k` of a word: the value instance `k` sees.
pub open spec fn lane(x: u64, k: u64) -> bool {
    (x >> k) & 1u64 == 1u64
}

/// A word with every lane set to `b`.
pub open spec fn broadcast(b: bool) -> u64 {
    if b {
        u64::MAX
    } else {
        0
    }
}

proof fn lemma_lanes_and()
    by (bit_vector)
    ensures
        forall|a: u64, b: u64, k: u64| k < 64 ==> (#[trigger] lane(a & b, k)) == (lane(a, k) && lane(b, k)),
{
}

proof fn lemma_lanes_or()
    by (bit_vector)
    ensures
        forall|a: u64, b: u64, k: u64| k < 64 ==> (#[trigger] lane(a | b, k)) == (lane(a, k) || lane(b, k)),
{
}

proof fn lemma_lanes_xor()
    by (bit_vector)
    ensures
        forall|a: u64, b: u64, k: u64| k < 64 ==> (#[trigger] lane(a ^ b, k)) == (lane(a, k) != lane(b, k)),
{
}

proof fn lemma_lanes_not()
    by (bit_vector)
    ensures
        forall|a: u64, k: u64| k < 64 ==> (#[trigger] lane(!a, k)) == !lane(a, k),
{
}

proof fn lemma_low_step(x: u64, n: u64, b: u64)
    by (bit_vector)
    requires
        n < 63,
        b == 0 || b == 1,
        (x >> n) & 1u64 == b,
        x & (((1u64 << n) - 1u64) as u64) == if b == 1 {
            ((1u64 << n) - 1u64) as u64
        } else {
            0u64
        },
    ensures
        x & (((1u64 << (n + 1) as u64) - 1u64) as u64) == if b == 1 {
            ((1u64 << (n + 1) as u64) - 1u64) as u64
        } else {
            0u64
        },
{
}

proof fn lemma_top_step(x: u64, b: u64)
    by (bit_vector)
    requires
        b == 0 || b == 1,
        (x >> 63u64) & 1u64 == b,
        x & 0x7fff_ffff_ffff_ffffu64 == if b == 1 {
            0x7fff_ffff_ffff_ffffu64
        } else {
            0u64
        },
    ensures
        x == if b == 1 {
            u64::MAX
        } else {
            0u64
        },
{
}

proof fn lemma_low_lanes(x: u64, b: u64, n: u64)
    requires
        b == 0 || b == 1,
        n <= 63,
        forall|k: u64| k < 64 ==> #[trigger] lane(x, k) == (b == 1),
    ensures
        x & (((1u64 << n) - 1u64) as u64) == if b == 1 {
            ((1u64 << n) - 1u64) as u64
        } else {
            0u64
        },
    decreases n,
{
    if n == 0 {
        assert(x & (((1u64 << 0u64) - 1u64) as u64) == 0u64) by (bit_vector);
        assert((((1u64 << 0u64) - 1u64) as u64) == 0u64) by (bit_vector);
    } else {
        let m = (n - 1) as u64;
        lemma_low_lanes(x, b, m);
        assert(lane(x, m) == (b == 1));
        assert(((x >> m) & 1u64 == 1u64) == (b == 1));
        assert((x >> m) & 1u64 == 0u64 || (x >> m) & 1u64 == 1u64) by (bit_vector);
        lemma_low_step(x, m, b);
    }
}

/// A word whose every lane holds the same value is that value broadcast.
proof fn lemma_word_of_lanes(x: u64, v: bool)
    requires
        forall|k: u64| k < 64 ==> #[trigger] lane(x, k) == v,
    ensures
        x == broadcast(v),
{
    let b: u64 = if v {
        1
    } else {
        0
    };
    lemma_low_lanes(x, b, 63);
    assert(lane(x, 63u64) == v);
    assert((x >> 63u64) & 1u64 == 0u64 || (x >> 63u64) & 1u64 == 1u64) by (bit_vector);
    assert((((1u64 << 63u64) - 1u64) as u64) == 0x7fff_ffff_ffff_ffffu64) by (bit_vector);
    lemma_top_step(x, b);
}

proof fn lemma_lanes_const()
    by (bit_vector)
    ensures
        forall|k: u64| k < 64 ==> #[trigger] lane(u64::MAX, k),
        forall|k: u64| k < 64 ==> !#[trigger] lane(0u64, k),
{
}

/// One gate on words: lane `k` of the result is that gate applied to lane `k` of
/// the operands.
fn apply_op(op: Op, a: u64, b: u64, c: u64) -> (r: u64)
    ensures
        forall|k: u64| k < 64 ==> #[trigger] lane(r, k) == gate_fn(op_gate(op), lane(a, k), lane(b, k), lane(c, k)),
{
    proof {
        lemma_lanes_and();
        lemma_lanes_or();
        lemma_lanes_xor();
        lemma_lanes_not();
    }
    match op {
        Op::And => a & b,
        Op::Or => a | b,
        Op::Xor => a ^ b,
        Op::Nand => !(a & b),
        Op::Nor => !(a | b),
        Op::Xnor => !(a ^ b),
        Op::Not => !a,
        Op::Buf => a,
        Op::Mux => {
            let r = (a & b) | (!a & c);
            proof {
                assert forall|k: u64| k < 64 implies #[trigger] lane(r, k) == gate_fn(op_gate(op), lane(a, k), lane(b, k), lane(c, k)) by {
                    assert(lane(a & b, k) == (lane(a, k) && lane(b, k)));
                    assert(lane(!a, k) == !lane(a, k));
                    assert(lane(!a & c, k) == (lane(!a, k) && lane(c, k)));
                    assert(lane((a & b) | (!a & c), k) == (lane(a & b, k) || lane(!a & c, k)));
                }
            }
            r
        },
    }
}

/// Slots `[from, to)` hold, in every lane `k`, the settled value of their
/// signal on lane `k`'s inputs `ins[k]` and state `sts[k]`.
pub open spec fn settled_lanes(
    t: Compiled,
    values: Seq<u64>,
    ins: Seq<Seq<bool>>,
    sts: Seq<Seq<bool>>,
    from: int,
    to: int,
) -> bool {
    forall|s: int, k: u64|
        from <= s < to && k < 64 ==> #[trigger] lane(values[s], k) == t.netlist@.value(
            t.schedule@[s] as int,
            ins[k as int],
            sts[k as int],
        )
}

/// A gate slot `s` computes its signal's value in every lane.
proof fn lemma_gate_slot_lanes(
    t: Compiled,
    values: Seq<u64>,
    ins: Seq<Seq<bool>>,
    sts: Seq<Seq<bool>>,
    s: int,
    va: u64,
    vb: u64,
    vc: u64,
    k: u64,
)
    requires
        t.wf(),
        t.gate_start <= s < t.ops@.len(),
        values.len() == t.ops@.len(),
        settled_lanes(t, values, ins, sts, 0, s),
        k < 64,
        va == values[t.a@[s] as int],
        gate_arity(op_gate(t.ops@[s])) > 1 ==> vb == values[t.b@[s] as int],
        gate_arity(op_gate(t.ops@[s])) <= 1 ==> vb == 0,
        gate_arity(op_gate(t.ops@[s])) > 2 ==> vc == values[t.c@[s] as int],
        gate_arity(op_gate(t.ops@[s])) <= 2 ==> vc == 0,
    ensures
        gate_fn(op_gate(t.ops@[s]), lane(va, k), lane(vb, k), lane(vc, k)) == t.netlist@.value(
            t.schedule@[s] as int,
            ins[k as int],
            sts[k as int],
        ),
{
    lemma_lanes_const();
    assert(gate_slot_ok(&t, s));
    let insts = t.netlist@.insts_seq();
    let x = t.schedule@[s] as int;
    assert(crate::circuit::inst_wf(insts[x], x, t.netlist@.input_count as nat, t.netlist@.regs_seq().len()));
    if let InstData::Gate { op, inputs: ops } = insts[x].data {
        assert(lane(values[t.a@[s] as int], k) == t.netlist@.value(ops@[0].0 as int, ins[k as int], sts[k as int]));
        if ops@.len() > 1 {
            assert(lane(values[t.b@[s] as int], k) == t.netlist@.value(ops@[1].0 as int, ins[k as int], sts[k as int]));
        } else {
            assert(!lane(0u64, k));
        }
        if ops@.len() > 2 {
            assert(lane(values[t.c@[s] as int], k) == t.netlist@.value(ops@[2].0 as int, ins[k as int], sts[k as int]));
        } else {
            assert(!lane(0u64, k));
        }
    }
}

/// Evaluate the gates in slots `[start, end)`, all of opcode `op`.
fn eval_run(
    tape: &Compiled,
    values: &mut Vec<u64>,
    start: usize,
    end: usize,
    op: Op,
    Ghost(ins): Ghost<Seq<Seq<bool>>>,
    Ghost(sts): Ghost<Seq<Seq<bool>>>,
)
    requires
        tape.wf(),
        tape.gate_start <= start <= end <= tape.ops@.len(),
        forall|s: int| start <= s < end ==> #[trigger] tape.ops@[s] == op,
        old(values)@.len() == tape.ops@.len(),
        settled_lanes(*tape, old(values)@, ins, sts, 0, start as int),
    ensures
        final(values)@.len() == old(values)@.len(),
        settled_lanes(*tape, final(values)@, ins, sts, 0, end as int),
        forall|s: int| end <= s < final(values)@.len() ==> #[trigger] final(values)@[s] == old(values)@[s],
        forall|s: int| 0 <= s < start ==> #[trigger] final(values)@[s] == old(values)@[s],
{
    let ar = arity(op);
    let mut i: usize = start;
    while i < end
        invariant
            tape.wf(),
            tape.gate_start <= start <= i <= end <= tape.ops@.len(),
            forall|s: int| start <= s < end ==> #[trigger] tape.ops@[s] == op,
            ar == gate_arity(op_gate(op)),
            values@.len() == tape.ops@.len(),
            old(values)@.len() == values@.len(),
            settled_lanes(*tape, values@, ins, sts, 0, i as int),
            forall|s: int| end <= s < values@.len() ==> #[trigger] values@[s] == old(values)@[s],
            forall|s: int| 0 <= s < start ==> #[trigger] values@[s] == old(values)@[s],
        decreases end - i,
    {
        proof {
            assert(gate_slot_ok(tape, i as int));
        }
        let av = values[tape.a[i] as usize];
        let bv = if ar > 1 {
            values[tape.b[i] as usize]
        } else {
            0
        };
        let cv = if ar > 2 {
            values[tape.c[i] as usize]
        } else {
            0
        };
        let r = apply_op(op, av, bv, cv);
        let ghost v0 = values@;
        values.set(i, r);
        proof {
            assert forall|s: int, k: u64| 0 <= s < i + 1 && k < 64 implies #[trigger] lane(values@[s], k) == tape.netlist@.value(
                tape.schedule@[s] as int,
                ins[k as int],
                sts[k as int],
            ) by {
                if s == i {
                    lemma_gate_slot_lanes(*tape, v0, ins, sts, i as int, av, bv, cv, k);
                } else {
                    assert(lane(v0[s], k) == tape.netlist@.value(tape.schedule@[s] as int, ins[k as int], sts[k as int]));
                }
            }
        }
        i += 1;
    }
}

/// Evaluate every run in order, from settled sources to a settled buffer.
fn eval_runs(tape: &Compiled, values: &mut Vec<u64>, Ghost(ins): Ghost<Seq<Seq<bool>>>, Ghost(sts): Ghost<Seq<Seq<bool>>>)
    requires
        tape.wf(),
        old(values)@.len() == tape.ops@.len(),
        settled_lanes(*tape, old(values)@, ins, sts, 0, tape.gate_start as int),
    ensures
        final(values)@.len() == old(values)@.len(),
        settled_lanes(*tape, final(values)@, ins, sts, 0, tape.ops@.len() as int),
        forall|s: int| 0 <= s < tape.gate_start ==> #[trigger] final(values)@[s] == old(values)@[s],
{
    let ghost n = tape.ops@.len() as int;
    let ghost g = tape.gate_start as int;
    proof {
        reveal(runs_cover);
    }
    let mut k: usize = 0;
    while k < tape.runs.len()
        invariant
            tape.wf(),
            n == tape.ops@.len(),
            g == tape.gate_start,
            runs_cover(tape.runs@, tape.ops@, tape.slot_level@, g, n),
            k <= tape.runs@.len(),
            values@.len() == n,
            old(values)@.len() == n,
            settled_lanes(*tape, values@, ins, sts, 0, if k == 0 { g } else { tape.runs@[k - 1].end as int }),
            forall|s: int| 0 <= s < g ==> #[trigger] values@[s] == old(values)@[s],
        decreases tape.runs@.len() - k,
    {
        let run = tape.runs[k];
        proof {
            reveal(runs_cover);
            if k > 0 {
                assert(tape.runs@[k - 1].end == tape.runs@[k as int].start);
            }
            assert(tape.runs@[k as int].start < tape.runs@[k as int].end);
            assert forall|s: int| run.start <= s < run.end implies #[trigger] tape.ops@[s] == run.op by {
                assert(tape.runs@[k as int].start <= s < tape.runs@[k as int].end);
            }
        }
        eval_run(tape, values, run.start as usize, run.end as usize, run.op, Ghost(ins), Ghost(sts));
        k += 1;
    }
    proof {
        reveal(runs_cover);
    }
}

/// 64-instance engine: one word per signal, bit `k` for instance `k`.
pub struct BatchEngine {
    tape: Arc<Compiled>,
    values: Vec<u64>,
    reg_scratch: Vec<u64>,
}

impl BatchEngine {
    /// The tape this engine runs.
    pub closed spec fn tape_spec(&self) -> Compiled {
        *self.tape
    }

    /// The input words: bit `k` of word `i` is input `i` of instance `k`.
    pub closed spec fn input_masks(&self) -> Seq<u64> {
        Seq::new(self.tape.input_slots@.len(), |i: int| self.values@[self.tape.input_slots@[i] as int])
    }

    /// The register words the next tick runs on.
    pub closed spec fn state_masks(&self) -> Seq<u64> {
        self.reg_scratch@
    }

    /// The words the declared outputs read now.
    pub closed spec fn output_masks(&self) -> Seq<u64> {
        Seq::new(self.tape.output_slots@.len(), |i: int| self.values@[self.tape.output_slots@[i] as int])
    }

    /// Instance `k`'s inputs.
    pub open spec fn lane_inputs(&self, k: u64) -> Seq<bool> {
        Seq::new(self.input_masks().len(), |i: int| lane(self.input_masks()[i], k))
    }

    /// Instance `k`'s register state.
    pub open spec fn lane_state(&self, k: u64) -> Seq<bool> {
        Seq::new(self.state_masks().len(), |r: int| lane(self.state_masks()[r], k))
    }

    /// Instance `k`'s outputs.
    pub open spec fn lane_outputs(&self, k: u64) -> Seq<bool> {
        Seq::new(self.output_masks().len(), |i: int| lane(self.output_masks()[i], k))
    }

    /// The value buffer matches the tape: one word per slot and per
    /// register, constants broadcast to every lane.
    pub closed spec fn wf(&self) -> bool {
        let t = *self.tape;
        let insts = t.netlist@.insts_seq();
        &&& t.wf()
        &&& self.values@.len() == t.ops@.len()
        &&& self.reg_scratch@.len() == t.netlist@.regs_seq().len()
        &&& forall|s: int|
            0 <= s < t.ops@.len() ==> ((#[trigger] insts[t.schedule@[s] as int]).data matches InstData::Const { value }
                ==> self.values@[s] == broadcast(value))
    }

    /// The sizes the engine reports follow its tape's netlist.
    pub proof fn lemma_wf(&self)
        requires
            self.wf(),
        ensures
            self.tape_spec().wf(),
            self.input_masks().len() == self.tape_spec().netlist@.input_count,
            self.state_masks().len() == self.tape_spec().netlist@.regs_seq().len(),
            self.output_masks().len() == self.tape_spec().netlist@.output_signals@.len(),
    {
    }

    /// Compile `circuit` and run 64 instances of it.
    pub fn new(circuit: &Circuit) -> (e: BatchEngine)
        requires
            circuit.wf(),
            6 * circuit.insts_seq().len() <= u32::MAX,
        ensures
            e.wf(),
            e.tape_spec().compiles(*circuit),
            e.input_masks() == Seq::new(circuit.input_count as nat, |i: int| 0u64),
            e.state_masks() == Seq::new(
                circuit.regs_seq().len(),
                |r: int| broadcast(circuit.initial_state_spec()[r]),
            ),
            e.output_masks() == Seq::new(
                e.tape_spec().output_slots@.len(),
                |i: int| broadcast(e.tape_spec().power_on_outputs()[i]),
            ),
    {
        Self::with_tape(Arc::new(Compiled::new(circuit)))
    }

    /// Run 64 instances of an already compiled tape from the power-on
    /// state, inputs low.
    pub fn with_tape(tape: Arc<Compiled>) -> (e: BatchEngine)
        requires
            tape.wf(),
        ensures
            e.wf(),
            e.tape_spec() == *tape,
            e.input_masks() == Seq::new(tape.netlist@.input_count as nat, |i: int| 0u64),
            e.state_masks() == Seq::new(
                tape.netlist@.regs_seq().len(),
                |r: int| broadcast(tape.netlist@.initial_state_spec()[r]),
            ),
            e.output_masks() == Seq::new(tape.output_slots@.len(), |i: int| broadcast(tape.power_on_outputs()[i])),
    {
        let ghost insts = tape.netlist@.insts_seq();
        let ghost sched = tape.schedule@;
        let n = tape.slot_count();
        let mut values: Vec<u64> = vec![0u64; n];
        let mut q: usize = 0;
        while q < tape.const_slots.len()
            invariant
                tape.wf(),
                insts == tape.netlist@.insts_seq(),
                sched == tape.schedule@,
                n == tape.ops@.len(),
                q <= tape.const_slots@.len(),
                values@.len() == n,
                forall|s: int|
                    0 <= s < n ==> #[trigger] values@[s] == 0 || (insts[sched[s] as int].data is Const && values@[s]
                        == broadcast(tape.initial_value(s) == 1)),
                forall|j: int| 0 <= j < q ==> #[trigger] values@[tape.const_slots@[j].0 as int] == broadcast(
                    tape.initial_value(tape.const_slots@[j].0 as int) == 1,
                ),
            decreases tape.const_slots@.len() - q,
        {
            let (slot, value) = tape.const_slots[q];
            proof {
                assert(tape.const_slots@[q as int].0 == slot);
            }
            let word: u64 = if value != 0 {
                u64::MAX
            } else {
                0
            };
            values.set(slot as usize, word);
            q += 1;
        }
        let nregs = tape.register_count();
        let mut reg_scratch: Vec<u64> = vec![0u64; nregs];
        let mut r: usize = 0;
        while r < nregs
            invariant
                tape.wf(),
                insts == tape.netlist@.insts_seq(),
                sched == tape.schedule@,
                n == tape.ops@.len(),
                nregs == tape.reg_out_slots@.len(),
                nregs == tape.netlist@.regs_seq().len(),
                r <= nregs,
                values@.len() == n,
                reg_scratch@.len() == nregs,
                forall|q: int| 0 <= q < r ==> #[trigger] reg_scratch@[q] == broadcast(tape.reg_initial@[q] == 1),
                forall|s: int|
                    0 <= s < n ==> #[trigger] values@[s] == if (insts[sched[s] as int].data is Const) || (
                    insts[sched[s] as int].data matches InstData::RegisterOutput { reg } && reg.0 < r) {
                        broadcast(tape.initial_value(s) == 1)
                    } else {
                        0
                    },
            decreases nregs - r,
        {
            let word: u64 = if tape.reg_initial[r] != 0 {
                u64::MAX
            } else {
                0
            };
            reg_scratch.set(r, word);
            let slot = tape.reg_out_slots[r];
            if slot != u32::MAX {
                values.set(slot as usize, word);
            }
            proof {
                assert forall|s: int| 0 <= s < n implies #[trigger] values@[s] == if (insts[sched[s] as int].data is Const) || (
                insts[sched[s] as int].data matches InstData::RegisterOutput { reg } && reg.0 < r + 1) {
                    broadcast(tape.initial_value(s) == 1)
                } else {
                    0
                } by {
                    if is_reg_inst(insts[sched[s] as int], r as int) {
                        assert(tape.reg_out_slots@[r as int] == s);
                    } else if slot != u32::MAX && s == slot {
                        assert(is_reg_inst(insts[sched[slot as int] as int], r as int));
                    }
                }
            }
            r += 1;
        }
        let e = BatchEngine { tape, values, reg_scratch };
        proof {
            let t = e.tape_spec();
            assert forall|i: int| 0 <= i < t.netlist@.input_count implies #[trigger] e.values@[t.input_slots@[i] as int] == 0 by {
                assert(is_input_inst(insts[sched[t.input_slots@[i] as int] as int], i));
            }
            assert(e.input_masks() =~= Seq::new(t.netlist@.input_count as nat, |i: int| 0u64));
            assert(e.state_masks() =~= Seq::new(
                t.netlist@.regs_seq().len(),
                |r: int| broadcast(t.netlist@.initial_state_spec()[r]),
            ));
            assert(e.output_masks() =~= Seq::new(t.output_slots@.len(), |i: int| broadcast(t.power_on_outputs()[i])));
        }
        e
    }

    /// Number of external inputs.
    pub fn input_count(&self) -> (n: usize)
        requires
            self.wf(),
        ensures
            n == self.input_masks().len(),
    {
        self.tape.input_count()
    }

    /// Number of declared outputs.
    pub fn output_count(&self) -> (n: usize)
        requires
            self.wf(),
        ensures
            n == self.output_masks().len(),
    {
        self.tape.output_count()
    }

    /// Set input `index` of every instance at once: bit `k` of `mask` for
    /// instance `k`. An output wired straight to that input reads the new
    /// word at once.
    pub fn set_input_mask(&mut self, index: usize, mask: u64)
        requires
            old(self).wf(),
            index < old(self).input_masks().len(),
        ensures
            final(self).wf(),
            final(self).tape_spec() == old(self).tape_spec(),
            final(self).input_masks() == old(self).input_masks().update(index as int, mask),
            final(self).state_masks() == old(self).state_masks(),
            final(self).output_masks() == Seq::new(
                old(self).output_masks().len(),
                |i: int|
                    if old(self).tape_spec().output_slots@[i] == old(self).tape_spec().input_slots@[index as int] {
                        mask
                    } else {
                        old(self).output_masks()[i]
                    },
            ),
    {
        let ghost t = self.tape_spec();
        let ghost insts = t.netlist@.insts_seq();
        let slot = self.tape.input_slots[index];
        self.values.set(slot as usize, mask);
        proof {
            assert(is_input_inst(insts[t.schedule@[slot as int] as int], index as int));
            assert forall|i: int| 0 <= i < t.input_slots@.len() && i != index implies #[trigger] t.input_slots@[i] != slot by {
                assert(is_input_inst(insts[t.schedule@[t.input_slots@[i] as int] as int], i));
            }
            assert(self.input_masks() =~= old(self).input_masks().update(index as int, mask));
            assert(self.output_masks() =~= Seq::new(
                old(self).output_masks().len(),
                |i: int|
                    if t.output_slots@[i] == t.input_slots@[index as int] {
                        mask
                    } else {
                        old(self).output_masks()[i]
                    },
            ));
        }
    }

    /// Set input `index` of instance `lane_index` alone. An output wired
    /// straight to that input reads the new word at once; every other output
    /// word is unchanged.
    pub fn set_input_lane(&mut self, index: usize, lane_index: usize, value: bool)
        requires
            old(self).wf(),
            index < old(self).input_masks().len(),
            lane_index < LANES,
        ensures
            final(self).wf(),
            final(self).tape_spec() == old(self).tape_spec(),
            final(self).input_masks() == old(self).input_masks().update(
                index as int,
                if value {
                    old(self).input_masks()[index as int] | (1u64 << lane_index)
                } else {
                    old(self).input_masks()[index as int] & !(1u64 << lane_index)
                },
            ),
            forall|k: u64|
                k < 64 ==> #[trigger] final(self).lane_inputs(k) == if k == lane_index {
                    old(self).lane_inputs(k).update(index as int, value)
                } else {
                    old(self).lane_inputs(k)
                },
            final(self).state_masks() == old(self).state_masks(),
            final(self).output_masks() == Seq::new(
                old(self).output_masks().len(),
                |i: int|
                    if old(self).tape_spec().output_slots@[i] == old(self).tape_spec().input_slots@[index as int] {
                        final(self).input_masks()[index as int]
                    } else {
                        old(self).output_masks()[i]
                    },
            ),
    {
        let slot = self.tape.input_slots[index] as usize;
        let bit = 1u64 << lane_index;
        let m = self.values[slot];
        let w = if value {
            m | bit
        } else {
            m & !bit
        };
        self.set_input_mask(index, w);
        proof {
            let l = lane_index as u64;
            assert(l < 64);
            assert(bit == 1u64 << l);
            assert forall|k: u64| k < 64 implies #[trigger] lane(w, k) == if k == l {
                value
            } else {
                lane(m, k)
            } by {
                if value {
                    assert(w == m | (1u64 << l));
                    assert(k < 64 && l < 64 ==> lane(m | (1u64 << l), k) == if k == l {
                        true
                    } else {
                        lane(m, k)
                    }) by (bit_vector);
                } else {
                    assert(w == m & !(1u64 << l));
                    assert(k < 64 && l < 64 ==> lane(m & !(1u64 << l), k) == if k == l {
                        false
                    } else {
                        lane(m, k)
                    }) by (bit_vector);
                }
            }
            assert forall|k: u64| k < 64 implies #[trigger] self.lane_inputs(k) == if k == lane_index {
                old(self).lane_inputs(k).update(index as int, value)
            } else {
                old(self).lane_inputs(k)
            } by {
                if k == l {
                    assert(self.lane_inputs(k) =~= old(self).lane_inputs(k).update(index as int, value));
                } else {
                    assert(self.lane_inputs(k) =~= old(self).lane_inputs(k));
                }
            }
        }
    }

    /// Read output `index` of every instance at once.
    pub fn output_mask(&self, index: usize) -> (w: u64)
        requires
            self.wf(),
            index < self.output_masks().len(),
        ensures
            w == self.output_masks()[index as int],
    {
        self.values[self.tape.output_slots[index] as usize]
    }

    /// Read output `index` of instance `lane_index`.
    pub fn output_lane(&self, index: usize, lane_index: usize) -> (b: bool)
        requires
            self.wf(),
            index < self.output_masks().len(),
            lane_index < LANES,
        ensures
            b == self.lane_outputs(lane_index as u64)[index as int],
    {
        let w = self.output_mask(index);
        let l = lane_index as u64;
        proof {
            assert(l < 64 ==> ((w >> l & 1 != 0) == lane(w, l))) by (bit_vector);
        }
        w >> l & 1 != 0
    }

    /// Set input `index` of every instance to `value`.
    pub fn set_input(&mut self, index: usize, value: bool)
        requires
            old(self).wf(),
            index < old(self).input_masks().len(),
        ensures
            final(self).wf(),
            final(self).tape_spec() == old(self).tape_spec(),
            final(self).input_masks() == old(self).input_masks().update(index as int, broadcast(value)),
            final(self).state_masks() == old(self).state_masks(),
    {
        self.set_input_mask(
            index,
            if value {
                u64::MAX
            } else {
                0
            },
        );
    }

    /// Read output `index` of instance 0.
    pub fn output(&self, index: usize) -> (b: bool)
        requires
            self.wf(),
            index < self.output_masks().len(),
        ensures
            b == self.lane_outputs(0)[index as int],
    {
        self.output_lane(index, 0)
    }

    /// `after` is `before` one clock cycle later: same tape and inputs, and
    /// every instance at the netlist's next state and outputs on its own
    /// inputs and state.
    pub open spec fn ticked(before: BatchEngine, after: BatchEngine) -> bool {
        let net = before.tape_spec().netlist@;
        &&& after.wf()
        &&& after.tape_spec() == before.tape_spec()
        &&& after.input_masks() == before.input_masks()
        &&& forall|k: u64|
            k < 64 ==> #[trigger] after.lane_state(k) == net.next_state(before.lane_inputs(k), before.lane_state(k))
        &&& forall|k: u64|
            k < 64 ==> #[trigger] after.lane_outputs(k) == net.output_values(before.lane_inputs(k), before.lane_state(k))
    }

    /// One clock cycle of every instance; each instance steps on its own
    /// inputs and state alone.
    pub fn tick(&mut self)
        requires
            old(self).wf(),
        ensures
            Self::ticked(*old(self), *final(self)),
    {
        let ghost t = self.tape_spec();
        let ghost net = t.netlist@;
        let ghost insts = net.insts_seq();
        let ghost sched = t.schedule@;
        let ghost ins = Seq::new(64, |k: int| self.lane_inputs(k as u64));
        let ghost sts = Seq::new(64, |k: int| self.lane_state(k as u64));
        let ghost v0 = self.values@;
        let ghost scratch = self.reg_scratch@;
        // Latch the previous cycle's next state into the register outputs.
        let nregs = self.tape.reg_out_slots.len();
        let mut r: usize = 0;
        while r < nregs
            invariant
                t == self.tape_spec(),
                t.wf(),
                insts == t.netlist@.insts_seq(),
                sched == t.schedule@,
                nregs == t.reg_out_slots@.len(),
                self.reg_scratch@ == scratch,
                scratch.len() == nregs,
                r <= nregs,
                self.values@.len() == v0.len(),
                v0.len() == t.ops@.len(),
                forall|s: int|
                    0 <= s < v0.len() ==> #[trigger] self.values@[s] == match insts[sched[s] as int].data {
                        InstData::RegisterOutput { reg } => if reg.0 < r {
                            scratch[reg.0 as int]
                        } else {
                            v0[s]
                        },
                        _ => v0[s],
                    },
            decreases nregs - r,
        {
            let slot = self.tape.reg_out_slots[r];
            if slot != u32::MAX {
                let w = self.reg_scratch[r];
                self.values.set(slot as usize, w);
            }
            proof {
                assert forall|s: int| 0 <= s < v0.len() implies #[trigger] self.values@[s] == match insts[sched[s] as int].data {
                    InstData::RegisterOutput { reg } => if reg.0 < r + 1 {
                        scratch[reg.0 as int]
                    } else {
                        v0[s]
                    },
                    _ => v0[s],
                } by {
                    if is_reg_inst(insts[sched[s] as int], r as int) {
                        assert(t.reg_out_slots@[r as int] == s);
                    } else if slot != u32::MAX && s == slot {
                        assert(is_reg_inst(insts[sched[slot as int] as int], r as int));
                    }
                }
            }
            r += 1;
        }
        proof {
            lemma_lanes_const();
            assert forall|s: int, k: u64| 0 <= s < t.gate_start && k < 64 implies #[trigger] lane(self.values@[s], k)
                == net.value(sched[s] as int, ins[k as int], sts[k as int]) by {
                let x = sched[s] as int;
                assert(crate::circuit::inst_wf(insts[x], x, net.input_count as nat, net.regs_seq().len()));
                match insts[x].data {
                    InstData::Input { index } => {
                        let i = index as int;
                        let s2 = t.input_slots@[i] as int;
                        assert(is_input_inst(insts[sched[s2] as int], i));
                        assert(is_input_inst(insts[x], i));
                        assert(sched[s2] == sched[s]);
                        assert(s2 == s);
                    },
                    _ => {},
                }
            }
        }
        let ghost v1 = self.values@;
        eval_runs(&self.tape, &mut self.values, Ghost(ins), Ghost(sts));
        let ghost v2 = self.values@;
        // Capture every register's next state.
        let mut r: usize = 0;
        while r < nregs
            invariant
                t == self.tape_spec(),
                self.values@ == v2,
                t.wf(),
                nregs == t.reg_in_slots@.len(),
                nregs == t.reg_out_slots@.len(),
                self.values@.len() == t.ops@.len(),
                self.reg_scratch@.len() == nregs,
                r <= nregs,
                forall|q: int| 0 <= q < r ==> #[trigger] self.reg_scratch@[q] == self.values@[t.reg_in_slots@[q] as int],
            decreases nregs - r,
        {
            let w = self.values[self.tape.reg_in_slots[r] as usize];
            self.reg_scratch.set(r, w);
            r += 1;
        }
        proof {
            assert forall|s: int| 0 <= s < t.ops@.len() implies ((#[trigger] insts[t.schedule@[s] as int]).data matches InstData::Const { value }
                ==> v2[s] == broadcast(value)) by {
                if insts[sched[s] as int].data is Const {
                    assert(s < t.gate_start);
                    assert(v2[s] == v1[s]);
                }
            }
            assert forall|i: int| 0 <= i < t.input_slots@.len() implies #[trigger] v2[t.input_slots@[i] as int] == v0[t.input_slots@[i] as int] by {
                let s = t.input_slots@[i] as int;
                assert(is_input_inst(insts[sched[s] as int], i));
                assert(s < t.gate_start);
            }
            assert(self.input_masks() =~= old(self).input_masks());
            assert forall|k: u64| k < 64 implies #[trigger] self.lane_state(k) == net.next_state(
                old(self).lane_inputs(k),
                old(self).lane_state(k),
            ) by {
                assert(ins[k as int] == old(self).lane_inputs(k));
                assert(sts[k as int] == old(self).lane_state(k));
                assert forall|q: int| 0 <= q < net.regs_seq().len() implies #[trigger] self.lane_state(k)[q] == net.next_state(
                    ins[k as int],
                    sts[k as int],
                )[q] by {
                    let s = t.reg_in_slots@[q] as int;
                    assert(lane(v2[s], k) == net.value(sched[s] as int, ins[k as int], sts[k as int]));
                }
                assert(self.lane_state(k) =~= net.next_state(ins[k as int], sts[k as int]));
            }
            assert forall|k: u64| k < 64 implies #[trigger] self.lane_outputs(k) == net.output_values(
                old(self).lane_inputs(k),
                old(self).lane_state(k),
            ) by {
                assert(ins[k as int] == old(self).lane_inputs(k));
                assert(sts[k as int] == old(self).lane_state(k));
                assert forall|q: int| 0 <= q < net.output_signals@.len() implies #[trigger] self.lane_outputs(k)[q]
                    == net.output_values(ins[k as int], sts[k as int])[q] by {
                    let s = t.output_slots@[q] as int;
                    assert(lane(v2[s], k) == net.value(sched[s] as int, ins[k as int], sts[k as int]));
                }
                assert(self.lane_outputs(k) =~= net.output_values(ins[k as int], sts[k as int]));
            }
        }
    }
}

/// Instance `k` of a batch engine running a compiled circuit agrees with
/// the reference interpreter on that circuit, fed instance `k`'s inputs
/// and state.
pub proof fn lemma_batch_matches_interpreter(
    before: BatchEngine,
    after: BatchEngine,
    c: Circuit,
    k: u64,
    outputs: Seq<bool>,
)
    requires
        before.wf(),
        c.wf(),
        before.tape_spec().compiles(c),
        BatchEngine::ticked(before, after),
        k < 64,
        outputs.len() == c.output_signals@.len(),
    ensures
        after.lane_state(k) == ticked_state(&c, before.lane_inputs(k), before.lane_state(k)),
        after.lane_outputs(k) == ticked_outputs(&c, before.lane_inputs(k), before.lane_state(k), outputs),
{
    before.lemma_wf();
    let net = before.tape_spec().netlist@;
    let (i, st) = (before.lane_inputs(k), before.lane_state(k));
    assert(net.next_state(i, st) == c.next_state(i, st));
    assert(net.output_values(i, st) == c.output_values(i, st));
    assert(after.lane_state(k) =~= ticked_state(&c, i, st));
    assert(after.lane_outputs(k) =~= ticked_outputs(&c, i, st, outputs));
}

/// Instances never interact: if instance `k` of two batch engines on one
/// tape has the same inputs and state, it shows the same outputs and reaches
/// the same state after a tick, whatever the other instances hold.
pub proof fn lemma_lanes_independent(b1: BatchEngine, a1: BatchEngine, b2: BatchEngine, a2: BatchEngine, k: u64)
    requires
        b1.wf(),
        b2.wf(),
        BatchEngine::ticked(b1, a1),
        BatchEngine::ticked(b2, a2),
        b1.tape_spec() == b2.tape_spec(),
        k < 64,
        b1.lane_inputs(k) == b2.lane_inputs(k),
        b1.lane_state(k) == b2.lane_state(k),
    ensures
        a1.lane_outputs(k) == a2.lane_outputs(k),
        a1.lane_state(k) == a2.lane_state(k),
{
}

/// Instance `k` of a batch engine and a scalar engine on one tape, with the
/// same inputs and state, agree after a tick.
pub proof fn lemma_batch_matches_scalar(bb: BatchEngine, ba: BatchEngine, sb: ScalarEngine, sa: ScalarEngine, k: u64)
    requires
        bb.wf(),
        sb.wf(),
        BatchEngine::ticked(bb, ba),
        ScalarEngine::ticked(sb, sa),
        bb.tape_spec() == sb.tape_spec(),
        k < 64,
        bb.lane_inputs(k) == sb.inputs_spec(),
        bb.lane_state(k) == sb.state_spec(),
    ensures
        ba.lane_outputs(k) == sa.outputs_spec(),
        ba.lane_state(k) == sa.state_spec(),
{
}

/// The inputs instance `k` read at each of the first `n` engine states.
pub open spec fn lane_history(es: Seq<BatchEngine>, k: u64, n: int) -> Seq<Seq<bool>> {
    Seq::new(n as nat, |t: int| es[t].lane_inputs(k))
}

/// Over any run of ticks, every instance `k` of a batch engine running a
/// compiled circuit passes through the register states of the reference
/// interpreter on that circuit fed instance `k`'s inputs, and reads the
/// interpreter's outputs at every tick; between ticks only the inputs
/// change.
pub proof fn lemma_batch_run_matches_interpreter(
    c: Circuit,
    befores: Seq<BatchEngine>,
    afters: Seq<BatchEngine>,
    k: u64,
)
    requires
        c.wf(),
        k < 64,
        afters.len() == befores.len(),
        forall|j: int|
            0 <= j < befores.len() ==> (#[trigger] befores[j]).wf() && befores[j].tape_spec().compiles(c)
                && BatchEngine::ticked(befores[j], afters[j]),
        forall|j: int| 0 <= j < befores.len() - 1 ==> #[trigger] befores[j + 1].state_masks() == afters[j].state_masks(),
    ensures
        forall|j: int|
            0 <= j < befores.len() ==> (#[trigger] afters[j]).lane_state(k) == run_state(
                &c,
                befores[0].lane_state(k),
                lane_history(befores, k, j + 1),
            ) && afters[j].lane_outputs(k) == c.output_values(
                befores[j].lane_inputs(k),
                run_state(&c, befores[0].lane_state(k), lane_history(befores, k, j)),
            ),
    decreases befores.len(),
{
    if befores.len() > 0 {
        let n = befores.len() - 1;
        let bs = befores.drop_last();
        let as_ = afters.drop_last();
        lemma_batch_run_matches_interpreter(c, bs, as_, k);
        let s0 = befores[0].lane_state(k);
        let ins = lane_history(befores, k, befores.len() as int);
        assert forall|j: int| 0 <= j < befores.len() implies (#[trigger] afters[j]).lane_state(k) == run_state(
            &c,
            s0,
            lane_history(befores, k, j + 1),
        ) && afters[j].lane_outputs(k) == c.output_values(
            befores[j].lane_inputs(k),
            run_state(&c, s0, lane_history(befores, k, j)),
        ) by {
            assert(lane_history(befores, k, j + 1) =~= ins.take(j + 1));
            assert(lane_history(befores, k, j) =~= ins.take(j));
            if j < n {
                assert(bs[j] == befores[j]);
                assert(as_[j] == afters[j]);
                assert(lane_history(bs, k, j + 1) =~= ins.take(j + 1));
                assert(lane_history(bs, k, j) =~= ins.take(j));
                if n > 0 {
                    assert(bs[0] == befores[0]);
                }
            } else {
                assert(befores[j].wf());
                lemma_batch_matches_interpreter(befores[j], afters[j], c, k, afters[j].lane_outputs(k));
                lemma_run_step(&c, s0, ins, j);
                if j > 0 {
                    assert(bs[0] == befores[0]);
                    assert(as_[j - 1] == afters[j - 1]);
                    assert(lane_history(bs, k, j) =~= ins.take(j));
                    assert(befores[j].state_masks() == afters[j - 1].state_masks());
                    assert(befores[j].lane_state(k) == afters[j - 1].lane_state(k));
                } else {
                    assert(ins.take(0) =~= Seq::<Seq<bool>>::empty());
                }
                assert(ins[j] == befores[j].lane_inputs(k));
                let st = befores[j].lane_state(k);
                assert(afters[j].lane_outputs(k) =~= c.output_values(befores[j].lane_inputs(k), st));
            }
        }
    }
}

/// Instances fed the same inputs at every tick from the same state stay in
/// step over any run: after every tick they hold the same state and show
/// the same outputs. Broadcast inputs therefore keep every instance alike.
pub proof fn lemma_lanes_stay_in_step(befores: Seq<BatchEngine>, afters: Seq<BatchEngine>, k1: u64, k2: u64)
    requires
        k1 < 64,
        k2 < 64,
        befores.len() > 0,
        afters.len() == befores.len(),
        forall|j: int|
            0 <= j < befores.len() ==> (#[trigger] befores[j]).wf() && befores[j].tape_spec() == befores[0].tape_spec()
                && BatchEngine::ticked(befores[j], afters[j]),
        forall|j: int| 0 <= j < befores.len() - 1 ==> #[trigger] befores[j + 1].state_masks() == afters[j].state_masks(),
        forall|j: int| 0 <= j < befores.len() ==> #[trigger] befores[j].lane_inputs(k1) == befores[j].lane_inputs(k2),
        befores[0].lane_state(k1) == befores[0].lane_state(k2),
    ensures
        forall|j: int|
            0 <= j < befores.len() ==> (#[trigger] afters[j]).lane_state(k1) == afters[j].lane_state(k2)
                && afters[j].lane_outputs(k1) == afters[j].lane_outputs(k2),
{
    let c = befores[0].tape_spec().netlist@;
    befores[0].lemma_wf();
    assert forall|j: int| 0 <= j < befores.len() implies (#[trigger] befores[j]).tape_spec().compiles(c) by {
        assert(befores[j].tape_spec() == befores[0].tape_spec());
    }
    lemma_batch_run_matches_interpreter(c, befores, afters, k1);
    lemma_batch_run_matches_interpreter(c, befores, afters, k2);
    assert forall|j: int| 0 <= j < befores.len() implies (#[trigger] afters[j]).lane_state(k1) == afters[j].lane_state(k2)
        && afters[j].lane_outputs(k1) == afters[j].lane_outputs(k2) by {
        assert(lane_history(befores, k1, j + 1) =~= lane_history(befores, k2, j + 1));
        assert(lane_history(befores, k1, j) =~= lane_history(befores, k2, j));
    }
}

/// Every word holds one value in all 64 lanes.
pub open spec fn all_broadcast(words: Seq<u64>) -> bool {
    forall|i: int| 0 <= i < words.len() ==> #[trigger] words[i] == 0 || words[i] == u64::MAX
}

/// Words that each hold one value in every lane give every instance the
/// same view: instance `k` sees what instance 0 sees.
proof fn lemma_broadcast_lanes(words: Seq<u64>, k: u64)
    requires
        all_broadcast(words),
        k < 64,
    ensures
        forall|i: int| 0 <= i < words.len() ==> #[trigger] lane(words[i], k) == lane(words[i], 0),
{
    lemma_lanes_const();
}

/// A tick keeps broadcast words broadcast: from input and register words
/// that each hold one value in every lane, the register and output words
/// after the tick hold one value in every lane too, so instances fed
/// broadcast inputs never diverge.
pub proof fn lemma_broadcast_tick(before: BatchEngine, after: BatchEngine)
    requires
        before.wf(),
        BatchEngine::ticked(before, after),
        all_broadcast(before.input_masks()),
        all_broadcast(before.state_masks()),
    ensures
        all_broadcast(after.input_masks()),
        all_broadcast(after.state_masks()),
        all_broadcast(after.output_masks()),
{
    let net = before.tape_spec().netlist@;
    assert forall|k: u64| k < 64 implies #[trigger] before.lane_inputs(k) == before.lane_inputs(0) && before.lane_state(k)
        == before.lane_state(0) by {
        lemma_broadcast_lanes(before.input_masks(), k);
        lemma_broadcast_lanes(before.input_masks(), 0);
        lemma_broadcast_lanes(before.state_masks(), k);
        lemma_broadcast_lanes(before.state_masks(), 0);
        assert(before.lane_inputs(k) =~= before.lane_inputs(0));
        assert(before.lane_state(k) =~= before.lane_state(0));
    }
    assert forall|r: int| 0 <= r < after.state_masks().len() implies #[trigger] after.state_masks()[r] == 0
        || after.state_masks()[r] == u64::MAX by {
        let x = after.state_masks()[r];
        assert forall|k: u64| k < 64 implies #[trigger] lane(x, k) == lane(x, 0) by {
            assert(before.lane_inputs(k) == before.lane_inputs(0));
            assert(after.lane_state(k) == after.lane_state(0));
            assert(after.lane_state(k)[r] == lane(x, k));
        }
        lemma_word_of_lanes(x, lane(x, 0));
    }
    assert forall|o: int| 0 <= o < after.output_masks().len() implies #[trigger] after.output_masks()[o] == 0
        || after.output_masks()[o] == u64::MAX by {
        let x = after.output_masks()[o];
        assert forall|k: u64| k < 64 implies #[trigger] lane(x, k) == lane(x, 0) by {
            assert(before.lane_inputs(k) == before.lane_inputs(0));
            assert(after.lane_outputs(k) == after.lane_outputs(0));
            assert(after.lane_outputs(k)[o] == lane(x, k));
        }
        lemma_word_of_lanes(x, lane(x, 0));
    }
}

} // verus!
