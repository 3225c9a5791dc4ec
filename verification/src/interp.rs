//! The reference interpreter: evaluates every instruction of a circuit once
//! per tick, in creation order. It is the oracle every other engine is held
//! to.

use vstd::prelude::*;

use crate::circuit::{signal_value, Circuit, InstData, Reg, Signal};
use crate::entity::{inst_map_get, inst_map_len, reg_map_get, reg_map_len};

verus! {

/// Register state after one tick of `circuit` on a state buffer of any
/// length: the first `regs` entries latch their data inputs, the rest stay.
pub open spec fn ticked_state(circuit: &Circuit, inputs: Seq<bool>, state: Seq<bool>) -> Seq<bool> {
    Seq::new(
        state.len(),
        |r: int|
            if r < circuit.regs_seq().len() {
                circuit.value(circuit.regs_seq()[r].data_input.0 as int, inputs, state)
            } else {
                state[r]
            },
    )
}

/// The output buffer after one tick: the first outputs take the settled
/// values of the declared outputs, extra buffer entries are left alone.
pub open spec fn ticked_outputs(
    circuit: &Circuit,
    inputs: Seq<bool>,
    state: Seq<bool>,
    outputs: Seq<bool>,
) -> Seq<bool> {
    Seq::new(
        outputs.len(),
        |i: int|
            if i < circuit.output_signals@.len() {
                circuit.value(circuit.output_signals@[i].0 as int, inputs, state)
            } else {
                outputs[i]
            },
    )
}

/// Register state after one tick per entry of `ins`, from `state`, each
/// tick reading its own inputs.
pub open spec fn run_state(circuit: &Circuit, state: Seq<bool>, ins: Seq<Seq<bool>>) -> Seq<bool>
    decreases ins.len(),
{
    if ins.len() == 0 {
        state
    } else {
        ticked_state(circuit, ins.last(), run_state(circuit, state, ins.drop_last()))
    }
}

/// The interpreter's run after `j + 1` ticks is one more tick after `j`.
pub proof fn lemma_run_step(circuit: &Circuit, state: Seq<bool>, ins: Seq<Seq<bool>>, j: int)
    requires
        0 <= j < ins.len(),
    ensures
        run_state(circuit, state, ins.take(j + 1)) == ticked_state(circuit, ins[j], run_state(circuit, state, ins.take(j))),
{
    assert(ins.take(j + 1).drop_last() =~= ins.take(j));
    assert(ins.take(j + 1).last() == ins[j]);
}

/// A simulation backend: advances a circuit by one tick over caller-owned
/// input, state and output buffers.
pub trait Backend: Send + Sync {
    fn name(&self) -> &str;

    /// One tick: outputs show the settled pre-edge values, then every
    /// register latches its data input.
    fn tick(&self, circuit: &Circuit, inputs: &[bool], state: &mut [bool], outputs: &mut [bool])
        requires
            circuit.wf(),
            inputs@.len() >= circuit.input_count,
            old(state)@.len() >= circuit.regs_seq().len(),
        ensures
            final(state)@ == ticked_state(circuit, inputs@, old(state)@),
            final(outputs)@ == ticked_outputs(circuit, inputs@, old(state)@, old(outputs)@),
    ;
}

/// The naive reference interpreter.
#[derive(Default)]
pub struct Interpreter;

/// Evaluate every signal of `circuit` in creation order.
pub fn eval_all(circuit: &Circuit, inputs: &[bool], state: &[bool]) -> (values: Vec<bool>)
    requires
        circuit.wf(),
        inputs@.len() >= circuit.input_count,
        state@.len() >= circuit.regs_seq().len(),
    ensures
        values@.len() == circuit.insts_seq().len(),
        forall|i: int|
            0 <= i < values@.len() ==> #[trigger] values@[i] == circuit.value(i, inputs@, state@),
{
    let n = inst_map_len(&circuit.insts);
    let ghost insts = circuit.insts_seq();
    let mut values: Vec<bool> = Vec::new();
    let mut i: usize = 0;
    while i < n
        invariant
            circuit.wf(),
            insts == circuit.insts_seq(),
            n == insts.len(),
            inputs@.len() >= circuit.input_count,
            state@.len() >= circuit.regs_seq().len(),
            i <= n,
            values@.len() == i,
            forall|j: int| 0 <= j < i ==> #[trigger] values@[j] == signal_value(insts, j, inputs@, state@),
        decreases n - i,
    {
        let inst = inst_map_get(&circuit.insts, Signal(i as u32));
        assert(crate::circuit::inst_wf(insts[i as int], i as int, circuit.input_count as nat, circuit.regs_seq().len()));
        let v = match &inst.data {
            InstData::Const { value } => *value,
            InstData::Input { index } => inputs[*index as usize],
            InstData::RegisterOutput { reg } => state[reg.0 as usize],
            InstData::Gate { op, inputs: ins } => {
                let ar = ins.len();
                let a = values[ins[0].0 as usize];
                let b = if ar > 1 { values[ins[1].0 as usize] } else { false };
                let c = if ar > 2 { values[ins[2].0 as usize] } else { false };
                op.eval(a, b, c)
            },
        };
        values.push(v);
        i += 1;
    }
    values
}

impl Backend for Interpreter {
    fn name(&self) -> (s: &str)
        ensures
            s@ == "interpreter"@,
    {
        "interpreter"
    }

    fn tick(&self, circuit: &Circuit, inputs: &[bool], state: &mut [bool], outputs: &mut [bool]) {
        let values = eval_all(circuit, inputs, state);
        let ghost old_state = state@;
        let ghost old_outputs = outputs@;
        let nregs = reg_map_len(&circuit.regs);
        let mut next_state: Vec<bool> = Vec::new();
        let mut k: usize = 0;
        while k < state.len()
            invariant
                circuit.wf(),
                state@ == old_state,
                nregs == circuit.regs_seq().len(),
                state@.len() >= nregs,
                values@.len() == circuit.insts_seq().len(),
                forall|i: int| 0 <= i < values@.len() ==> #[trigger] values@[i] == circuit.value(i, inputs@, old_state),
                k <= state@.len(),
                next_state@.len() == k,
                forall|j: int| 0 <= j < k ==> #[trigger] next_state@[j] == ticked_state(circuit, inputs@, old_state)[j],
            decreases state@.len() - k,
        {
            if k < nregs {
                let reg = reg_map_get(&circuit.regs, Reg(k as u32));
                next_state.push(values[reg.data_input.0 as usize]);
            } else {
                next_state.push(state[k]);
            }
            k += 1;
        }
        let mut k: usize = 0;
        while k < state.len()
            invariant
                next_state@.len() == state@.len(),
                state@.len() == old_state.len(),
                next_state@.len() == old_state.len(),
                k <= state@.len(),
                forall|j: int| 0 <= j < k ==> #[trigger] state@[j] == next_state@[j],
            decreases state@.len() - k,
        {
            state[k] = next_state[k];
            k += 1;
        }
        assert(state@ =~= ticked_state(circuit, inputs@, old_state));
        let nouts = circuit.output_signals.len();
        let mut i: usize = 0;
        while i < nouts
            invariant
                circuit.wf(),
                nouts == circuit.output_signals@.len(),
                values@.len() == circuit.insts_seq().len(),
                forall|q: int| 0 <= q < values@.len() ==> #[trigger] values@[q] == circuit.value(q, inputs@, old_state),
                outputs@.len() == old_outputs.len(),
                i <= nouts,
                forall|j: int|
                    0 <= j < outputs@.len() ==> #[trigger] outputs@[j] == (if j < i {
                        circuit.value(circuit.output_signals@[j].0 as int, inputs@, old_state)
                    } else {
                        old_outputs[j]
                    }),
            decreases nouts - i,
        {
            if i < outputs.len() {
                outputs[i] = values[circuit.output_signals[i].0 as usize];
            }
            i += 1;
        }
        assert(outputs@ =~= ticked_outputs(circuit, inputs@, old_state, old_outputs));
    }
}

} // verus!
