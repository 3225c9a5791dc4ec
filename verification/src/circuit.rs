//! A gate-level netlist: instructions in creation (topological) order,
//! registers that latch one signal per tick, and the builder that the board
//! lowering uses to assemble a netlist.
//!
//! The meaning of a circuit is given by [`signal_value`]: the value every
//! signal settles to within one tick, given the external inputs and the
//! current register state.

use cranelift_entity::EntityRef;
use vstd::prelude::*;

use crate::entity::{InstMap, RegMap, inst_entries, inst_map_get, inst_map_len, inst_map_push, inst_map_with_capacity, reg_entries, reg_map_get, reg_map_len, reg_map_push, reg_map_with_capacity};

verus! {

/// A signal: the output of one instruction, named by its creation index.
#[derive(Clone, Copy, PartialEq, Eq, Debug, Structural)]
pub struct Signal(pub u32);

/// A register, named by its creation index.
#[derive(Clone, Copy, PartialEq, Eq, Debug, Structural)]
pub struct Reg(pub u32);

impl EntityRef for Signal {
    fn new(index: usize) -> (s: Self)
        ensures
            s.0 == index as u32,
    {
        Signal(index as u32)
    }

    fn index(self) -> (i: usize)
        ensures
            i == self.0,
    {
        self.0 as usize
    }
}

impl EntityRef for Reg {
    fn new(index: usize) -> (r: Self)
        ensures
            r.0 == index as u32,
    {
        Reg(index as u32)
    }

    fn index(self) -> (i: usize)
        ensures
            i == self.0,
    {
        self.0 as usize
    }
}

/// The logic operations a gate instruction can perform.
#[derive(Clone, Copy, PartialEq, Eq, Debug, Structural)]
pub enum GateOp {
    And,
    Or,
    Xor,
    Nand,
    Nor,
    Xnor,
    Not,
    Buf,
    Mux,
}

/// Number of operands a gate of this kind reads.
pub open spec fn gate_arity(op: GateOp) -> nat {
    match op {
        GateOp::Not | GateOp::Buf => 1,
        GateOp::Mux => 3,
        _ => 2,
    }
}

/// The boolean function of a gate over its (up to three) operands; operands
/// beyond the arity are ignored. `Mux` selects `b` when `a` is high.
pub open spec fn gate_fn(op: GateOp, a: bool, b: bool, c: bool) -> bool {
    match op {
        GateOp::And => a && b,
        GateOp::Or => a || b,
        GateOp::Xor => a != b,
        GateOp::Nand => !(a && b),
        GateOp::Nor => !(a || b),
        GateOp::Xnor => a == b,
        GateOp::Not => !a,
        GateOp::Buf => a,
        GateOp::Mux => if a { b } else { c },
    }
}

impl GateOp {
    /// Number of operands a gate of this kind reads.
    pub fn arity(self) -> (n: usize)
        ensures
            n == gate_arity(self),
    {
        match self {
            GateOp::Not | GateOp::Buf => 1,
            GateOp::Mux => 3,
            _ => 2,
        }
    }

    /// Evaluate this operation on concrete operands.
    pub fn eval(self, a: bool, b: bool, c: bool) -> (r: bool)
        ensures
            r == gate_fn(self, a, b, c),
    {
        match self {
            GateOp::And => a && b,
            GateOp::Or => a || b,
            GateOp::Xor => a != b,
            GateOp::Nand => !(a && b),
            GateOp::Nor => !(a || b),
            GateOp::Xnor => a == b,
            GateOp::Not => !a,
            GateOp::Buf => a,
            GateOp::Mux => if a { b } else { c },
        }
    }
}

/// What an instruction computes.
#[derive(Clone, Debug)]
pub enum InstData {
    /// A constant.
    Const { value: bool },
    /// External input number `index`.
    Input { index: u32 },
    /// The current (pre-edge) value of a register.
    RegisterOutput { reg: Reg },
    /// A gate over earlier signals; `inputs` has exactly as many as its operation reads.
    Gate { op: GateOp, inputs: Vec<Signal> },
}

#[derive(Clone, Debug)]
pub struct Instruction {
    pub data: InstData,
    pub debug_name_index: Option<u32>,
}

/// A register: latches `data_input` at every tick; starts at `initial`.
#[derive(Clone, Copy, Debug)]
pub struct Register {
    pub data_input: Signal,
    pub initial: bool,
    pub name_index: Option<u32>,
}

/// Operand `k` of a gate at index `i`: the value of the `k`-th input signal
/// when it exists and precedes `i`, low otherwise.
pub open spec fn signal_value(insts: Seq<Instruction>, i: int, inputs: Seq<bool>, state: Seq<bool>) -> bool
    decreases i,
{
    if 0 <= i < insts.len() {
        match insts[i].data {
            InstData::Const { value } => value,
            InstData::Input { index } => inputs[index as int],
            InstData::RegisterOutput { reg } => state[reg.0 as int],
            InstData::Gate { op, inputs: ins } => {
                let a = if ins@.len() > 0 && (ins@[0].0 as int) < i {
                    signal_value(insts, ins@[0].0 as int, inputs, state)
                } else {
                    false
                };
                let b = if ins@.len() > 1 && (ins@[1].0 as int) < i {
                    signal_value(insts, ins@[1].0 as int, inputs, state)
                } else {
                    false
                };
                let c = if ins@.len() > 2 && (ins@[2].0 as int) < i {
                    signal_value(insts, ins@[2].0 as int, inputs, state)
                } else {
                    false
                };
                gate_fn(op, a, b, c)
            },
        }
    } else {
        false
    }
}

/// Whether some instruction reads external input `k`.
pub open spec fn input_has_inst(insts: Seq<Instruction>, k: int) -> bool {
    exists|i: int| 0 <= i < insts.len() && #[trigger] is_input_inst(insts[i], k)
}

pub open spec fn is_input_inst(inst: Instruction, k: int) -> bool {
    inst.data matches InstData::Input { index } && index == k
}

/// Whether the instruction reads register `r`'s current value.
pub open spec fn is_reg_inst(inst: Instruction, r: int) -> bool {
    inst.data matches InstData::RegisterOutput { reg } && reg.0 == r
}

/// No two instructions read the same external input or the same register.
pub open spec fn sources_unique(insts: Seq<Instruction>) -> bool {
    &&& forall|i: int, j: int, k: int|
        0 <= i < insts.len() && 0 <= j < insts.len() && #[trigger] is_input_inst(insts[i], k) && #[trigger] is_input_inst(
            insts[j],
            k,
        ) ==> i == j
    &&& forall|i: int, j: int, r: int|
        0 <= i < insts.len() && 0 <= j < insts.len() && #[trigger] is_reg_inst(insts[i], r) && #[trigger] is_reg_inst(
            insts[j],
            r,
        ) ==> i == j
}

/// Appending an instruction that reads neither a fresh input nor a fresh
/// register keeps the sources unique.
proof fn lemma_unique_push(insts: Seq<Instruction>, inst: Instruction)
    requires
        sources_unique(insts),
        forall|k: int| #[trigger] is_input_inst(inst, k) ==> forall|i: int| 0 <= i < insts.len() ==> !is_input_inst(insts[i], k),
        forall|r: int| #[trigger] is_reg_inst(inst, r) ==> forall|i: int| 0 <= i < insts.len() ==> !is_reg_inst(insts[i], r),
    ensures
        sources_unique(insts.push(inst)),
{
    let after = insts.push(inst);
    assert forall|i: int, j: int, k: int|
        0 <= i < after.len() && 0 <= j < after.len() && #[trigger] is_input_inst(after[i], k) && #[trigger] is_input_inst(
            after[j],
            k,
        ) implies i == j by {
        if i < insts.len() && j < insts.len() {
            assert(after[i] == insts[i] && after[j] == insts[j]);
        } else if i < insts.len() {
            assert(after[i] == insts[i]);
        } else if j < insts.len() {
            assert(after[j] == insts[j]);
        }
    }
    assert forall|i: int, j: int, r: int|
        0 <= i < after.len() && 0 <= j < after.len() && #[trigger] is_reg_inst(after[i], r) && #[trigger] is_reg_inst(
            after[j],
            r,
        ) implies i == j by {
        if i < insts.len() && j < insts.len() {
            assert(after[i] == insts[i] && after[j] == insts[j]);
        } else if i < insts.len() {
            assert(after[i] == insts[i]);
        } else if j < insts.len() {
            assert(after[j] == insts[j]);
        }
    }
}

/// An instruction at position `i` only reads earlier signals, existing inputs
/// and existing registers, and a gate has exactly its arity of operands.
pub open spec fn inst_wf(inst: Instruction, i: int, input_count: nat, reg_count: nat) -> bool {
    match inst.data {
        InstData::Const { .. } => true,
        InstData::Input { index } => index < input_count,
        InstData::RegisterOutput { reg } => reg.0 < reg_count,
        InstData::Gate { op, inputs } => {
            &&& inputs@.len() == gate_arity(op)
            &&& forall|k: int| 0 <= k < inputs@.len() ==> (#[trigger] inputs@[k]).0 < i
        },
    }
}

/// `ext` starts with `insts`.
pub open spec fn is_prefix(insts: Seq<Instruction>, ext: Seq<Instruction>) -> bool {
    insts.len() <= ext.len() && forall|i: int| 0 <= i < insts.len() ==> ext[i] == insts[i]
}

/// Appending instructions never changes what an existing signal computes.
pub proof fn lemma_signal_value_prefix(
    insts: Seq<Instruction>,
    ext: Seq<Instruction>,
    i: int,
    inputs: Seq<bool>,
    state: Seq<bool>,
)
    requires
        is_prefix(insts, ext),
        0 <= i < insts.len(),
    ensures
        signal_value(ext, i, inputs, state) == signal_value(insts, i, inputs, state),
    decreases i,
{
    match insts[i].data {
        InstData::Gate { op, inputs: ins } => {
            if ins@.len() > 0 && (ins@[0].0 as int) < i {
                lemma_signal_value_prefix(insts, ext, ins@[0].0 as int, inputs, state);
            }
            if ins@.len() > 1 && (ins@[1].0 as int) < i {
                lemma_signal_value_prefix(insts, ext, ins@[1].0 as int, inputs, state);
            }
            if ins@.len() > 2 && (ins@[2].0 as int) < i {
                lemma_signal_value_prefix(insts, ext, ins@[2].0 as int, inputs, state);
            }
        },
        _ => {},
    }
}

/// A finished netlist.
pub struct Circuit {
    pub insts: InstMap,
    pub regs: RegMap,
    pub input_names: Vec<String>,
    pub output_names: Vec<String>,
    pub output_signals: Vec<Signal>,
    pub debug_names: Vec<String>,
    pub input_count: u32,
    pub register_count: u32,
    pub output_count: u32,
}

impl Circuit {
    pub open spec fn insts_seq(&self) -> Seq<Instruction> {
        inst_entries(self.insts)
    }

    pub open spec fn regs_seq(&self) -> Seq<Register> {
        reg_entries(self.regs)
    }

    /// Structural validity: every instruction is well formed in topological
    /// order, every register and output names an existing signal, every
    /// external input is read by some instruction, and the counts agree.
    pub open spec fn wf(&self) -> bool {
        let insts = self.insts_seq();
        let regs = self.regs_seq();
        &&& insts.len() < u32::MAX
        &&& regs.len() < u32::MAX
        &&& self.register_count == regs.len()
        &&& self.output_count == self.output_signals@.len()
        &&& self.output_names@.len() == self.output_signals@.len()
        &&& self.input_names@.len() == self.input_count
        &&& forall|i: int| 0 <= i < insts.len() ==> inst_wf(#[trigger] insts[i], i, self.input_count as nat, regs.len())
        &&& forall|r: int| 0 <= r < regs.len() ==> (#[trigger] regs[r]).data_input.0 < insts.len()
        &&& forall|k: int| 0 <= k < self.output_signals@.len() ==> (#[trigger] self.output_signals@[k]).0 < insts.len()
        &&& forall|k: int| 0 <= k < self.input_count ==> #[trigger] input_has_inst(insts, k)
        &&& sources_unique(insts)
    }

    /// The settled value of signal `s` this tick.
    pub open spec fn value(&self, s: int, inputs: Seq<bool>, state: Seq<bool>) -> bool {
        signal_value(self.insts_seq(), s, inputs, state)
    }

    /// Register state after one clock edge: every register latches its data input.
    pub open spec fn next_state(&self, inputs: Seq<bool>, state: Seq<bool>) -> Seq<bool> {
        Seq::new(
            self.regs_seq().len(),
            |r: int| self.value(self.regs_seq()[r].data_input.0 as int, inputs, state),
        )
    }

    /// The declared outputs this tick.
    pub open spec fn output_values(&self, inputs: Seq<bool>, state: Seq<bool>) -> Seq<bool> {
        Seq::new(
            self.output_signals@.len(),
            |k: int| self.value(self.output_signals@[k].0 as int, inputs, state),
        )
    }

    /// The power-on register state.
    pub open spec fn initial_state_spec(&self) -> Seq<bool> {
        Seq::new(self.regs_seq().len(), |r: int| self.regs_seq()[r].initial)
    }

    /// Number of instructions (signals).
    pub fn inst_count(&self) -> (n: usize)
        ensures
            n == self.insts_seq().len(),
    {
        inst_map_len(&self.insts)
    }

    /// The instruction computing signal `s`.
    pub fn inst(&self, s: Signal) -> (r: &Instruction)
        requires
            (s.0 as int) < self.insts_seq().len(),
        ensures
            *r == self.insts_seq()[s.0 as int],
    {
        inst_map_get(&self.insts, s)
    }

    /// The power-on register state: every register's initial value.
    pub fn initial_state(&self) -> (s: Vec<bool>)
        requires
            self.wf(),
        ensures
            s@ == self.initial_state_spec(),
    {
        let n = reg_map_len(&self.regs);
        let mut s: Vec<bool> = Vec::new();
        let mut r: usize = 0;
        while r < n
            invariant
                n == self.regs_seq().len(),
                n < u32::MAX,
                r <= n,
                s@.len() == r,
                forall|j: int| 0 <= j < r ==> s@[j] == self.regs_seq()[j].initial,
            decreases n - r,
        {
            let reg = reg_map_get(&self.regs, Reg(r as u32));
            s.push(reg.initial);
            r += 1;
        }
        assert(s@ =~= self.initial_state_spec());
        s
    }
}

/// Why [`CircuitBuilder::finish`] refused to produce a circuit.
#[derive(Clone, Copy, PartialEq, Eq, Debug, Structural)]
pub enum BuildError {
    /// Register number `.0` was never given a data input.
    UndrivenRegister(u32),
}

impl BuildError {
    /// A human-readable description.
    pub fn message(&self) -> (s: String)
        ensures
            s@ == match self {
                BuildError::UndrivenRegister(r) => "undriven register r"@ + decimal(*r as nat),
            },
    {
        match self {
            BuildError::UndrivenRegister(r) => numbered_name("undriven register r", *r as u64),
        }
    }
}

/// The decimal digits of `n`, most significant first.
pub open spec fn decimal(n: nat) -> Seq<char>
    decreases n,
{
    if n < 10 {
        seq![(48 + n) as char]
    } else {
        decimal(n / 10).push((48 + n % 10) as char)
    }
}

/// `format!("{prefix}{n}")`: the prefix followed by the decimal digits of `n`.
#[verifier::external_body]
pub(crate) fn numbered_name(prefix: &str, n: u64) -> (s: String)
    ensures
        s@ == prefix@ + decimal(n as nat),
{
    format!("{prefix}{n}")
}

/// A register whose data input may not be wired yet.
#[derive(Clone, Copy, Debug)]
pub struct PendingRegister {
    pub data_input: Option<Signal>,
    pub initial: bool,
    pub name_index: Option<u32>,
}

/// Incrementally assembles a [`Circuit`]. Every new gate may only read
/// signals that already exist, so the instruction order is topological by
/// construction; registers break feedback loops.
pub struct CircuitBuilder {
    pub insts: InstMap,
    pub regs: Vec<PendingRegister>,
    pub input_names: Vec<String>,
    pub output_names: Vec<String>,
    pub output_signals: Vec<Signal>,
    pub debug_names: Vec<String>,
    pub input_count: u32,
}

impl CircuitBuilder {
    pub open spec fn insts_seq(&self) -> Seq<Instruction> {
        inst_entries(self.insts)
    }

    pub open spec fn wf(&self) -> bool {
        let insts = self.insts_seq();
        &&& insts.len() < u32::MAX
        &&& self.regs@.len() < u32::MAX
        &&& self.input_names@.len() == self.input_count
        &&& self.output_names@.len() == self.output_signals@.len()
        &&& self.output_signals@.len() < u32::MAX
        &&& self.debug_names@.len() == self.regs@.len()
        &&& forall|i: int| 0 <= i < insts.len() ==> inst_wf(#[trigger] insts[i], i, self.input_count as nat, self.regs@.len())
        &&& forall|r: int| 0 <= r < self.regs@.len() ==> ((#[trigger] self.regs@[r]).data_input matches Some(s) ==> s.0 < insts.len())
        &&& forall|k: int| 0 <= k < self.output_signals@.len() ==> (#[trigger] self.output_signals@[k]).0 < insts.len()
        &&& forall|k: int| 0 <= k < self.input_count ==> #[trigger] input_has_inst(insts, k)
        &&& sources_unique(insts)
    }

    /// Room for one more instruction.
    pub open spec fn has_room(&self) -> bool {
        self.insts_seq().len() + 1 < u32::MAX
    }

    /// Everything except the instruction list is as in `old`.
    pub open spec fn same_except_insts(&self, old: &CircuitBuilder) -> bool {
        &&& self.regs@ == old.regs@
        &&& self.input_names@ == old.input_names@
        &&& self.output_names@ == old.output_names@
        &&& self.output_signals@ == old.output_signals@
        &&& self.input_count == old.input_count
        &&& self.debug_names@ == old.debug_names@
    }

    pub fn new() -> (b: Self)
        ensures
            b.wf(),
            b.insts_seq().len() == 0,
            b.regs@.len() == 0,
            b.output_signals@.len() == 0,
            b.input_count == 0,
    {
        CircuitBuilder {
            insts: inst_map_with_capacity(0),
            regs: Vec::new(),
            input_names: Vec::new(),
            output_names: Vec::new(),
            output_signals: Vec::new(),
            debug_names: Vec::new(),
            input_count: 0,
        }
    }

    fn push_inst(&mut self, data: InstData) -> (s: Signal)
        requires
            old(self).wf(),
            old(self).has_room(),
            !(data is Input),
            !(data is RegisterOutput),
            inst_wf(
                Instruction { data, debug_name_index: None },
                old(self).insts_seq().len() as int,
                old(self).input_count as nat,
                old(self).regs@.len(),
            ),
        ensures
            final(self).wf(),
            final(self).same_except_insts(old(self)),
            final(self).insts_seq() == old(self).insts_seq().push(Instruction { data, debug_name_index: None }),
            s.0 as int == old(self).insts_seq().len(),
            final(self).debug_names@ == old(self).debug_names@,
    {
        let ghost before = self.insts_seq();
        let s = inst_map_push(&mut self.insts, Instruction { data, debug_name_index: None });
        proof {
            let after = self.insts_seq();
            assert forall|k: int| 0 <= k < self.input_count implies #[trigger] input_has_inst(after, k) by {
                assert(input_has_inst(before, k));
                let w = choose|i: int| 0 <= i < before.len() && #[trigger] is_input_inst(before[i], k);
                assert(after[w] == before[w]);
            }
            assert forall|i: int| 0 <= i < after.len() implies inst_wf(#[trigger] after[i], i, self.input_count as nat, self.regs@.len()) by {
                if i < before.len() {
                    assert(after[i] == before[i]);
                }
            }
            lemma_unique_push(before, Instruction { data, debug_name_index: None });
        }
        s
    }

    /// A constant signal.
    pub fn const_val(&mut self, value: bool) -> (s: Signal)
        requires
            old(self).wf(),
            old(self).has_room(),
        ensures
            final(self).wf(),
            final(self).same_except_insts(old(self)),
            final(self).insts_seq() == old(self).insts_seq().push(
                Instruction { data: InstData::Const { value }, debug_name_index: None },
            ),
            s.0 as int == old(self).insts_seq().len(),
    {
        self.push_inst(InstData::Const { value })
    }

    fn gate2(&mut self, op: GateOp, a: Signal, b: Signal) -> (s: Signal)
        requires
            old(self).wf(),
            old(self).has_room(),
            gate_arity(op) == 2,
            (a.0 as int) < old(self).insts_seq().len(),
            (b.0 as int) < old(self).insts_seq().len(),
        ensures
            final(self).wf(),
            final(self).same_except_insts(old(self)),
            final(self).insts_seq().len() == old(self).insts_seq().len() + 1,
            is_prefix(old(self).insts_seq(), final(self).insts_seq()),
            s.0 as int == old(self).insts_seq().len(),
            forall|inputs: Seq<bool>, state: Seq<bool>|
                signal_value(final(self).insts_seq(), s.0 as int, inputs, state) == gate_fn(
                    op,
                    signal_value(old(self).insts_seq(), a.0 as int, inputs, state),
                    signal_value(old(self).insts_seq(), b.0 as int, inputs, state),
                    false,
                ),
    {
        let mut ins: Vec<Signal> = Vec::new();
        ins.push(a);
        ins.push(b);
        let ghost old_insts = self.insts_seq();
        let s = self.push_inst(InstData::Gate { op, inputs: ins });
        proof {
            let new_insts = self.insts_seq();
            assert forall|inputs: Seq<bool>, state: Seq<bool>|
                signal_value(new_insts, s.0 as int, inputs, state) == gate_fn(
                    op,
                    signal_value(old_insts, a.0 as int, inputs, state),
                    signal_value(old_insts, b.0 as int, inputs, state),
                    false,
                ) by {
                lemma_signal_value_prefix(old_insts, new_insts, a.0 as int, inputs, state);
                lemma_signal_value_prefix(old_insts, new_insts, b.0 as int, inputs, state);
            }
        }
        s
    }

    /// `a AND b`.
    pub fn and(&mut self, a: Signal, b: Signal) -> (s: Signal)
        requires
            old(self).wf(),
            old(self).has_room(),
            (a.0 as int) < old(self).insts_seq().len(),
            (b.0 as int) < old(self).insts_seq().len(),
        ensures
            final(self).wf(),
            final(self).same_except_insts(old(self)),
            final(self).insts_seq().len() == old(self).insts_seq().len() + 1,
            is_prefix(old(self).insts_seq(), final(self).insts_seq()),
            s.0 as int == old(self).insts_seq().len(),
            forall|inputs: Seq<bool>, state: Seq<bool>|
                signal_value(final(self).insts_seq(), s.0 as int, inputs, state) == (
                signal_value(old(self).insts_seq(), a.0 as int, inputs, state) && signal_value(
                    old(self).insts_seq(),
                    b.0 as int,
                    inputs,
                    state,
                )),
    {
        self.gate2(GateOp::And, a, b)
    }

    /// `a OR b`.
    pub fn or(&mut self, a: Signal, b: Signal) -> (s: Signal)
        requires
            old(self).wf(),
            old(self).has_room(),
            (a.0 as int) < old(self).insts_seq().len(),
            (b.0 as int) < old(self).insts_seq().len(),
        ensures
            final(self).wf(),
            final(self).same_except_insts(old(self)),
            final(self).insts_seq().len() == old(self).insts_seq().len() + 1,
            is_prefix(old(self).insts_seq(), final(self).insts_seq()),
            s.0 as int == old(self).insts_seq().len(),
            forall|inputs: Seq<bool>, state: Seq<bool>|
                signal_value(final(self).insts_seq(), s.0 as int, inputs, state) == (
                signal_value(old(self).insts_seq(), a.0 as int, inputs, state) || signal_value(
                    old(self).insts_seq(),
                    b.0 as int,
                    inputs,
                    state,
                )),
    {
        self.gate2(GateOp::Or, a, b)
    }

    /// `a XOR b`.
    pub fn xor(&mut self, a: Signal, b: Signal) -> (s: Signal)
        requires
            old(self).wf(),
            old(self).has_room(),
            (a.0 as int) < old(self).insts_seq().len(),
            (b.0 as int) < old(self).insts_seq().len(),
        ensures
            final(self).wf(),
            final(self).same_except_insts(old(self)),
            final(self).insts_seq().len() == old(self).insts_seq().len() + 1,
            is_prefix(old(self).insts_seq(), final(self).insts_seq()),
            s.0 as int == old(self).insts_seq().len(),
            forall|inputs: Seq<bool>, state: Seq<bool>|
                signal_value(final(self).insts_seq(), s.0 as int, inputs, state) == (
                signal_value(old(self).insts_seq(), a.0 as int, inputs, state) != signal_value(
                    old(self).insts_seq(),
                    b.0 as int,
                    inputs,
                    state,
                )),
    {
        self.gate2(GateOp::Xor, a, b)
    }

    /// `NOT a`.
    pub fn not(&mut self, a: Signal) -> (s: Signal)
        requires
            old(self).wf(),
            old(self).has_room(),
            (a.0 as int) < old(self).insts_seq().len(),
        ensures
            final(self).wf(),
            final(self).same_except_insts(old(self)),
            final(self).insts_seq().len() == old(self).insts_seq().len() + 1,
            is_prefix(old(self).insts_seq(), final(self).insts_seq()),
            s.0 as int == old(self).insts_seq().len(),
            forall|inputs: Seq<bool>, state: Seq<bool>|
                signal_value(final(self).insts_seq(), s.0 as int, inputs, state) == !signal_value(
                    old(self).insts_seq(),
                    a.0 as int,
                    inputs,
                    state,
                ),
    {
        let mut ins: Vec<Signal> = Vec::new();
        ins.push(a);
        let ghost old_insts = self.insts_seq();
        let s = self.push_inst(InstData::Gate { op: GateOp::Not, inputs: ins });
        proof {
            let new_insts = self.insts_seq();
            assert forall|inputs: Seq<bool>, state: Seq<bool>|
                signal_value(new_insts, s.0 as int, inputs, state) == !signal_value(
                    old_insts,
                    a.0 as int,
                    inputs,
                    state,
                ) by {
                lemma_signal_value_prefix(old_insts, new_insts, a.0 as int, inputs, state);
            }
        }
        s
    }

    /// A new external input, numbered in creation order.
    pub fn input(&mut self, name: String) -> (s: Signal)
        requires
            old(self).wf(),
            old(self).has_room(),
            old(self).input_count < u32::MAX,
        ensures
            final(self).wf(),
            final(self).insts_seq() == old(self).insts_seq().push(
                Instruction { data: InstData::Input { index: old(self).input_count }, debug_name_index: None },
            ),
            final(self).input_count == old(self).input_count + 1,
            final(self).regs@ == old(self).regs@,
            final(self).output_signals@ == old(self).output_signals@,
            s.0 as int == old(self).insts_seq().len(),
    {
        let index = self.input_count;
        let ghost before = self.insts_seq();
        let s = inst_map_push(&mut self.insts, Instruction { data: InstData::Input { index }, debug_name_index: None });
        self.input_count = index + 1;
        self.input_names.push(name);
        proof {
            let after = self.insts_seq();
            assert(is_input_inst(after[before.len() as int], index as int));
            assert forall|k: int| 0 <= k < self.input_count implies #[trigger] input_has_inst(after, k) by {
                if k < index {
                    assert(input_has_inst(before, k));
                    let w = choose|i: int| 0 <= i < before.len() && #[trigger] is_input_inst(before[i], k);
                    assert(after[w] == before[w]);
                } else {
                    assert(is_input_inst(after[before.len() as int], k));
                }
            }
            assert forall|i: int| 0 <= i < after.len() implies inst_wf(#[trigger] after[i], i, self.input_count as nat, self.regs@.len()) by {
                if i < before.len() {
                    assert(after[i] == before[i]);
                    assert(inst_wf(before[i], i, index as nat, self.regs@.len()));
                }
            }
        }
        s
    }

    /// A new register starting at `initial`; returns the register and the
    /// signal carrying its current value. Its data input is wired later with
    /// [`drive`](Self::drive).
    pub fn reg(&mut self, name: String, initial: bool) -> (r: (Reg, Signal))
        requires
            old(self).wf(),
            old(self).has_room(),
            old(self).regs@.len() + 1 < u32::MAX,
        ensures
            final(self).wf(),
            final(self).insts_seq() == old(self).insts_seq().push(
                Instruction { data: InstData::RegisterOutput { reg: r.0 }, debug_name_index: None },
            ),
            final(self).regs@ == old(self).regs@.push(
                PendingRegister {
                    data_input: None,
                    initial,
                    name_index: Some(old(self).regs@.len() as u32),
                },
            ),
            final(self).input_count == old(self).input_count,
            final(self).output_signals@ == old(self).output_signals@,
            r.0.0 as int == old(self).regs@.len(),
            r.1.0 as int == old(self).insts_seq().len(),
    {
        let name_index = self.debug_names.len() as u32;
        self.debug_names.push(name);
        let reg = Reg(self.regs.len() as u32);
        self.regs.push(PendingRegister { data_input: None, initial, name_index: Some(name_index) });
        let ghost before = self.insts_seq();
        let s = inst_map_push(&mut self.insts, Instruction { data: InstData::RegisterOutput { reg }, debug_name_index: None });
        proof {
            let after = self.insts_seq();
            assert forall|k: int| 0 <= k < self.input_count implies #[trigger] input_has_inst(after, k) by {
                assert(input_has_inst(before, k));
                let w = choose|i: int| 0 <= i < before.len() && #[trigger] is_input_inst(before[i], k);
                assert(after[w] == before[w]);
            }
            assert forall|i: int| 0 <= i < after.len() implies inst_wf(#[trigger] after[i], i, self.input_count as nat, self.regs@.len()) by {
                if i < before.len() {
                    assert(after[i] == before[i]);
                    assert(inst_wf(before[i], i, self.input_count as nat, (self.regs@.len() - 1) as nat));
                }
            }
            assert forall|q: int| 0 <= q < self.regs@.len() implies ((#[trigger] self.regs@[q]).data_input matches Some(x) ==> x.0 < after.len()) by {
                if q < self.regs@.len() - 1 {
                    assert(self.regs@[q] == old(self).regs@[q]);
                }
            }
        }
        (reg, s)
    }

    /// Wire register `reg`'s data input to `next`.
    pub fn drive(&mut self, reg: Reg, next: Signal)
        requires
            old(self).wf(),
            (reg.0 as int) < old(self).regs@.len(),
            (next.0 as int) < old(self).insts_seq().len(),
        ensures
            final(self).wf(),
            final(self).insts_seq() == old(self).insts_seq(),
            final(self).regs@ == old(self).regs@.update(
                reg.0 as int,
                PendingRegister { data_input: Some(next), ..old(self).regs@[reg.0 as int] },
            ),
            final(self).input_count == old(self).input_count,
            final(self).output_signals@ == old(self).output_signals@,
    {
        let i = reg.0 as usize;
        let mut p = self.regs[i];
        p.data_input = Some(next);
        self.regs.set(i, p);
        proof {
            assert forall|q: int| 0 <= q < self.regs@.len() implies ((#[trigger] self.regs@[q]).data_input matches Some(x) ==> x.0 < self.insts_seq().len()) by {
                if q != i {
                    assert(self.regs@[q] == old(self).regs@[q]);
                }
            }
        }
    }

    /// Declare `sig` as the next output.
    pub fn output(&mut self, name: String, sig: Signal)
        requires
            old(self).wf(),
            (sig.0 as int) < old(self).insts_seq().len(),
            old(self).output_signals@.len() + 1 < u32::MAX,
        ensures
            final(self).wf(),
            final(self).insts_seq() == old(self).insts_seq(),
            final(self).regs@ == old(self).regs@,
            final(self).input_count == old(self).input_count,
            final(self).output_signals@ == old(self).output_signals@.push(sig),
    {
        self.output_names.push(name);
        self.output_signals.push(sig);
    }

    /// Every register has been given a data input.
    pub open spec fn all_driven(&self) -> bool {
        forall|r: int| 0 <= r < self.regs@.len() ==> (#[trigger] self.regs@[r]).data_input is Some
    }

    /// Finish the netlist. Fails exactly when some register was never driven
    /// (the first such register is reported); otherwise the circuit keeps
    /// every instruction, output and input of the builder.
    pub fn finish(self) -> (res: Result<Circuit, BuildError>)
        requires
            self.wf(),
        ensures
            res is Ok <==> self.all_driven(),
            res matches Ok(c) ==> {
                &&& c.wf()
                &&& c.insts_seq() == self.insts_seq()
                &&& c.output_signals@ == self.output_signals@
                &&& c.input_count == self.input_count
                &&& c.regs_seq().len() == self.regs@.len()
                &&& forall|r: int|
                    0 <= r < self.regs@.len() ==> #[trigger] c.regs_seq()[r] == (Register {
                        data_input: self.regs@[r].data_input->0,
                        initial: self.regs@[r].initial,
                        name_index: self.regs@[r].name_index,
                    })
            },
            res matches Err(BuildError::UndrivenRegister(r)) ==> {
                &&& (r as int) < self.regs@.len()
                &&& self.regs@[r as int].data_input is None
            },
    {
        let n = self.regs.len();
        let mut regs = reg_map_with_capacity(n);
        let mut r: usize = 0;
        while r < n
            invariant
                n == self.regs@.len(),
                n < u32::MAX,
                r <= n,
                self.wf(),
                reg_entries(regs).len() == r,
                forall|q: int| 0 <= q < r ==> (#[trigger] self.regs@[q]).data_input is Some,
                forall|q: int|
                    0 <= q < r ==> #[trigger] reg_entries(regs)[q] == (Register {
                        data_input: self.regs@[q].data_input->0,
                        initial: self.regs@[q].initial,
                        name_index: self.regs@[q].name_index,
                    }),
            decreases n - r,
        {
            let p = self.regs[r];
            match p.data_input {
                Some(s) => {
                    let ghost before = reg_entries(regs);
                    reg_map_push(&mut regs, Register { data_input: s, initial: p.initial, name_index: p.name_index });
                    proof {
                        assert forall|q: int| 0 <= q < r + 1 implies #[trigger] reg_entries(regs)[q] == (Register {
                            data_input: self.regs@[q].data_input->0,
                            initial: self.regs@[q].initial,
                            name_index: self.regs@[q].name_index,
                        }) by {
                            if q < r {
                                assert(reg_entries(regs)[q] == before[q]);
                            }
                        }
                    }
                },
                None => {
                    return Err(BuildError::UndrivenRegister(r as u32));
                },
            }
            r += 1;
        }
        let register_count = n as u32;
        let output_count = self.output_signals.len() as u32;
        let c = Circuit {
            insts: self.insts,
            regs,
            input_names: self.input_names,
            output_names: self.output_names,
            output_signals: self.output_signals,
            debug_names: self.debug_names,
            input_count: self.input_count,
            register_count,
            output_count,
        };
        proof {
            let regs_s = c.regs_seq();
            assert forall|q: int| 0 <= q < regs_s.len() implies (#[trigger] regs_s[q]).data_input.0 < c.insts_seq().len() by {
                assert(self.regs@[q].data_input matches Some(x) ==> x.0 < self.insts_seq().len());
            }
        }
        Ok(c)
    }
}

} // verus!
