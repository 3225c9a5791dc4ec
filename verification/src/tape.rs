//! Circuit compilation: turns a [`Circuit`] into a flat evaluation tape
//! shared by the engines.
//!
//! 1. **Optimize** the netlist (outputs and next states are preserved).
//! 2. **Levelize**: a gate sits one level above its highest operand;
//!    constants, inputs and register outputs sit at level 0.
//! 3. **Schedule**: signals are ordered by `(level, op, index)`, so gates of
//!    one kind form homogeneous runs and every operand precedes its reader.
//! 4. **Index**: operands become slot indices into one dense value buffer,
//!    and a CSR successor map lists every gate reading each slot.

use vstd::prelude::*;

use crate::circuit::{gate_arity, is_input_inst, is_reg_inst, Circuit, GateOp, InstData, Instruction, Reg, Signal};
use crate::entity::{inst_map_get, inst_map_len, reg_map_get, reg_map_len};
use crate::opt::{in_normal_form, optimize, same_netlist};

verus! {

broadcast use vstd::seq_lib::group_to_multiset_ensures;

/// Gate opcode on the tape. Sources are not ops: they live in the value
/// buffer and are written directly.
#[derive(Clone, Copy, PartialEq, Eq, PartialOrd, Ord, Debug, Structural)]
pub enum Op {
    And,
    Or,
    Xor,
    Nand,
    Nor,
    Xnor,
    Not,
    Buf,
    Mux,
}

pub open spec fn op_of(op: GateOp) -> Op {
    match op {
        GateOp::And => Op::And,
        GateOp::Or => Op::Or,
        GateOp::Xor => Op::Xor,
        GateOp::Nand => Op::Nand,
        GateOp::Nor => Op::Nor,
        GateOp::Xnor => Op::Xnor,
        GateOp::Not => Op::Not,
        GateOp::Buf => Op::Buf,
        GateOp::Mux => Op::Mux,
    }
}

/// Which gate operation a tape opcode performs.
pub open spec fn op_gate(op: Op) -> GateOp {
    match op {
        Op::And => GateOp::And,
        Op::Or => GateOp::Or,
        Op::Xor => GateOp::Xor,
        Op::Nand => GateOp::Nand,
        Op::Nor => GateOp::Nor,
        Op::Xnor => GateOp::Xnor,
        Op::Not => GateOp::Not,
        Op::Buf => GateOp::Buf,
        Op::Mux => GateOp::Mux,
    }
}

/// The opcode's position in declaration order, its sort key.
pub open spec fn op_rank(op: Op) -> int {
    match op {
        Op::And => 0,
        Op::Or => 1,
        Op::Xor => 2,
        Op::Nand => 3,
        Op::Nor => 4,
        Op::Xnor => 5,
        Op::Not => 6,
        Op::Buf => 7,
        Op::Mux => 8,
    }
}

impl Op {
    fn from_gate(op: GateOp) -> (r: Op)
        ensures
            r == op_of(op),
            op_gate(r) == op,
    {
        match op {
            GateOp::And => Op::And,
            GateOp::Or => Op::Or,
            GateOp::Xor => Op::Xor,
            GateOp::Nand => Op::Nand,
            GateOp::Nor => Op::Nor,
            GateOp::Xnor => Op::Xnor,
            GateOp::Not => Op::Not,
            GateOp::Buf => Op::Buf,
            GateOp::Mux => Op::Mux,
        }
    }

    fn rank(self) -> (r: u8)
        ensures
            r == op_rank(self),
    {
        match self {
            Op::And => 0,
            Op::Or => 1,
            Op::Xor => 2,
            Op::Nand => 3,
            Op::Nor => 4,
            Op::Xnor => 5,
            Op::Not => 6,
            Op::Buf => 7,
            Op::Mux => 8,
        }
    }
}

/// Number of operands an opcode reads.
pub fn arity(op: Op) -> (n: usize)
    ensures
        n == gate_arity(op_gate(op)),
{
    match op {
        Op::Not | Op::Buf => 1,
        Op::Mux => 3,
        _ => 2,
    }
}

/// The larger of two levels.
pub open spec fn max_nat(a: nat, b: nat) -> nat {
    if a >= b {
        a
    } else {
        b
    }
}

/// The level of signal `i`: a gate sits one above its highest operand;
/// constants, inputs and register outputs sit at level 0.
pub open spec fn signal_level(insts: Seq<Instruction>, i: int) -> nat
    decreases i,
{
    if 0 <= i < insts.len() {
        match insts[i].data {
            InstData::Gate { inputs, .. } => {
                let a = if inputs@.len() > 0 && 0 <= inputs@[0].0 < i {
                    signal_level(insts, inputs@[0].0 as int)
                } else {
                    0
                };
                let b = if inputs@.len() > 1 && 0 <= inputs@[1].0 < i {
                    signal_level(insts, inputs@[1].0 as int)
                } else {
                    0
                };
                let c = if inputs@.len() > 2 && 0 <= inputs@[2].0 < i {
                    signal_level(insts, inputs@[2].0 as int)
                } else {
                    0
                };
                1 + max_nat(max_nat(a, b), c)
            },
            _ => 0,
        }
    } else {
        0
    }
}

/// `level` holds every signal's exact level.
pub open spec fn exact_levels(c: Circuit, level: Seq<u32>) -> bool {
    level.len() == c.insts_seq().len() && forall|i: int| 0 <= i < level.len() ==> #[trigger] level[i] == signal_level(c.insts_seq(), i)
}

/// `level` gives every gate a level above each of its operands', and every
/// other instruction level 0.
pub open spec fn levelled(c: Circuit, level: Seq<u32>) -> bool {
    let insts = c.insts_seq();
    &&& level.len() == insts.len()
    &&& forall|i: int| 0 <= i < insts.len() ==> level[i] <= i
    &&& forall|i: int|
        0 <= i < insts.len() ==> match #[trigger] insts[i].data {
            InstData::Gate { inputs, .. } => {
                &&& level[i] > 0
                &&& forall|k: int| 0 <= k < inputs@.len() ==> level[(#[trigger] inputs@[k]).0 as int] < level[i]
            },
            _ => level[i] == 0,
        }
}

/// Levelize: instructions are topologically ordered, so one forward pass
/// suffices.
fn levelize(c: &Circuit) -> (level: Vec<u32>)
    requires
        c.wf(),
    ensures
        levelled(*c, level@),
        exact_levels(*c, level@),
{
    let ghost insts = c.insts_seq();
    let n = inst_map_len(&c.insts);
    let mut level: Vec<u32> = Vec::new();
    let mut i: usize = 0;
    while i < n
        invariant
            c.wf(),
            insts == c.insts_seq(),
            n == insts.len(),
            i <= n,
            level@.len() == i,
            forall|j: int| 0 <= j < i ==> #[trigger] level@[j] == signal_level(insts, j),
            forall|j: int| 0 <= j < i ==> level@[j] <= j,
            forall|j: int|
                0 <= j < i ==> match #[trigger] insts[j].data {
                    InstData::Gate { inputs, .. } => {
                        &&& level@[j] > 0
                        &&& forall|k: int| 0 <= k < inputs@.len() ==> level@[(#[trigger] inputs@[k]).0 as int] < level@[j]
                    },
                    _ => level@[j] == 0,
                },
        decreases n - i,
    {
        let inst = inst_map_get(&c.insts, Signal(i as u32));
        proof {
            assert(crate::circuit::inst_wf(insts[i as int], i as int, c.input_count as nat, c.regs_seq().len()));
        }
        let l = match &inst.data {
            InstData::Gate { inputs, .. } => {
                proof {
                    assert(inputs@[0].0 < i);
                }
                let mut max: u32 = 0;
                let mut k: usize = 0;
                while k < inputs.len()
                    invariant
                        k <= inputs@.len(),
                        inputs@.len() <= 3,
                        forall|q: int| 0 <= q < inputs@.len() ==> (#[trigger] inputs@[q]).0 < i,
                        level@.len() == i,
                        forall|j: int| 0 <= j < i ==> level@[j] <= j,
                        forall|j: int| 0 <= j < i ==> #[trigger] level@[j] == signal_level(insts, j),
                        i >= 1,
                        max < i,
                        forall|q: int| 0 <= q < k ==> level@[(#[trigger] inputs@[q]).0 as int] <= max,
                        max == max_nat(
                            max_nat(
                                if k > 0 { signal_level(insts, inputs@[0].0 as int) } else { 0 },
                                if k > 1 { signal_level(insts, inputs@[1].0 as int) } else { 0 },
                            ),
                            if k > 2 { signal_level(insts, inputs@[2].0 as int) } else { 0 },
                        ),
                    decreases inputs@.len() - k,
                {
                    let l = level[inputs[k].0 as usize];
                    if l > max {
                        max = l;
                    }
                    k += 1;
                }
                proof {
                    assert(insts[i as int].data == inst.data);
                }
                max + 1
            },
            _ => 0,
        };
        level.push(l);
        i += 1;
    }
    level
}

/// The sort key of signal `i`: level, then opcode, then index.
pub open spec fn sched_key(level: u32, rank: int, i: int) -> int {
    level * 0x100_0000_0000int + rank * 0x1_0000_0000int + i
}

/// A key's index part and level part.
proof fn lemma_key_parts(level: u32, rank: int, i: int)
    requires
        0 <= rank < 256,
        0 <= i < 0x1_0000_0000,
    ensures
        sched_key(level, rank, i) % 0x1_0000_0000 == i,
        sched_key(level, rank, i) / 0x100_0000_0000int == level,
        0 <= sched_key(level, rank, i) < 0x1_0000_0000_0000_0000_0000,
{
    let k = sched_key(level, rank, i);
    assert(k == (level * 0x100 + rank) * 0x1_0000_0000int + i);
    vstd::arithmetic::div_mod::lemma_fundamental_div_mod_converse(
        k,
        0x1_0000_0000int,
        level * 0x100 + rank,
        i,
    );
    assert(k == level * 0x100_0000_0000int + (rank * 0x1_0000_0000int + i));
    vstd::arithmetic::div_mod::lemma_fundamental_div_mod_converse(
        k,
        0x100_0000_0000int,
        level as int,
        rank * 0x1_0000_0000int + i,
    );
}

/// `slice::sort_unstable` on keys: the same keys in non-decreasing order.
#[verifier::external_body]
fn sort_keys(v: &mut Vec<u128>)
    ensures
        final(v)@.to_multiset() == old(v)@.to_multiset(),
        forall|i: int, j: int| 0 <= i <= j < final(v)@.len() ==> final(v)@[i] <= final(v)@[j],
{
    v.sort_unstable()
}

/// The opcode rank of a signal: its gate's opcode, 0 for a source.
pub open spec fn sig_rank(c: Circuit, i: int) -> int {
    match c.insts_seq()[i].data {
        InstData::Gate { op, .. } => op_rank(op_of(op)),
        _ => 0,
    }
}

/// `sched` orders every signal exactly once by level, then opcode, then
/// index.
pub open spec fn scheduled(c: Circuit, level: Seq<u32>, sched: Seq<u32>) -> bool {
    let n = c.insts_seq().len();
    &&& sched.len() == n
    &&& forall|s: int| 0 <= s < n ==> (#[trigger] sched[s]) < n
    &&& forall|s1: int, s2: int| 0 <= s1 < n && 0 <= s2 < n && #[trigger] sched[s1] == #[trigger] sched[s2] ==> s1 == s2
    &&& forall|x: int| 0 <= x < n ==> #[trigger] in_schedule(sched, x)
    &&& forall|s1: int, s2: int|
        0 <= s1 <= s2 < n ==> #[trigger] key_at(c, level, sched, s1) <= #[trigger] key_at(c, level, sched, s2)
}

/// Some slot holds signal `x`.
pub open spec fn in_schedule(sched: Seq<u32>, x: int) -> bool {
    exists|s: int| 0 <= s < sched.len() && sched[s] == x
}

/// The sort key of the signal in slot `s`.
pub open spec fn key_at(c: Circuit, level: Seq<u32>, sched: Seq<u32>, s: int) -> int {
    sched_key(level[sched[s] as int], sig_rank(c, sched[s] as int), sched[s] as int)
}

/// Schedule the signals: sort their packed `(level, op, index)` keys.
fn schedule_signals(c: &Circuit, level: &Vec<u32>) -> (sched: Vec<u32>)
    requires
        c.wf(),
        3 * c.insts_seq().len() <= u32::MAX,
        levelled(*c, level@),
    ensures
        scheduled(*c, level@, sched@),
{
    let ghost insts = c.insts_seq();
    let n = inst_map_len(&c.insts);
    let mut keys: Vec<u128> = Vec::new();
    let mut i: usize = 0;
    while i < n
        invariant
            c.wf(),
            insts == c.insts_seq(),
            n == insts.len(),
            3 * n <= u32::MAX,
            levelled(*c, level@),
            i <= n,
            keys@.len() == i,
            forall|j: int| 0 <= j < i ==> #[trigger] keys@[j] == sched_key(level@[j], sig_rank(*c, j), j),
        decreases n - i,
    {
        let inst = inst_map_get(&c.insts, Signal(i as u32));
        let rank: u8 = match &inst.data {
            InstData::Gate { op, .. } => Op::from_gate(*op).rank(),
            _ => 0,
        };
        proof {
            lemma_key_parts(level@[i as int], rank as int, i as int);
        }
        let key = level[i] as u128 * 0x100_0000_0000u128 + rank as u128 * 0x1_0000_0000u128 + i as u128;
        keys.push(key);
        i += 1;
    }
    let ghost unsorted = keys@;
    proof {
        assert forall|j1: int, j2: int| 0 <= j1 < n && 0 <= j2 < n && j1 != j2 implies unsorted[j1] != unsorted[j2] by {
            lemma_key_parts(level@[j1], sig_rank(*c, j1), j1);
            lemma_key_parts(level@[j2], sig_rank(*c, j2), j2);
        }
        assert(unsorted.no_duplicates());
        unsorted.lemma_multiset_has_no_duplicates();
    }
    sort_keys(&mut keys);
    let ghost sorted = keys@;
    proof {
        assert(sorted.len() == n) by {
            assert(sorted.to_multiset().len() == unsorted.to_multiset().len());
        }
        sorted.lemma_multiset_has_no_duplicates_conv();
    }
    let mut sched: Vec<u32> = Vec::new();
    let mut s: usize = 0;
    while s < n
        invariant
            n == insts.len(),
            3 * n <= u32::MAX,
            keys@ == sorted,
            sorted.len() == n,
            s <= n,
            sched@.len() == s,
            sorted.to_multiset() == unsorted.to_multiset(),
            unsorted.len() == n,
            forall|j: int| 0 <= j < n ==> #[trigger] unsorted[j] == sched_key(level@[j], sig_rank(*c, j), j),
            forall|q: int| 0 <= q < s ==> (#[trigger] sched@[q]) < n && sorted[q] == sched_key(
                level@[sched@[q] as int],
                sig_rank(*c, sched@[q] as int),
                sched@[q] as int,
            ),
            levelled(*c, level@),
        decreases n - s,
    {
        proof {
            assert(sorted.contains(sorted[s as int]));
            assert(sorted.to_multiset().count(sorted[s as int]) > 0);
            assert(unsorted.to_multiset().count(sorted[s as int]) > 0);
            assert(unsorted.contains(sorted[s as int]));
            let j = choose|j: int| 0 <= j < n && #[trigger] unsorted[j] == sorted[s as int];
            lemma_key_parts(level@[j], sig_rank(*c, j), j);
        }
        let idx = (keys[s] % 0x1_0000_0000u128) as u32;
        sched.push(idx);
        s += 1;
    }
    proof {
        let sc = sched@;
        assert forall|s1: int, s2: int| 0 <= s1 <= s2 < n implies #[trigger] key_at(*c, level@, sc, s1) <= #[trigger] key_at(
            *c,
            level@,
            sc,
            s2,
        ) by {
            assert(sorted[s1] <= sorted[s2]);
        }
        assert forall|s1: int, s2: int| 0 <= s1 < n && 0 <= s2 < n && #[trigger] sc[s1] == #[trigger] sc[s2] implies s1 == s2 by {
            assert(sorted[s1] == sorted[s2]);
        }
        assert forall|x: int| 0 <= x < n implies #[trigger] in_schedule(sc, x) by {
            assert(unsorted.contains(unsorted[x]));
            assert(unsorted.to_multiset().count(unsorted[x]) > 0);
            assert(sorted.to_multiset().count(unsorted[x]) > 0);
            assert(sorted.contains(unsorted[x]));
            let q = choose|q: int| 0 <= q < n && sorted[q] == unsorted[x];
            lemma_key_parts(level@[x], sig_rank(*c, x), x);
            lemma_key_parts(level@[sc[q] as int], sig_rank(*c, sc[q] as int), sc[q] as int);
        }
    }
    sched
}

/// A larger key never has a lower level, and a lower level always has a
/// smaller key.
proof fn lemma_key_order(l1: u32, r1: int, i1: int, l2: u32, r2: int, i2: int)
    requires
        0 <= r1 < 256,
        0 <= r2 < 256,
        0 <= i1 < 0x1_0000_0000,
        0 <= i2 < 0x1_0000_0000,
    ensures
        sched_key(l1, r1, i1) <= sched_key(l2, r2, i2) ==> l1 <= l2,
        l1 < l2 ==> sched_key(l1, r1, i1) < sched_key(l2, r2, i2),
{
    lemma_key_parts(l1, r1, i1);
    lemma_key_parts(l2, r2, i2);
    if sched_key(l1, r1, i1) <= sched_key(l2, r2, i2) {
        vstd::arithmetic::div_mod::lemma_div_is_ordered(sched_key(l1, r1, i1), sched_key(l2, r2, i2), 0x100_0000_0000int);
    }
}

/// Keys order lexicographically: by level, then rank, then index.
proof fn lemma_key_lex(l1: u32, r1: int, i1: int, l2: u32, r2: int, i2: int)
    requires
        0 <= r1 < 256,
        0 <= r2 < 256,
        0 <= i1 < 0x1_0000_0000,
        0 <= i2 < 0x1_0000_0000,
        sched_key(l1, r1, i1) < sched_key(l2, r2, i2),
    ensures
        l1 < l2 || (l1 == l2 && (r1 < r2 || (r1 == r2 && i1 < i2))),
{
    lemma_key_order(l1, r1, i1, l2, r2, i2);
    if l1 == l2 {
        assert(sched_key(l2, r2, i2) - sched_key(l1, r1, i1) == (r2 - r1) * 0x1_0000_0000int + (i2 - i1));
        if r1 > r2 {
            assert((r2 - r1) * 0x1_0000_0000int <= -0x1_0000_0000int);
        }
    }
}

/// Slot `s1` precedes slot `s2` in schedule order: a lower level, or the
/// same level and a lower opcode rank, or both equal and a lower signal.
pub open spec fn in_order(t: &Compiled, s1: int, s2: int) -> bool {
    slots_in_order(t.netlist@, t.slot_level@, t.schedule@, s1, s2)
}

/// Slot `s1` precedes slot `s2`, for slot levels `lv` and schedule `sched`.
pub open spec fn slots_in_order(c: Circuit, lv: Seq<u32>, sched: Seq<u32>, s1: int, s2: int) -> bool {
    let (l1, l2) = (lv[s1], lv[s2]);
    let (x1, x2) = (sched[s1] as int, sched[s2] as int);
    let (r1, r2) = (sig_rank(c, x1), sig_rank(c, x2));
    l1 < l2 || (l1 == l2 && (r1 < r2 || (r1 == r2 && x1 < x2)))
}

/// The slot tables hold exact levels.
proof fn lemma_slot_levels(c: Circuit, level: Seq<u32>, sched: Seq<u32>, lv: Seq<u32>)
    requires
        exact_levels(c, level),
        lv.len() == sched.len(),
        forall|s: int| 0 <= s < sched.len() ==> (#[trigger] sched[s] as int) < level.len(),
        forall|s: int| 0 <= s < sched.len() ==> #[trigger] lv[s] == level[sched[s] as int],
    ensures
        forall|s: int| 0 <= s < sched.len() ==> #[trigger] lv[s] == signal_level(c.insts_seq(), sched[s] as int),
{
    assert forall|s: int| 0 <= s < sched.len() implies #[trigger] lv[s] == signal_level(c.insts_seq(), sched[s] as int) by {
        assert(lv[s] == level[sched[s] as int]);
        assert(sched[s] < level.len());
    }
}

/// Two slots of a schedule lie in strict order.
proof fn lemma_slot_pair_order(c: Circuit, level: Seq<u32>, sched: Seq<u32>, lv: Seq<u32>, s1: int, s2: int)
    requires
        3 * c.insts_seq().len() <= u32::MAX,
        levelled(c, level),
        scheduled(c, level, sched),
        lv.len() == sched.len(),
        forall|s: int| 0 <= s < sched.len() ==> #[trigger] lv[s] == level[sched[s] as int],
        0 <= s1 < s2 < sched.len(),
    ensures
        slots_in_order(c, lv, sched, s1, s2),
{
    let (x1, x2) = (sched[s1] as int, sched[s2] as int);
    assert(key_at(c, level, sched, s1) <= key_at(c, level, sched, s2));
    assert(x1 != x2);
    assert(0 <= sig_rank(c, x1) < 256);
    assert(0 <= sig_rank(c, x2) < 256);
    lemma_key_parts(level[x1], sig_rank(c, x1), x1);
    lemma_key_parts(level[x2], sig_rank(c, x2), x2);
    lemma_key_lex(level[x1], sig_rank(c, x1), x1, level[x2], sig_rank(c, x2), x2);
    assert(lv[s1] == level[x1]);
    assert(lv[s2] == level[x2]);
}

/// A maximal contiguous range of identical gates within one level.
#[derive(Clone, Copy, Debug)]
pub struct Run {
    pub op: Op,
    pub start: u32,
    pub end: u32,
}

/// One level of the schedule: `[start, end)` slot range and the runs inside.
#[derive(Clone, Copy, Debug)]
pub struct Level {
    pub start: u32,
    pub end: u32,
    pub run_start: u32,
    pub run_end: u32,
}

/// Flat compiled form of a [`Circuit`]: one entry per signal in schedule
/// order (sources first, then gates level by level).
pub struct Compiled {
    /// Operand slot indices; unused operands are 0.
    pub a: Vec<u32>,
    pub b: Vec<u32>,
    pub c: Vec<u32>,
    /// Opcode per slot; only meaningful from `gate_start` on.
    pub ops: Vec<Op>,
    /// First gate slot; everything before it is a source.
    pub gate_start: u32,
    pub runs: Vec<Run>,
    pub levels: Vec<Level>,
    /// Slot of each external input, indexed by input index.
    pub input_slots: Vec<u32>,
    /// `(slot, value)` for every constant.
    pub const_slots: Vec<(u32, u8)>,
    /// Slot holding each register's output (`u32::MAX` if none), by register.
    pub reg_out_slots: Vec<u32>,
    /// Slot computing each register's next state, by register.
    pub reg_in_slots: Vec<u32>,
    /// Initial register values.
    pub reg_initial: Vec<u8>,
    /// Slot of each declared output.
    pub output_slots: Vec<u32>,
    /// CSR successor map: slot to every gate slot reading it.
    pub succ_offsets: Vec<u32>,
    pub succ: Vec<u32>,
    /// Level of each slot (0 for sources).
    pub slot_level: Vec<u32>,
    /// The netlist the tape evaluates, and the signal held by each slot.
    pub netlist: Ghost<Circuit>,
    pub schedule: Ghost<Seq<u32>>,
}

/// Operand `o` of gate slot `s` is the slot of signal `sig`, earlier and
/// at a lower level.
pub open spec fn operand_ok(t: &Compiled, s: int, o: u32, sig: Signal) -> bool {
    &&& (o as int) < s
    &&& t.schedule@[o as int] == sig.0
    &&& t.slot_level@[o as int] < t.slot_level@[s]
}

/// Gate slot `s` evaluates its signal's gate on the slots of its inputs.
pub open spec fn gate_slot_ok(t: &Compiled, s: int) -> bool {
    t.netlist@.insts_seq()[t.schedule@[s] as int].data matches InstData::Gate { op, inputs } && {
        &&& t.ops@[s] == op_of(op)
        &&& operand_ok(t, s, t.a@[s], inputs@[0])
        &&& inputs@.len() > 1 ==> operand_ok(t, s, t.b@[s], inputs@[1])
        &&& inputs@.len() > 2 ==> operand_ok(t, s, t.c@[s], inputs@[2])
    }
}

impl Compiled {
    /// The tape is a faithful, schedule-ordered image of its netlist.
    pub open spec fn wf(&self) -> bool {
        let c = self.netlist@;
        let insts = c.insts_seq();
        let sched = self.schedule@;
        let n = self.ops@.len();
        &&& c.wf()
        &&& n == insts.len()
        &&& 3 * n <= u32::MAX
        &&& self.a@.len() == n && self.b@.len() == n && self.c@.len() == n && self.slot_level@.len() == n
        &&& sched.len() == n
        &&& forall|s: int| 0 <= s < n ==> (#[trigger] sched[s]) < n
        &&& forall|s1: int, s2: int| 0 <= s1 < n && 0 <= s2 < n && #[trigger] sched[s1] == #[trigger] sched[s2] ==> s1 == s2
        &&& self.gate_start <= n
        &&& forall|s: int| 0 <= s < n ==> ((s >= self.gate_start) == (#[trigger] insts[sched[s] as int]).data is Gate)
        &&& forall|s: int| self.gate_start <= s < n ==> #[trigger] gate_slot_ok(self, s)
        &&& runs_cover(self.runs@, self.ops@, self.slot_level@, self.gate_start as int, n as int)
        &&& levels_cover(self.levels@, self.runs@, self.slot_level@, self.gate_start as int, n as int, self.runs@.len() as int)
        &&& self.input_slots@.len() == c.input_count
        &&& forall|k: int|
            0 <= k < c.input_count ==> (#[trigger] self.input_slots@[k] as int) < n && is_input_inst(
                insts[sched[self.input_slots@[k] as int] as int],
                k,
            )
        &&& self.reg_out_slots@.len() == c.regs_seq().len()
        &&& forall|s: int, r: int|
            0 <= s < n && #[trigger] is_reg_inst(insts[sched[s] as int], r) ==> self.reg_out_slots@[r] == s
        &&& forall|r: int|
            0 <= r < c.regs_seq().len() && #[trigger] self.reg_out_slots@[r] != u32::MAX ==> (self.reg_out_slots@[r] as int)
                < n && is_reg_inst(insts[sched[self.reg_out_slots@[r] as int] as int], r)
        &&& self.reg_in_slots@.len() == c.regs_seq().len()
        &&& forall|r: int|
            0 <= r < c.regs_seq().len() ==> (#[trigger] self.reg_in_slots@[r] as int) < n && sched[self.reg_in_slots@[r] as int]
                == c.regs_seq()[r].data_input.0
        &&& self.reg_initial@.len() == c.regs_seq().len()
        &&& forall|r: int|
            0 <= r < c.regs_seq().len() ==> #[trigger] self.reg_initial@[r] == if c.regs_seq()[r].initial {
                1u8
            } else {
                0u8
            }
        &&& self.output_slots@.len() == c.output_signals@.len()
        &&& forall|k: int|
            0 <= k < c.output_signals@.len() ==> (#[trigger] self.output_slots@[k] as int) < n && sched[self.output_slots@[k] as int]
                == c.output_signals@[k].0
        &&& forall|q: int|
            0 <= q < self.const_slots@.len() ==> ((#[trigger] self.const_slots@[q]).0 as int) < n
                && insts[sched[self.const_slots@[q].0 as int] as int].data == (InstData::Const {
                value: self.const_slots@[q].1 == 1,
            }) && (self.const_slots@[q].1 == 0 || self.const_slots@[q].1 == 1)
        &&& forall|s: int|
            0 <= s < n && (#[trigger] insts[sched[s] as int]).data is Const ==> exists|q: int|
                0 <= q < self.const_slots@.len() && #[trigger] self.const_slots@[q].0 == s
        &&& self.successors_ok()
        &&& forall|s: int| 0 <= s < n ==> #[trigger] self.slot_level@[s] == signal_level(insts, sched[s] as int)
        &&& forall|s1: int, s2: int| 0 <= s1 < s2 < n ==> #[trigger] in_order(self, s1, s2)
    }

    /// The CSR map lists, for every slot, exactly those gate slots reading it,
    /// in slot order and once per operand that reads it.
    pub open spec fn successors_ok(&self) -> bool {
        let n = self.ops@.len();
        let off = self.succ_offsets@;
        &&& off.len() == n + 1
        &&& off[0] == 0
        &&& off[n as int] == self.succ@.len()
        &&& forall|i: int, j: int| 0 <= i <= j <= n ==> #[trigger] off[i] <= #[trigger] off[j]
        &&& forall|src: int|
            0 <= src < n ==> #[trigger] self.succ@.subrange(off[src] as int, off[src + 1] as int) == readers(
                self.a@,
                self.b@,
                self.c@,
                self.ops@,
                self.gate_start as int,
                n as int,
                src,
            )
    }

    /// The tape evaluates a netlist equivalent to `c`: same inputs, registers
    /// and outputs, the same outputs and next states on every input and
    /// state, and the same power-on state.
    pub open spec fn compiles(&self, c: Circuit) -> bool {
        let net = self.netlist@;
        &&& net.input_count == c.input_count
        &&& net.regs_seq().len() == c.regs_seq().len()
        &&& net.output_signals@.len() == c.output_signals@.len()
        &&& net.initial_state_spec() == c.initial_state_spec()
        &&& forall|inputs: Seq<bool>, state: Seq<bool>|
            #[trigger] net.output_values(inputs, state) == c.output_values(inputs, state)
        &&& forall|inputs: Seq<bool>, state: Seq<bool>|
            #[trigger] net.next_state(inputs, state) == c.next_state(inputs, state)
    }
}

/// `pos[x]` is the slot of signal `x`.
fn invert(sched: &Vec<u32>) -> (pos: Vec<u32>)
    requires
        3 * sched@.len() <= u32::MAX,
        forall|s: int| 0 <= s < sched@.len() ==> (#[trigger] sched@[s] as int) < sched@.len(),
        forall|s1: int, s2: int|
            0 <= s1 < sched@.len() && 0 <= s2 < sched@.len() && #[trigger] sched@[s1] == #[trigger] sched@[s2] ==> s1 == s2,
        forall|x: int| 0 <= x < sched@.len() ==> #[trigger] in_schedule(sched@, x),
    ensures
        pos@.len() == sched@.len(),
        forall|x: int| 0 <= x < sched@.len() ==> (#[trigger] pos@[x] as int) < sched@.len() && sched@[pos@[x] as int] == x,
        forall|s: int| 0 <= s < sched@.len() ==> #[trigger] pos@[sched@[s] as int] == s,
{
    let n = sched.len();
    let mut pos: Vec<u32> = vec![0u32; n];
    let mut slot: usize = 0;
    while slot < n
        invariant
            n == sched@.len(),
            3 * n <= u32::MAX,
            forall|s: int| 0 <= s < n ==> (#[trigger] sched@[s] as int) < n,
            forall|s1: int, s2: int| 0 <= s1 < n && 0 <= s2 < n && #[trigger] sched@[s1] == #[trigger] sched@[s2] ==> s1 == s2,
            slot <= n,
            pos@.len() == n,
            forall|s: int| 0 <= s < slot ==> #[trigger] pos@[sched@[s] as int] == s,
        decreases n - slot,
    {
        let ghost p0 = pos@;
        pos.set(sched[slot] as usize, slot as u32);
        proof {
            assert forall|s: int| 0 <= s < slot + 1 implies #[trigger] pos@[sched@[s] as int] == s by {
                if s < slot {
                    assert(sched@[s] != sched@[slot as int]);
                    assert(pos@[sched@[s] as int] == p0[sched@[s] as int]);
                }
            }
        }
        slot += 1;
    }
    proof {
        assert forall|x: int| 0 <= x < n implies (#[trigger] pos@[x] as int) < n && sched@[pos@[x] as int] == x by {
            assert(in_schedule(sched@, x));
            let s = choose|s: int| 0 <= s < n && sched@[s] == x;
            assert(pos@[sched@[s] as int] == s);
        }
    }
    pos
}

/// The per-slot tables, before runs and register wiring.
struct SlotTables {
    a: Vec<u32>,
    b: Vec<u32>,
    c: Vec<u32>,
    ops: Vec<Op>,
    slot_level: Vec<u32>,
    input_slots: Vec<u32>,
    const_slots: Vec<(u32, u8)>,
    reg_out_slots: Vec<u32>,
    gate_start: u32,
}

/// Gate slot `s` reads the slots of its instruction's inputs.
spec fn slot_operands(opt: Circuit, sched: Seq<u32>, pos: Seq<u32>, t: SlotTables, s: int) -> bool {
    opt.insts_seq()[sched[s] as int].data matches InstData::Gate { op, inputs } && {
        &&& t.ops@[s] == op_of(op)
        &&& t.a@[s] == pos[inputs@[0].0 as int]
        &&& inputs@.len() > 1 ==> t.b@[s] == pos[inputs@[1].0 as int]
        &&& inputs@.len() > 2 ==> t.c@[s] == pos[inputs@[2].0 as int]
    }
}

/// Fill the per-slot tables in schedule order.
#[verifier::rlimit(40)]
fn fill_slots(opt: &Circuit, level: &Vec<u32>, sched: &Vec<u32>, pos: &Vec<u32>) -> (t: SlotTables)
    requires
        opt.wf(),
        3 * opt.insts_seq().len() <= u32::MAX,
        levelled(*opt, level@),
        scheduled(*opt, level@, sched@),
        pos@.len() == sched@.len(),
        forall|x: int| 0 <= x < sched@.len() ==> (#[trigger] pos@[x] as int) < sched@.len() && sched@[pos@[x] as int] == x,
        forall|s: int| 0 <= s < sched@.len() ==> #[trigger] pos@[sched@[s] as int] == s,
    ensures
        ({
            let n = sched@.len();
            let insts = opt.insts_seq();
            &&& t.a@.len() == n && t.b@.len() == n && t.c@.len() == n && t.ops@.len() == n && t.slot_level@.len() == n
            &&& forall|s: int| 0 <= s < n ==> #[trigger] t.slot_level@[s] == level@[sched@[s] as int]
            &&& forall|s: int| 0 <= s < n ==> (#[trigger] t.a@[s]) < n && t.b@[s] < n && t.c@[s] < n
            &&& t.gate_start <= n
            &&& forall|s: int| 0 <= s < n ==> ((s >= t.gate_start) == (#[trigger] insts[sched@[s] as int]).data is Gate)
            &&& forall|s: int| t.gate_start <= s < n ==> #[trigger] slot_operands(*opt, sched@, pos@, t, s)
            &&& t.input_slots@.len() == opt.input_count
            &&& forall|k: int|
                0 <= k < opt.input_count ==> (#[trigger] t.input_slots@[k] as int) < n && is_input_inst(
                    insts[sched@[t.input_slots@[k] as int] as int],
                    k,
                )
            &&& t.reg_out_slots@.len() == opt.regs_seq().len()
            &&& forall|s: int, r: int|
                0 <= s < n && #[trigger] is_reg_inst(insts[sched@[s] as int], r) ==> t.reg_out_slots@[r] == s
            &&& forall|r: int|
                0 <= r < opt.regs_seq().len() && #[trigger] t.reg_out_slots@[r] != u32::MAX ==> (t.reg_out_slots@[r] as int)
                    < n && is_reg_inst(insts[sched@[t.reg_out_slots@[r] as int] as int], r)
            &&& forall|q: int|
                0 <= q < t.const_slots@.len() ==> ((#[trigger] t.const_slots@[q]).0 as int) < n
                    && insts[sched@[t.const_slots@[q].0 as int] as int].data == (InstData::Const {
                    value: t.const_slots@[q].1 == 1,
                }) && (t.const_slots@[q].1 == 0 || t.const_slots@[q].1 == 1)
            &&& forall|s: int|
                0 <= s < n && (#[trigger] insts[sched@[s] as int]).data is Const ==> exists|q: int|
                    0 <= q < t.const_slots@.len() && #[trigger] t.const_slots@[q].0 == s
        }),
{
    let ghost insts = opt.insts_seq();
    let n = sched.len();
    let nregs = reg_map_len(&opt.regs);
    let mut t = SlotTables {
        a: vec![0u32; n],
        b: vec![0u32; n],
        c: vec![0u32; n],
        ops: vec![Op::Buf; n],
        slot_level: vec![0u32; n],
        input_slots: vec![u32::MAX; opt.input_count as usize],
        const_slots: Vec::new(),
        reg_out_slots: vec![u32::MAX; nregs],
        gate_start: n as u32,
    };
    let mut slot: usize = 0;
    while slot < n
        invariant
            opt.wf(),
            insts == opt.insts_seq(),
            n == insts.len(),
            3 * n <= u32::MAX,
            nregs == opt.regs_seq().len(),
            levelled(*opt, level@),
            scheduled(*opt, level@, sched@),
            pos@.len() == n,
            forall|x: int| 0 <= x < n ==> (#[trigger] pos@[x] as int) < n && sched@[pos@[x] as int] == x,
            forall|s: int| 0 <= s < n ==> #[trigger] pos@[sched@[s] as int] == s,
            slot <= n,
            t.a@.len() == n && t.b@.len() == n && t.c@.len() == n && t.ops@.len() == n && t.slot_level@.len() == n,
            t.input_slots@.len() == opt.input_count,
            t.reg_out_slots@.len() == nregs,
            forall|s: int| 0 <= s < slot ==> #[trigger] t.slot_level@[s] == level@[sched@[s] as int],
            forall|s: int| 0 <= s < n ==> (#[trigger] t.a@[s]) < n && t.b@[s] < n && t.c@[s] < n,
            t.gate_start <= n,
            t.gate_start < n ==> t.gate_start < slot && insts[sched@[t.gate_start as int] as int].data is Gate,
            forall|s: int| 0 <= s < slot && (#[trigger] insts[sched@[s] as int]).data is Gate ==> t.gate_start <= s,
            forall|s: int| 0 <= s < slot && s >= t.gate_start ==> #[trigger] slot_operands(*opt, sched@, pos@, t, s)
                || !(insts[sched@[s] as int].data is Gate),
            forall|k: int|
                0 <= k < opt.input_count && #[trigger] t.input_slots@[k] != u32::MAX ==> (t.input_slots@[k] as int) < slot
                    && is_input_inst(insts[sched@[t.input_slots@[k] as int] as int], k),
            forall|s: int, k: int|
                0 <= s < slot && #[trigger] is_input_inst(insts[sched@[s] as int], k) ==> t.input_slots@[k] == s,
            forall|s: int, r: int|
                0 <= s < slot && #[trigger] is_reg_inst(insts[sched@[s] as int], r) ==> t.reg_out_slots@[r] == s,
            forall|r: int|
                0 <= r < nregs && #[trigger] t.reg_out_slots@[r] != u32::MAX ==> (t.reg_out_slots@[r] as int) < slot
                    && is_reg_inst(insts[sched@[t.reg_out_slots@[r] as int] as int], r),
            forall|q: int|
                0 <= q < t.const_slots@.len() ==> ((#[trigger] t.const_slots@[q]).0 as int) < slot
                    && insts[sched@[t.const_slots@[q].0 as int] as int].data == (InstData::Const {
                    value: t.const_slots@[q].1 == 1,
                }) && (t.const_slots@[q].1 == 0 || t.const_slots@[q].1 == 1),
            forall|s: int|
                0 <= s < slot && (#[trigger] insts[sched@[s] as int]).data is Const ==> exists|q: int|
                    0 <= q < t.const_slots@.len() && #[trigger] t.const_slots@[q].0 == s,
        decreases n - slot,
    {
        let old = sched[slot];
        let inst = inst_map_get(&opt.insts, Signal(old));
        let ghost t0 = t;
        proof {
            assert(crate::circuit::inst_wf(insts[old as int], old as int, opt.input_count as nat, nregs as nat));
            assert(pos@[sched@[slot as int] as int] == slot);
        }
        t.slot_level.set(slot, level[old as usize]);
        match &inst.data {
            InstData::Const { value } => {
                let v: u8 = if *value {
                    1
                } else {
                    0
                };
                t.const_slots.push((slot as u32, v));
                proof {
                    assert(t.const_slots@[t0.const_slots@.len() as int].0 == slot);
                }
            },
            InstData::Input { index } => {
                t.input_slots.set(*index as usize, slot as u32);
            },
            InstData::RegisterOutput { reg } => {
                t.reg_out_slots.set(reg.0 as usize, slot as u32);
            },
            InstData::Gate { op, inputs } => {
                if (slot as u32) < t.gate_start {
                    t.gate_start = slot as u32;
                }
                t.ops.set(slot, Op::from_gate(*op));
                proof {
                    assert forall|k: int| 0 <= k < inputs@.len() implies (#[trigger] pos@[inputs@[k].0 as int] as int) < n by {
                        assert(inputs@[k].0 < old);
                        assert(old < n);
                    }
                    assert(t0.a@[slot as int] < n);
                    assert(t0.b@[slot as int] < n && t0.c@[slot as int] < n);
                }
                let pa = pos[inputs[0].0 as usize];
                t.a.set(slot, pa);
                if inputs.len() > 1 {
                    let pb = pos[inputs[1].0 as usize];
                    assert(pb < n);
                    t.b.set(slot, pb);
                }
                if inputs.len() > 2 {
                    let pc = pos[inputs[2].0 as usize];
                    assert(pc < n);
                    t.c.set(slot, pc);
                }
                proof {
                    assert(pa < n);
                    assert(t.a@[slot as int] < n && t.b@[slot as int] < n && t.c@[slot as int] < n);
                }
            },
        }
        proof {
            let x = sched@[slot as int] as int;
            assert forall|s: int| 0 <= s < n implies (#[trigger] t.a@[s]) < n && t.b@[s] < n && t.c@[s] < n by {
                assert(t0.a@[s] < n);
                if s != slot || !(insts[x].data is Gate) {
                    assert(t.a@[s] == t0.a@[s] && t.b@[s] == t0.b@[s] && t.c@[s] == t0.c@[s]);
                }
            }
            assert(forall|s: int| 0 <= s < n ==> (#[trigger] t.a@[s]) < n && t.b@[s] < n && t.c@[s] < n);
            assert(insts[x] == *inst);
            assert forall|s: int| 0 <= s < slot + 1 && s >= t.gate_start implies #[trigger] slot_operands(*opt, sched@, pos@, t, s)
                || !(insts[sched@[s] as int].data is Gate) by {
                if s < slot && insts[sched@[s] as int].data is Gate {
                    assert(t0.gate_start <= s);
                    assert(slot_operands(*opt, sched@, pos@, t0, s));
                }
            }
            assert forall|s: int, k: int|
                0 <= s < slot + 1 && #[trigger] is_input_inst(insts[sched@[s] as int], k) implies t.input_slots@[k] == s by {
                if s < slot && is_input_inst(insts[x], k) {
                    assert(sched@[s] != sched@[slot as int]);
                }
            }
            assert forall|s: int, r: int|
                0 <= s < slot + 1 && #[trigger] is_reg_inst(insts[sched@[s] as int], r) implies t.reg_out_slots@[r] == s by {
                if s < slot && is_reg_inst(insts[x], r) {
                    assert(sched@[s] != sched@[slot as int]);
                }
            }
            assert forall|s: int|
                0 <= s < slot + 1 && (#[trigger] insts[sched@[s] as int]).data is Const implies exists|q: int|
                    0 <= q < t.const_slots@.len() && #[trigger] t.const_slots@[q].0 == s by {
                if s < slot {
                    let q = choose|q: int| 0 <= q < t0.const_slots@.len() && #[trigger] t0.const_slots@[q].0 == s;
                    assert(t.const_slots@[q] == t0.const_slots@[q]);
                }
            }
        }
        slot += 1;
    }
    proof {
        // The sources come first: every slot past the first gate holds a gate.
        assert forall|s: int| 0 <= s < n implies ((s >= t.gate_start) == (#[trigger] insts[sched@[s] as int]).data is Gate) by {
            if s >= t.gate_start && t.gate_start < n {
                let g = t.gate_start as int;
                assert(key_at(*opt, level@, sched@, g) <= key_at(*opt, level@, sched@, s));
                lemma_key_order(
                    level@[sched@[g] as int],
                    sig_rank(*opt, sched@[g] as int),
                    sched@[g] as int,
                    level@[sched@[s] as int],
                    sig_rank(*opt, sched@[s] as int),
                    sched@[s] as int,
                );
                assert(match insts[sched@[g] as int].data {
                    InstData::Gate { inputs, .. } => level@[sched@[g] as int] > 0,
                    _ => level@[sched@[g] as int] == 0,
                });
                assert(match insts[sched@[s] as int].data {
                    InstData::Gate { inputs, .. } => level@[sched@[s] as int] > 0,
                    _ => level@[sched@[s] as int] == 0,
                });
            }
        }
        assert forall|k: int| 0 <= k < opt.input_count implies (#[trigger] t.input_slots@[k] as int) < n && is_input_inst(
            insts[sched@[t.input_slots@[k] as int] as int],
            k,
        ) by {
            assert(crate::circuit::input_has_inst(insts, k));
            let x = choose|x: int| 0 <= x < insts.len() && #[trigger] is_input_inst(insts[x], k);
            assert(pos@[x] < n && sched@[pos@[x] as int] == x);
            assert(is_input_inst(insts[sched@[pos@[x] as int] as int], k));
        }
    }
    t
}

/// `runs` split `[from, to)`, in order, into maximal non-empty ranges of
/// one opcode and one level: neighbouring runs differ in one or the other.
#[verifier::opaque]
pub open spec fn runs_cover(runs: Seq<Run>, ops: Seq<Op>, lv: Seq<u32>, from: int, to: int) -> bool {
    &&& (runs.len() == 0) == (to == from)
    &&& runs.len() > 0 ==> runs[0].start == from && runs.last().end == to
    &&& forall|k: int| 0 <= k < runs.len() ==> from <= (#[trigger] runs[k]).start < runs[k].end <= to
    &&& forall|k1: int, k2: int|
        #![trigger runs[k1], runs[k2]]
        0 <= k1 && k2 == k1 + 1 && k2 < runs.len() ==> runs[k1].end == runs[k2].start && (runs[k1].op != runs[k2].op
            || lv[runs[k1].start as int] != lv[runs[k2].start as int])
    &&& forall|k: int, s: int|
        0 <= k < runs.len() && (#[trigger] runs[k]).start <= s < runs[k].end ==> #[trigger] ops[s] == runs[k].op && lv[s]
            == lv[runs[k].start as int]
}

/// `levels` split `[from, to)`, in order, into ranges of one level each,
/// covered by consecutive runs ending at run `run_count`.
#[verifier::opaque]
pub open spec fn levels_cover(levels: Seq<Level>, runs: Seq<Run>, lv: Seq<u32>, from: int, to: int, run_count: int) -> bool {
    &&& (levels.len() == 0) == (to == from)
    &&& levels.len() == 0 ==> run_count == 0
    &&& levels.len() > 0 ==> levels[0].start == from && levels.last().end == to && levels[0].run_start == 0
        && levels.last().run_end == run_count
    &&& forall|k: int|
        0 <= k < levels.len() ==> {
            let l = #[trigger] levels[k];
            &&& l.start < l.end
            &&& l.run_start < l.run_end <= run_count
            &&& runs[l.run_start as int].start == l.start
            &&& runs[l.run_end - 1].end == l.end
        }
    &&& forall|k1: int, k2: int|
        #![trigger levels[k1], levels[k2]]
        0 <= k1 && k2 == k1 + 1 && k2 < levels.len() ==> levels[k1].end == levels[k2].start && levels[k1].run_end
            == levels[k2].run_start && lv[levels[k1].start as int] < lv[levels[k2].start as int]
    &&& forall|k: int, s: int|
        0 <= k < levels.len() && (#[trigger] levels[k]).start <= s < levels[k].end ==> #[trigger] lv[s]
            == lv[levels[k].start as int]
}

proof fn lemma_runs_empty(ops: Seq<Op>, lv: Seq<u32>, from: int)
    ensures
        runs_cover(Seq::empty(), ops, lv, from, from),
{
    reveal(runs_cover);
}

/// Appending a uniform run that starts where the covered range ends extends
/// the cover.
#[verifier::rlimit(60)]
proof fn lemma_runs_push(runs: Seq<Run>, ops: Seq<Op>, lv: Seq<u32>, from: int, to: int, run: Run)
    requires
        runs_cover(runs, ops, lv, from, to),
        from <= to,
        run.start == to,
        run.start < run.end,
        forall|s: int| run.start <= s < run.end ==> #[trigger] ops[s] == run.op && lv[s] == lv[run.start as int],
        runs.len() > 0 ==> runs.last().op != run.op || lv[runs.last().start as int] != lv[run.start as int],
    ensures
        runs_cover(runs.push(run), ops, lv, from, run.end as int),
{
    reveal(runs_cover);
    let r2 = runs.push(run);
    assert forall|k: int, s: int|
        0 <= k < r2.len() && (#[trigger] r2[k]).start <= s < r2[k].end implies #[trigger] ops[s] == r2[k].op && lv[s]
            == lv[r2[k].start as int] by {
        if k < runs.len() {
            assert(r2[k] == runs[k]);
        }
    }
    assert forall|k1: int, k2: int|
        #![trigger r2[k1], r2[k2]]
        0 <= k1 && k2 == k1 + 1 && k2 < r2.len() implies r2[k1].end == r2[k2].start && (r2[k1].op != r2[k2].op
            || lv[r2[k1].start as int] != lv[r2[k2].start as int]) by {
        if k2 < runs.len() {
            assert(r2[k1] == runs[k1]);
            assert(r2[k2] == runs[k2]);
        } else if runs.len() > 0 {
            assert(r2[k1] == runs.last());
        }
    }
    assert forall|k: int| 0 <= k < r2.len() implies from <= (#[trigger] r2[k]).start < r2[k].end <= run.end by {
        if k < runs.len() {
            assert(r2[k] == runs[k]);
        }
    }
}

proof fn lemma_levels_empty(runs: Seq<Run>, lv: Seq<u32>, from: int)
    ensures
        levels_cover(Seq::empty(), runs, lv, from, from, 0),
{
    reveal(levels_cover);
}

/// Appending a level whose runs follow the previous levels' runs extends
/// the cover; the runs of earlier levels are unchanged.
#[verifier::rlimit(60)]
proof fn lemma_levels_push(
    levels: Seq<Level>,
    runs: Seq<Run>,
    runs2: Seq<Run>,
    lv: Seq<u32>,
    from: int,
    to: int,
    run_count: int,
    l: Level,
)
    requires
        levels_cover(levels, runs, lv, from, to, run_count),
        from <= to,
        run_count <= runs.len(),
        runs2.len() >= runs.len(),
        forall|k: int| 0 <= k < runs.len() ==> #[trigger] runs2[k] == runs[k],
        l.start == to,
        l.start < l.end,
        l.run_start == run_count,
        l.run_start < l.run_end <= runs2.len(),
        runs2[l.run_start as int].start == l.start,
        runs2[l.run_end - 1].end == l.end,
        levels.len() > 0 ==> lv[levels.last().start as int] < lv[l.start as int],
        forall|s: int| l.start <= s < l.end ==> #[trigger] lv[s] == lv[l.start as int],
    ensures
        levels_cover(levels.push(l), runs2, lv, from, l.end as int, l.run_end as int),
{
    reveal(levels_cover);
    let lvs = levels.push(l);
    assert forall|k: int| 0 <= k < lvs.len() implies {
        let m = #[trigger] lvs[k];
        &&& m.start < m.end
        &&& m.run_start < m.run_end <= l.run_end
        &&& runs2[m.run_start as int].start == m.start
        &&& runs2[m.run_end - 1].end == m.end
    } by {
        if k < levels.len() {
            assert(lvs[k] == levels[k]);
            assert(levels[k].run_end <= run_count);
        }
    }
    assert forall|k1: int, k2: int|
        #![trigger lvs[k1], lvs[k2]]
        0 <= k1 && k2 == k1 + 1 && k2 < lvs.len() implies lvs[k1].end == lvs[k2].start && lvs[k1].run_end == lvs[k2].run_start
            && lv[lvs[k1].start as int] < lv[lvs[k2].start as int] by {
        if k2 < levels.len() {
            assert(lvs[k1] == levels[k1]);
            assert(lvs[k2] == levels[k2]);
        } else {
            assert(lvs[k1] == levels.last());
        }
    }
    assert forall|k: int, s: int|
        0 <= k < lvs.len() && (#[trigger] lvs[k]).start <= s < lvs[k].end implies #[trigger] lv[s] == lv[lvs[k].start as int] by {
        if k < levels.len() {
            assert(lvs[k] == levels[k]);
        }
    }
}

/// Append the runs of the level starting at slot `start`; returns where the
/// level ends.
fn scan_level(ops: &Vec<Op>, slot_level: &Vec<u32>, g: usize, start: usize, runs: &mut Vec<Run>) -> (end: usize)
    requires
        ops@.len() == slot_level@.len(),
        3 * ops@.len() <= u32::MAX,
        g <= start < ops@.len(),
        runs_cover(old(runs)@, ops@, slot_level@, g as int, start as int),
        old(runs)@.len() <= start - g,
        old(runs)@.len() > 0 ==> slot_level@[old(runs)@.last().start as int] != slot_level@[start as int],
    ensures
        slot_level@[final(runs)@.last().start as int] == slot_level@[start as int],
        start < end <= ops@.len(),
        forall|s: int| start <= s < end ==> #[trigger] slot_level@[s] == slot_level@[start as int],
        end == ops@.len() || slot_level@[end as int] != slot_level@[start as int],
        runs_cover(final(runs)@, ops@, slot_level@, g as int, end as int),
        final(runs)@.len() > old(runs)@.len(),
        final(runs)@.len() <= end - g,
        final(runs)@[old(runs)@.len() as int].start == start,
        final(runs)@.last().end == end,
        forall|k: int| 0 <= k < old(runs)@.len() ==> #[trigger] final(runs)@[k] == old(runs)@[k],
{
    let n = ops.len();
    let ghost lv = slot_level@;
    let ghost runs0 = runs@;
    let lvl = slot_level[start];
    let mut slot: usize = start;
    while slot < n && slot_level[slot] == lvl
        invariant
            n == ops@.len(),
            n == lv.len(),
            lv == slot_level@,
            3 * n <= u32::MAX,
            g <= start <= slot <= n,
            lvl == lv[start as int],
            start < n,
            slot == start ==> slot < n && lv[slot as int] == lvl,
            forall|s: int| start <= s < slot ==> #[trigger] lv[s] == lvl,
            runs_cover(runs@, ops@, lv, g as int, slot as int),
            runs@.len() <= slot - g,
            runs@.len() >= runs0.len(),
            forall|k: int| 0 <= k < runs0.len() ==> #[trigger] runs@[k] == runs0[k],
            slot > start ==> runs@.len() > runs0.len() && runs@[runs0.len() as int].start == start && runs@.last().end == slot,
            slot > start ==> lv[runs@.last().start as int] == lvl,
            slot > start && slot < n && lv[slot as int] == lvl ==> ops@[slot as int] != runs@.last().op,
            slot == start ==> runs@.len() == runs0.len(),
            runs0.len() > 0 ==> lv[runs0.last().start as int] != lvl,
        decreases n - slot,
    {
        let op = ops[slot];
        let run_begin = slot;
        while slot < n && slot_level[slot] == lvl && ops[slot] == op
            invariant
                n == ops@.len(),
                n == lv.len(),
                lv == slot_level@,
                run_begin <= slot <= n,
                slot == run_begin ==> slot < n && lv[slot as int] == lvl && ops@[slot as int] == op,
                forall|s: int| run_begin <= s < slot ==> #[trigger] ops@[s] == op,
                forall|s: int| run_begin <= s < slot ==> #[trigger] lv[s] == lvl,
            decreases n - slot,
        {
            slot += 1;
        }
        let ghost runs1 = runs@;
        let run = Run { op, start: run_begin as u32, end: slot as u32 };
        proof {
            if run_begin == start && runs1.len() > 0 {
                assert(runs1.last() == runs0.last());
            }
            lemma_runs_push(runs1, ops@, lv, g as int, run_begin as int, run);
        }
        runs.push(run);
    }
    slot
}

/// Runs and levels over gate slots `[gate_start, n)`.
fn build_runs(ops: &Vec<Op>, slot_level: &Vec<u32>, gate_start: u32) -> (r: (Vec<Run>, Vec<Level>))
    requires
        ops@.len() == slot_level@.len(),
        3 * ops@.len() <= u32::MAX,
        gate_start <= ops@.len(),
        forall|s1: int, s2: int|
            gate_start <= s1 <= s2 < ops@.len() ==> #[trigger] slot_level@[s1] <= #[trigger] slot_level@[s2],
    ensures
        runs_cover(r.0@, ops@, slot_level@, gate_start as int, ops@.len() as int),
        levels_cover(r.1@, r.0@, slot_level@, gate_start as int, ops@.len() as int, r.0@.len() as int),
{
    let n = ops.len();
    let g = gate_start as usize;
    let ghost lv = slot_level@;
    let mut runs: Vec<Run> = Vec::new();
    let mut levels: Vec<Level> = Vec::new();
    proof {
        lemma_runs_empty(ops@, lv, g as int);
        lemma_levels_empty(runs@, lv, g as int);
    }
    let mut slot: usize = g;
    while slot < n
        invariant
            n == ops@.len(),
            n == lv.len(),
            lv == slot_level@,
            3 * n <= u32::MAX,
            g <= slot <= n,
            forall|s1: int, s2: int| g <= s1 <= s2 < n ==> #[trigger] lv[s1] <= #[trigger] lv[s2],
            runs_cover(runs@, ops@, lv, g as int, slot as int),
            levels_cover(levels@, runs@, lv, g as int, slot as int, runs@.len() as int),
            runs@.len() <= slot - g,
            levels@.len() > 0 ==> slot == n || lv[levels@.last().start as int] < lv[slot as int],
            runs@.len() > 0 ==> levels@.len() > 0 && lv[runs@.last().start as int] == lv[levels@.last().start as int],
        decreases n - slot,
    {
        let level_start = slot;
        let run_start = runs.len();
        let ghost levels0 = levels@;
        let ghost runs0 = runs@;
        let end = scan_level(ops, slot_level, g, slot, &mut runs);
        let l = Level { start: level_start as u32, end: end as u32, run_start: run_start as u32, run_end: runs.len() as u32 };
        proof {
            lemma_levels_push(levels0, runs0, runs@, lv, g as int, level_start as int, run_start as int, l);
            if end < n {
                assert(lv[level_start as int] <= lv[end as int]);
            }
        }
        levels.push(l);
        slot = end;
    }
    (runs, levels)
}

/// Gate slots among `[g, upto)` reading slot `src`, in slot order, once
/// per operand that reads it.
pub open spec fn readers(a: Seq<u32>, b: Seq<u32>, c: Seq<u32>, ops: Seq<Op>, g: int, upto: int, src: int) -> Seq<u32>
    decreases upto - g,
{
    if upto <= g {
        Seq::empty()
    } else {
        let prev = readers(a, b, c, ops, g, upto - 1, src);
        let s = upto - 1;
        let ar = gate_arity(op_gate(ops[s]));
        let p1 = if a[s] == src {
            prev.push(s as u32)
        } else {
            prev
        };
        let p2 = if ar > 1 && b[s] == src {
            p1.push(s as u32)
        } else {
            p1
        };
        if ar > 2 && c[s] == src {
            p2.push(s as u32)
        } else {
            p2
        }
    }
}

/// Number of operand reads among `[g, upto)`.
spec fn total_reads(ops: Seq<Op>, g: int, upto: int) -> int
    decreases upto - g,
{
    if upto <= g {
        0
    } else {
        total_reads(ops, g, upto - 1) + gate_arity(op_gate(ops[upto - 1]))
    }
}

/// The sum of `|readers(src)|` over `src < i`.
spec fn reads_before(a: Seq<u32>, b: Seq<u32>, c: Seq<u32>, ops: Seq<Op>, g: int, upto: int, i: int) -> int
    decreases i,
{
    if i <= 0 {
        0
    } else {
        reads_before(a, b, c, ops, g, upto, i - 1) + readers(a, b, c, ops, g, upto, i - 1).len()
    }
}

/// Every operand read among `[g, upto)` is counted once for its slot.
proof fn lemma_reads_total(a: Seq<u32>, b: Seq<u32>, c: Seq<u32>, ops: Seq<Op>, g: int, upto: int, n: int)
    requires
        g <= upto <= n,
        a.len() == n && b.len() == n && c.len() == n && ops.len() == n,
        forall|s: int| g <= s < n ==> (#[trigger] a[s]) < n && b[s] < n && c[s] < n,
    ensures
        reads_before(a, b, c, ops, g, upto, n) == total_reads(ops, g, upto),
    decreases upto - g,
{
    if upto > g {
        lemma_reads_total(a, b, c, ops, g, upto - 1, n);
        lemma_reads_step(a, b, c, ops, g, upto, n, n);
    } else {
        lemma_reads_none(a, b, c, ops, g, upto, n);
    }
}

proof fn lemma_reads_none(a: Seq<u32>, b: Seq<u32>, c: Seq<u32>, ops: Seq<Op>, g: int, upto: int, i: int)
    requires
        upto <= g,
    ensures
        reads_before(a, b, c, ops, g, upto, i) == 0,
    decreases i,
{
    if i > 0 {
        lemma_reads_none(a, b, c, ops, g, upto, i - 1);
    }
}

/// Adding slot `upto - 1` adds its arity to the reads below any bound
/// covering its operands.
proof fn lemma_reads_step(a: Seq<u32>, b: Seq<u32>, c: Seq<u32>, ops: Seq<Op>, g: int, upto: int, n: int, i: int)
    requires
        g < upto <= n,
        0 <= i <= n,
        a.len() == n && b.len() == n && c.len() == n && ops.len() == n,
    ensures
        reads_before(a, b, c, ops, g, upto, i) == reads_before(a, b, c, ops, g, upto - 1, i) + (if a[upto - 1] < i {
            1int
        } else {
            0
        }) + (if gate_arity(op_gate(ops[upto - 1])) > 1 && b[upto - 1] < i {
            1int
        } else {
            0
        }) + (if gate_arity(op_gate(ops[upto - 1])) > 2 && c[upto - 1] < i {
            1int
        } else {
            0
        }),
    decreases i,
{
    if i > 0 {
        lemma_reads_step(a, b, c, ops, g, upto, n, i - 1);
    }
}

/// The readers of `src` recorded up to operand `k` of slot `slot`.
spec fn partial(a: Seq<u32>, b: Seq<u32>, c: Seq<u32>, ops: Seq<Op>, g: int, slot: int, src: int, k: int) -> Seq<u32> {
    let prev = readers(a, b, c, ops, g, slot, src);
    let ar = gate_arity(op_gate(ops[slot]));
    let p1 = if k > 0 && a[slot] == src {
        prev.push(slot as u32)
    } else {
        prev
    };
    let p2 = if k > 1 && ar > 1 && b[slot] == src {
        p1.push(slot as u32)
    } else {
        p1
    };
    if k > 2 && ar > 2 && c[slot] == src {
        p2.push(slot as u32)
    } else {
        p2
    }
}

spec fn is_prefix_of(s: Seq<u32>, t: Seq<u32>) -> bool {
    s.len() <= t.len() && forall|q: int| 0 <= q < s.len() ==> s[q] == t[q]
}

proof fn lemma_readers_prefix(a: Seq<u32>, b: Seq<u32>, c: Seq<u32>, ops: Seq<Op>, g: int, s1: int, s2: int, src: int)
    requires
        g <= s1 <= s2,
    ensures
        is_prefix_of(readers(a, b, c, ops, g, s1, src), readers(a, b, c, ops, g, s2, src)),
    decreases s2 - s1,
{
    if s1 < s2 {
        lemma_readers_prefix(a, b, c, ops, g, s1, s2 - 1, src);
        let r1 = readers(a, b, c, ops, g, s1, src);
        let rm = readers(a, b, c, ops, g, s2 - 1, src);
        let r2 = readers(a, b, c, ops, g, s2, src);
        assert(is_prefix_of(rm, r2));
        assert forall|q: int| 0 <= q < r1.len() implies r1[q] == r2[q] by {
            assert(r1[q] == rm[q]);
        }
    }
}

proof fn lemma_reads_before_mono(a: Seq<u32>, b: Seq<u32>, c: Seq<u32>, ops: Seq<Op>, g: int, upto: int, i: int, j: int)
    requires
        0 <= i <= j,
    ensures
        reads_before(a, b, c, ops, g, upto, i) <= reads_before(a, b, c, ops, g, upto, j),
    decreases j - i,
{
    if i < j {
        lemma_reads_before_mono(a, b, c, ops, g, upto, i, j - 1);
    }
}

proof fn lemma_total_reads_bound(ops: Seq<Op>, g: int, upto: int)
    requires
        g <= upto,
    ensures
        0 <= total_reads(ops, g, upto) <= 3 * (upto - g),
    decreases upto - g,
{
    if upto > g {
        lemma_total_reads_bound(ops, g, upto - 1);
    }
}

/// The readers recorded so far sit at the front of each slot's range.
spec fn fill_ok(
    succ: Seq<u32>,
    cursor: Seq<u32>,
    offsets: Seq<u32>,
    a: Seq<u32>,
    b: Seq<u32>,
    c: Seq<u32>,
    ops: Seq<Op>,
    g: int,
    n: int,
    slot: int,
    k: int,
) -> bool {
    forall|src: int|
        0 <= src < n ==> {
            let done = #[trigger] partial(a, b, c, ops, g, slot, src, k);
            &&& cursor[src] == offsets[src] + done.len()
            &&& forall|q: int| 0 <= q < done.len() ==> succ[offsets[src] + q] == done[q]
        }
}

/// Record `slot` as the next reader of `src`.
fn record(succ: &mut Vec<u32>, cursor: &mut Vec<u32>, src: u32, slot: u32)
    requires
        (src as int) < old(cursor)@.len(),
        (old(cursor)@[src as int] as int) < old(succ)@.len(),
        old(succ)@.len() <= u32::MAX,
    ensures
        final(cursor)@ == old(cursor)@.update(src as int, (old(cursor)@[src as int] + 1) as u32),
        final(succ)@ == old(succ)@.update(old(cursor)@[src as int] as int, slot),
{
    let at = cursor[src as usize];
    succ.set(at as usize, slot);
    cursor.set(src as usize, at + 1);
}

/// One recording step keeps every range in order: the new reader lands at
/// the cursor of its own slot, past the front of every other range.
proof fn lemma_fill_step(
    succ: Seq<u32>,
    cursor: Seq<u32>,
    offsets: Seq<u32>,
    a: Seq<u32>,
    b: Seq<u32>,
    c: Seq<u32>,
    ops: Seq<Op>,
    g: int,
    n: int,
    slot: int,
    k: int,
    src0: int,
)
    requires
        g <= slot < n,
        0 <= k < 3,
        a.len() == n && b.len() == n && c.len() == n && ops.len() == n,
        offsets.len() == n + 1,
        cursor.len() == n + 1,
        succ.len() == offsets[n],
        forall|i: int| 0 <= i <= n ==> #[trigger] offsets[i] == reads_before(a, b, c, ops, g, n, i),
        fill_ok(succ, cursor, offsets, a, b, c, ops, g, n, slot, k),
        0 <= src0 < n,
        partial(a, b, c, ops, g, slot, src0, k + 1) == partial(a, b, c, ops, g, slot, src0, k).push(slot as u32),
        forall|src: int|
            0 <= src < n && src != src0 ==> #[trigger] partial(a, b, c, ops, g, slot, src, k + 1) == partial(
                a,
                b,
                c,
                ops,
                g,
                slot,
                src,
                k,
            ),
    ensures
        (cursor[src0] as int) < offsets[src0 + 1],
        (cursor[src0] as int) < succ.len(),
        fill_ok(
            succ.update(cursor[src0] as int, slot as u32),
            cursor.update(src0, (cursor[src0] + 1) as u32),
            offsets,
            a,
            b,
            c,
            ops,
            g,
            n,
            slot,
            k + 1,
        ),
{
    let succ2 = succ.update(cursor[src0] as int, slot as u32);
    let cursor2 = cursor.update(src0, (cursor[src0] + 1) as u32);
    // Everything recorded for a slot is a prefix of its full reader list.
    assert forall|src: int| 0 <= src < n implies is_prefix_of(
        #[trigger] partial(a, b, c, ops, g, slot, src, k + 1),
        readers(a, b, c, ops, g, n, src),
    ) by {
        lemma_readers_prefix(a, b, c, ops, g, slot + 1, n, src);
        let full1 = readers(a, b, c, ops, g, slot + 1, src);
        assert(partial(a, b, c, ops, g, slot, src, 3) == full1);
        let p = partial(a, b, c, ops, g, slot, src, k + 1);
        assert(is_prefix_of(p, full1));
    }
    let p0 = partial(a, b, c, ops, g, slot, src0, k);
    assert(p0.len() + 1 <= readers(a, b, c, ops, g, n, src0).len());
    lemma_reads_before_mono(a, b, c, ops, g, n, src0 + 1, n);
    assert(offsets[src0 + 1] == offsets[src0] + readers(a, b, c, ops, g, n, src0).len());
    assert forall|src: int| 0 <= src < n implies {
        let done = #[trigger] partial(a, b, c, ops, g, slot, src, k + 1);
        &&& cursor2[src] == offsets[src] + done.len()
        &&& forall|q: int| 0 <= q < done.len() ==> succ2[offsets[src] + q] == done[q]
    } by {
        let done0 = partial(a, b, c, ops, g, slot, src, k);
        let done = partial(a, b, c, ops, g, slot, src, k + 1);
        assert(is_prefix_of(done, readers(a, b, c, ops, g, n, src)));
        assert(offsets[src + 1] == offsets[src] + readers(a, b, c, ops, g, n, src).len());
        assert(offsets[src] + done.len() <= offsets[src + 1]);
        lemma_reads_before_mono(a, b, c, ops, g, n, src + 1, n);
        assert(cursor[src] == offsets[src] + done0.len());
        assert(cursor[src0] == offsets[src0] + p0.len());
        if src < src0 {
            lemma_reads_before_mono(a, b, c, ops, g, n, src + 1, src0);
            assert(offsets[src + 1] <= offsets[src0]);
        } else if src > src0 {
            lemma_reads_before_mono(a, b, c, ops, g, n, src0 + 1, src);
            assert(offsets[src0 + 1] <= offsets[src]);
        }
        assert forall|q: int| 0 <= q < done.len() implies succ2[offsets[src] + q] == done[q] by {
            if src != src0 || q < done0.len() {
                assert(offsets[src] + q != cursor[src0]);
                assert(succ2[offsets[src] + q] == succ[offsets[src] + q]);
                assert(done[q] == done0[q]);
            }
        }
    }
}

/// CSR successor map over gate slots: `offsets[src]..offsets[src + 1]`
/// of `succ` lists every gate slot reading `src`, in slot order.
fn successor_map(a: &Vec<u32>, b: &Vec<u32>, c: &Vec<u32>, ops: &Vec<Op>, gate_start: u32) -> (r: (Vec<u32>, Vec<u32>))
    requires
        a@.len() == ops@.len() && b@.len() == ops@.len() && c@.len() == ops@.len(),
        3 * ops@.len() <= u32::MAX,
        gate_start <= ops@.len(),
        forall|s: int| gate_start <= s < ops@.len() ==> (#[trigger] a@[s]) < s && b@[s] < ops@.len() && c@[s] < ops@.len(),
    ensures
        r.0@.len() == ops@.len() + 1,
        forall|i: int| 0 <= i <= ops@.len() ==> #[trigger] r.0@[i] == reads_before(a@, b@, c@, ops@, gate_start as int, ops@.len() as int, i),
        r.0@[ops@.len() as int] == r.1@.len(),
        forall|src: int|
            0 <= src < ops@.len() ==> #[trigger] r.1@.subrange(r.0@[src] as int, r.0@[src + 1] as int) == readers(
                a@,
                b@,
                c@,
                ops@,
                gate_start as int,
                ops@.len() as int,
                src,
            ),
{
    let n = ops.len();
    let g = gate_start as usize;
    let ghost (sa, sb, sc, so) = (a@, b@, c@, ops@);
    proof {
        lemma_total_reads_bound(so, g as int, n as int);
        lemma_reads_total(sa, sb, sc, so, g as int, n as int, n as int);
    }
    // Count the readers of each slot (shifted by one for the prefix sums).
    let mut counts: Vec<u32> = vec![0u32; n + 1];
    let mut slot: usize = g;
    while slot < n
        invariant
            n == so.len(),
            sa == a@ && sb == b@ && sc == c@ && so == ops@,
            a@.len() == n && b@.len() == n && c@.len() == n,
            3 * n <= u32::MAX,
            g <= slot <= n,
            forall|s: int| g <= s < n ==> (#[trigger] sa[s]) < s && sb[s] < n && sc[s] < n,
            counts@.len() == n + 1,
            counts@[0] == 0,
            forall|src: int| 0 <= src < n ==> #[trigger] counts@[src + 1] == readers(sa, sb, sc, so, g as int, slot as int, src).len(),
            forall|src: int| 0 <= src < n ==> #[trigger] readers(sa, sb, sc, so, g as int, slot as int, src).len() <= 3 * (slot - g),
        decreases n - slot,
    {
        let ar = arity(ops[slot]);
        let ghost c0 = counts@;
        proof {
            assert forall|src: int| 0 <= src < n implies #[trigger] readers(sa, sb, sc, so, g as int, slot + 1, src).len()
                <= 3 * (slot + 1 - g) by {
                assert(readers(sa, sb, sc, so, g as int, slot as int, src).len() <= 3 * (slot - g));
            }
        }
        let x = a[slot] as usize;
        counts.set(x + 1, counts[x + 1] + 1);
        if ar > 1 {
            let y = b[slot] as usize;
            counts.set(y + 1, counts[y + 1] + 1);
        }
        if ar > 2 {
            let z = c[slot] as usize;
            counts.set(z + 1, counts[z + 1] + 1);
        }
        slot += 1;
    }
    proof {
        assert forall|j: int| 1 <= j <= n implies #[trigger] counts@[j] == readers(sa, sb, sc, so, g as int, n as int, j - 1).len() by {
            assert(counts@[(j - 1) + 1] == readers(sa, sb, sc, so, g as int, n as int, j - 1).len());
        }
    }
    // Prefix sums: counts[i] becomes the start of slot i's range.
    let mut i: usize = 1;
    while i <= n
        invariant
            n == so.len(),
            sa == a@ && sb == b@ && sc == c@ && so == ops@,
            3 * n <= u32::MAX,
            1 <= i <= n + 1,
            counts@.len() == n + 1,
            forall|j: int| 0 <= j < i ==> #[trigger] counts@[j] == reads_before(sa, sb, sc, so, g as int, n as int, j),
            forall|j: int| i <= j <= n ==> #[trigger] counts@[j] == readers(sa, sb, sc, so, g as int, n as int, j - 1).len(),
            reads_before(sa, sb, sc, so, g as int, n as int, n as int) <= 3 * n,
        decreases n + 1 - i,
    {
        proof {
            lemma_reads_before_mono(sa, sb, sc, so, g as int, n as int, i as int, n as int);
        }
        let prev = counts[i - 1];
        counts.set(i, counts[i] + prev);
        i += 1;
    }
    let succ_offsets = counts.clone();
    proof {
        assert(succ_offsets@ =~= counts@);
    }
    let mut cursor = counts;
    let total = succ_offsets[n];
    let mut succ: Vec<u32> = vec![0u32; total as usize];
    let ghost offsets = succ_offsets@;
    proof {
        assert forall|src: int| 0 <= src < n implies {
            let done = #[trigger] partial(sa, sb, sc, so, g as int, g as int, src, 0);
            &&& cursor@[src] == offsets[src] + done.len()
            &&& forall|q: int| 0 <= q < done.len() ==> succ@[offsets[src] + q] == done[q]
        } by {
        }
    }
    let mut slot: usize = g;
    while slot < n
        invariant
            n == so.len(),
            sa == a@ && sb == b@ && sc == c@ && so == ops@,
            3 * n <= u32::MAX,
            g <= slot <= n,
            forall|s: int| g <= s < n ==> (#[trigger] sa[s]) < s && sb[s] < n && sc[s] < n,
            offsets == succ_offsets@,
            offsets.len() == n + 1,
            a@.len() == n && b@.len() == n && c@.len() == n,
            cursor@.len() == n + 1,
            succ@.len() == total,
            total == offsets[n as int],
            forall|j: int| 0 <= j <= n ==> #[trigger] offsets[j] == reads_before(sa, sb, sc, so, g as int, n as int, j),
            fill_ok(succ@, cursor@, offsets, sa, sb, sc, so, g as int, n as int, slot as int, 0),
        decreases n - slot,
    {
        let ar = arity(ops[slot]);
        let ghost s = slot as int;
        proof {
            assert forall|src: int| 0 <= src < n implies readers(sa, sb, sc, so, g as int, s, src) == #[trigger] partial(
                sa,
                sb,
                sc,
                so,
                g as int,
                s,
                src,
                0,
            ) by {
            }
        }
        let x = a[slot];
        proof {
            lemma_fill_step(succ@, cursor@, offsets, sa, sb, sc, so, g as int, n as int, s, 0, x as int);
        }
        record(&mut succ, &mut cursor, x, slot as u32);
        if ar > 1 {
            let y = b[slot];
            proof {
                lemma_fill_step(succ@, cursor@, offsets, sa, sb, sc, so, g as int, n as int, s, 1, y as int);
            }
            record(&mut succ, &mut cursor, y, slot as u32);
        } else {
            proof {
                assert forall|src: int| 0 <= src < n implies #[trigger] partial(sa, sb, sc, so, g as int, s, src, 2) == partial(
                    sa,
                    sb,
                    sc,
                    so,
                    g as int,
                    s,
                    src,
                    1,
                ) by {
                }
            }
        }
        if ar > 2 {
            let z = c[slot];
            proof {
                lemma_fill_step(succ@, cursor@, offsets, sa, sb, sc, so, g as int, n as int, s, 2, z as int);
            }
            record(&mut succ, &mut cursor, z, slot as u32);
        } else {
            proof {
                assert forall|src: int| 0 <= src < n implies #[trigger] partial(sa, sb, sc, so, g as int, s, src, 3) == partial(
                    sa,
                    sb,
                    sc,
                    so,
                    g as int,
                    s,
                    src,
                    2,
                ) by {
                }
            }
        }
        proof {
            assert forall|src: int| 0 <= src < n implies #[trigger] partial(sa, sb, sc, so, g as int, s + 1, src, 0) == partial(
                sa,
                sb,
                sc,
                so,
                g as int,
                s,
                src,
                3,
            ) by {
            }
        }
        slot += 1;
    }
    proof {
        assert forall|src: int| 0 <= src < n implies #[trigger] succ@.subrange(offsets[src] as int, offsets[src + 1] as int)
            == readers(sa, sb, sc, so, g as int, n as int, src) by {
            let done = partial(sa, sb, sc, so, g as int, n as int, src, 0);
            assert(done == readers(sa, sb, sc, so, g as int, n as int, src));
            assert(offsets[src + 1] == offsets[src] + done.len());
            lemma_reads_before_mono(sa, sb, sc, so, g as int, n as int, src + 1, n as int);
            assert(offsets[src] + done.len() <= succ@.len());
            assert(succ@.subrange(offsets[src] as int, offsets[src + 1] as int) =~= done);
        }
    }
    (succ_offsets, succ)
}

/// Signal `x` feeds a gate in slot `s` from a lower level, so its slot
/// comes earlier.
proof fn lemma_operand_slot(c: Circuit, level: Seq<u32>, sched: Seq<u32>, pos: Seq<u32>, x: int, s: int)
    requires
        c.wf(),
        3 * c.insts_seq().len() <= u32::MAX,
        levelled(c, level),
        scheduled(c, level, sched),
        pos.len() == sched.len(),
        0 <= x < sched.len(),
        0 <= s < sched.len(),
        (pos[x] as int) < sched.len(),
        sched[pos[x] as int] == x,
        level[x] < level[sched[s] as int],
    ensures
        (pos[x] as int) < s,
{
    let p = pos[x] as int;
    if p >= s {
        assert(key_at(c, level, sched, s) <= key_at(c, level, sched, p));
        lemma_key_order(
            level[sched[s] as int],
            sig_rank(c, sched[s] as int),
            sched[s] as int,
            level[sched[p] as int],
            sig_rank(c, sched[p] as int),
            sched[p] as int,
        );
    }
}

/// Levels never decrease along the schedule.
proof fn lemma_levels_sorted(c: Circuit, level: Seq<u32>, sched: Seq<u32>, s1: int, s2: int)
    requires
        c.wf(),
        3 * c.insts_seq().len() <= u32::MAX,
        levelled(c, level),
        scheduled(c, level, sched),
        0 <= s1 <= s2 < sched.len(),
    ensures
        level[sched[s1] as int] <= level[sched[s2] as int],
{
    assert(key_at(c, level, sched, s1) <= key_at(c, level, sched, s2));
    lemma_key_order(
        level[sched[s1] as int],
        sig_rank(c, sched[s1] as int),
        sched[s1] as int,
        level[sched[s2] as int],
        sig_rank(c, sched[s2] as int),
        sched[s2] as int,
    );
}

impl Compiled {
    /// Compile a circuit: optimize it, then levelize, schedule and index
    /// the optimized netlist, which is in normal form. A circuit the optimizer
    /// keeps as it is is laid out as it stands.
    pub fn new(circuit: &Circuit) -> (t: Compiled)
        requires
            circuit.wf(),
            6 * circuit.insts_seq().len() <= u32::MAX,
        ensures
            t.wf(),
            t.compiles(*circuit),
            in_normal_form(t.netlist@),
            in_normal_form(*circuit) ==> same_netlist(t.netlist@, *circuit),
    {
        let opt = optimize(circuit);
        Compiled::lay_out(opt)
    }

    /// Levelize, schedule and index a netlist.
    #[verifier::rlimit(50)]
    #[verifier::spinoff_prover]
    fn lay_out(opt: Circuit) -> (t: Compiled)
        requires
            opt.wf(),
            3 * opt.insts_seq().len() <= u32::MAX,
        ensures
            t.wf(),
            t.netlist@ == opt,
    {
        let ghost insts = opt.insts_seq();
        let level = levelize(&opt);
        let sched = schedule_signals(&opt, &level);
        let pos = invert(&sched);
        let tables = fill_slots(&opt, &level, &sched, &pos);
        let n = sched.len();
        let g = tables.gate_start;
        proof {
            assert forall|s1: int, s2: int|
                g <= s1 <= s2 < n implies #[trigger] tables.slot_level@[s1] <= #[trigger] tables.slot_level@[s2] by {
                lemma_levels_sorted(opt, level@, sched@, s1, s2);
            }
            assert forall|s: int| g <= s < n implies (#[trigger] tables.a@[s]) < s && tables.b@[s] < n && tables.c@[s] < n by {
                assert(slot_operands(opt, sched@, pos@, tables, s));
                assert(crate::circuit::inst_wf(insts[sched@[s] as int], sched@[s] as int, opt.input_count as nat, opt.regs_seq().len()));
                let x = sched@[s] as int;
                assert(insts[x].data is Gate);
                if let InstData::Gate { op, inputs } = insts[x].data {
                    let y = inputs@[0].0 as int;
                    assert(y < x);
                    assert(level@[y] < level@[x]);
                    assert((pos@[y] as int) < n && sched@[pos@[y] as int] == y);
                    lemma_operand_slot(opt, level@, sched@, pos@, y, s);
                    assert(tables.a@[s] == pos@[y]);
                }
            }
        }
        let (runs, levels) = build_runs(&tables.ops, &tables.slot_level, g);
        let (succ_offsets, succ) = successor_map(&tables.a, &tables.b, &tables.c, &tables.ops, g);
        let nregs = reg_map_len(&opt.regs);
        let mut reg_in_slots: Vec<u32> = Vec::new();
        let mut reg_initial: Vec<u8> = Vec::new();
        let mut r: usize = 0;
        while r < nregs
            invariant
                opt.wf(),
                nregs == opt.regs_seq().len(),
                n == insts.len(),
                insts == opt.insts_seq(),
                sched@.len() == n,
                pos@.len() == n,
                forall|x: int| 0 <= x < n ==> (#[trigger] pos@[x] as int) < n && sched@[pos@[x] as int] == x,
                r <= nregs,
                reg_in_slots@.len() == r,
                reg_initial@.len() == r,
                forall|q: int|
                    0 <= q < r ==> (#[trigger] reg_in_slots@[q] as int) < n && sched@[reg_in_slots@[q] as int]
                        == opt.regs_seq()[q].data_input.0,
                forall|q: int|
                    0 <= q < r ==> #[trigger] reg_initial@[q] == if opt.regs_seq()[q].initial {
                        1u8
                    } else {
                        0u8
                    },
            decreases nregs - r,
        {
            let reg = reg_map_get(&opt.regs, Reg(r as u32));
            reg_in_slots.push(pos[reg.data_input.0 as usize]);
            reg_initial.push(
                if reg.initial {
                    1u8
                } else {
                    0u8
                },
            );
            r += 1;
        }
        let nouts = opt.output_signals.len();
        let mut output_slots: Vec<u32> = Vec::new();
        let mut k: usize = 0;
        while k < nouts
            invariant
                opt.wf(),
                nouts == opt.output_signals@.len(),
                n == insts.len(),
                insts == opt.insts_seq(),
                sched@.len() == n,
                pos@.len() == n,
                forall|x: int| 0 <= x < n ==> (#[trigger] pos@[x] as int) < n && sched@[pos@[x] as int] == x,
                k <= nouts,
                output_slots@.len() == k,
                forall|q: int|
                    0 <= q < k ==> (#[trigger] output_slots@[q] as int) < n && sched@[output_slots@[q] as int]
                        == opt.output_signals@[q].0,
            decreases nouts - k,
        {
            output_slots.push(pos[opt.output_signals[k].0 as usize]);
            k += 1;
        }
        let ghost net = opt;
        let t = Compiled {
            a: tables.a,
            b: tables.b,
            c: tables.c,
            ops: tables.ops,
            gate_start: g,
            runs,
            levels,
            input_slots: tables.input_slots,
            const_slots: tables.const_slots,
            reg_out_slots: tables.reg_out_slots,
            reg_in_slots,
            reg_initial,
            output_slots,
            succ_offsets,
            succ,
            slot_level: tables.slot_level,
            netlist: Ghost(net),
            schedule: Ghost(sched@),
        };
        proof {
            assert forall|s: int| g <= s < n implies #[trigger] gate_slot_ok(&t, s) by {
                assert(slot_operands(opt, sched@, pos@, tables, s));
                let x = sched@[s] as int;
                assert(insts[x].data is Gate);
                assert(crate::circuit::inst_wf(insts[x], x, opt.input_count as nat, opt.regs_seq().len()));
                if let InstData::Gate { op, inputs } = insts[x].data {
                    assert forall|k: int| 0 <= k < inputs@.len() implies operand_ok(&t, s, #[trigger] pos@[inputs@[k].0 as int], inputs@[k]) by {
                        let y = inputs@[k].0 as int;
                        assert(level@[y] < level@[x]);
                        assert((pos@[y] as int) < n && sched@[pos@[y] as int] == y);
                        lemma_operand_slot(opt, level@, sched@, pos@, y, s);
                    }
                    assert(operand_ok(&t, s, pos@[inputs@[0].0 as int], inputs@[0]));
                    if inputs@.len() > 1 {
                        assert(operand_ok(&t, s, pos@[inputs@[1].0 as int], inputs@[1]));
                    }
                    if inputs@.len() > 2 {
                        assert(operand_ok(&t, s, pos@[inputs@[2].0 as int], inputs@[2]));
                    }
                }
            }
            assert forall|i: int, j: int| 0 <= i <= j <= n implies #[trigger] t.succ_offsets@[i] <= #[trigger] t.succ_offsets@[j] by {
                lemma_reads_before_mono(t.a@, t.b@, t.c@, t.ops@, g as int, n as int, i, j);
            }
            assert(t.successors_ok());
            lemma_slot_levels(opt, level@, sched@, t.slot_level@);
            assert forall|s1: int, s2: int| 0 <= s1 < s2 < n implies #[trigger] in_order(&t, s1, s2) by {
                lemma_slot_pair_order(opt, level@, sched@, t.slot_level@, s1, s2);
            }
        }
        t
    }
}

/// A boolean as a value-buffer byte.
pub open spec fn bit(b: bool) -> u8 {
    if b {
        1
    } else {
        0
    }
}

impl Compiled {
    /// What slot `s` holds before any tick: its constant, its register's
    /// initial value, or low.
    pub open spec fn initial_value(&self, s: int) -> u8 {
        match self.netlist@.insts_seq()[self.schedule@[s] as int].data {
            InstData::Const { value } => bit(value),
            InstData::RegisterOutput { reg } => self.reg_initial@[reg.0 as int],
            _ => 0,
        }
    }

    /// What each output reads before any tick.
    pub open spec fn power_on_outputs(&self) -> Seq<bool> {
        Seq::new(self.output_slots@.len(), |k: int| self.initial_value(self.output_slots@[k] as int) == 1)
    }

    /// Number of slots: one per netlist signal.
    pub fn slot_count(&self) -> (n: usize)
        ensures
            n == self.ops@.len(),
    {
        self.ops.len()
    }

    /// Number of external inputs.
    pub fn input_count(&self) -> (n: usize)
        requires
            self.wf(),
        ensures
            n == self.netlist@.input_count,
    {
        self.input_slots.len()
    }

    /// Number of declared outputs.
    pub fn output_count(&self) -> (n: usize)
        requires
            self.wf(),
        ensures
            n == self.netlist@.output_signals@.len(),
    {
        self.output_slots.len()
    }

    /// Number of registers.
    pub fn register_count(&self) -> (n: usize)
        requires
            self.wf(),
        ensures
            n == self.netlist@.regs_seq().len(),
    {
        self.reg_out_slots.len()
    }

    /// Gate slots reading `slot`, in slot order.
    pub fn successors(&self, slot: u32) -> (r: &[u32])
        requires
            self.wf(),
            (slot as int) < self.ops@.len(),
        ensures
            r@ == readers(self.a@, self.b@, self.c@, self.ops@, self.gate_start as int, self.ops@.len() as int, slot as int),
    {
        let lo = self.succ_offsets[slot as usize] as usize;
        let hi = self.succ_offsets[slot as usize + 1] as usize;
        vstd::slice::slice_subrange(self.succ.as_slice(), lo, hi)
    }

    /// A fresh value buffer with constants and register initial values
    /// applied; every other slot is low.
    pub fn initial_values(&self) -> (values: Vec<u8>)
        requires
            self.wf(),
        ensures
            values@.len() == self.ops@.len(),
            forall|s: int| 0 <= s < self.ops@.len() ==> #[trigger] values@[s] == self.initial_value(s),
    {
        let ghost insts = self.netlist@.insts_seq();
        let ghost sched = self.schedule@;
        let n = self.ops.len();
        let mut values: Vec<u8> = vec![0u8; n];
        let mut q: usize = 0;
        while q < self.const_slots.len()
            invariant
                self.wf(),
                insts == self.netlist@.insts_seq(),
                sched == self.schedule@,
                n == self.ops@.len(),
                q <= self.const_slots@.len(),
                values@.len() == n,
                forall|s: int|
                    0 <= s < n ==> #[trigger] values@[s] == 0 || (insts[sched[s] as int].data is Const && values@[s]
                        == self.initial_value(s)),
                forall|j: int| 0 <= j < q ==> #[trigger] values@[self.const_slots@[j].0 as int] == self.initial_value(
                    self.const_slots@[j].0 as int,
                ),
            decreases self.const_slots@.len() - q,
        {
            let (slot, value) = self.const_slots[q];
            proof {
                assert(self.const_slots@[q as int].0 == slot);
            }
            values.set(slot as usize, value);
            q += 1;
        }
        let nregs = self.reg_out_slots.len();
        let mut r: usize = 0;
        while r < nregs
            invariant
                self.wf(),
                insts == self.netlist@.insts_seq(),
                sched == self.schedule@,
                n == self.ops@.len(),
                nregs == self.reg_out_slots@.len(),
                r <= nregs,
                values@.len() == n,
                forall|s: int|
                    0 <= s < n ==> #[trigger] values@[s] == if (insts[sched[s] as int].data is Const) || (insts[sched[s] as int].data matches InstData::RegisterOutput { reg } && reg.0 < r) {
                        self.initial_value(s)
                    } else {
                        0
                    },
            decreases nregs - r,
        {
            let slot = self.reg_out_slots[r];
            let ghost v0 = values@;
            if slot != u32::MAX {
                values.set(slot as usize, self.reg_initial[r]);
            }
            proof {
                assert forall|s: int| 0 <= s < n implies #[trigger] values@[s] == if (insts[sched[s] as int].data is Const) || (
                insts[sched[s] as int].data matches InstData::RegisterOutput { reg } && reg.0 < r + 1) {
                    self.initial_value(s)
                } else {
                    0
                } by {
                    if is_reg_inst(insts[sched[s] as int], r as int) {
                        assert(self.reg_out_slots@[r as int] == s);
                    } else if slot != u32::MAX && s == slot {
                        assert(is_reg_inst(insts[sched[slot as int] as int], r as int));
                    }
                }
            }
            r += 1;
        }
        values
    }
}

} // verus!
