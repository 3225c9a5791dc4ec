//! Lowering a [`Board`] into a [`Circuit`].
//!
//! Every driver gets its own register: a gate computes `next <= op(inputs)`
//! and exposes the register's previous value as its output, so feedback
//! always passes through a register and a signal advances one driver per
//! tick. Each net is the wired-OR of its drivers (low when undriven); each
//! gate folds its operation across the distinct nets on its input sides.
//! Every net is exported as an output (net `n` at output `n`), followed by
//! one output per LED.

use std::collections::HashMap;
use vstd::prelude::*;
use vstd::string::StringExecFns;

use crate::board::{cell_key, lemma_cell_key_injective, lemma_occupied_facts, lemma_occupied_len, lemma_occupied_unique, Board, Cell};
use crate::circuit::{Circuit, gate_fn, is_prefix, lemma_signal_value_prefix, numbered_name, signal_value, CircuitBuilder, GateOp, Instruction, PendingRegister, Reg, Signal};
use crate::net::{extract, is_node, nodes_of_spec, NetId, Nets};
use crate::net::Port;
use crate::tile::{all_directions, is_driver_spec, lemma_direction_laws, Direction, GateKind, Tile};

verus! {

/// Some value is high.
pub open spec fn any_high(v: Seq<bool>) -> bool {
    exists|j: int| 0 <= j < v.len() && #[trigger] v[j]
}

/// There is at least one value and every value is high.
pub open spec fn all_high(v: Seq<bool>) -> bool {
    v.len() > 0 && forall|j: int| 0 <= j < v.len() ==> #[trigger] v[j]
}

/// An odd number of values are high.
pub open spec fn parity(v: Seq<bool>) -> bool
    decreases v.len(),
{
    if v.len() == 0 {
        false
    } else {
        parity(v.drop_last()) != v.last()
    }
}

/// What a gate of `kind` computes from the values of its distinct input
/// nets. With no input at all every fold reads low, so a floating inverter
/// reads high.
pub open spec fn kind_value(kind: GateKind, v: Seq<bool>) -> bool {
    match kind {
        GateKind::And => all_high(v),
        GateKind::Or | GateKind::Buf => any_high(v),
        GateKind::Xor => parity(v),
        GateKind::Nand => !all_high(v),
        GateKind::Nor | GateKind::Not => !any_high(v),
        GateKind::Xnor => !parity(v),
    }
}

/// The values of a list of signals.
pub open spec fn sig_values(insts: Seq<Instruction>, ins: Seq<Signal>, inputs: Seq<bool>, state: Seq<bool>) -> Seq<bool> {
    Seq::new(ins.len(), |m: int| signal_value(insts, ins[m].0 as int, inputs, state))
}

/// A left fold of `op` over the values, starting from the first; low when empty.
spec fn chain_value(op: GateOp, v: Seq<bool>) -> bool
    decreases v.len(),
{
    if v.len() == 0 {
        false
    } else if v.len() == 1 {
        v[0]
    } else {
        gate_fn(op, chain_value(op, v.drop_last()), v.last(), false)
    }
}

proof fn lemma_chain_value(op: GateOp, v: Seq<bool>)
    ensures
        op == GateOp::Or ==> chain_value(op, v) == any_high(v),
        op == GateOp::And ==> chain_value(op, v) == all_high(v),
        op == GateOp::Xor ==> chain_value(op, v) == parity(v),
    decreases v.len(),
{
    if v.len() > 1 {
        let p = v.drop_last();
        lemma_chain_value(op, p);
        if op == GateOp::Or {
            if any_high(v) {
                let j = choose|j: int| 0 <= j < v.len() && #[trigger] v[j];
                if j < v.len() - 1 {
                    assert(p[j]);
                }
            }
            if any_high(p) {
                let j = choose|j: int| 0 <= j < p.len() && #[trigger] p[j];
                assert(v[j]);
            }
        }
        if op == GateOp::And {
            if all_high(p) && v.last() {
                assert forall|j: int| 0 <= j < v.len() implies #[trigger] v[j] by {
                    if j < v.len() - 1 {
                        assert(p[j]);
                    }
                }
            }
            if all_high(v) {
                assert forall|j: int| 0 <= j < p.len() implies #[trigger] p[j] by {
                    assert(v[j]);
                }
                assert(v[v.len() - 1]);
            }
        }
        if op == GateOp::Xor {
            let q = p.drop_last();
            assert(parity(p) == (parity(q) != p.last()));
        }
    } else if v.len() == 1 {
        if op == GateOp::Or {
            if v[0] {
                assert(v[0]);
            }
        }
        if op == GateOp::Xor {
            assert(v.drop_last().len() == 0);
            assert(parity(v.drop_last()) == false);
            assert(parity(v) == (parity(v.drop_last()) != v.last()));
        }
    }
}

/// `ins` with one more element has one more value.
proof fn lemma_sig_values_push(insts: Seq<Instruction>, ins: Seq<Signal>, k: int, inputs: Seq<bool>, state: Seq<bool>)
    requires
        0 <= k < ins.len(),
    ensures
        sig_values(insts, ins.take(k + 1), inputs, state) == sig_values(insts, ins.take(k), inputs, state).push(
            signal_value(insts, ins[k].0 as int, inputs, state),
        ),
{
    assert(sig_values(insts, ins.take(k + 1), inputs, state) =~= sig_values(insts, ins.take(k), inputs, state).push(
        signal_value(insts, ins[k].0 as int, inputs, state),
    ));
}

/// Combine `ins` with `op` (one of `And`, `Or`, `Xor`) as a left fold,
/// returning `low` for an empty list.
fn chain(b: &mut CircuitBuilder, op: GateOp, ins: &Vec<Signal>, low: Signal) -> (s: Signal)
    requires
        op == GateOp::And || op == GateOp::Or || op == GateOp::Xor,
        old(b).wf(),
        old(b).insts_seq().len() + ins@.len() < u32::MAX,
        (low.0 as int) < old(b).insts_seq().len(),
        forall|inputs: Seq<bool>, state: Seq<bool>| !#[trigger] signal_value(old(b).insts_seq(), low.0 as int, inputs, state),
        forall|m: int| 0 <= m < ins@.len() ==> ((#[trigger] ins@[m]).0 as int) < old(b).insts_seq().len(),
    ensures
        final(b).wf(),
        final(b).same_except_insts(old(b)),
        final(b).debug_names@ == old(b).debug_names@,
        is_prefix(old(b).insts_seq(), final(b).insts_seq()),
        final(b).insts_seq().len() <= old(b).insts_seq().len() + ins@.len(),
        (s.0 as int) < final(b).insts_seq().len(),
        forall|inputs: Seq<bool>, state: Seq<bool>|
            #[trigger] signal_value(final(b).insts_seq(), s.0 as int, inputs, state) == chain_value(
                op,
                sig_values(old(b).insts_seq(), ins@, inputs, state),
            ),
{
    let ghost b0 = *b;
    let ghost insts0 = b.insts_seq();
    if ins.len() == 0 {
        proof {
            assert forall|inputs: Seq<bool>, state: Seq<bool>|
                #[trigger] signal_value(b.insts_seq(), low.0 as int, inputs, state) == chain_value(
                    op,
                    sig_values(insts0, ins@, inputs, state),
                ) by {
                assert(sig_values(insts0, ins@, inputs, state).len() == 0);
            }
        }
        return low;
    }
    let mut acc = ins[0];
    proof {
        assert forall|inputs: Seq<bool>, state: Seq<bool>|
            #[trigger] signal_value(b.insts_seq(), acc.0 as int, inputs, state) == chain_value(
                op,
                sig_values(insts0, ins@.take(1), inputs, state),
            ) by {
            assert(sig_values(insts0, ins@.take(1), inputs, state).len() == 1);
        }
    }
    let mut k: usize = 1;
    while k < ins.len()
        invariant
            op == GateOp::And || op == GateOp::Or || op == GateOp::Xor,
            1 <= k <= ins@.len(),
            b.wf(),
            b.same_except_insts(&b0),
            b.debug_names@ == b0.debug_names@,
            insts0 == b0.insts_seq(),
            insts0.len() + ins@.len() < u32::MAX,
            is_prefix(insts0, b.insts_seq()),
            b.insts_seq().len() <= insts0.len() + k - 1,
            forall|m: int| 0 <= m < ins@.len() ==> ((#[trigger] ins@[m]).0 as int) < insts0.len(),
            (acc.0 as int) < b.insts_seq().len(),
            forall|inputs: Seq<bool>, state: Seq<bool>|
                #[trigger] signal_value(b.insts_seq(), acc.0 as int, inputs, state) == chain_value(
                    op,
                    sig_values(insts0, ins@.take(k as int), inputs, state),
                ),
        decreases ins@.len() - k,
    {
        let next = ins[k];
        let ghost cur = b.insts_seq();
        let s = match op {
            GateOp::And => b.and(acc, next),
            GateOp::Or => b.or(acc, next),
            _ => b.xor(acc, next),
        };
        proof {
            let new_insts = b.insts_seq();
            assert forall|inputs: Seq<bool>, state: Seq<bool>|
                #[trigger] signal_value(new_insts, s.0 as int, inputs, state) == chain_value(
                    op,
                    sig_values(insts0, ins@.take(k + 1), inputs, state),
                ) by {
                lemma_signal_value_prefix(insts0, cur, next.0 as int, inputs, state);
                lemma_sig_values_push(insts0, ins@, k as int, inputs, state);
                let v = sig_values(insts0, ins@.take(k + 1), inputs, state);
                assert(v.drop_last() =~= sig_values(insts0, ins@.take(k as int), inputs, state));
                assert(signal_value(cur, acc.0 as int, inputs, state) == chain_value(
                    op,
                    sig_values(insts0, ins@.take(k as int), inputs, state),
                ));
            }
            assert forall|i: int| 0 <= i < insts0.len() implies new_insts[i] == insts0[i] by {
                assert(cur[i] == insts0[i]);
            }
        }
        acc = s;
        k += 1;
    }
    proof {
        assert(ins@.take(ins@.len() as int) =~= ins@);
    }
    acc
}

/// OR the signals together, yielding `low` when the list is empty.
fn or_fold(b: &mut CircuitBuilder, ins: &Vec<Signal>, low: Signal) -> (s: Signal)
    requires
        old(b).wf(),
        old(b).insts_seq().len() + ins@.len() < u32::MAX,
        (low.0 as int) < old(b).insts_seq().len(),
        forall|inputs: Seq<bool>, state: Seq<bool>| !#[trigger] signal_value(old(b).insts_seq(), low.0 as int, inputs, state),
        forall|m: int| 0 <= m < ins@.len() ==> ((#[trigger] ins@[m]).0 as int) < old(b).insts_seq().len(),
    ensures
        final(b).wf(),
        final(b).same_except_insts(old(b)),
        final(b).debug_names@ == old(b).debug_names@,
        is_prefix(old(b).insts_seq(), final(b).insts_seq()),
        final(b).insts_seq().len() <= old(b).insts_seq().len() + ins@.len(),
        (s.0 as int) < final(b).insts_seq().len(),
        forall|inputs: Seq<bool>, state: Seq<bool>|
            #[trigger] signal_value(final(b).insts_seq(), s.0 as int, inputs, state) == any_high(
                sig_values(old(b).insts_seq(), ins@, inputs, state),
            ),
{
    let ghost insts0 = b.insts_seq();
    let s = chain(b, GateOp::Or, ins, low);
    proof {
        assert forall|inputs: Seq<bool>, state: Seq<bool>|
            #[trigger] signal_value(b.insts_seq(), s.0 as int, inputs, state) == any_high(
                sig_values(insts0, ins@, inputs, state),
            ) by {
            lemma_chain_value(GateOp::Or, sig_values(insts0, ins@, inputs, state));
        }
    }
    s
}

/// AND the signals together, yielding `low` when the list is empty.
fn and_fold(b: &mut CircuitBuilder, ins: &Vec<Signal>, low: Signal) -> (s: Signal)
    requires
        old(b).wf(),
        old(b).insts_seq().len() + ins@.len() < u32::MAX,
        (low.0 as int) < old(b).insts_seq().len(),
        forall|inputs: Seq<bool>, state: Seq<bool>| !#[trigger] signal_value(old(b).insts_seq(), low.0 as int, inputs, state),
        forall|m: int| 0 <= m < ins@.len() ==> ((#[trigger] ins@[m]).0 as int) < old(b).insts_seq().len(),
    ensures
        final(b).wf(),
        final(b).same_except_insts(old(b)),
        final(b).debug_names@ == old(b).debug_names@,
        is_prefix(old(b).insts_seq(), final(b).insts_seq()),
        final(b).insts_seq().len() <= old(b).insts_seq().len() + ins@.len(),
        (s.0 as int) < final(b).insts_seq().len(),
        forall|inputs: Seq<bool>, state: Seq<bool>|
            #[trigger] signal_value(final(b).insts_seq(), s.0 as int, inputs, state) == all_high(
                sig_values(old(b).insts_seq(), ins@, inputs, state),
            ),
{
    let ghost insts0 = b.insts_seq();
    let s = chain(b, GateOp::And, ins, low);
    proof {
        assert forall|inputs: Seq<bool>, state: Seq<bool>|
            #[trigger] signal_value(b.insts_seq(), s.0 as int, inputs, state) == all_high(
                sig_values(insts0, ins@, inputs, state),
            ) by {
            lemma_chain_value(GateOp::And, sig_values(insts0, ins@, inputs, state));
        }
    }
    s
}

/// XOR the signals together (parity), yielding `low` when the list is empty.
fn xor_fold(b: &mut CircuitBuilder, ins: &Vec<Signal>, low: Signal) -> (s: Signal)
    requires
        old(b).wf(),
        old(b).insts_seq().len() + ins@.len() < u32::MAX,
        (low.0 as int) < old(b).insts_seq().len(),
        forall|inputs: Seq<bool>, state: Seq<bool>| !#[trigger] signal_value(old(b).insts_seq(), low.0 as int, inputs, state),
        forall|m: int| 0 <= m < ins@.len() ==> ((#[trigger] ins@[m]).0 as int) < old(b).insts_seq().len(),
    ensures
        final(b).wf(),
        final(b).same_except_insts(old(b)),
        final(b).debug_names@ == old(b).debug_names@,
        is_prefix(old(b).insts_seq(), final(b).insts_seq()),
        final(b).insts_seq().len() <= old(b).insts_seq().len() + ins@.len(),
        (s.0 as int) < final(b).insts_seq().len(),
        forall|inputs: Seq<bool>, state: Seq<bool>|
            #[trigger] signal_value(final(b).insts_seq(), s.0 as int, inputs, state) == parity(
                sig_values(old(b).insts_seq(), ins@, inputs, state),
            ),
{
    let ghost insts0 = b.insts_seq();
    let s = chain(b, GateOp::Xor, ins, low);
    proof {
        assert forall|inputs: Seq<bool>, state: Seq<bool>|
            #[trigger] signal_value(b.insts_seq(), s.0 as int, inputs, state) == parity(
                sig_values(insts0, ins@, inputs, state),
            ) by {
            lemma_chain_value(GateOp::Xor, sig_values(insts0, ins@, inputs, state));
        }
    }
    s
}

/// Combine a gate's input signals according to its kind.
fn build_gate(b: &mut CircuitBuilder, kind: GateKind, ins: &Vec<Signal>, low: Signal) -> (s: Signal)
    requires
        old(b).wf(),
        old(b).insts_seq().len() + ins@.len() + 1 < u32::MAX,
        (low.0 as int) < old(b).insts_seq().len(),
        forall|inputs: Seq<bool>, state: Seq<bool>| !#[trigger] signal_value(old(b).insts_seq(), low.0 as int, inputs, state),
        forall|m: int| 0 <= m < ins@.len() ==> ((#[trigger] ins@[m]).0 as int) < old(b).insts_seq().len(),
    ensures
        final(b).wf(),
        final(b).same_except_insts(old(b)),
        is_prefix(old(b).insts_seq(), final(b).insts_seq()),
        final(b).insts_seq().len() <= old(b).insts_seq().len() + ins@.len() + 1,
        (s.0 as int) < final(b).insts_seq().len(),
        forall|inputs: Seq<bool>, state: Seq<bool>|
            #[trigger] signal_value(final(b).insts_seq(), s.0 as int, inputs, state) == kind_value(
                kind,
                sig_values(old(b).insts_seq(), ins@, inputs, state),
            ),
{
    let ghost insts0 = b.insts_seq();
    let ghost b0 = *b;
    match kind {
        GateKind::And => and_fold(b, ins, low),
        GateKind::Or | GateKind::Buf => or_fold(b, ins, low),
        GateKind::Xor => xor_fold(b, ins, low),
        GateKind::Nand | GateKind::Nor | GateKind::Not | GateKind::Xnor => {
            let v = match kind {
                GateKind::Nand => and_fold(b, ins, low),
                GateKind::Xnor => xor_fold(b, ins, low),
                _ => or_fold(b, ins, low),
            };
            let ghost mid = b.insts_seq();
            let s = b.not(v);
            proof {
                let fin = b.insts_seq();
                assert forall|i: int| 0 <= i < insts0.len() implies fin[i] == insts0[i] by {
                    assert(mid[i] == insts0[i]);
                }
                assert forall|inputs: Seq<bool>, state: Seq<bool>|
                    #[trigger] signal_value(fin, s.0 as int, inputs, state) == kind_value(
                        kind,
                        sig_values(insts0, ins@, inputs, state),
                    ) by {
                    assert(signal_value(fin, s.0 as int, inputs, state) == !signal_value(mid, v.0 as int, inputs, state));
                }
            }
            s
        },
    }
}

/// How a tile takes part in the lowering: it owns a register, reads an
/// external input, shows an output, or none of these.
pub enum Role {
    Register,
    Input,
    Indicator,
    Passive,
}

pub open spec fn role(t: Tile) -> Role {
    match t {
        Tile::Gate { .. } | Tile::Clock => Role::Register,
        Tile::Switch => Role::Input,
        Tile::Led => Role::Indicator,
        _ => Role::Passive,
    }
}

/// How many of the first `k` listed cells have role `r`: the number the
/// lowering gives to the `k`-th cell's register, input or LED output.
pub open spec fn rank(occ: Seq<(Cell, Tile)>, k: int, r: Role) -> nat
    decreases k,
{
    if k <= 0 {
        0
    } else {
        rank(occ, k - 1, r) + if role(occ[k - 1].1) == r {
            1nat
        } else {
            0nat
        }
    }
}

/// Ranks grow with position, strictly past a cell of the role, and never
/// exceed the position.
pub proof fn lemma_rank_mono(occ: Seq<(Cell, Tile)>, r: Role, j1: int, j2: int)
    requires
        0 <= j1 <= j2,
    ensures
        rank(occ, j1, r) <= rank(occ, j2, r),
        j1 < j2 && role(occ[j1].1) == r ==> rank(occ, j1, r) < rank(occ, j2, r),
        rank(occ, j2, r) <= j2,
    decreases j2,
{
    if j2 > 0 {
        if j1 < j2 {
            lemma_rank_mono(occ, r, j1, j2 - 1);
        } else {
            lemma_rank_mono(occ, r, j1 - 1, j2 - 1);
        }
    }
}

/// Every rank below the total is the rank of some cell of the role.
pub proof fn lemma_rank_onto(occ: Seq<(Cell, Tile)>, r: Role, n: int, x: nat)
    requires
        0 <= n,
        x < rank(occ, n, r),
    ensures
        exists|j: int| 0 <= j < n && role(occ[j].1) == r && #[trigger] rank(occ, j, r) == x,
    decreases n,
{
    if x < rank(occ, n - 1, r) {
        lemma_rank_onto(occ, r, n - 1, x);
        let j = choose|j: int| 0 <= j < n - 1 && role(occ[j].1) == r && #[trigger] rank(occ, j, r) == x;
        assert(0 <= j < n);
    } else {
        assert(rank(occ, n - 1, r) == x);
    }
}

/// The value a driver at list position `k` pushes onto its net: its
/// register's current state, its switch input, or its constant.
pub open spec fn driver_value(occ: Seq<(Cell, Tile)>, k: int, inputs: Seq<bool>, state: Seq<bool>) -> bool {
    match occ[k].1 {
        Tile::Gate { .. } | Tile::Clock => state[rank(occ, k, Role::Register) as int],
        Tile::Switch => inputs[rank(occ, k, Role::Input) as int],
        Tile::Source { on } => on,
        _ => false,
    }
}

/// A net is high exactly when some driver on it pushes a high value.
pub open spec fn net_level(b: Board, nets: Nets, net: NetId, inputs: Seq<bool>, state: Seq<bool>) -> bool {
    exists|k: int|
        0 <= k < b.occupied().len() && is_driver_spec(b.occupied()[k].1) && nets.net_of_spec(
            b.occupied()[k].0,
            Port::Single,
        ) == Some(net) && #[trigger] driver_value(b.occupied(), k, inputs, state)
}

/// The levels of a list of nets.
pub open spec fn levels(b: Board, nets: Nets, ns: Seq<NetId>, inputs: Seq<bool>, state: Seq<bool>) -> Seq<bool> {
    Seq::new(ns.len(), |m: int| net_level(b, nets, ns[m], inputs, state))
}

/// The distinct nets on the sides of `cell` other than `exclude`, in the
/// order north, east, south, west, among the first `i` of those sides.
pub open spec fn input_nets_upto(nets: Nets, b: Board, cell: Cell, exclude: Option<Direction>, i: int) -> Seq<NetId>
    decreases i,
{
    if i <= 0 {
        Seq::empty()
    } else {
        let prev = input_nets_upto(nets, b, cell, exclude, i - 1);
        let d = all_directions()[i - 1];
        if exclude == Some(d) {
            prev
        } else {
            match nets.neighbour_net_spec(b, cell, d) {
                Some(n) => if prev.contains(n) {
                    prev
                } else {
                    prev.push(n)
                },
                None => prev,
            }
        }
    }
}

/// The distinct nets feeding a device at `cell`, skipping side `exclude`.
pub open spec fn input_nets_spec(nets: Nets, b: Board, cell: Cell, exclude: Option<Direction>) -> Seq<NetId> {
    input_nets_upto(nets, b, cell, exclude, 4)
}

/// The listed nets are distinct and are exactly the nets read on the
/// included sides.
pub proof fn lemma_input_nets(nets: Nets, b: Board, cell: Cell, exclude: Option<Direction>, i: int)
    requires
        0 <= i <= 4,
    ensures
        input_nets_upto(nets, b, cell, exclude, i).len() <= i,
        input_nets_upto(nets, b, cell, exclude, i).no_duplicates(),
        forall|n: NetId|
            #[trigger] input_nets_upto(nets, b, cell, exclude, i).contains(n) <==> exists|k: int|
                0 <= k < i && exclude != Some(all_directions()[k]) && #[trigger] nets.neighbour_net_spec(
                    b,
                    cell,
                    all_directions()[k],
                ) == Some(n),
    decreases i,
{
    if i > 0 {
        lemma_input_nets(nets, b, cell, exclude, i - 1);
        let prev = input_nets_upto(nets, b, cell, exclude, i - 1);
        let cur = input_nets_upto(nets, b, cell, exclude, i);
        assert forall|n: NetId|
            #[trigger] cur.contains(n) <==> exists|k: int|
                0 <= k < i && exclude != Some(all_directions()[k]) && #[trigger] nets.neighbour_net_spec(
                    b,
                    cell,
                    all_directions()[k],
                ) == Some(n) by {
            let d = all_directions()[i - 1];
            if cur.contains(n) {
                if prev.contains(n) {
                    let k = choose|k: int|
                        0 <= k < i - 1 && exclude != Some(all_directions()[k]) && #[trigger] nets.neighbour_net_spec(
                            b,
                            cell,
                            all_directions()[k],
                        ) == Some(n);
                    assert(0 <= k < i);
                } else {
                    let q = choose|q: int| 0 <= q < cur.len() && cur[q] == n;
                    if q < prev.len() {
                        assert(prev[q] == n);
                    }
                    assert(cur[prev.len() as int] == n);
                    assert(exclude != Some(d) && nets.neighbour_net_spec(b, cell, d) == Some(n));
                }
            }
            if exists|k: int|
                0 <= k < i && exclude != Some(all_directions()[k]) && #[trigger] nets.neighbour_net_spec(
                    b,
                    cell,
                    all_directions()[k],
                ) == Some(n) {
                let k = choose|k: int|
                    0 <= k < i && exclude != Some(all_directions()[k]) && #[trigger] nets.neighbour_net_spec(
                        b,
                        cell,
                        all_directions()[k],
                    ) == Some(n);
                if k < i - 1 {
                    assert(prev.contains(n));
                    let q = choose|q: int| 0 <= q < prev.len() && prev[q] == n;
                    assert(cur[q] == n);
                } else if prev.contains(n) {
                    let q = choose|q: int| 0 <= q < prev.len() && prev[q] == n;
                    assert(cur[q] == n);
                } else {
                    assert(cur[prev.len() as int] == n);
                }
            }
        }
    }
}

/// Whether a list of nets already holds `n`.
fn contains_net(v: &Vec<NetId>, n: NetId) -> (r: bool)
    ensures
        r == v@.contains(n),
{
    let mut i: usize = 0;
    while i < v.len()
        invariant
            i <= v@.len(),
            forall|j: int| 0 <= j < i ==> v@[j] != n,
        decreases v@.len() - i,
    {
        if v[i] == n {
            return true;
        }
        i += 1;
    }
    false
}

/// Distinct input nets feeding a device at `cell`, skipping `exclude` (a
/// gate's output side), in the order of [`Direction::all`].
fn input_nets(nets: &Nets, board: &Board, cell: Cell, exclude: Option<Direction>) -> (r: Vec<NetId>)
    requires
        board.wf(),
    ensures
        r@ == input_nets_spec(*nets, *board, cell, exclude),
{
    let dirs = Direction::all();
    let mut seen: Vec<NetId> = Vec::new();
    let mut i: usize = 0;
    while i < 4
        invariant
            board.wf(),
            dirs@ == all_directions(),
            i <= 4,
            seen@ == input_nets_upto(*nets, *board, cell, exclude, i as int),
        decreases 4 - i,
    {
        let side = dirs[i];
        let skip = match exclude {
            Some(e) => e == side,
            None => false,
        };
        assert(skip == (exclude == Some(all_directions()[i as int])));
        if !skip {
            if let Some(net) = nets.neighbour_net(board, cell, side) {
                if !contains_net(&seen, net) {
                    seen.push(net);
                }
            }
        }
        i += 1;
    }
    seen
}

/// `low` is a signal that is low whatever the inputs and state.
spec fn low_ok(insts: Seq<Instruction>, low: Signal) -> bool {
    &&& (low.0 as int) < insts.len()
    &&& forall|inputs: Seq<bool>, state: Seq<bool>| !#[trigger] signal_value(insts, low.0 as int, inputs, state)
}

/// `s` is present exactly for a driver, and then carries the driver's value.
spec fn driver_sig_ok(insts: Seq<Instruction>, occ: Seq<(Cell, Tile)>, j: int, s: Option<Signal>) -> bool {
    &&& (s is Some <==> is_driver_spec(occ[j].1))
    &&& (s matches Some(x) ==> {
        &&& (x.0 as int) < insts.len()
        &&& forall|inputs: Seq<bool>, state: Seq<bool>|
            #[trigger] signal_value(insts, x.0 as int, inputs, state) == driver_value(occ, j, inputs, state)
    })
}

spec fn drivers_ok(insts: Seq<Instruction>, occ: Seq<(Cell, Tile)>, ds: Seq<Option<Signal>>) -> bool {
    forall|j: int| 0 <= j < ds.len() ==> #[trigger] driver_sig_ok(insts, occ, j, ds[j])
}

proof fn lemma_low_extend(insts: Seq<Instruction>, ext: Seq<Instruction>, low: Signal)
    requires
        is_prefix(insts, ext),
        low_ok(insts, low),
    ensures
        low_ok(ext, low),
{
    assert forall|inputs: Seq<bool>, state: Seq<bool>| !#[trigger] signal_value(ext, low.0 as int, inputs, state) by {
        lemma_signal_value_prefix(insts, ext, low.0 as int, inputs, state);
    }
}

proof fn lemma_drivers_extend(insts: Seq<Instruction>, ext: Seq<Instruction>, occ: Seq<(Cell, Tile)>, ds: Seq<Option<Signal>>)
    requires
        is_prefix(insts, ext),
        drivers_ok(insts, occ, ds),
    ensures
        drivers_ok(ext, occ, ds),
{
    assert forall|j: int| 0 <= j < ds.len() implies #[trigger] driver_sig_ok(ext, occ, j, ds[j]) by {
        assert(driver_sig_ok(insts, occ, j, ds[j]));
        if let Some(x) = ds[j] {
            assert forall|inputs: Seq<bool>, state: Seq<bool>|
                #[trigger] signal_value(ext, x.0 as int, inputs, state) == driver_value(occ, j, inputs, state) by {
                lemma_signal_value_prefix(insts, ext, x.0 as int, inputs, state);
            }
        }
    }
}

proof fn lemma_prefix_trans(a: Seq<Instruction>, b: Seq<Instruction>, c: Seq<Instruction>)
    requires
        is_prefix(a, b),
        is_prefix(b, c),
    ensures
        is_prefix(a, c),
{
    assert forall|i: int| 0 <= i < a.len() implies c[i] == a[i] by {
        assert(b[i] == a[i]);
    }
}

/// The switch map lists exactly the switches among the first `k` cells,
/// each with its input number.
pub open spec fn switch_map_ok(m: Map<u128, usize>, occ: Seq<(Cell, Tile)>, k: int) -> bool {
    &&& forall|key: u128|
        #[trigger] m.contains_key(key) <==> exists|j: int|
            0 <= j < k && occ[j].1 == Tile::Switch && #[trigger] cell_key(occ[j].0) == key
    &&& forall|j: int|
        0 <= j < k && occ[j].1 == Tile::Switch ==> m[#[trigger] cell_key(occ[j].0)] == rank(occ, j, Role::Input)
}

/// Pass A: give every driver its output signal. Gates and clocks get a
/// register (wired later), switches an input, sources a constant.
fn add_drivers(builder: &mut CircuitBuilder, board: &Board, cells: &Vec<(Cell, Tile)>, low: Signal) -> (r: (
    Vec<Option<Signal>>,
    Vec<Option<Reg>>,
    HashMap<u128, usize>,
))
    requires
        board.wf(),
        12 * board.size() + 2 < u32::MAX,
        cells@ == board.occupied(),
        old(builder).wf(),
        old(builder).insts_seq().len() == 1,
        old(builder).regs@.len() == 0,
        old(builder).input_count == 0,
        old(builder).output_signals@.len() == 0,
        low_ok(old(builder).insts_seq(), low),
    ensures
        final(builder).wf(),
        is_prefix(old(builder).insts_seq(), final(builder).insts_seq()),
        final(builder).insts_seq().len() <= 1 + cells@.len(),
        final(builder).regs@.len() == rank(cells@, cells@.len() as int, Role::Register),
        forall|q: int| 0 <= q < final(builder).regs@.len() ==> (#[trigger] final(builder).regs@[q]).data_input is None
            && !final(builder).regs@[q].initial,
        final(builder).input_count == rank(cells@, cells@.len() as int, Role::Input),
        final(builder).output_signals@.len() == 0,
        low_ok(final(builder).insts_seq(), low),
        r.0@.len() == cells@.len(),
        drivers_ok(final(builder).insts_seq(), cells@, r.0@),
        r.1@.len() == cells@.len(),
        forall|j: int|
            0 <= j < cells@.len() ==> (#[trigger] r.1@[j] is Some <==> role(cells@[j].1) == Role::Register) && (
            r.1@[j] is Some ==> r.1@[j] == Some(Reg(rank(cells@, j, Role::Register) as u32))),
        switch_map_ok(r.2@, cells@, cells@.len() as int),
{
    let ghost occ = cells@;
    let ghost insts0 = builder.insts_seq();
    proof {
        lemma_occupied_len(*board, board.size() as int);
        lemma_occupied_facts(*board);
    }
    let mut driver_sig: Vec<Option<Signal>> = Vec::new();
    let mut reg_of: Vec<Option<Reg>> = Vec::new();
    let mut switch_inputs: HashMap<u128, usize> = HashMap::new();
    let mut gate_count: usize = 0;
    let mut clock_count: usize = 0;
    let mut k: usize = 0;
    while k < cells.len()
        invariant
            board.wf(),
            12 * board.size() + 2 < u32::MAX,
            occ == board.occupied(),
            cells@ == occ,
            occ.len() <= board.size(),
            k <= occ.len(),
            gate_count <= k,
            clock_count <= k,
            builder.wf(),
            is_prefix(insts0, builder.insts_seq()),
            builder.insts_seq().len() <= 1 + k,
            builder.regs@.len() == rank(occ, k as int, Role::Register),
            forall|q: int| 0 <= q < builder.regs@.len() ==> (#[trigger] builder.regs@[q]).data_input is None
                && !builder.regs@[q].initial,
            builder.input_count == rank(occ, k as int, Role::Input),
            builder.output_signals@.len() == 0,
            low_ok(builder.insts_seq(), low),
            driver_sig@.len() == k,
            drivers_ok(builder.insts_seq(), occ, driver_sig@),
            reg_of@.len() == k,
            forall|j: int|
                0 <= j < k ==> (#[trigger] reg_of@[j] is Some <==> role(occ[j].1) == Role::Register) && (
                reg_of@[j] is Some ==> reg_of@[j] == Some(Reg(rank(occ, j, Role::Register) as u32))),
            switch_map_ok(switch_inputs@, occ, k as int),
        decreases occ.len() - k,
    {
        let (cell, tile) = cells[k];
        let ghost before = builder.insts_seq();
        let ghost ds0 = driver_sig@;
        let ghost sw0 = switch_inputs@;
        proof {
            lemma_rank_mono(occ, Role::Register, k as int, k as int);
            lemma_rank_mono(occ, Role::Input, k as int, k as int);
        }
        match tile {
            Tile::Gate { .. } | Tile::Clock => {
                let name = match tile {
                    Tile::Clock => {
                        let n = numbered_name("clk", clock_count as u64);
                        clock_count += 1;
                        n
                    },
                    _ => {
                        let n = numbered_name("g", gate_count as u64);
                        gate_count += 1;
                        n
                    },
                };
                let (reg, out) = builder.reg(name, false);
                proof {
                    let after = builder.insts_seq();
                    assert(is_prefix(before, after));
                    assert forall|inputs: Seq<bool>, state: Seq<bool>|
                        #[trigger] signal_value(after, out.0 as int, inputs, state) == driver_value(occ, k as int, inputs, state) by {
                    }
                }
                driver_sig.push(Some(out));
                reg_of.push(Some(reg));
            },
            Tile::Switch => {
                let index = builder.input_count;
                let sig = builder.input(numbered_name("sw", index as u64));
                switch_inputs.insert(cell.key(), index as usize);
                proof {
                    let after = builder.insts_seq();
                    assert(is_prefix(before, after));
                    assert forall|inputs: Seq<bool>, state: Seq<bool>|
                        #[trigger] signal_value(after, sig.0 as int, inputs, state) == driver_value(occ, k as int, inputs, state) by {
                    }
                }
                driver_sig.push(Some(sig));
                reg_of.push(None);
            },
            Tile::Source { on } => {
                let sig = if on {
                    let s = builder.const_val(true);
                    proof {
                        let after = builder.insts_seq();
                        assert(is_prefix(before, after));
                        assert forall|inputs: Seq<bool>, state: Seq<bool>|
                            #[trigger] signal_value(after, s.0 as int, inputs, state) == driver_value(occ, k as int, inputs, state) by {
                        }
                    }
                    s
                } else {
                    low
                };
                driver_sig.push(Some(sig));
                reg_of.push(None);
            },
            _ => {
                driver_sig.push(None);
                reg_of.push(None);
            },
        }
        proof {
            let after = builder.insts_seq();
            assert(is_prefix(before, after));
            lemma_prefix_trans(insts0, before, after);
            lemma_low_extend(before, after, low);
            lemma_drivers_extend(before, after, occ, ds0);
            assert(driver_sig@.drop_last() == ds0);
            assert forall|j: int| 0 <= j < driver_sig@.len() implies #[trigger] driver_sig_ok(after, occ, j, driver_sig@[j]) by {
                if j < k {
                    assert(driver_sig@[j] == ds0[j]);
                    assert(driver_sig_ok(after, occ, j, ds0[j]));
                }
            }
            // The switch map gains this cell's key, which no earlier cell has.
            assert forall|key: u128|
                #[trigger] switch_inputs@.contains_key(key) <==> exists|j: int|
                    0 <= j < k + 1 && occ[j].1 == Tile::Switch && #[trigger] cell_key(occ[j].0) == key by {
                if tile == Tile::Switch && key == cell_key(cell) {
                    assert(occ[k as int].0 == cell);
                }
            }
            assert forall|j: int|
                0 <= j < k + 1 && occ[j].1 == Tile::Switch implies switch_inputs@[#[trigger] cell_key(occ[j].0)] == rank(occ, j, Role::Input) by {
                if j < k && tile == Tile::Switch {
                    if cell_key(occ[j].0) == cell_key(cell) {
                        lemma_cell_key_injective(occ[j].0, cell);
                        lemma_occupied_unique(*board, j, k as int);
                    }
                }
            }
        }
        k += 1;
    }
    (driver_sig, reg_of, switch_inputs)
}

/// `s` carries the level of net `n`.
spec fn net_sig_ok(insts: Seq<Instruction>, b: Board, nets: Nets, n: int, s: Signal) -> bool {
    &&& (s.0 as int) < insts.len()
    &&& forall|inputs: Seq<bool>, state: Seq<bool>|
        #[trigger] signal_value(insts, s.0 as int, inputs, state) == net_level(b, nets, n as NetId, inputs, state)
}

spec fn nets_ok(insts: Seq<Instruction>, b: Board, nets: Nets, ns: Seq<Signal>) -> bool {
    forall|n: int| 0 <= n < ns.len() ==> #[trigger] net_sig_ok(insts, b, nets, n, ns[n])
}

proof fn lemma_nets_extend(insts: Seq<Instruction>, ext: Seq<Instruction>, b: Board, nets: Nets, ns: Seq<Signal>)
    requires
        is_prefix(insts, ext),
        nets_ok(insts, b, nets, ns),
    ensures
        nets_ok(ext, b, nets, ns),
{
    assert forall|n: int| 0 <= n < ns.len() implies #[trigger] net_sig_ok(ext, b, nets, n, ns[n]) by {
        assert(net_sig_ok(insts, b, nets, n, ns[n]));
        assert forall|inputs: Seq<bool>, state: Seq<bool>|
            #[trigger] signal_value(ext, ns[n].0 as int, inputs, state) == net_level(b, nets, n as NetId, inputs, state) by {
            lemma_signal_value_prefix(insts, ext, ns[n].0 as int, inputs, state);
        }
    }
}

/// Total length of the first `n` lists.
spec fn sum_lens(v: Seq<Vec<Signal>>, n: int) -> int
    decreases n,
{
    if n <= 0 {
        0
    } else {
        sum_lens(v, n - 1) + v[n - 1]@.len()
    }
}

proof fn lemma_sum_lens_update(v: Seq<Vec<Signal>>, i: int, w: Vec<Signal>, n: int)
    requires
        0 <= i < v.len(),
        0 <= n <= v.len(),
    ensures
        sum_lens(v.update(i, w), n) == sum_lens(v, n) + if i < n {
            w@.len() - v[i]@.len()
        } else {
            0
        },
    decreases n,
{
    if n > 0 {
        lemma_sum_lens_update(v, i, w, n - 1);
    }
}

proof fn lemma_sum_lens_mono(v: Seq<Vec<Signal>>, n1: int, n2: int)
    requires
        0 <= n1 <= n2 <= v.len(),
    ensures
        0 <= sum_lens(v, n1) <= sum_lens(v, n2),
    decreases n2,
{
    if n1 < n2 {
        lemma_sum_lens_mono(v, n1, n2 - 1);
    } else if n1 > 0 {
        lemma_sum_lens_mono(v, n1 - 1, n1 - 1);
    }
}

/// Driver `j` feeds `net` through signal `s`.
spec fn feeds(occ: Seq<(Cell, Tile)>, nets: Nets, ds: Seq<Option<Signal>>, j: int, net: int, s: Signal) -> bool {
    &&& is_driver_spec(occ[j].1)
    &&& nets.net_of_spec(occ[j].0, Port::Single) == Some(net as NetId)
    &&& ds[j] == Some(s)
}

/// Some driver among the first `k` feeds `net` through `s`.
spec fn fed_before(occ: Seq<(Cell, Tile)>, nets: Nets, ds: Seq<Option<Signal>>, net: int, s: Signal, k: int) -> bool {
    exists|j: int| 0 <= j < k && #[trigger] feeds(occ, nets, ds, j, net, s)
}

/// `s` is one of the signals gathered for `net`.
spec fn gathered(nd: Seq<Vec<Signal>>, net: int, s: Signal) -> bool {
    exists|m: int| 0 <= m < nd[net]@.len() && nd[net]@[m] == s
}

/// A driver at `j` has a net, and its signal is gathered for that net.
spec fn driver_gathered(occ: Seq<(Cell, Tile)>, nets: Nets, ds: Seq<Option<Signal>>, nd: Seq<Vec<Signal>>, j: int) -> bool {
    is_driver_spec(occ[j].1) ==> (nets.net_of_spec(occ[j].0, Port::Single) matches Some(net) && gathered(
        nd,
        net as int,
        ds[j]->0,
    ))
}

/// Pass B: each net becomes the wired-OR of its drivers, low when undriven.
/// Drivers are gathered in board order so the circuit is reproducible.
fn wire_nets(
    builder: &mut CircuitBuilder,
    board: &Board,
    cells: &Vec<(Cell, Tile)>,
    nets: &Nets,
    driver_sig: &Vec<Option<Signal>>,
    low: Signal,
) -> (net_sig: Vec<Signal>)
    requires
        board.wf(),
        12 * board.size() + 2 < u32::MAX,
        cells@ == board.occupied(),
        nets.extracted_from(*board),
        nets.count_spec() <= 2 * cells@.len(),
        old(builder).wf(),
        old(builder).insts_seq().len() <= 1 + cells@.len(),
        low_ok(old(builder).insts_seq(), low),
        driver_sig@.len() == cells@.len(),
        drivers_ok(old(builder).insts_seq(), cells@, driver_sig@),
    ensures
        final(builder).wf(),
        final(builder).same_except_insts(old(builder)),
        is_prefix(old(builder).insts_seq(), final(builder).insts_seq()),
        final(builder).insts_seq().len() <= 1 + 2 * cells@.len(),
        net_sig@.len() == nets.count_spec(),
        nets_ok(final(builder).insts_seq(), *board, *nets, net_sig@),
        low_ok(final(builder).insts_seq(), low),
        drivers_ok(final(builder).insts_seq(), cells@, driver_sig@),
{
    let ghost occ = cells@;
    let ghost b = *board;
    let ghost ds = driver_sig@;
    let ghost b0 = *builder;
    let ghost insts0 = builder.insts_seq();
    proof {
        lemma_occupied_len(b, b.size() as int);
    }
    let count = nets.count();
    let mut net_drivers: Vec<Vec<Signal>> = Vec::new();
    let mut n: usize = 0;
    while n < count
        invariant
            n <= count,
            net_drivers@.len() == n,
            forall|q: int| 0 <= q < n ==> (#[trigger] net_drivers@[q])@.len() == 0,
        decreases count - n,
    {
        net_drivers.push(Vec::new());
        n += 1;
    }
    proof {
        assert(sum_lens(net_drivers@, count as int) == 0) by {
            assert forall|q: int| 0 <= q <= count implies sum_lens(net_drivers@, q) == 0 by {
                assert forall|q2: int| 0 <= q2 <= q implies #[trigger] sum_lens(net_drivers@, q2) == 0 by {
                    lemma_sum_zero(net_drivers@, q2);
                }
            }
        }
    }
    let mut k: usize = 0;
    while k < cells.len()
        invariant
            board.wf(),
            b == *board,
            occ == b.occupied(),
            cells@ == occ,
            ds == driver_sig@,
            ds.len() == occ.len(),
            nets.extracted_from(b),
            count == nets.count_spec(),
            k <= occ.len(),
            net_drivers@.len() == count,
            sum_lens(net_drivers@, count as int) <= k,
            forall|net: int, m: int|
                #![trigger net_drivers@[net]@[m]]
                0 <= net < count && 0 <= m < net_drivers@[net]@.len() ==> fed_before(occ, *nets, ds, net, net_drivers@[net]@[m], k as int),
            drivers_ok(insts0, occ, ds),
            forall|j: int| 0 <= j < k ==> #[trigger] driver_gathered(occ, *nets, ds, net_drivers@, j),
        decreases occ.len() - k,
    {
        let cell = cells[k].0;
        let ghost nd0 = net_drivers@;
        proof {
            lemma_occupied_facts(b);
            if is_driver_spec(occ[k as int].1) {
                assert(nodes_of_spec(occ[k as int].1)[0] == Port::Single);
                assert(is_node(b, cell, Port::Single));
            }
        }
        if let Some(sig) = driver_sig[k] {
            if let Some(net) = nets.driver_net(cell) {
                net_drivers[net].push(sig);
                proof {
                    let nd1 = net_drivers@;
                    assert(nd1 =~= nd0.update(net as int, nd1[net as int]));
                    lemma_sum_lens_update(nd0, net as int, nd1[net as int], count as int);
                }
            }
        }
        proof {
            let nd1 = net_drivers@;
            assert forall|q: int, m: int|
                #![trigger nd1[q]@[m]]
                0 <= q < count && 0 <= m < nd1[q]@.len() implies fed_before(occ, *nets, ds, q, nd1[q]@[m], k + 1) by {
                assert(driver_sig_ok(insts0, occ, k as int, ds[k as int]));
                if m < nd0[q]@.len() && nd1[q]@[m] == nd0[q]@[m] {
                    assert(fed_before(occ, *nets, ds, q, nd0[q]@[m], k as int));
                    let j = choose|j: int| 0 <= j < k && #[trigger] feeds(occ, *nets, ds, j, q, nd0[q]@[m]);
                    assert(feeds(occ, *nets, ds, j, q, nd1[q]@[m]));
                } else {
                    assert(feeds(occ, *nets, ds, k as int, q, nd1[q]@[m]));
                }
            }
            assert forall|j: int| 0 <= j < k + 1 implies #[trigger] driver_gathered(occ, *nets, ds, nd1, j) by {
                if is_driver_spec(occ[j].1) {
                    let q = nets.net_of_spec(occ[j].0, Port::Single)->0 as int;
                    if j < k {
                        assert(driver_gathered(occ, *nets, ds, nd0, j));
                        let m = choose|m: int| 0 <= m < nd0[q]@.len() && nd0[q]@[m] == ds[j]->0;
                        assert(nd1[q]@[m] == ds[j]->0);
                    } else {
                        assert(driver_sig_ok(insts0, occ, k as int, ds[k as int]));
                        assert(nd1[q]@[nd0[q]@.len() as int] == ds[j]->0);
                    }
                }
            }
        }
        k += 1;
    }

    let mut net_sig: Vec<Signal> = Vec::new();
    let mut n: usize = 0;
    while n < count
        invariant
            board.wf(),
            b == *board,
            occ == b.occupied(),
            ds == driver_sig@,
            ds.len() == occ.len(),
            occ.len() <= b.size(),
            12 * b.size() + 2 < u32::MAX,
            nets.extracted_from(b),
            count == nets.count_spec(),
            n <= count,
            net_drivers@.len() == count,
            sum_lens(net_drivers@, count as int) <= occ.len(),
            forall|net: int, m: int|
                #![trigger net_drivers@[net]@[m]]
                0 <= net < count && 0 <= m < net_drivers@[net]@.len() ==> fed_before(occ, *nets, ds, net, net_drivers@[net]@[m], occ.len() as int),
            forall|j: int| 0 <= j < occ.len() ==> #[trigger] driver_gathered(occ, *nets, ds, net_drivers@, j),
            builder.wf(),
            builder.same_except_insts(&b0),
            insts0 == b0.insts_seq(),
            insts0.len() <= 1 + occ.len(),
            is_prefix(insts0, builder.insts_seq()),
            builder.insts_seq().len() <= insts0.len() + sum_lens(net_drivers@, n as int),
            low_ok(builder.insts_seq(), low),
            drivers_ok(builder.insts_seq(), occ, ds),
            net_sig@.len() == n,
            nets_ok(builder.insts_seq(), b, *nets, net_sig@),
        decreases count - n,
    {
        let ghost cur = builder.insts_seq();
        let ghost nd = net_drivers@;
        proof {
            lemma_sum_lens_mono(nd, n as int + 1, count as int);
            assert forall|m: int| 0 <= m < nd[n as int]@.len() implies ((#[trigger] nd[n as int]@[m]).0 as int) < cur.len() by {
                assert(fed_before(occ, *nets, ds, n as int, nd[n as int]@[m], occ.len() as int));
                let j = choose|j: int| 0 <= j < occ.len() && #[trigger] feeds(occ, *nets, ds, j, n as int, nd[n as int]@[m]);
                assert(driver_sig_ok(cur, occ, j, ds[j]));
            }
        }
        let s = or_fold(builder, &net_drivers[n], low);
        proof {
            let after = builder.insts_seq();
            let ins = nd[n as int]@;
            assert forall|inputs: Seq<bool>, state: Seq<bool>|
                #[trigger] signal_value(after, s.0 as int, inputs, state) == net_level(b, *nets, n as NetId, inputs, state) by {
                let v = sig_values(cur, ins, inputs, state);
                if any_high(v) {
                    let m = choose|m: int| 0 <= m < v.len() && #[trigger] v[m];
                    assert(fed_before(occ, *nets, ds, n as int, nd[n as int]@[m], occ.len() as int));
                    let j = choose|j: int| 0 <= j < occ.len() && #[trigger] feeds(occ, *nets, ds, j, n as int, ins[m]);
                    assert(driver_sig_ok(cur, occ, j, ds[j]));
                    assert(signal_value(cur, ins[m].0 as int, inputs, state) == driver_value(occ, j, inputs, state));
                    assert(driver_value(occ, j, inputs, state));
                }
                if net_level(b, *nets, n as NetId, inputs, state) {
                    let j = choose|j: int|
                        0 <= j < occ.len() && is_driver_spec(occ[j].1) && nets.net_of_spec(occ[j].0, Port::Single) == Some(
                            n as NetId,
                        ) && #[trigger] driver_value(occ, j, inputs, state);
                    assert(driver_gathered(occ, *nets, ds, nd, j));
                    let m = choose|m: int| 0 <= m < nd[n as int]@.len() && nd[n as int]@[m] == ds[j]->0;
                    assert(driver_sig_ok(cur, occ, j, ds[j]));
                    assert(v[m]);
                }
            }
            lemma_low_extend(cur, after, low);
            lemma_drivers_extend(cur, after, occ, ds);
            lemma_nets_extend(cur, after, b, *nets, net_sig@);
            lemma_prefix_trans(insts0, cur, after);
        }
        net_sig.push(s);
        proof {
            let after = builder.insts_seq();
            assert forall|q: int| 0 <= q < net_sig@.len() implies #[trigger] net_sig_ok(after, b, *nets, q, net_sig@[q]) by {
                if q < n {
                    assert(net_sig_ok(after, b, *nets, q, net_sig@.drop_last()[q]));
                }
            }
        }
        n += 1;
    }
    proof {
        lemma_sum_lens_mono(net_drivers@, count as int, count as int);
    }
    net_sig
}

proof fn lemma_sum_zero(v: Seq<Vec<Signal>>, n: int)
    requires
        0 <= n <= v.len(),
        forall|q: int| 0 <= q < n ==> (#[trigger] v[q])@.len() == 0,
    ensures
        sum_lens(v, n) == 0,
    decreases n,
{
    if n > 0 {
        lemma_sum_zero(v, n - 1);
    }
}

/// What the register of the cell at list position `j` latches: a gate's
/// operation over its distinct input nets (every side but the one it faces),
/// or a clock's own inverted state.
pub open spec fn register_next(b: Board, nets: Nets, j: int, inputs: Seq<bool>, state: Seq<bool>) -> bool {
    match b.occupied()[j].1 {
        Tile::Gate { kind, facing } => kind_value(
            kind,
            levels(b, nets, input_nets_spec(nets, b, b.occupied()[j].0, Some(facing)), inputs, state),
        ),
        _ => !state[rank(b.occupied(), j, Role::Register) as int],
    }
}

/// The register for list position `j` has been wired to its next value.
spec fn reg_driven_ok(insts: Seq<Instruction>, b: Board, nets: Nets, j: int, p: PendingRegister) -> bool {
    &&& p.data_input is Some
    &&& ((p.data_input->0).0 as int) < insts.len()
    &&& forall|inputs: Seq<bool>, state: Seq<bool>|
        #[trigger] signal_value(insts, (p.data_input->0).0 as int, inputs, state) == register_next(b, nets, j, inputs, state)
}

proof fn lemma_reg_driven_extend(insts: Seq<Instruction>, ext: Seq<Instruction>, b: Board, nets: Nets, j: int, p: PendingRegister)
    requires
        is_prefix(insts, ext),
        reg_driven_ok(insts, b, nets, j, p),
    ensures
        reg_driven_ok(ext, b, nets, j, p),
{
    assert forall|inputs: Seq<bool>, state: Seq<bool>|
        #[trigger] signal_value(ext, (p.data_input->0).0 as int, inputs, state) == register_next(b, nets, j, inputs, state) by {
        lemma_signal_value_prefix(insts, ext, (p.data_input->0).0 as int, inputs, state);
    }
}

/// The nets listed are real nets of the extraction.
proof fn lemma_input_nets_bounded(nets: Nets, b: Board, cell: Cell, exclude: Option<Direction>)
    requires
        nets.extracted_from(b),
    ensures
        forall|m: int|
            0 <= m < input_nets_spec(nets, b, cell, exclude).len() ==> (#[trigger] input_nets_spec(nets, b, cell, exclude)[m])
                < nets.count_spec(),
        input_nets_spec(nets, b, cell, exclude).len() <= 4,
{
    lemma_input_nets(nets, b, cell, exclude, 4);
    let ns = input_nets_spec(nets, b, cell, exclude);
    assert forall|m: int| 0 <= m < ns.len() implies (#[trigger] ns[m]) < nets.count_spec() by {
        assert(ns.contains(ns[m]));
        let k = choose|k: int|
            0 <= k < 4 && exclude != Some(all_directions()[k]) && #[trigger] nets.neighbour_net_spec(
                b,
                cell,
                all_directions()[k],
            ) == Some(ns[m]);
        let d = all_directions()[k];
        let n = b.neighbour_spec(cell, d)->0;
        let p = crate::net::port_on_side_spec(b.tile_at(n), crate::tile::opposite_spec(d))->0;
        assert(nets.net_of_spec(n, p) == Some(ns[m]));
    }
}

/// The signals carrying the levels of the nets `ns`.
fn net_signals(net_sig: &Vec<Signal>, ns: &Vec<NetId>) -> (ins: Vec<Signal>)
    requires
        forall|m: int| 0 <= m < ns@.len() ==> (#[trigger] ns@[m]) < net_sig@.len(),
    ensures
        ins@.len() == ns@.len(),
        forall|m: int| 0 <= m < ns@.len() ==> #[trigger] ins@[m] == net_sig@[ns@[m] as int],
{
    let mut ins: Vec<Signal> = Vec::new();
    let mut q: usize = 0;
    while q < ns.len()
        invariant
            q <= ns@.len(),
            forall|m: int| 0 <= m < ns@.len() ==> (#[trigger] ns@[m]) < net_sig@.len(),
            ins@.len() == q,
            forall|m: int| 0 <= m < q ==> #[trigger] ins@[m] == net_sig@[ns@[m] as int],
        decreases ns@.len() - q,
    {
        ins.push(net_sig[ns[q]]);
        q += 1;
    }
    ins
}

/// The values of the signals for `ns` are the levels of those nets.
proof fn lemma_levels(insts: Seq<Instruction>, b: Board, nets: Nets, net_sig: Seq<Signal>, ns: Seq<NetId>, ins: Seq<Signal>, inputs: Seq<bool>, state: Seq<bool>)
    requires
        nets_ok(insts, b, nets, net_sig),
        ins.len() == ns.len(),
        forall|m: int| 0 <= m < ns.len() ==> (#[trigger] ns[m]) < net_sig.len(),
        forall|m: int| 0 <= m < ns.len() ==> #[trigger] ins[m] == net_sig[ns[m] as int],
    ensures
        sig_values(insts, ins, inputs, state) == levels(b, nets, ns, inputs, state),
{
    assert forall|m: int| 0 <= m < ns.len() implies #[trigger] sig_values(insts, ins, inputs, state)[m] == levels(
        b,
        nets,
        ns,
        inputs,
        state,
    )[m] by {
        assert(net_sig_ok(insts, b, nets, ns[m] as int, net_sig[ns[m] as int]));
        assert(ins[m] == net_sig[ns[m] as int]);
    }
    assert(sig_values(insts, ins, inputs, state) =~= levels(b, nets, ns, inputs, state));
}

/// Pass C: wire every register's next-state input, gates first, then clocks.
fn drive_registers(
    builder: &mut CircuitBuilder,
    board: &Board,
    cells: &Vec<(Cell, Tile)>,
    nets: &Nets,
    net_sig: &Vec<Signal>,
    driver_sig: &Vec<Option<Signal>>,
    reg_of: &Vec<Option<Reg>>,
    low: Signal,
)
    requires
        board.wf(),
        12 * board.size() + 2 < u32::MAX,
        cells@ == board.occupied(),
        nets.extracted_from(*board),
        old(builder).wf(),
        old(builder).insts_seq().len() <= 1 + 2 * cells@.len(),
        low_ok(old(builder).insts_seq(), low),
        net_sig@.len() == nets.count_spec(),
        nets_ok(old(builder).insts_seq(), *board, *nets, net_sig@),
        driver_sig@.len() == cells@.len(),
        drivers_ok(old(builder).insts_seq(), cells@, driver_sig@),
        old(builder).regs@.len() == rank(cells@, cells@.len() as int, Role::Register),
        forall|q: int| 0 <= q < old(builder).regs@.len() ==> !(#[trigger] old(builder).regs@[q]).initial,
        reg_of@.len() == cells@.len(),
        forall|j: int|
            0 <= j < cells@.len() ==> (#[trigger] reg_of@[j] is Some <==> role(cells@[j].1) == Role::Register) && (
            reg_of@[j] is Some ==> reg_of@[j] == Some(Reg(rank(cells@, j, Role::Register) as u32))),
    ensures
        final(builder).wf(),
        is_prefix(old(builder).insts_seq(), final(builder).insts_seq()),
        final(builder).insts_seq().len() <= 1 + 8 * cells@.len(),
        final(builder).regs@.len() == old(builder).regs@.len(),
        final(builder).input_count == old(builder).input_count,
        final(builder).output_signals@ == old(builder).output_signals@,
        forall|q: int| 0 <= q < final(builder).regs@.len() ==> !(#[trigger] final(builder).regs@[q]).initial,
        forall|j: int|
            0 <= j < cells@.len() && role(cells@[j].1) == Role::Register ==> #[trigger] reg_driven_ok(
                final(builder).insts_seq(),
                *board,
                *nets,
                j,
                final(builder).regs@[rank(cells@, j, Role::Register) as int],
            ),
        low_ok(final(builder).insts_seq(), low),
        nets_ok(final(builder).insts_seq(), *board, *nets, net_sig@),
{
    let ghost occ = cells@;
    let ghost b = *board;
    let ghost insts0 = builder.insts_seq();
    let ghost nregs = builder.regs@.len();
    let ghost b0 = *builder;
    proof {
        lemma_occupied_len(b, b.size() as int);
    }
    let mut k: usize = 0;
    while k < cells.len()
        invariant
            board.wf(),
            b == *board,
            12 * b.size() + 2 < u32::MAX,
            occ == b.occupied(),
            cells@ == occ,
            occ.len() <= b.size(),
            nets.extracted_from(b),
            k <= occ.len(),
            builder.wf(),
            is_prefix(insts0, builder.insts_seq()),
            insts0.len() <= 1 + 2 * occ.len(),
            builder.insts_seq().len() <= insts0.len() + 5 * k,
            builder.regs@.len() == nregs,
            nregs == rank(occ, occ.len() as int, Role::Register),
            builder.input_count == b0.input_count,
            builder.output_signals@ == b0.output_signals@,
            forall|q: int| 0 <= q < builder.regs@.len() ==> !(#[trigger] builder.regs@[q]).initial,
            forall|j: int|
                0 <= j < k && occ[j].1 is Gate ==> #[trigger] reg_driven_ok(
                    builder.insts_seq(),
                    b,
                    *nets,
                    j,
                    builder.regs@[rank(occ, j, Role::Register) as int],
                ),
            low_ok(builder.insts_seq(), low),
            net_sig@.len() == nets.count_spec(),
            nets_ok(builder.insts_seq(), b, *nets, net_sig@),
            driver_sig@.len() == occ.len(),
            drivers_ok(builder.insts_seq(), occ, driver_sig@),
            reg_of@.len() == occ.len(),
            forall|j: int|
                0 <= j < occ.len() ==> (#[trigger] reg_of@[j] is Some <==> role(occ[j].1) == Role::Register) && (
                reg_of@[j] is Some ==> reg_of@[j] == Some(Reg(rank(occ, j, Role::Register) as u32))),
        decreases occ.len() - k,
    {
        let (cell, tile) = cells[k];
        let ghost cur = builder.insts_seq();
        let ghost regs0 = builder.regs@;
        proof {
            lemma_rank_mono(occ, Role::Register, k as int, occ.len() as int);
        }
        if let Tile::Gate { kind, facing } = tile {
            let ns = input_nets(nets, board, cell, Some(facing));
            proof {
                lemma_input_nets_bounded(*nets, b, cell, Some(facing));
            }
            let ins = net_signals(net_sig, &ns);
            proof {
                assert forall|m: int| 0 <= m < ins@.len() implies ((#[trigger] ins@[m]).0 as int) < cur.len() by {
                    assert(net_sig_ok(cur, b, *nets, ns@[m] as int, net_sig@[ns@[m] as int]));
                }
            }
            let next = build_gate(builder, kind, &ins, low);
            let ghost mid = builder.insts_seq();
            let reg = match reg_of[k] {
                Some(r) => r,
                None => Reg(0),
            };
            builder.drive(reg, next);
            proof {
                let r = rank(occ, k as int, Role::Register) as int;
                assert(reg == Reg(r as u32));
                assert forall|inputs: Seq<bool>, state: Seq<bool>|
                    #[trigger] signal_value(mid, next.0 as int, inputs, state) == register_next(b, *nets, k as int, inputs, state) by {
                    lemma_levels(cur, b, *nets, net_sig@, ns@, ins@, inputs, state);
                }
                assert(reg_driven_ok(mid, b, *nets, k as int, builder.regs@[r]));
                lemma_low_extend(cur, mid, low);
                lemma_nets_extend(cur, mid, b, *nets, net_sig@);
                lemma_drivers_extend(cur, mid, occ, driver_sig@);
                lemma_prefix_trans(insts0, cur, mid);
                assert forall|j: int|
                    0 <= j < k + 1 && occ[j].1 is Gate implies #[trigger] reg_driven_ok(
                        mid,
                        b,
                        *nets,
                        j,
                        builder.regs@[rank(occ, j, Role::Register) as int],
                    ) by {
                    if j < k {
                        lemma_rank_mono(occ, Role::Register, j, k as int);
                        lemma_rank_mono(occ, Role::Register, j, occ.len() as int);
                        assert(builder.regs@[rank(occ, j, Role::Register) as int] == regs0[rank(occ, j, Role::Register) as int]);
                        lemma_reg_driven_extend(cur, mid, b, *nets, j, regs0[rank(occ, j, Role::Register) as int]);
                    }
                }
                assert forall|q: int| 0 <= q < builder.regs@.len() implies !(#[trigger] builder.regs@[q]).initial by {
                    assert(!regs0[q].initial);
                }
            }
        }
        k += 1;
    }

    let ghost insts1 = builder.insts_seq();
    let mut k: usize = 0;
    while k < cells.len()
        invariant
            board.wf(),
            b == *board,
            12 * b.size() + 2 < u32::MAX,
            occ == b.occupied(),
            cells@ == occ,
            occ.len() <= b.size(),
            nets.extracted_from(b),
            k <= occ.len(),
            builder.wf(),
            is_prefix(insts0, builder.insts_seq()),
            insts1.len() <= insts0.len() + 5 * occ.len(),
            insts0.len() <= 1 + 2 * occ.len(),
            builder.insts_seq().len() <= insts1.len() + k,
            builder.regs@.len() == nregs,
            nregs == rank(occ, occ.len() as int, Role::Register),
            builder.input_count == b0.input_count,
            builder.output_signals@ == b0.output_signals@,
            forall|q: int| 0 <= q < builder.regs@.len() ==> !(#[trigger] builder.regs@[q]).initial,
            forall|j: int|
                0 <= j < occ.len() && occ[j].1 is Gate ==> #[trigger] reg_driven_ok(
                    builder.insts_seq(),
                    b,
                    *nets,
                    j,
                    builder.regs@[rank(occ, j, Role::Register) as int],
                ),
            forall|j: int|
                0 <= j < k && occ[j].1 is Clock ==> #[trigger] reg_driven_ok(
                    builder.insts_seq(),
                    b,
                    *nets,
                    j,
                    builder.regs@[rank(occ, j, Role::Register) as int],
                ),
            low_ok(builder.insts_seq(), low),
            net_sig@.len() == nets.count_spec(),
            nets_ok(builder.insts_seq(), b, *nets, net_sig@),
            driver_sig@.len() == occ.len(),
            drivers_ok(builder.insts_seq(), occ, driver_sig@),
            reg_of@.len() == occ.len(),
            forall|j: int|
                0 <= j < occ.len() ==> (#[trigger] reg_of@[j] is Some <==> role(occ[j].1) == Role::Register) && (
                reg_of@[j] is Some ==> reg_of@[j] == Some(Reg(rank(occ, j, Role::Register) as u32))),
        decreases occ.len() - k,
    {
        let tile = cells[k].1;
        let ghost cur = builder.insts_seq();
        let ghost regs0 = builder.regs@;
        proof {
            lemma_rank_mono(occ, Role::Register, k as int, occ.len() as int);
        }
        if let Tile::Clock = tile {
            proof {
                assert(driver_sig_ok(cur, occ, k as int, driver_sig@[k as int]));
            }
            let out = match driver_sig[k] {
                Some(s) => s,
                None => low,
            };
            let next = builder.not(out);
            let ghost mid = builder.insts_seq();
            let reg = match reg_of[k] {
                Some(r) => r,
                None => Reg(0),
            };
            builder.drive(reg, next);
            proof {
                let r = rank(occ, k as int, Role::Register) as int;
                assert(reg == Reg(r as u32));
                assert forall|inputs: Seq<bool>, state: Seq<bool>|
                    #[trigger] signal_value(mid, next.0 as int, inputs, state) == register_next(b, *nets, k as int, inputs, state) by {
                    assert(signal_value(cur, out.0 as int, inputs, state) == driver_value(occ, k as int, inputs, state));
                }
                assert(reg_driven_ok(mid, b, *nets, k as int, builder.regs@[r]));
                lemma_low_extend(cur, mid, low);
                lemma_nets_extend(cur, mid, b, *nets, net_sig@);
                lemma_drivers_extend(cur, mid, occ, driver_sig@);
                lemma_prefix_trans(insts0, cur, mid);
                assert forall|j: int|
                    0 <= j < occ.len() && role(occ[j].1) == Role::Register && j != k && reg_driven_ok(
                        cur,
                        b,
                        *nets,
                        j,
                        regs0[rank(occ, j, Role::Register) as int],
                    ) implies #[trigger] reg_driven_ok(
                        mid,
                        b,
                        *nets,
                        j,
                        builder.regs@[rank(occ, j, Role::Register) as int],
                    ) by {
                    lemma_rank_mono(occ, Role::Register, j, occ.len() as int);
                    if j < k {
                        lemma_rank_mono(occ, Role::Register, j, k as int);
                    } else {
                        lemma_rank_mono(occ, Role::Register, k as int, j);
                    }
                    assert(builder.regs@[rank(occ, j, Role::Register) as int] == regs0[rank(occ, j, Role::Register) as int]);
                    lemma_reg_driven_extend(cur, mid, b, *nets, j, regs0[rank(occ, j, Role::Register) as int]);
                }
                assert forall|q: int| 0 <= q < builder.regs@.len() implies !(#[trigger] builder.regs@[q]).initial by {
                    assert(!regs0[q].initial);
                }
            }
        }
        k += 1;
    }
}

/// An LED is lit when some net on one of its sides is high.
pub open spec fn led_lit(b: Board, nets: Nets, cell: Cell, inputs: Seq<bool>, state: Seq<bool>) -> bool {
    exists|d: Direction, n: NetId|
        #![trigger nets.neighbour_net_spec(b, cell, d), net_level(b, nets, n, inputs, state)]
        nets.neighbour_net_spec(b, cell, d) == Some(n) && net_level(b, nets, n, inputs, state)
}

/// `s` carries whether the LED at `cell` is lit.
spec fn led_sig_ok(insts: Seq<Instruction>, b: Board, nets: Nets, cell: Cell, s: Signal) -> bool {
    &&& (s.0 as int) < insts.len()
    &&& forall|inputs: Seq<bool>, state: Seq<bool>|
        #[trigger] signal_value(insts, s.0 as int, inputs, state) == led_lit(b, nets, cell, inputs, state)
}

proof fn lemma_led_extend(insts: Seq<Instruction>, ext: Seq<Instruction>, b: Board, nets: Nets, cell: Cell, s: Signal)
    requires
        is_prefix(insts, ext),
        led_sig_ok(insts, b, nets, cell, s),
    ensures
        led_sig_ok(ext, b, nets, cell, s),
{
    assert forall|inputs: Seq<bool>, state: Seq<bool>|
        #[trigger] signal_value(ext, s.0 as int, inputs, state) == led_lit(b, nets, cell, inputs, state) by {
        lemma_signal_value_prefix(insts, ext, s.0 as int, inputs, state);
    }
}

/// An LED's OR over its distinct neighbour nets is high exactly when it is lit.
proof fn lemma_led_value(b: Board, nets: Nets, cell: Cell, inputs: Seq<bool>, state: Seq<bool>)
    ensures
        any_high(levels(b, nets, input_nets_spec(nets, b, cell, None), inputs, state)) == led_lit(b, nets, cell, inputs, state),
{
    let ns = input_nets_spec(nets, b, cell, None);
    let v = levels(b, nets, ns, inputs, state);
    lemma_input_nets(nets, b, cell, None, 4);
    if any_high(v) {
        let m = choose|m: int| 0 <= m < v.len() && #[trigger] v[m];
        assert(ns.contains(ns[m]));
        let k = choose|k: int|
            0 <= k < 4 && None::<Direction> != Some(all_directions()[k]) && #[trigger] nets.neighbour_net_spec(
                b,
                cell,
                all_directions()[k],
            ) == Some(ns[m]);
        assert(nets.neighbour_net_spec(b, cell, all_directions()[k]) == Some(ns[m]) && net_level(b, nets, ns[m], inputs, state));
    }
    if led_lit(b, nets, cell, inputs, state) {
        let (d, n) = choose|d: Direction, n: NetId|
            #![trigger nets.neighbour_net_spec(b, cell, d), net_level(b, nets, n, inputs, state)]
            nets.neighbour_net_spec(b, cell, d) == Some(n) && net_level(b, nets, n, inputs, state);
        lemma_direction_laws(d);
        let k = choose|k: int| 0 <= k < all_directions().len() && all_directions()[k] == d;
        assert(nets.neighbour_net_spec(b, cell, all_directions()[k]) == Some(n));
        assert(ns.contains(n));
        let m = choose|m: int| 0 <= m < ns.len() && ns[m] == n;
        assert(v[m]);
    }
}

/// The LED at list position `j` is listed with output `count + rank`, and
/// that output carries whether it is lit.
spec fn led_entry(
    occ: Seq<(Cell, Tile)>,
    count: nat,
    leds: Seq<(Cell, usize)>,
    outs: Seq<Signal>,
    insts: Seq<Instruction>,
    b: Board,
    nets: Nets,
    j: int,
) -> bool {
    &&& leds[rank(occ, j, Role::Indicator) as int] == (occ[j].0, (count + rank(occ, j, Role::Indicator)) as usize)
    &&& led_sig_ok(insts, b, nets, occ[j].0, outs[(count + rank(occ, j, Role::Indicator)) as int])
}

/// Pass D: export every net (output index == net id), then one output per LED.
fn export_outputs(
    builder: &mut CircuitBuilder,
    board: &Board,
    cells: &Vec<(Cell, Tile)>,
    nets: &Nets,
    net_sig: &Vec<Signal>,
    low: Signal,
) -> (leds: Vec<(Cell, usize)>)
    requires
        board.wf(),
        12 * board.size() + 2 < u32::MAX,
        cells@ == board.occupied(),
        nets.extracted_from(*board),
        nets.count_spec() <= 2 * cells@.len(),
        old(builder).wf(),
        old(builder).insts_seq().len() <= 1 + 8 * cells@.len(),
        old(builder).output_signals@.len() == 0,
        low_ok(old(builder).insts_seq(), low),
        net_sig@.len() == nets.count_spec(),
        nets_ok(old(builder).insts_seq(), *board, *nets, net_sig@),
    ensures
        final(builder).wf(),
        is_prefix(old(builder).insts_seq(), final(builder).insts_seq()),
        final(builder).regs@ == old(builder).regs@,
        final(builder).input_count == old(builder).input_count,
        final(builder).output_signals@.len() == nets.count_spec() + rank(cells@, cells@.len() as int, Role::Indicator),
        forall|n: int| 0 <= n < nets.count_spec() ==> #[trigger] final(builder).output_signals@[n] == net_sig@[n],
        nets_ok(final(builder).insts_seq(), *board, *nets, net_sig@),
        leds@.len() == rank(cells@, cells@.len() as int, Role::Indicator),
        forall|j: int|
            0 <= j < cells@.len() && cells@[j].1 == Tile::Led ==> #[trigger] led_entry(
                cells@,
                nets.count_spec(),
                leds@,
                final(builder).output_signals@,
                final(builder).insts_seq(),
                *board,
                *nets,
                j,
            ),
{
    let ghost occ = cells@;
    let ghost b = *board;
    let ghost insts0 = builder.insts_seq();
    let ghost b0 = *builder;
    proof {
        lemma_occupied_len(b, b.size() as int);
    }
    let count = nets.count();
    let mut n: usize = 0;
    while n < count
        invariant
            count == nets.count_spec(),
            count <= 2 * occ.len(),
            occ.len() <= b.size(),
            12 * b.size() + 2 < u32::MAX,
            n <= count,
            builder.wf(),
            builder.insts_seq() == insts0,
            builder.regs@ == b0.regs@,
            builder.input_count == b0.input_count,
            builder.output_signals@ == net_sig@.take(n as int),
            net_sig@.len() == count,
            nets_ok(insts0, b, *nets, net_sig@),
        decreases count - n,
    {
        proof {
            assert(net_sig_ok(insts0, b, *nets, n as int, net_sig@[n as int]));
        }
        builder.output(numbered_name("net", n as u64), net_sig[n]);
        proof {
            assert(builder.output_signals@ =~= net_sig@.take(n + 1));
        }
        n += 1;
    }
    proof {
        assert(net_sig@.take(count as int) =~= net_sig@);
    }
    let mut leds: Vec<(Cell, usize)> = Vec::new();
    let mut k: usize = 0;
    while k < cells.len()
        invariant
            board.wf(),
            b == *board,
            12 * b.size() + 2 < u32::MAX,
            occ == b.occupied(),
            cells@ == occ,
            occ.len() <= b.size(),
            nets.extracted_from(b),
            count == nets.count_spec(),
            count <= 2 * occ.len(),
            k <= occ.len(),
            builder.wf(),
            is_prefix(insts0, builder.insts_seq()),
            insts0.len() <= 1 + 8 * occ.len(),
            builder.insts_seq().len() <= insts0.len() + 4 * k,
            builder.regs@ == b0.regs@,
            builder.input_count == b0.input_count,
            builder.output_signals@.len() == count + rank(occ, k as int, Role::Indicator),
            forall|q: int| 0 <= q < count ==> #[trigger] builder.output_signals@[q] == net_sig@[q],
            leds@.len() == rank(occ, k as int, Role::Indicator),
            forall|j: int|
                0 <= j < k && occ[j].1 == Tile::Led ==> #[trigger] led_entry(
                    occ,
                    count as nat,
                    leds@,
                    builder.output_signals@,
                    builder.insts_seq(),
                    b,
                    *nets,
                    j,
                ),
            low_ok(builder.insts_seq(), low),
            net_sig@.len() == count,
            nets_ok(builder.insts_seq(), b, *nets, net_sig@),
        decreases occ.len() - k,
    {
        let (cell, tile) = cells[k];
        let ghost cur = builder.insts_seq();
        let ghost outs0 = builder.output_signals@;
        let ghost leds0 = leds@;
        proof {
            lemma_rank_mono(occ, Role::Indicator, k as int, k as int);
        }
        if let Tile::Led = tile {
            let ns = input_nets(nets, board, cell, None);
            proof {
                lemma_input_nets_bounded(*nets, b, cell, None);
            }
            let ins = net_signals(net_sig, &ns);
            proof {
                assert forall|m: int| 0 <= m < ins@.len() implies ((#[trigger] ins@[m]).0 as int) < cur.len() by {
                    assert(net_sig_ok(cur, b, *nets, ns@[m] as int, net_sig@[ns@[m] as int]));
                }
            }
            let sig = or_fold(builder, &ins, low);
            let ghost mid = builder.insts_seq();
            let index = leds.len();
            let output_index = count + index;
            builder.output(numbered_name("led", index as u64), sig);
            leds.push((cell, output_index));
            proof {
                assert forall|inputs: Seq<bool>, state: Seq<bool>|
                    #[trigger] signal_value(mid, sig.0 as int, inputs, state) == led_lit(b, *nets, cell, inputs, state) by {
                    lemma_levels(cur, b, *nets, net_sig@, ns@, ins@, inputs, state);
                    lemma_led_value(b, *nets, cell, inputs, state);
                }
                lemma_low_extend(cur, mid, low);
                lemma_nets_extend(cur, mid, b, *nets, net_sig@);
                lemma_prefix_trans(insts0, cur, mid);
                assert forall|j: int|
                    0 <= j < k + 1 && occ[j].1 == Tile::Led implies #[trigger] led_entry(
                        occ,
                        count as nat,
                        leds@,
                        builder.output_signals@,
                        mid,
                        b,
                        *nets,
                        j,
                    ) by {
                    let r = rank(occ, j, Role::Indicator) as int;
                    if j < k {
                        assert(led_entry(occ, count as nat, leds0, outs0, cur, b, *nets, j));
                        lemma_rank_mono(occ, Role::Indicator, j, k as int);
                        assert(leds@[r] == leds0[r]);
                        assert(builder.output_signals@[count + r] == outs0[count + r]);
                        lemma_led_extend(cur, mid, b, *nets, occ[j].0, outs0[count + r]);
                    } else {
                        assert(leds@[r] == (cell, output_index));
                        assert(builder.output_signals@[count + r] == sig);
                    }
                }

            }
        } else {
            proof {
                assert forall|j: int|
                    0 <= j < k + 1 && occ[j].1 == Tile::Led implies #[trigger] led_entry(
                        occ,
                        count as nat,
                        leds@,
                        builder.output_signals@,
                        cur,
                        b,
                        *nets,
                        j,
                    ) by {
                    assert(j < k);
                }
            }
        }
        k += 1;
    }
    leds
}

/// Everything the simulator needs besides the circuit itself.
#[derive(Clone, Debug)]
pub struct BoardMap {
    /// Number of nets. Net `n` is exported as output index `n`.
    pub net_count: usize,
    /// Switch cell, by [`Cell::key`], to its circuit input index.
    pub switch_inputs: HashMap<u128, usize>,
    /// LED cell and its circuit output index, in board order.
    pub leds: Vec<(Cell, usize)>,
    /// Net assignment, kept for rendering and queries.
    pub nets: Nets,
}

/// A compiled board: the runnable circuit plus the maps that tie it back to
/// cells.
pub struct Compiled {
    pub circuit: Circuit,
    pub map: BoardMap,
}

/// Why a board failed to compile. The lowering never leaves a register
/// undriven, so this is never produced; it is kept so that a failure of the
/// netlist builder would surface as an error rather than a panic.
#[derive(Clone, Debug, PartialEq, Eq)]
pub enum CompileError {
    Build(String),
}

impl CompileError {
    /// A human-readable description.
    pub fn message(&self) -> (s: String)
        ensures
            self matches CompileError::Build(msg) ==> s@ == "circuit construction failed: "@ + msg@,
    {
        match self {
            CompileError::Build(msg) => String::from_str("circuit construction failed: ").concat(msg.as_str()),
        }
    }
}

impl Compiled {
    /// `self` is the lowering of board `b`: net `n` is output `n` and is
    /// high exactly when a driver on it pushes a high value; each LED
    /// output follows whether a net beside it is high; every register
    /// starts low and latches its gate's operation over its input nets, or
    /// its clock's inverted state; switches are the circuit's inputs in
    /// board order.
    pub open spec fn lowers(&self, b: Board) -> bool {
        let occ = b.occupied();
        let nets = self.map.nets;
        let c = self.circuit;
        let count = nets.count_spec();
        &&& nets.extracted_from(b)
        &&& self.map.net_count == count
        &&& c.wf()
        &&& c.input_count == rank(occ, occ.len() as int, Role::Input)
        &&& c.regs_seq().len() == rank(occ, occ.len() as int, Role::Register)
        &&& c.output_signals@.len() == count + rank(occ, occ.len() as int, Role::Indicator)
        &&& switch_map_ok(self.map.switch_inputs@, occ, occ.len() as int)
        &&& self.map.leds@.len() == rank(occ, occ.len() as int, Role::Indicator)
        &&& forall|j: int|
            0 <= j < occ.len() && occ[j].1 == Tile::Led ==> #[trigger] self.map.leds@[rank(occ, j, Role::Indicator) as int] == (
            occ[j].0,
            (count + rank(occ, j, Role::Indicator)) as usize,
        )
        &&& forall|r: int| 0 <= r < c.regs_seq().len() ==> !(#[trigger] c.regs_seq()[r]).initial
        &&& forall|inputs: Seq<bool>, state: Seq<bool>, n: int|
            0 <= n < count ==> #[trigger] c.output_values(inputs, state)[n] == net_level(b, nets, n as NetId, inputs, state)
        &&& forall|inputs: Seq<bool>, state: Seq<bool>, j: int|
            0 <= j < occ.len() && occ[j].1 == Tile::Led ==> c.output_values(inputs, state)[(count + rank(
                occ,
                j,
                Role::Indicator,
            )) as int] == #[trigger] led_lit(b, nets, occ[j].0, inputs, state)
        &&& forall|inputs: Seq<bool>, state: Seq<bool>, j: int|
            0 <= j < occ.len() && role(occ[j].1) == Role::Register ==> c.next_state(inputs, state)[rank(
                occ,
                j,
                Role::Register,
            ) as int] == #[trigger] register_next(b, nets, j, inputs, state)
    }
}

/// Lower `board` into a runnable circuit.
pub fn compile(board: &Board) -> (res: Result<Compiled, CompileError>)
    requires
        board.wf(),
        12 * board.size() + 2 < u32::MAX,
    ensures
        res is Ok,
        res matches Ok(c) ==> c.lowers(*board),
{
    let nets = extract(board);
    let cells = board.iter();
    let ghost b = *board;
    let ghost occ = cells@;
    let mut builder = CircuitBuilder::new();
    let low = builder.const_val(false);
    proof {
        lemma_occupied_len(b, b.size() as int);
        assert forall|inputs: Seq<bool>, state: Seq<bool>| !#[trigger] signal_value(builder.insts_seq(), low.0 as int, inputs, state) by {
        }
    }
    let (driver_sig, reg_of, switch_inputs) = add_drivers(&mut builder, board, &cells, low);
    let net_sig = wire_nets(&mut builder, board, &cells, &nets, &driver_sig, low);
    drive_registers(&mut builder, board, &cells, &nets, &net_sig, &driver_sig, &reg_of, low);
    let ghost driven = builder;
    let leds = export_outputs(&mut builder, board, &cells, &nets, &net_sig, low);
    let net_count = nets.count();
    let ghost leds_g = leds@;
    proof {
        let insts = builder.insts_seq();
        let regs = builder.regs@;
        assert forall|j: int|
            0 <= j < occ.len() && role(occ[j].1) == Role::Register implies #[trigger] reg_driven_ok(
                insts,
                b,
                nets,
                j,
                regs[rank(occ, j, Role::Register) as int],
            ) by {
            assert(reg_driven_ok(driven.insts_seq(), b, nets, j, regs[rank(occ, j, Role::Register) as int]));
            lemma_reg_driven_extend(driven.insts_seq(), insts, b, nets, j, regs[rank(occ, j, Role::Register) as int]);
        }
        assert forall|r: int| 0 <= r < regs.len() implies (#[trigger] regs[r]).data_input is Some by {
            lemma_rank_onto(occ, Role::Register, occ.len() as int, r as nat);
            let j = choose|j: int| 0 <= j < occ.len() && role(occ[j].1) == Role::Register && #[trigger] rank(occ, j, Role::Register) == r;
            assert(reg_driven_ok(insts, b, nets, j, regs[rank(occ, j, Role::Register) as int]));
        }
    }
    match builder.finish() {
        Ok(circuit) => {
            let compiled = Compiled { circuit, map: BoardMap { net_count, switch_inputs, leds, nets } };
            proof {
                let c = compiled.circuit;
                let insts = builder.insts_seq();
                let regs = builder.regs@;
                assert(c.insts_seq() == insts);
                assert forall|inputs: Seq<bool>, state: Seq<bool>, n: int|
                    0 <= n < nets.count_spec() implies #[trigger] c.output_values(inputs, state)[n] == net_level(
                        b,
                        nets,
                        n as NetId,
                        inputs,
                        state,
                    ) by {
                    assert(net_sig_ok(insts, b, nets, n, net_sig@[n]));
                    assert(c.output_signals@[n] == net_sig@[n]);
                }
                assert forall|inputs: Seq<bool>, state: Seq<bool>, j: int|
                    0 <= j < occ.len() && occ[j].1 == Tile::Led implies c.output_values(inputs, state)[(nets.count_spec()
                        + rank(occ, j, Role::Indicator)) as int] == #[trigger] led_lit(b, nets, occ[j].0, inputs, state) by {
                    lemma_rank_mono(occ, Role::Indicator, j, occ.len() as int);
                    let r = rank(occ, j, Role::Indicator) as int;
                    assert(led_entry(occ, nets.count_spec(), leds_g, c.output_signals@, insts, b, nets, j));
                    assert(led_sig_ok(insts, b, nets, occ[j].0, c.output_signals@[nets.count_spec() + r]));
                }
                assert forall|inputs: Seq<bool>, state: Seq<bool>, j: int|
                    0 <= j < occ.len() && role(occ[j].1) == Role::Register implies c.next_state(inputs, state)[rank(
                        occ,
                        j,
                        Role::Register,
                    ) as int] == #[trigger] register_next(b, nets, j, inputs, state) by {
                    lemma_rank_mono(occ, Role::Register, j, occ.len() as int);
                    let r = rank(occ, j, Role::Register) as int;
                    assert(reg_driven_ok(insts, b, nets, j, regs[r]));
                    assert(c.regs_seq()[r].data_input == regs[r].data_input->0);
                }
                assert forall|r: int| 0 <= r < c.regs_seq().len() implies !(#[trigger] c.regs_seq()[r]).initial by {
                    assert(!regs[r].initial);
                }
                assert forall|j: int|
                    0 <= j < occ.len() && occ[j].1 == Tile::Led implies #[trigger] compiled.map.leds@[rank(
                        occ,
                        j,
                        Role::Indicator,
                    ) as int] == (occ[j].0, (nets.count_spec() + rank(occ, j, Role::Indicator)) as usize) by {
                    assert(led_entry(occ, nets.count_spec(), leds_g, c.output_signals@, insts, b, nets, j));
                }
                assert(nets.extracted_from(b));
                assert(c.wf());
                assert(c.input_count == rank(occ, occ.len() as int, Role::Input));
                assert(c.regs_seq().len() == rank(occ, occ.len() as int, Role::Register));
                assert(c.output_signals@.len() == nets.count_spec() + rank(occ, occ.len() as int, Role::Indicator));
                assert(switch_map_ok(compiled.map.switch_inputs@, occ, occ.len() as int));
            }
            Ok(compiled)
        },
        Err(e) => Err(CompileError::Build(e.message())),
    }
}


/// Every gate's register latches its kind's function of the levels of its
/// distinct input nets: AND needs them all high, OR and BUF any one of them,
/// XOR an odd number, and NAND, NOR, NOT and XNOR invert those. A BUF gate
/// reading one net copies it.
pub proof fn lemma_gate_registers(
    c: Compiled,
    b: Board,
    j: int,
    kind: GateKind,
    facing: Direction,
    inputs: Seq<bool>,
    state: Seq<bool>,
)
    requires
        c.lowers(b),
        0 <= j < b.occupied().len(),
        b.occupied()[j].1 == (Tile::Gate { kind, facing }),
    ensures
        ({
            let occ = b.occupied();
            let nets = c.map.nets;
            let v = levels(b, nets, input_nets_spec(nets, b, occ[j].0, Some(facing)), inputs, state);
            let next = c.circuit.next_state(inputs, state)[rank(occ, j, Role::Register) as int];
            let some = exists|m: int| 0 <= m < v.len() && #[trigger] v[m];
            let every = v.len() > 0 && forall|m: int| 0 <= m < v.len() ==> #[trigger] v[m];
            &&& kind == GateKind::And ==> next == every
            &&& (kind == GateKind::Or || kind == GateKind::Buf) ==> next == some
            &&& kind == GateKind::Xor ==> next == parity(v)
            &&& kind == GateKind::Nand ==> next == !every
            &&& (kind == GateKind::Nor || kind == GateKind::Not) ==> next == !some
            &&& kind == GateKind::Xnor ==> next == !parity(v)
            &&& kind == GateKind::Buf && v.len() == 1 ==> next == v[0]
        }),
{
    let occ = b.occupied();
    assert(role(occ[j].1) == Role::Register);
    assert(c.circuit.next_state(inputs, state)[rank(occ, j, Role::Register) as int] == register_next(
        b,
        c.map.nets,
        j,
        inputs,
        state,
    ));
}

/// A source holds its net at its level: an on source makes its net read
/// high whatever else drives it, and a net driven by one source and nothing
/// else reads that source's level.
pub proof fn lemma_source_drives_its_net(c: Compiled, b: Board, k: int, on: bool, inputs: Seq<bool>, state: Seq<bool>)
    requires
        b.wf(),
        c.lowers(b),
        0 <= k < b.occupied().len(),
        b.occupied()[k].1 == (Tile::Source { on }),
    ensures
        ({
            let occ = b.occupied();
            let nets = c.map.nets;
            let net = nets.net_of_spec(occ[k].0, Port::Single);
            &&& net is Some
            &&& (net->0 as nat) < nets.count_spec()
            &&& on ==> c.circuit.output_values(inputs, state)[net->0 as int]
            &&& (forall|k2: int|
                0 <= k2 < occ.len() && k2 != k && is_driver_spec(occ[k2].1) ==> #[trigger] nets.net_of_spec(
                    occ[k2].0,
                    Port::Single,
                ) != net) ==> c.circuit.output_values(inputs, state)[net->0 as int] == on
        }),
{
    let occ = b.occupied();
    let nets = c.map.nets;
    lemma_occupied_facts(b);
    assert(nodes_of_spec(Tile::Source { on })[0] == Port::Single);
    assert(is_node(b, occ[k].0, Port::Single));
    let n = nets.net_of_spec(occ[k].0, Port::Single)->0;
    assert(c.circuit.output_values(inputs, state)[n as int] == net_level(b, nets, n, inputs, state));
    assert(driver_value(occ, k, inputs, state) == on);
    if on {
        assert(net_level(b, nets, n, inputs, state));
    }
}


/// A net with a single driver reads what that driver pushes: a switch its
/// circuit input, a gate or clock its register, a source its level. Any
/// driver pushing high makes its net read high.
pub proof fn lemma_lone_driver_level(c: Compiled, b: Board, k: int, inputs: Seq<bool>, state: Seq<bool>)
    requires
        b.wf(),
        c.lowers(b),
        0 <= k < b.occupied().len(),
        is_driver_spec(b.occupied()[k].1),
    ensures
        ({
            let occ = b.occupied();
            let nets = c.map.nets;
            let net = nets.net_of_spec(occ[k].0, Port::Single);
            let pushed = match occ[k].1 {
                Tile::Switch => inputs[rank(occ, k, Role::Input) as int],
                Tile::Source { on } => on,
                _ => state[rank(occ, k, Role::Register) as int],
            };
            let out = c.circuit.output_values(inputs, state)[net->0 as int];
            &&& net is Some
            &&& (net->0 as nat) < nets.count_spec()
            &&& pushed ==> out
            &&& (forall|k2: int|
                0 <= k2 < occ.len() && k2 != k && is_driver_spec(occ[k2].1) ==> #[trigger] nets.net_of_spec(
                    occ[k2].0,
                    Port::Single,
                ) != net) ==> out == pushed
        }),
{
    let occ = b.occupied();
    let nets = c.map.nets;
    lemma_occupied_facts(b);
    assert(nodes_of_spec(occ[k].1)[0] == Port::Single);
    assert(is_node(b, occ[k].0, Port::Single));
    let n = nets.net_of_spec(occ[k].0, Port::Single)->0;
    assert(c.circuit.output_values(inputs, state)[n as int] == net_level(b, nets, n, inputs, state));
    if driver_value(occ, k, inputs, state) {
        assert(net_level(b, nets, n, inputs, state));
    }
}

/// A clock's register flips every tick.
pub proof fn lemma_clock_toggles(c: Compiled, b: Board, k: int, inputs: Seq<bool>, state: Seq<bool>)
    requires
        c.lowers(b),
        0 <= k < b.occupied().len(),
        b.occupied()[k].1 == Tile::Clock,
    ensures
        c.circuit.next_state(inputs, state)[rank(b.occupied(), k, Role::Register) as int] == !state[rank(
            b.occupied(),
            k,
            Role::Register,
        ) as int],
{
    let occ = b.occupied();
    assert(role(occ[k].1) == Role::Register);
    assert(c.circuit.next_state(inputs, state)[rank(occ, k, Role::Register) as int] == register_next(
        b,
        c.map.nets,
        k,
        inputs,
        state,
    ));
}

} // verus!
