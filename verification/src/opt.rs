//! Observable-equivalence netlist optimizer: constant folding, algebraic
//! simplification, copy propagation, common-subexpression elimination and
//! dead code elimination over a finished [`Circuit`].
//!
//! Declared outputs and register next-state functions are preserved on
//! every tick, for every input and state; internal nodes may be rewritten,
//! merged or removed. Rewrites keep creation order: node ids are assigned
//! in original signal order (plus locally inserted inverters).

use std::collections::HashMap;
use vstd::prelude::*;

use crate::circuit::{
    gate_arity, gate_fn, input_has_inst, inst_wf, is_input_inst, is_prefix, is_reg_inst, lemma_signal_value_prefix, signal_value, Circuit,
    GateOp, InstData, Instruction, Reg, Register, Signal,
};
use crate::entity::{
    inst_entries, inst_map_get, inst_map_len, inst_map_push, inst_map_with_capacity, reg_entries, reg_map_get, reg_map_len,
    reg_map_push, reg_map_with_capacity, InstMap,
};

verus! {

broadcast use vstd::std_specs::hash::group_hash_axioms;

/// A node of the rewritten graph; ids are topological by construction.
/// A gate lists its operands in `a`, `b`, `c`; unused ones are 0.
#[derive(Clone, Copy)]
enum Node {
    Const(bool),
    Input(u32),
    RegOut(u32),
    Gate { op: GateOp, a: u32, b: u32, c: u32, arity: u8 },
}

/// The value node `id` settles to: like a signal, a gate reads earlier
/// nodes only.
spec fn node_value(nodes: Seq<Node>, id: int, inputs: Seq<bool>, state: Seq<bool>) -> bool
    decreases id,
{
    if 0 <= id < nodes.len() {
        match nodes[id] {
            Node::Const(v) => v,
            Node::Input(k) => inputs[k as int],
            Node::RegOut(r) => state[r as int],
            Node::Gate { op, a, b, c, arity } => {
                let va = if arity > 0 && (a as int) < id {
                    node_value(nodes, a as int, inputs, state)
                } else {
                    false
                };
                let vb = if arity > 1 && (b as int) < id {
                    node_value(nodes, b as int, inputs, state)
                } else {
                    false
                };
                let vc = if arity > 2 && (c as int) < id {
                    node_value(nodes, c as int, inputs, state)
                } else {
                    false
                };
                gate_fn(op, va, vb, vc)
            },
        }
    } else {
        false
    }
}

/// A gate node has exactly its operation's arity, reads only earlier
/// nodes, and leaves unused operands at 0.
spec fn node_ok(n: Node, id: int) -> bool {
    match n {
        Node::Gate { op, a, b, c, arity } => {
            &&& arity as nat == gate_arity(op)
            &&& (a as int) < id
            &&& if arity > 1 {
                (b as int) < id
            } else {
                b == 0
            }
            &&& if arity > 2 {
                (c as int) < id
            } else {
                c == 0
            }
        },
        _ => true,
    }
}

/// `ext` starts with `nodes`.
spec fn extends(nodes: Seq<Node>, ext: Seq<Node>) -> bool {
    nodes.len() <= ext.len() && forall|i: int| 0 <= i < nodes.len() ==> ext[i] == nodes[i]
}

proof fn lemma_node_value_extends(nodes: Seq<Node>, ext: Seq<Node>, id: int, inputs: Seq<bool>, state: Seq<bool>)
    requires
        extends(nodes, ext),
        0 <= id < nodes.len(),
    ensures
        node_value(ext, id, inputs, state) == node_value(nodes, id, inputs, state),
    decreases id,
{
    if let Node::Gate { op, a, b, c, arity } = nodes[id] {
        if arity > 0 && (a as int) < id {
            lemma_node_value_extends(nodes, ext, a as int, inputs, state);
        }
        if arity > 1 && (b as int) < id {
            lemma_node_value_extends(nodes, ext, b as int, inputs, state);
        }
        if arity > 2 && (c as int) < id {
            lemma_node_value_extends(nodes, ext, c as int, inputs, state);
        }
    }
}

proof fn lemma_extends_trans(n1: Seq<Node>, n2: Seq<Node>, n3: Seq<Node>)
    requires
        extends(n1, n2),
        extends(n2, n3),
    ensures
        extends(n1, n3),
{
    assert forall|i: int| 0 <= i < n1.len() implies n3[i] == n1[i] by {
        assert(n2[i] == n1[i]);
    }
}

pub open spec fn op_code(op: GateOp) -> int {
    match op {
        GateOp::And => 0,
        GateOp::Or => 1,
        GateOp::Xor => 2,
        GateOp::Nand => 3,
        GateOp::Nor => 4,
        GateOp::Xnor => 5,
        GateOp::Not => 6,
        GateOp::Buf => 7,
        GateOp::Mux => 8,
    }
}

/// The structural-hashing key of a gate: operation and operands packed
/// into one integer.
#[verifier::opaque]
spec fn gate_key(op: GateOp, a: u32, b: u32, c: u32) -> u128 {
    (op_code(op) * 0x1_0000_0000_0000_0000_0000_0000int + a * 0x1_0000_0000_0000_0000int + b * 0x1_0000_0000int
        + c) as u128
}

proof fn lemma_gate_key_injective(op1: GateOp, a1: u32, b1: u32, c1: u32, op2: GateOp, a2: u32, b2: u32, c2: u32)
    requires
        gate_key(op1, a1, b1, c1) == gate_key(op2, a2, b2, c2),
    ensures
        op1 == op2 && a1 == a2 && b1 == b2 && c1 == c2,
{
    reveal(gate_key);
    assert(op_code(op1) == op_code(op2) && a1 == a2 && b1 == b2 && c1 == c2);
}

fn gate_key_of(op: GateOp, a: u32, b: u32, c: u32) -> (k: u128)
    ensures
        k == gate_key(op, a, b, c),
{
    reveal(gate_key);
    let code: u128 = match op {
        GateOp::And => 0,
        GateOp::Or => 1,
        GateOp::Xor => 2,
        GateOp::Nand => 3,
        GateOp::Nor => 4,
        GateOp::Xnor => 5,
        GateOp::Not => 6,
        GateOp::Buf => 7,
        GateOp::Mux => 8,
    };
    code * 0x1_0000_0000_0000_0000_0000_0000u128 + a as u128 * 0x1_0000_0000_0000_0000u128 + b as u128
        * 0x1_0000_0000u128 + c as u128
}

/// The graph under construction, with its structural-hashing table and the
/// cached constant nodes.
struct Rewriter {
    nodes: Vec<Node>,
    cse: HashMap<u128, u32>,
    const_false: Option<u32>,
    const_true: Option<u32>,
}

/// A node the rewriter creates on its own: a constant or a gate.
spec fn is_inner(n: Node) -> bool {
    n is Const || n is Gate
}

/// `r`'s value is `v`, whatever the inputs and state.
spec fn is_const(nodes: Seq<Node>, r: int, v: bool) -> bool {
    forall|inputs: Seq<bool>, state: Seq<bool>| #[trigger] node_value(nodes, r, inputs, state) == v
}

/// Node `x` is an operand of `n`.
spec fn feeds(n: Node, x: int) -> bool {
    match n {
        Node::Gate { a, b, c, arity, .. } => a as int == x || (arity > 1 && b as int == x) || (arity > 2 && c as int == x),
        _ => false,
    }
}

/// A gate never reads a constant node: constants are folded away.
spec fn reads_no_const(nodes: Seq<Node>, n: Node) -> bool {
    match n {
        Node::Gate { a, b, c, arity, .. } => {
            &&& !(nodes[a as int] is Const)
            &&& arity > 1 ==> !(nodes[b as int] is Const)
            &&& arity > 2 ==> !(nodes[c as int] is Const)
        },
        _ => true,
    }
}

/// Node `n` is the inversion of node `x`.
spec fn inverts(n: Node, x: u32) -> bool {
    n matches Node::Gate { op: GateOp::Not, a, .. } && a == x
}

/// A two-operand gate whose operation is commutative.
pub open spec fn is_binary(op: GateOp) -> bool {
    !(op is Not || op is Buf || op is Mux)
}

/// A gate node is already simplified: no copies, no double inversion, no
/// repeated or complementary operands, and a multiplexer chooses between
/// two different nodes by a third.
spec fn simplified_node(nodes: Seq<Node>, n: Node) -> bool {
    match n {
        Node::Gate { op, a, b, c, .. } => {
            &&& !(op is Buf)
            &&& op is Not ==> !(nodes[a as int] matches Node::Gate { op: GateOp::Not, .. })
            &&& is_binary(op) ==> a != b && !inverts(nodes[a as int], b) && !inverts(nodes[b as int], a)
            &&& op is Mux ==> a != b && a != c && b != c
        },
        _ => true,
    }
}

/// A commutative gate lists its operands in increasing order.
spec fn ordered_node(n: Node) -> bool {
    match n {
        Node::Gate { op, a, b, .. } => is_binary(op) ==> a < b,
        _ => true,
    }
}

/// A constant node is the cached node for its value.
spec fn const_cached(n: Node, id: int, const_false: Option<u32>, const_true: Option<u32>) -> bool {
    match n {
        Node::Const(v) => (if v {
            const_true
        } else {
            const_false
        }) == Some(id as u32),
        _ => true,
    }
}

/// A gate node is the structural-hashing entry for its own key.
spec fn hashed(cse: Map<u128, u32>, n: Node, id: int) -> bool {
    match n {
        Node::Gate { op, a, b, c, .. } => cse.contains_key(gate_key(op, a, b, c)) && cse[gate_key(op, a, b, c)] as int == id,
        _ => true,
    }
}

/// `r` is a node appended to `before`'s graph to make `after`'s: `n`.
spec fn fresh(before: Rewriter, after: Rewriter, r: u32, n: Node) -> bool {
    r as int == before.nodes@.len() && after.nodes@ == before.nodes@.push(n)
}

/// No gate of `rw` has this operation and these operands.
spec fn key_free(rw: Rewriter, op: GateOp, a: u32, b: u32, c: u32) -> bool {
    !rw.cse@.contains_key(gate_key(op, a, b, c))
}

/// `a` and `b` are two distinct non-constant nodes, neither the inversion
/// of the other: nothing about them folds.
spec fn plain_pair(nodes: Seq<Node>, a: u32, b: u32) -> bool {
    &&& !(nodes[a as int] is Const)
    &&& !(nodes[b as int] is Const)
    &&& a != b
    &&& !inverts(nodes[a as int], b)
    &&& !inverts(nodes[b as int], a)
}

/// A commutative gate over a pair that folds in no way and is not hashed
/// yet becomes a fresh node over the ordered pair.
spec fn binary_fresh(before: Rewriter, after: Rewriter, r: u32, op: GateOp, a: u32, b: u32) -> bool {
    let (lo, hi) = if a < b {
        (a, b)
    } else {
        (b, a)
    };
    plain_pair(before.nodes@, a, b) && key_free(before, op, lo, hi, 0) ==> fresh(
        before,
        after,
        r,
        Node::Gate { op, a: lo, b: hi, c: 0, arity: 2 },
    )
}

impl Rewriter {
    spec fn wf(&self) -> bool {
        let nodes = self.nodes@;
        &&& nodes.len() < u32::MAX
        &&& forall|id: int| 0 <= id < nodes.len() ==> #[trigger] node_ok(nodes[id], id)
        &&& forall|id: int| 0 <= id < nodes.len() ==> reads_no_const(nodes, #[trigger] nodes[id])
        &&& forall|id: int| 0 <= id < nodes.len() ==> hashed(self.cse@, #[trigger] nodes[id], id)
        &&& forall|id: int| 0 <= id < nodes.len() ==> simplified_node(nodes, #[trigger] nodes[id])
        &&& forall|id: int| 0 <= id < nodes.len() ==> ordered_node(#[trigger] nodes[id])
        &&& forall|id: int| 0 <= id < nodes.len() ==> const_cached(#[trigger] nodes[id], id, self.const_false, self.const_true)
        &&& (self.const_false matches Some(id) ==> (id as int) < nodes.len() && nodes[id as int] == Node::Const(false))
        &&& (self.const_true matches Some(id) ==> (id as int) < nodes.len() && nodes[id as int] == Node::Const(true))
        &&& forall|k: u128|
            #[trigger] self.cse@.contains_key(k) ==> (self.cse@[k] as int) < nodes.len() && (nodes[self.cse@[k] as int] matches Node::Gate {
                op,
                a,
                b,
                c,
                arity,
            } && k == gate_key(op, a, b, c))
    }

    /// Room for `k` more nodes.
    spec fn room(&self, k: int) -> bool {
        self.nodes@.len() + k < u32::MAX
    }

    /// At most `k` nodes were added, each a constant or a gate.
    spec fn grows(&self, old: &Rewriter, k: int) -> bool {
        &&& self.wf()
        &&& extends(old.nodes@, self.nodes@)
        &&& self.nodes@.len() <= old.nodes@.len() + k
        &&& forall|i: int|
            old.nodes@.len() <= i < self.nodes@.len() ==> #[trigger] is_inner(self.nodes@[i])
    }

    fn new() -> (rw: Rewriter)
        ensures
            rw.wf(),
            rw.nodes@.len() == 0,
    {
        Rewriter { nodes: Vec::new(), cse: HashMap::new(), const_false: None, const_true: None }
    }

    fn push(&mut self, node: Node) -> (id: u32)
        requires
            old(self).wf(),
            old(self).room(1),
            node is Input || node is RegOut,
        ensures
            final(self).wf(),
            final(self).nodes@ == old(self).nodes@.push(node),
            final(self).cse@ == old(self).cse@,
            final(self).const_false == old(self).const_false,
            final(self).const_true == old(self).const_true,
            id as int == old(self).nodes@.len(),
    {
        let id = self.nodes.len() as u32;
        self.nodes.push(node);
        proof {
            assert forall|i: int| 0 <= i < self.nodes@.len() implies #[trigger] node_ok(self.nodes@[i], i) by {
                if i < old(self).nodes@.len() {
                    assert(node_ok(old(self).nodes@[i], i));
                }
            }
            assert forall|i: int| 0 <= i < self.nodes@.len() implies reads_no_const(self.nodes@, #[trigger] self.nodes@[i]) by {
                if i < old(self).nodes@.len() {
                    assert(node_ok(old(self).nodes@[i], i));
                    assert(reads_no_const(old(self).nodes@, old(self).nodes@[i]));
                }
            }
            assert forall|i: int| 0 <= i < self.nodes@.len() implies hashed(self.cse@, #[trigger] self.nodes@[i], i) by {
                if i < old(self).nodes@.len() {
                    assert(hashed(old(self).cse@, old(self).nodes@[i], i));
                }
            }
            assert forall|i: int| 0 <= i < self.nodes@.len() implies simplified_node(self.nodes@, #[trigger] self.nodes@[i]) by {
                if i < old(self).nodes@.len() {
                    assert(node_ok(old(self).nodes@[i], i));
                    assert(simplified_node(old(self).nodes@, old(self).nodes@[i]));
                }
            }
            assert forall|i: int| 0 <= i < self.nodes@.len() implies const_cached(
                #[trigger] self.nodes@[i],
                i,
                self.const_false,
                self.const_true,
            ) by {
                if i < old(self).nodes@.len() {
                    assert(const_cached(old(self).nodes@[i], i, old(self).const_false, old(self).const_true));
                }
            }
            assert forall|i: int| 0 <= i < self.nodes@.len() implies ordered_node(#[trigger] self.nodes@[i]) by {
                if i < old(self).nodes@.len() {
                    assert(ordered_node(old(self).nodes@[i]));
                }
            }
        }
        id
    }

    /// The constant a node holds, if it is a constant node.
    fn cval(&self, id: u32) -> (r: Option<bool>)
        requires
            (id as int) < self.nodes@.len(),
        ensures
            r == (match self.nodes@[id as int] {
                Node::Const(v) => Some(v),
                _ => None,
            }),
            r matches Some(v) ==> is_const(self.nodes@, id as int, v),
    {
        match self.nodes[id as usize] {
            Node::Const(v) => Some(v),
            _ => None,
        }
    }

    /// The node for constant `value`, created on first use.
    fn konst(&mut self, value: bool) -> (r: u32)
        requires
            old(self).wf(),
            old(self).room(1),
        ensures
            final(self).grows(old(self), 1),
            (forall|i: int| 0 <= i < old(self).nodes@.len() ==> old(self).nodes@[i] != Node::Const(value)) ==> fresh(
                *old(self),
                *final(self),
                r,
                Node::Const(value),
            ),
            (r as int) < final(self).nodes@.len(),
            is_const(final(self).nodes@, r as int, value),
    {
        let cached = if value {
            self.const_true
        } else {
            self.const_false
        };
        match cached {
            Some(id) => id,
            None => {
                let ghost n0 = self.nodes@;
                let id = self.nodes.len() as u32;
                self.nodes.push(Node::Const(value));
                if value {
                    self.const_true = Some(id);
                } else {
                    self.const_false = Some(id);
                }
                proof {
                    assert forall|i: int| 0 <= i < self.nodes@.len() implies #[trigger] node_ok(self.nodes@[i], i) by {
                        if i < n0.len() {
                            assert(node_ok(n0[i], i));
                        }
                    }
                    assert forall|i: int| 0 <= i < self.nodes@.len() implies reads_no_const(self.nodes@, #[trigger] self.nodes@[i]) by {
                        if i < n0.len() {
                            assert(node_ok(n0[i], i));
                            assert(reads_no_const(n0, n0[i]));
                        }
                    }
                    assert forall|i: int| 0 <= i < self.nodes@.len() implies hashed(self.cse@, #[trigger] self.nodes@[i], i) by {
                        if i < n0.len() {
                            assert(hashed(old(self).cse@, n0[i], i));
                        }
                    }
                    assert forall|i: int| 0 <= i < self.nodes@.len() implies simplified_node(self.nodes@, #[trigger] self.nodes@[i]) by {
                        if i < n0.len() {
                            assert(node_ok(n0[i], i));
                            assert(simplified_node(n0, n0[i]));
                        }
                    }
                    assert forall|i: int| 0 <= i < self.nodes@.len() implies const_cached(
                        #[trigger] self.nodes@[i],
                        i,
                        self.const_false,
                        self.const_true,
                    ) by {
                        if i < n0.len() {
                            assert(const_cached(n0[i], i, old(self).const_false, old(self).const_true));
                            if n0[i] is Const {
                                assert(n0[i] != Node::Const(value));
                            }
                        }
                    }
                    assert forall|i: int| 0 <= i < self.nodes@.len() implies ordered_node(#[trigger] self.nodes@[i]) by {
                        if i < n0.len() {
                            assert(ordered_node(n0[i]));
                        }
                    }
                    assert forall|inputs: Seq<bool>, state: Seq<bool>| #[trigger] node_value(self.nodes@, id as int, inputs, state) == value by {
                    }
                }
                id
            },
        }
    }

    /// Emit a gate with structural hashing; commutative operands are put in
    /// order so `and(a, b)` and `and(b, a)` share one node.
    fn gate(&mut self, op: GateOp, a: u32, b: u32, c: u32, arity: u8) -> (r: u32)
        requires
            old(self).wf(),
            old(self).room(1),
            node_ok(Node::Gate { op, a, b, c, arity }, old(self).nodes@.len() as int),
            reads_no_const(old(self).nodes@, Node::Gate { op, a, b, c, arity }),
            simplified_node(old(self).nodes@, Node::Gate { op, a, b, c, arity }),
        ensures
            final(self).grows(old(self), 1),
            ({
                let (a2, b2) = if is_binary(op) && a > b {
                    (b, a)
                } else {
                    (a, b)
                };
                key_free(*old(self), op, a2, b2, c) ==> fresh(*old(self), *final(self), r, Node::Gate { op, a: a2, b: b2, c, arity })
            }),
            (r as int) < final(self).nodes@.len(),
            forall|inputs: Seq<bool>, state: Seq<bool>|
                #[trigger] node_value(final(self).nodes@, r as int, inputs, state) == gate_fn(
                    op,
                    node_value(old(self).nodes@, a as int, inputs, state),
                    if arity > 1 {
                        node_value(old(self).nodes@, b as int, inputs, state)
                    } else {
                        false
                    },
                    if arity > 2 {
                        node_value(old(self).nodes@, c as int, inputs, state)
                    } else {
                        false
                    },
                ),
    {
        let ghost n0 = self.nodes@;
        let commutative = match op {
            GateOp::And | GateOp::Or | GateOp::Xor | GateOp::Nand | GateOp::Nor | GateOp::Xnor => true,
            _ => false,
        };
        let (a, b) = if commutative && a > b {
            (b, a)
        } else {
            (a, b)
        };
        let key = gate_key_of(op, a, b, c);
        match self.cse.get(&key) {
            Some(id) => {
                let id = *id;
                proof {
                    if let Node::Gate { op: op2, a: a2, b: b2, c: c2, arity: ar2 } = n0[id as int] {
                        lemma_gate_key_injective(op2, a2, b2, c2, op, a, b, c);
                        assert(node_ok(n0[id as int], id as int));
                    }
                }
                id
            },
            None => {
                let id = self.nodes.len() as u32;
                self.nodes.push(Node::Gate { op, a, b, c, arity });
                self.cse.insert(key, id);
                proof {
                    assert forall|i: int| 0 <= i < self.nodes@.len() implies #[trigger] node_ok(self.nodes@[i], i) by {
                        if i < n0.len() {
                            assert(node_ok(n0[i], i));
                        }
                    }
                    assert forall|i: int| 0 <= i < self.nodes@.len() implies reads_no_const(self.nodes@, #[trigger] self.nodes@[i]) by {
                        if i < n0.len() {
                            assert(node_ok(n0[i], i));
                            assert(reads_no_const(n0, n0[i]));
                        }
                    }
                    assert forall|i: int| 0 <= i < self.nodes@.len() implies hashed(self.cse@, #[trigger] self.nodes@[i], i) by {
                        if i < n0.len() {
                            assert(hashed(old(self).cse@, n0[i], i));
                        }
                    }
                    assert forall|i: int| 0 <= i < self.nodes@.len() implies simplified_node(self.nodes@, #[trigger] self.nodes@[i]) by {
                        if i < n0.len() {
                            assert(node_ok(n0[i], i));
                            assert(simplified_node(n0, n0[i]));
                        }
                    }
                    assert forall|i: int| 0 <= i < self.nodes@.len() implies const_cached(
                        #[trigger] self.nodes@[i],
                        i,
                        self.const_false,
                        self.const_true,
                    ) by {
                        if i < n0.len() {
                            assert(const_cached(n0[i], i, old(self).const_false, old(self).const_true));
                        }
                    }
                    assert forall|i: int| 0 <= i < self.nodes@.len() implies ordered_node(#[trigger] self.nodes@[i]) by {
                        if i < n0.len() {
                            assert(ordered_node(n0[i]));
                        }
                    }
                    assert forall|k: u128|
                        #[trigger] self.cse@.contains_key(k) implies (self.cse@[k] as int) < self.nodes@.len() && (
                        self.nodes@[self.cse@[k] as int] matches Node::Gate { op, a, b, c, arity } && k == gate_key(
                            op,
                            a,
                            b,
                            c,
                        )) by {
                        if k != key {
                            assert(old(self).cse@.contains_key(k));
                            assert(self.nodes@[self.cse@[k] as int] == n0[self.cse@[k] as int]);
                        }
                    }
                    assert forall|inputs: Seq<bool>, state: Seq<bool>|
                        #[trigger] node_value(self.nodes@, id as int, inputs, state) == gate_fn(
                            op,
                            node_value(n0, a as int, inputs, state),
                            if arity > 1 {
                                node_value(n0, b as int, inputs, state)
                            } else {
                                false
                            },
                            if arity > 2 {
                                node_value(n0, c as int, inputs, state)
                            } else {
                                false
                            },
                        ) by {
                        lemma_node_value_extends(n0, self.nodes@, a as int, inputs, state);
                        if arity > 1 {
                            lemma_node_value_extends(n0, self.nodes@, b as int, inputs, state);
                        }
                        if arity > 2 {
                            lemma_node_value_extends(n0, self.nodes@, c as int, inputs, state);
                        }
                    }
                }
                id
            },
        }
    }
}

impl Rewriter {
    /// True only if one operand is the inversion of the other.
    fn complements(&self, a: u32, b: u32) -> (r: bool)
        requires
            self.wf(),
            (a as int) < self.nodes@.len(),
            (b as int) < self.nodes@.len(),
        ensures
            r == ((self.nodes@[a as int] matches Node::Gate { op: GateOp::Not, a: x, .. } && x == b) || (
            self.nodes@[b as int] matches Node::Gate { op: GateOp::Not, a: x, .. } && x == a)),
            r ==> forall|inputs: Seq<bool>, state: Seq<bool>|
                #[trigger] node_value(self.nodes@, a as int, inputs, state) == !node_value(self.nodes@, b as int, inputs, state),
    {
        proof {
            assert(node_ok(self.nodes@[a as int], a as int));
            assert(node_ok(self.nodes@[b as int], b as int));
        }
        let a_inverts_b = match self.nodes[a as usize] {
            Node::Gate { op: GateOp::Not, a: x, .. } => x == b,
            _ => false,
        };
        let b_inverts_a = match self.nodes[b as usize] {
            Node::Gate { op: GateOp::Not, a: x, .. } => x == a,
            _ => false,
        };
        a_inverts_b || b_inverts_a
    }

    /// `NOT x`, folding constants and double inversion.
    fn not(&mut self, x: u32) -> (r: u32)
        requires
            old(self).wf(),
            old(self).room(1),
            (x as int) < old(self).nodes@.len(),
        ensures
            final(self).grows(old(self), 1),
            (r as int) < final(self).nodes@.len(),
            !(old(self).nodes@[x as int] is Const) && !(old(self).nodes@[x as int] matches Node::Gate { op: GateOp::Not, .. })
                && key_free(*old(self), GateOp::Not, x, 0, 0) ==> fresh(
                *old(self),
                *final(self),
                r,
                Node::Gate { op: GateOp::Not, a: x, b: 0, c: 0, arity: 1 },
            ),
            forall|inputs: Seq<bool>, state: Seq<bool>|
                #[trigger] node_value(final(self).nodes@, r as int, inputs, state) == !node_value(
                    old(self).nodes@,
                    x as int,
                    inputs,
                    state,
                ),
    {
        let ghost n0 = self.nodes@;
        proof {
            assert(node_ok(n0[x as int], x as int));
        }
        if let Some(v) = self.cval(x) {
            let r = self.konst(!v);
            return r;
        }
        if let Node::Gate { op: GateOp::Not, a, .. } = self.nodes[x as usize] {
            return a;
        }
        self.gate(GateOp::Not, x, 0, 0, 1)
    }

    /// `a AND b`, folding constants, repeats and complements.
    fn and(&mut self, a: u32, b: u32) -> (r: u32)
        requires
            old(self).wf(),
            old(self).room(1),
            (a as int) < old(self).nodes@.len(),
            (b as int) < old(self).nodes@.len(),
        ensures
            final(self).grows(old(self), 1),
            (r as int) < final(self).nodes@.len(),
            binary_fresh(*old(self), *final(self), r, GateOp::And, a, b),
            forall|inputs: Seq<bool>, state: Seq<bool>|
                #[trigger] node_value(final(self).nodes@, r as int, inputs, state) == {
                    let x = node_value(old(self).nodes@, a as int, inputs, state);
                    let y = node_value(old(self).nodes@, b as int, inputs, state);
                    x && y
                },
    {
        let ghost n0 = self.nodes@;
        proof {
            assert(node_ok(n0[a as int], a as int));
            assert(node_ok(n0[b as int], b as int));
        }
        match (self.cval(a), self.cval(b)) {
            (Some(false), _) | (_, Some(false)) => self.konst(false),
            (Some(true), _) => b,
            (_, Some(true)) => a,
            _ => if a == b {
                a
            } else if self.complements(a, b) {
                self.konst(false)
            } else {
                self.gate(GateOp::And, a, b, 0, 2)
            },
        }
    }

    /// `a OR b`, folding constants, repeats and complements.
    fn or(&mut self, a: u32, b: u32) -> (r: u32)
        requires
            old(self).wf(),
            old(self).room(1),
            (a as int) < old(self).nodes@.len(),
            (b as int) < old(self).nodes@.len(),
        ensures
            final(self).grows(old(self), 1),
            (r as int) < final(self).nodes@.len(),
            binary_fresh(*old(self), *final(self), r, GateOp::Or, a, b),
            forall|inputs: Seq<bool>, state: Seq<bool>|
                #[trigger] node_value(final(self).nodes@, r as int, inputs, state) == {
                    let x = node_value(old(self).nodes@, a as int, inputs, state);
                    let y = node_value(old(self).nodes@, b as int, inputs, state);
                    x || y
                },
    {
        let ghost n0 = self.nodes@;
        proof {
            assert(node_ok(n0[a as int], a as int));
            assert(node_ok(n0[b as int], b as int));
        }
        match (self.cval(a), self.cval(b)) {
            (Some(true), _) | (_, Some(true)) => self.konst(true),
            (Some(false), _) => b,
            (_, Some(false)) => a,
            _ => if a == b {
                a
            } else if self.complements(a, b) {
                self.konst(true)
            } else {
                self.gate(GateOp::Or, a, b, 0, 2)
            },
        }
    }

    /// `a XOR b`, folding constants, repeats and complements.
    fn xor(&mut self, a: u32, b: u32) -> (r: u32)
        requires
            old(self).wf(),
            old(self).room(1),
            (a as int) < old(self).nodes@.len(),
            (b as int) < old(self).nodes@.len(),
        ensures
            final(self).grows(old(self), 1),
            (r as int) < final(self).nodes@.len(),
            binary_fresh(*old(self), *final(self), r, GateOp::Xor, a, b),
            forall|inputs: Seq<bool>, state: Seq<bool>|
                #[trigger] node_value(final(self).nodes@, r as int, inputs, state) == {
                    let x = node_value(old(self).nodes@, a as int, inputs, state);
                    let y = node_value(old(self).nodes@, b as int, inputs, state);
                    x != y
                },
    {
        let ghost n0 = self.nodes@;
        proof {
            assert(node_ok(n0[a as int], a as int));
            assert(node_ok(n0[b as int], b as int));
        }
        match (self.cval(a), self.cval(b)) {
            (Some(va), Some(vb)) => self.konst(va != vb),
            (Some(false), _) => b,
            (_, Some(false)) => a,
            (Some(true), _) => self.not(b),
            (_, Some(true)) => self.not(a),
            _ => if a == b {
                self.konst(false)
            } else if self.complements(a, b) {
                self.konst(true)
            } else {
                self.gate(GateOp::Xor, a, b, 0, 2)
            },
        }
    }

    /// `NOT (a AND b)`, folding constants, repeats and complements.
    fn nand(&mut self, a: u32, b: u32) -> (r: u32)
        requires
            old(self).wf(),
            old(self).room(1),
            (a as int) < old(self).nodes@.len(),
            (b as int) < old(self).nodes@.len(),
        ensures
            final(self).grows(old(self), 1),
            (r as int) < final(self).nodes@.len(),
            binary_fresh(*old(self), *final(self), r, GateOp::Nand, a, b),
            forall|inputs: Seq<bool>, state: Seq<bool>|
                #[trigger] node_value(final(self).nodes@, r as int, inputs, state) == {
                    let x = node_value(old(self).nodes@, a as int, inputs, state);
                    let y = node_value(old(self).nodes@, b as int, inputs, state);
                    !(x && y)
                },
    {
        let ghost n0 = self.nodes@;
        proof {
            assert(node_ok(n0[a as int], a as int));
            assert(node_ok(n0[b as int], b as int));
        }
        match (self.cval(a), self.cval(b)) {
            (Some(false), _) | (_, Some(false)) => self.konst(true),
            (Some(true), _) => self.not(b),
            (_, Some(true)) => self.not(a),
            _ => if a == b {
                self.not(a)
            } else if self.complements(a, b) {
                self.konst(true)
            } else {
                self.gate(GateOp::Nand, a, b, 0, 2)
            },
        }
    }

    /// `NOT (a OR b)`, folding constants, repeats and complements.
    fn nor(&mut self, a: u32, b: u32) -> (r: u32)
        requires
            old(self).wf(),
            old(self).room(1),
            (a as int) < old(self).nodes@.len(),
            (b as int) < old(self).nodes@.len(),
        ensures
            final(self).grows(old(self), 1),
            (r as int) < final(self).nodes@.len(),
            binary_fresh(*old(self), *final(self), r, GateOp::Nor, a, b),
            forall|inputs: Seq<bool>, state: Seq<bool>|
                #[trigger] node_value(final(self).nodes@, r as int, inputs, state) == {
                    let x = node_value(old(self).nodes@, a as int, inputs, state);
                    let y = node_value(old(self).nodes@, b as int, inputs, state);
                    !(x || y)
                },
    {
        let ghost n0 = self.nodes@;
        proof {
            assert(node_ok(n0[a as int], a as int));
            assert(node_ok(n0[b as int], b as int));
        }
        match (self.cval(a), self.cval(b)) {
            (Some(true), _) | (_, Some(true)) => self.konst(false),
            (Some(false), _) => self.not(b),
            (_, Some(false)) => self.not(a),
            _ => if a == b {
                self.not(a)
            } else if self.complements(a, b) {
                self.konst(false)
            } else {
                self.gate(GateOp::Nor, a, b, 0, 2)
            },
        }
    }

    /// `a XNOR b`, folding constants, repeats and complements.
    fn xnor(&mut self, a: u32, b: u32) -> (r: u32)
        requires
            old(self).wf(),
            old(self).room(1),
            (a as int) < old(self).nodes@.len(),
            (b as int) < old(self).nodes@.len(),
        ensures
            final(self).grows(old(self), 1),
            (r as int) < final(self).nodes@.len(),
            binary_fresh(*old(self), *final(self), r, GateOp::Xnor, a, b),
            forall|inputs: Seq<bool>, state: Seq<bool>|
                #[trigger] node_value(final(self).nodes@, r as int, inputs, state) == {
                    let x = node_value(old(self).nodes@, a as int, inputs, state);
                    let y = node_value(old(self).nodes@, b as int, inputs, state);
                    x == y
                },
    {
        let ghost n0 = self.nodes@;
        proof {
            assert(node_ok(n0[a as int], a as int));
            assert(node_ok(n0[b as int], b as int));
        }
        match (self.cval(a), self.cval(b)) {
            (Some(va), Some(vb)) => self.konst(va == vb),
            (Some(true), _) => b,
            (_, Some(true)) => a,
            (Some(false), _) => self.not(b),
            (_, Some(false)) => self.not(a),
            _ => if a == b {
                self.konst(true)
            } else if self.complements(a, b) {
                self.konst(false)
            } else {
                self.gate(GateOp::Xnor, a, b, 0, 2)
            },
        }
    }

    /// `if s { t } else { e }`, reduced to simpler gates where an operand is
    /// constant or repeated.
    fn mux(&mut self, s: u32, t: u32, e: u32) -> (r: u32)
        requires
            old(self).wf(),
            old(self).room(2),
            (s as int) < old(self).nodes@.len(),
            (t as int) < old(self).nodes@.len(),
            (e as int) < old(self).nodes@.len(),
        ensures
            final(self).grows(old(self), 2),
            (r as int) < final(self).nodes@.len(),
            ({
                let nodes = old(self).nodes@;
                &&& !(nodes[s as int] is Const) && !(nodes[t as int] is Const) && !(nodes[e as int] is Const)
                &&& s != t && s != e && t != e
                &&& key_free(*old(self), GateOp::Mux, s, t, e)
            }) ==> fresh(*old(self), *final(self), r, Node::Gate { op: GateOp::Mux, a: s, b: t, c: e, arity: 3 }),
            old(self).nodes@[s as int] matches Node::Const(v) ==> r == (if v {
                t
            } else {
                e
            }) && final(self).nodes@ == old(self).nodes@,
            t == e ==> r == t && final(self).nodes@ == old(self).nodes@,
            forall|inputs: Seq<bool>, state: Seq<bool>|
                #[trigger] node_value(final(self).nodes@, r as int, inputs, state) == if node_value(
                    old(self).nodes@,
                    s as int,
                    inputs,
                    state,
                ) {
                    node_value(old(self).nodes@, t as int, inputs, state)
                } else {
                    node_value(old(self).nodes@, e as int, inputs, state)
                },
    {
        let ghost n0 = self.nodes@;
        if let Some(vs) = self.cval(s) {
            return if vs {
                t
            } else {
                e
            };
        }
        if t == e {
            return t;
        }
        match (self.cval(t), self.cval(e)) {
            (Some(true), Some(false)) => s,
            (Some(false), Some(true)) => self.not(s),
            (Some(true), _) => self.or(s, e),
            (Some(false), _) => {
                let ns = self.not(s);
                let ghost n1 = self.nodes@;
                let r = self.and(ns, e);
                proof {
                    lemma_extends_trans(n0, n1, self.nodes@);
                    assert forall|inputs: Seq<bool>, state: Seq<bool>|
                        #[trigger] node_value(self.nodes@, r as int, inputs, state) == if node_value(n0, s as int, inputs, state) {
                            node_value(n0, t as int, inputs, state)
                        } else {
                            node_value(n0, e as int, inputs, state)
                        } by {
                        lemma_node_value_extends(n0, n1, e as int, inputs, state);
                    }
                }
                r
            },
            (_, Some(false)) => self.and(s, t),
            (_, Some(true)) => {
                let ns = self.not(s);
                let ghost n1 = self.nodes@;
                let r = self.or(ns, t);
                proof {
                    lemma_extends_trans(n0, n1, self.nodes@);
                    assert forall|inputs: Seq<bool>, state: Seq<bool>|
                        #[trigger] node_value(self.nodes@, r as int, inputs, state) == if node_value(n0, s as int, inputs, state) {
                            node_value(n0, t as int, inputs, state)
                        } else {
                            node_value(n0, e as int, inputs, state)
                        } by {
                        lemma_node_value_extends(n0, n1, t as int, inputs, state);
                    }
                }
                r
            },
            _ => if s == t {
                self.or(s, e)
            } else if s == e {
                self.and(s, t)
            } else {
                self.gate(GateOp::Mux, s, t, e, 3)
            },
        }
    }
}

/// Node `id` stands for signal `j`: it settles to the same value on every
/// input and state.
spec fn represents(nodes: Seq<Node>, id: int, insts: Seq<Instruction>, j: int) -> bool {
    &&& 0 <= id < nodes.len()
    &&& forall|inputs: Seq<bool>, state: Seq<bool>|
        #[trigger] node_value(nodes, id, inputs, state) == signal_value(insts, j, inputs, state)
}

proof fn lemma_represents_extends(nodes: Seq<Node>, ext: Seq<Node>, id: int, insts: Seq<Instruction>, j: int)
    requires
        extends(nodes, ext),
        represents(nodes, id, insts, j),
    ensures
        represents(ext, id, insts, j),
{
    assert forall|inputs: Seq<bool>, state: Seq<bool>|
        #[trigger] node_value(ext, id, inputs, state) == signal_value(insts, j, inputs, state) by {
        lemma_node_value_extends(nodes, ext, id, inputs, state);
    }
}

/// Source nodes only name existing inputs and registers.
spec fn sources_ok(nodes: Seq<Node>, input_count: nat, reg_count: nat) -> bool {
    forall|id: int|
        0 <= id < nodes.len() ==> match #[trigger] nodes[id] {
            Node::Input(k) => k < input_count,
            Node::RegOut(r) => r < reg_count,
            _ => true,
        }
}

/// Every input or register node stands for one of the first `i`
/// instructions, which reads that input or register.
spec fn origin_ok(nodes: Seq<Node>, repr: Seq<u32>, insts: Seq<Instruction>, i: int) -> bool {
    forall|id: int|
        0 <= id < nodes.len() ==> match #[trigger] nodes[id] {
            Node::Input(k) => exists|j: int| 0 <= j < i && repr[j] == id && #[trigger] is_input_inst(insts[j], k as int),
            Node::RegOut(r) => exists|j: int| 0 <= j < i && repr[j] == id && #[trigger] is_reg_inst(insts[j], r as int),
            _ => true,
        }
}

/// The form `optimize` leaves a circuit in: constants folded, common
/// subexpressions shared, dead code removed and every gate simplified.
pub open spec fn in_normal_form(c: Circuit) -> bool {
    &&& no_constant_operands(c)
    &&& no_repeated_gates(c)
    &&& no_dead_signals(c)
    &&& simplified(c)
}

/// Node `n` is instruction `inst` taken over as it stands.
spec fn node_of_inst(inst: Instruction, n: Node) -> bool {
    match inst.data {
        InstData::Const { value } => n == Node::Const(value),
        InstData::Input { index } => n == Node::Input(index),
        InstData::RegisterOutput { reg } => n == Node::RegOut(reg.0),
        InstData::Gate { op, inputs } => n == Node::Gate {
            op,
            a: inputs@[0].0,
            b: if inputs@.len() > 1 {
                inputs@[1].0
            } else {
                0
            },
            c: if inputs@.len() > 2 {
                inputs@[2].0
            } else {
                0
            },
            arity: inputs@.len() as u8,
        },
    }
}

/// The graph holds exactly the first `i` instructions, one node each.
spec fn mirrored_prefix(nodes: Seq<Node>, insts: Seq<Instruction>, i: int) -> bool {
    nodes.len() == i && forall|j: int| 0 <= j < i ==> node_of_inst(insts[j], #[trigger] nodes[j])
}

/// On a circuit in normal form, instruction `i` folds in no way against the
/// nodes taken over so far, and no gate like it has been hashed.
proof fn lemma_normal_step(c: Circuit, rw: Rewriter, i: int)
    requires
        c.wf(),
        in_normal_form(c),
        rw.wf(),
        0 <= i < c.insts_seq().len(),
        mirrored_prefix(rw.nodes@, c.insts_seq(), i),
    ensures
        c.insts_seq()[i].data matches InstData::Const { value } ==> forall|j: int|
            0 <= j < rw.nodes@.len() ==> rw.nodes@[j] != Node::Const(value),
        c.insts_seq()[i].data matches InstData::Gate { op, inputs } ==> {
            let nodes = rw.nodes@;
            &&& !(op is Buf)
            &&& forall|k: int| 0 <= k < inputs@.len() ==> !(nodes[#[trigger] inputs@[k].0 as int] is Const)
            &&& op is Not ==> !(nodes[inputs@[0].0 as int] matches Node::Gate { op: GateOp::Not, .. }) && key_free(
                rw,
                GateOp::Not,
                inputs@[0].0,
                0,
                0,
            )
            &&& is_binary(op) ==> plain_pair(nodes, inputs@[0].0, inputs@[1].0) && inputs@[0].0 < inputs@[1].0 && key_free(
                rw,
                op,
                inputs@[0].0,
                inputs@[1].0,
                0,
            )
            &&& op is Mux ==> inputs@[0] != inputs@[1] && inputs@[0] != inputs@[2] && inputs@[1] != inputs@[2] && key_free(
                rw,
                GateOp::Mux,
                inputs@[0].0,
                inputs@[1].0,
                inputs@[2].0,
            )
        },
{
    reveal(no_constant_operands);
    reveal(no_repeated_gates);
    reveal(simplified);
    let insts = c.insts_seq();
    let nodes = rw.nodes@;
    assert(crate::circuit::inst_wf(insts[i], i, c.input_count as nat, c.regs_seq().len()));
    assert(gate_simplified(insts, insts[i]));
    match insts[i].data {
        InstData::Const { value } => {
            assert forall|j: int| 0 <= j < nodes.len() implies nodes[j] != Node::Const(value) by {
                assert(node_of_inst(insts[j], nodes[j]));
                if nodes[j] == Node::Const(value) {
                    assert(insts[j].data is Const);
                }
            }
        },
        InstData::Gate { op, inputs } => {
            assert forall|k: int| 0 <= k < inputs@.len() implies !(nodes[#[trigger] inputs@[k].0 as int] is Const) by {
                assert(gate_inputs(insts[i])[k] == inputs@[k]);
                let y = inputs@[k].0 as int;
                assert(node_of_inst(insts[y], nodes[y]));
            }
            let x = inputs@[0].0 as int;
            assert(node_of_inst(insts[x], nodes[x]));
            if inputs@.len() > 1 {
                let y = inputs@[1].0 as int;
                assert(node_of_inst(insts[y], nodes[y]));
            }
            // A hashed key with these operands would be an earlier equal gate.
            let (ka, kb, kc) = (
                inputs@[0].0,
                if inputs@.len() > 1 {
                    inputs@[1].0
                } else {
                    0u32
                },
                if inputs@.len() > 2 {
                    inputs@[2].0
                } else {
                    0u32
                },
            );
            if rw.cse@.contains_key(gate_key(op, ka, kb, kc)) {
                let j = rw.cse@[gate_key(op, ka, kb, kc)] as int;
                assert(j < nodes.len());
                if let Node::Gate { op: oj, a: aj, b: bj, c: cj, arity: rj } = nodes[j] {
                    lemma_gate_key_injective(oj, aj, bj, cj, op, ka, kb, kc);
                    assert(node_of_inst(insts[j], nodes[j]));
                    assert(crate::circuit::inst_wf(insts[j], j, c.input_count as nat, c.regs_seq().len()));
                    if let InstData::Gate { op: opj, inputs: inj } = insts[j].data {
                        assert(inj@ =~= inputs@);
                        assert(same_gate(insts[j], insts[i]));
                    }
                }
            }
        },
        _ => {},
    }
}

/// Forward rewrite in signal order: every signal gets a canonical node that
/// settles to its value.
fn rewrite(circuit: &Circuit) -> (r: (Rewriter, Vec<u32>))
    requires
        circuit.wf(),
        2 * circuit.insts_seq().len() < u32::MAX,
    ensures
        r.0.wf(),
        r.0.nodes@.len() <= 2 * circuit.insts_seq().len(),
        sources_ok(r.0.nodes@, circuit.input_count as nat, circuit.regs_seq().len()),
        r.1@.len() == circuit.insts_seq().len(),
        forall|j: int| 0 <= j < r.1@.len() ==> #[trigger] represents(r.0.nodes@, r.1@[j] as int, circuit.insts_seq(), j),
        forall|j: int|
            0 <= j < r.1@.len() ==> (circuit.insts_seq()[j].data matches InstData::Input { index } ==> #[trigger] r.0.nodes@[r.1@[j] as int]
                == Node::Input(index)),
        origin_ok(r.0.nodes@, r.1@, circuit.insts_seq(), circuit.insts_seq().len() as int),
        in_normal_form(*circuit) ==> mirrored_prefix(r.0.nodes@, circuit.insts_seq(), circuit.insts_seq().len() as int)
            && forall|j: int| 0 <= j < r.1@.len() ==> #[trigger] r.1@[j] == j,
{
    let ghost insts = circuit.insts_seq();
    let ghost normal = in_normal_form(*circuit);
    let n = inst_map_len(&circuit.insts);
    let mut rw = Rewriter::new();
    let mut repr: Vec<u32> = Vec::new();
    let mut i: usize = 0;
    while i < n
        invariant
            circuit.wf(),
            insts == circuit.insts_seq(),
            n == insts.len(),
            2 * n < u32::MAX,
            i <= n,
            rw.wf(),
            rw.nodes@.len() <= 2 * i,
            sources_ok(rw.nodes@, circuit.input_count as nat, circuit.regs_seq().len()),
            repr@.len() == i,
            forall|j: int| 0 <= j < i ==> #[trigger] represents(rw.nodes@, repr@[j] as int, insts, j),
            forall|j: int|
                0 <= j < i ==> (insts[j].data matches InstData::Input { index } ==> #[trigger] rw.nodes@[repr@[j] as int]
                    == Node::Input(index)),
            origin_ok(rw.nodes@, repr@, insts, i as int),
            normal == in_normal_form(*circuit),
            normal ==> mirrored_prefix(rw.nodes@, insts, i as int) && forall|j: int| 0 <= j < i ==> #[trigger] repr@[j] == j,
        decreases n - i,
    {
        let inst = inst_map_get(&circuit.insts, Signal(i as u32));
        let ghost rw0 = rw;
        let ghost n0 = rw.nodes@;
        proof {
            assert(crate::circuit::inst_wf(insts[i as int], i as int, circuit.input_count as nat, circuit.regs_seq().len()));
            if normal {
                lemma_normal_step(*circuit, rw, i as int);
                if let InstData::Gate { op, inputs } = insts[i as int].data {
                    assert(repr@[inputs@[0].0 as int] == inputs@[0].0);
                    if inputs@.len() > 1 {
                        assert(repr@[inputs@[1].0 as int] == inputs@[1].0);
                    }
                    if inputs@.len() > 2 {
                        assert(repr@[inputs@[2].0 as int] == inputs@[2].0);
                    }
                }
            }
        }
        let id = match &inst.data {
            InstData::Const { value } => rw.konst(*value),
            InstData::Input { index } => rw.push(Node::Input(*index)),
            InstData::RegisterOutput { reg } => rw.push(Node::RegOut(reg.0)),
            InstData::Gate { op, inputs } => {
                proof {
                    assert(represents(n0, repr@[inputs@[0].0 as int] as int, insts, inputs@[0].0 as int));
                    if inputs@.len() > 1 {
                        assert(represents(n0, repr@[inputs@[1].0 as int] as int, insts, inputs@[1].0 as int));
                    }
                    if inputs@.len() > 2 {
                        assert(represents(n0, repr@[inputs@[2].0 as int] as int, insts, inputs@[2].0 as int));
                    }
                }
                let r0 = repr[inputs[0].0 as usize];
                match op {
                    GateOp::Buf => r0,
                    GateOp::Not => rw.not(r0),
                    GateOp::Mux => {
                        let r1 = repr[inputs[1].0 as usize];
                        let r2 = repr[inputs[2].0 as usize];
                        rw.mux(r0, r1, r2)
                    },
                    _ => {
                        let r1 = repr[inputs[1].0 as usize];
                        match op {
                            GateOp::And => rw.and(r0, r1),
                            GateOp::Or => rw.or(r0, r1),
                            GateOp::Xor => rw.xor(r0, r1),
                            GateOp::Nand => rw.nand(r0, r1),
                            GateOp::Nor => rw.nor(r0, r1),
                            _ => rw.xnor(r0, r1),
                        }
                    },
                }
            },
        };
        proof {
            let n1 = rw.nodes@;
            assert(extends(n0, n1));
            assert forall|j: int| 0 <= j < i implies #[trigger] represents(n1, repr@[j] as int, insts, j) by {
                lemma_represents_extends(n0, n1, repr@[j] as int, insts, j);
            }
            assert forall|q: int| 0 <= q < n1.len() implies match #[trigger] n1[q] {
                Node::Input(k) => k < circuit.input_count as nat,
                Node::RegOut(r) => r < circuit.regs_seq().len(),
                _ => true,
            } by {
                if q < n0.len() {
                    assert(n1[q] == n0[q]);
                } else if !(insts[i as int].data is Input) && !(insts[i as int].data is RegisterOutput) {
                    assert(is_inner(n1[q]));
                }
            }
            assert forall|inputs: Seq<bool>, state: Seq<bool>|
                #[trigger] node_value(n1, id as int, inputs, state) == signal_value(insts, i as int, inputs, state) by {
                if let InstData::Gate { op, inputs: ins } = insts[i as int].data {
                    assert(represents(n0, repr@[ins@[0].0 as int] as int, insts, ins@[0].0 as int));
                    if ins@.len() > 1 {
                        assert(represents(n0, repr@[ins@[1].0 as int] as int, insts, ins@[1].0 as int));
                    }
                    if ins@.len() > 2 {
                        assert(represents(n0, repr@[ins@[2].0 as int] as int, insts, ins@[2].0 as int));
                    }
                }
            }
        }
        proof {
            if normal {
                assert(id as int == i && rw.nodes@ == n0.push(rw.nodes@[i as int]));
                assert(node_of_inst(insts[i as int], rw.nodes@[i as int]));
            }
        }
        let ghost repr0 = repr@;
        repr.push(id);
        proof {
            if normal {
                assert forall|j: int| 0 <= j < i + 1 implies node_of_inst(insts[j], #[trigger] rw.nodes@[j]) by {
                    if j < i {
                        assert(rw.nodes@[j] == n0[j]);
                    }
                }
                assert forall|j: int| 0 <= j < i + 1 implies #[trigger] repr@[j] == j by {
                    if j < i {
                        assert(repr@[j] == repr0[j]);
                    }
                }
            }
        }
        proof {
            assert forall|j: int|
                0 <= j < i + 1 implies (insts[j].data matches InstData::Input { index } ==> #[trigger] rw.nodes@[repr@[j] as int]
                    == Node::Input(index)) by {
                if j < i && insts[j].data is Input {
                    assert(represents(n0, repr@[j] as int, insts, j));
                    assert(n0[repr@[j] as int] == rw.nodes@[repr@[j] as int]);
                }
            }
            let n1 = rw.nodes@;
            assert forall|id2: int| 0 <= id2 < n1.len() implies match #[trigger] n1[id2] {
                Node::Input(k) => exists|j: int|
                    0 <= j < i + 1 && repr@[j] == id2 && #[trigger] is_input_inst(insts[j], k as int),
                Node::RegOut(r) => exists|j: int|
                    0 <= j < i + 1 && repr@[j] == id2 && #[trigger] is_reg_inst(insts[j], r as int),
                _ => true,
            } by {
                if id2 < n0.len() {
                    assert(n1[id2] == n0[id2]);
                    match n0[id2] {
                        Node::Input(k) => {
                            let j = choose|j: int| 0 <= j < i && repr0[j] == id2 && #[trigger] is_input_inst(insts[j], k as int);
                            assert(repr@[j] == repr0[j]);
                        },
                        Node::RegOut(r) => {
                            let j = choose|j: int| 0 <= j < i && repr0[j] == id2 && #[trigger] is_reg_inst(insts[j], r as int);
                            assert(repr@[j] == repr0[j]);
                        },
                        _ => {},
                    }
                } else {
                    match insts[i as int].data {
                        InstData::Input { index } => {
                            assert(id2 == id as int);
                            assert(repr@[i as int] == id2);
                            assert(n1[id2] == Node::Input(index));
                            assert(is_input_inst(insts[i as int], index as int));
                        },
                        InstData::RegisterOutput { reg } => {
                            assert(id2 == id as int);
                            assert(repr@[i as int] == id2);
                            assert(n1[id2] == Node::RegOut(reg.0));
                            assert(is_reg_inst(insts[i as int], reg.0 as int));
                        },
                        _ => {
                            assert(is_inner(n1[id2]));
                        },
                    }
                }
            }
        }
        i += 1;
    }
    (rw, repr)
}

/// Number of unmarked nodes.
spec fn count_dead(live: Seq<bool>) -> nat
    decreases live.len(),
{
    if live.len() == 0 {
        0
    } else {
        count_dead(live.drop_last()) + if live.last() {
            0nat
        } else {
            1nat
        }
    }
}

proof fn lemma_count_dead_mark(live: Seq<bool>, i: int)
    requires
        0 <= i < live.len(),
        !live[i],
    ensures
        count_dead(live.update(i, true)) + 1 == count_dead(live),
    decreases live.len(),
{
    let u = live.update(i, true);
    if i < live.len() - 1 {
        assert(u.drop_last() =~= live.drop_last().update(i, true));
        lemma_count_dead_mark(live.drop_last(), i);
    } else {
        assert(u.drop_last() =~= live.drop_last());
    }
}

/// `x` is live or still waiting on the stack.
spec fn covered(live: Seq<bool>, stack: Seq<u32>, x: u32) -> bool {
    live[x as int] || stack.contains(x)
}

/// A live gate's operands are covered.
spec fn operands_covered(n: Node, live: Seq<bool>, stack: Seq<u32>) -> bool {
    match n {
        Node::Gate { a, b, c, arity, .. } => {
            &&& covered(live, stack, a)
            &&& arity > 1 ==> covered(live, stack, b)
            &&& arity > 2 ==> covered(live, stack, c)
        },
        _ => true,
    }
}

/// After popping the top `id` of `stack` and marking it live, whatever was
/// covered still is.
proof fn lemma_covered_pop(live: Seq<bool>, live2: Seq<bool>, stack: Seq<u32>, stack2: Seq<u32>, id: u32, x: u32)
    requires
        covered(live, stack, x),
        stack.len() > 0,
        id == stack.last(),
        live2.len() == live.len(),
        (x as int) < live.len(),
        live2[id as int],
        forall|y: int| 0 <= y < live.len() && live[y] ==> live2[y],
        stack2.len() >= stack.len() - 1,
        forall|q: int| 0 <= q < stack.len() - 1 ==> stack2[q] == stack[q],
    ensures
        covered(live2, stack2, x),
{
    if !live[x as int] {
        let q = choose|q: int| 0 <= q < stack.len() && stack[q] == x;
        if q < stack.len() - 1 {
            assert(stack2[q] == x);
        }
    }
}

/// A live node is kept for a reason: it is a root, an input or register
/// node, or an operand of a live gate.
spec fn supported(nodes: Seq<Node>, live: Seq<bool>, roots: Seq<u32>, x: int) -> bool {
    ||| exists|q: int| 0 <= q < roots.len() && #[trigger] roots[q] as int == x
    ||| nodes[x] is Input
    ||| nodes[x] is RegOut
    ||| exists|g: int| 0 <= g < nodes.len() && live[g] && #[trigger] feeds(nodes[g], x)
}

proof fn lemma_supported_grow(nodes: Seq<Node>, live: Seq<bool>, live2: Seq<bool>, roots: Seq<u32>, x: int)
    requires
        supported(nodes, live, roots, x),
        live.len() == nodes.len(),
        live2.len() == nodes.len(),
        forall|y: int| 0 <= y < live.len() && live[y] ==> live2[y],
    ensures
        supported(nodes, live2, roots, x),
{
    if exists|g: int| 0 <= g < nodes.len() && live[g] && #[trigger] feeds(nodes[g], x) {
        let g = choose|g: int| 0 <= g < nodes.len() && live[g] && #[trigger] feeds(nodes[g], x);
        assert(live2[g]);
    }
}

/// Mark every node reachable from the stack through gate operands.
fn mark_live(nodes: &Vec<Node>, stack: Vec<u32>) -> (live: Vec<bool>)
    requires
        forall|id: int| 0 <= id < nodes@.len() ==> #[trigger] node_ok(nodes@[id], id),
        forall|q: int| 0 <= q < stack@.len() ==> (#[trigger] stack@[q] as int) < nodes@.len(),
    ensures
        live@.len() == nodes@.len(),
        forall|q: int| 0 <= q < stack@.len() ==> #[trigger] live@[stack@[q] as int],
        forall|id: int| 0 <= id < nodes@.len() && #[trigger] live@[id] ==> operands_covered(nodes@[id], live@, Seq::empty()),
        forall|id: int| 0 <= id < nodes@.len() && (nodes@[id] is Input || nodes@[id] is RegOut) ==> #[trigger] live@[id],
        forall|id: int| 0 <= id < nodes@.len() && #[trigger] live@[id] ==> supported(nodes@, live@, stack@, id),
{
    let ghost roots = stack@;
    let mut stack = stack;
    let mut live: Vec<bool> = vec![false; nodes.len()];
    proof {
        assert forall|q: int| 0 <= q < roots.len() implies covered(live@, stack@, #[trigger] roots[q]) by {
            assert(stack@[q] == roots[q]);
        }
        assert forall|q: int| 0 <= q < stack@.len() implies supported(nodes@, live@, roots, #[trigger] stack@[q] as int) by {
            assert(roots[q] as int == stack@[q] as int);
        }
    }
    while stack.len() > 0
        invariant
            forall|id: int| 0 <= id < nodes@.len() ==> #[trigger] node_ok(nodes@[id], id),
            live@.len() == nodes@.len(),
            forall|q: int| 0 <= q < stack@.len() ==> (#[trigger] stack@[q] as int) < nodes@.len(),
            forall|q: int| 0 <= q < roots.len() ==> (#[trigger] roots[q] as int) < nodes@.len(),
            forall|q: int| 0 <= q < roots.len() ==> covered(live@, stack@, #[trigger] roots[q]),
            forall|id: int| 0 <= id < nodes@.len() && #[trigger] live@[id] ==> operands_covered(nodes@[id], live@, stack@),
            forall|id: int| 0 <= id < nodes@.len() && #[trigger] live@[id] ==> supported(nodes@, live@, roots, id),
            forall|q: int| 0 <= q < stack@.len() ==> supported(nodes@, live@, roots, #[trigger] stack@[q] as int),
        decreases count_dead(live@), stack@.len(),
    {
        let ghost live0 = live@;
        let ghost stack0 = stack@;
        let id = match stack.pop() {
            Some(id) => id,
            None => 0,
        };
        if live[id as usize] {
            proof {
                assert forall|q: int| 0 <= q < roots.len() implies covered(live@, stack@, #[trigger] roots[q]) by {
                    lemma_covered_pop(live0, live@, stack0, stack@, id, roots[q]);
                }
                assert forall|y: int| 0 <= y < nodes@.len() && #[trigger] live@[y] implies operands_covered(
                    nodes@[y],
                    live@,
                    stack@,
                ) by {
                    assert(node_ok(nodes@[y], y));
                    if let Node::Gate { a, b, c, arity, .. } = nodes@[y] {
                        lemma_covered_pop(live0, live@, stack0, stack@, id, a);
                        if arity > 1 {
                            lemma_covered_pop(live0, live@, stack0, stack@, id, b);
                        }
                        if arity > 2 {
                            lemma_covered_pop(live0, live@, stack0, stack@, id, c);
                        }
                    }
                }
                assert forall|q: int| 0 <= q < stack@.len() implies supported(nodes@, live@, roots, #[trigger] stack@[q] as int) by {
                    assert(stack@[q] == stack0[q]);
                }
            }
            continue;
        }
        live.set(id as usize, true);
        proof {
            lemma_count_dead_mark(live0, id as int);
            assert(node_ok(nodes@[id as int], id as int));
            assert(supported(nodes@, live0, roots, stack0[stack0.len() - 1] as int));
            assert forall|y: int| 0 <= y < nodes@.len() && #[trigger] live@[y] implies supported(nodes@, live@, roots, y) by {
                if y == id as int {
                    lemma_supported_grow(nodes@, live0, live@, roots, stack0[stack0.len() - 1] as int);
                } else {
                    lemma_supported_grow(nodes@, live0, live@, roots, y);
                }
            }
        }
        if let Node::Gate { a, b, c, arity, .. } = nodes[id as usize] {
            stack.push(a);
            if arity > 1 {
                stack.push(b);
            }
            if arity > 2 {
                stack.push(c);
            }
        }
        proof {
            assert forall|q: int| 0 <= q < roots.len() implies covered(live@, stack@, #[trigger] roots[q]) by {
                lemma_covered_pop(live0, live@, stack0, stack@, id, roots[q]);
            }
            assert forall|y: int| 0 <= y < nodes@.len() && #[trigger] live@[y] implies operands_covered(
                nodes@[y],
                live@,
                stack@,
            ) by {
                assert(node_ok(nodes@[y], y));
                if y == id {
                    if let Node::Gate { a, b, c, arity, .. } = nodes@[y] {
                        assert(stack@[stack0.len() - 1] == a);
                        if arity > 1 {
                            assert(stack@[stack0.len() as int] == b);
                        }
                        if arity > 2 {
                            assert(stack@[stack0.len() as int + 1] == c);
                        }
                    }
                } else if let Node::Gate { a, b, c, arity, .. } = nodes@[y] {
                    assert(live0[y]);
                    lemma_covered_pop(live0, live@, stack0, stack@, id, a);
                    if arity > 1 {
                        lemma_covered_pop(live0, live@, stack0, stack@, id, b);
                    }
                    if arity > 2 {
                        lemma_covered_pop(live0, live@, stack0, stack@, id, c);
                    }
                }
            }
            assert forall|q: int| 0 <= q < stack@.len() implies (#[trigger] stack@[q] as int) < nodes@.len() by {
                if q < stack0.len() - 1 {
                    assert(stack@[q] == stack0[q]);
                }
            }
            assert forall|q: int| 0 <= q < stack@.len() implies supported(nodes@, live@, roots, #[trigger] stack@[q] as int) by {
                if q < stack0.len() - 1 {
                    assert(stack@[q] == stack0[q]);
                    lemma_supported_grow(nodes@, live0, live@, roots, stack0[q] as int);
                } else {
                    assert(live@[id as int]);
                    assert(feeds(nodes@[id as int], stack@[q] as int));
                }
            }
        }
    }
    proof {
        assert forall|q: int| 0 <= q < roots.len() implies #[trigger] live@[roots[q] as int] by {
            assert(covered(live@, stack@, roots[q]));
        }
        assert forall|id: int| 0 <= id < nodes@.len() && #[trigger] live@[id] implies operands_covered(
            nodes@[id],
            live@,
            Seq::empty(),
        ) by {
            assert(operands_covered(nodes@[id], live@, stack@));
            assert(stack@ =~= Seq::<u32>::empty());
        }
    }
    // Inputs and register outputs always survive so the circuit keeps its
    // interface.
    let mut id: usize = 0;
    while id < nodes.len()
        invariant
            forall|q: int| 0 <= q < nodes@.len() ==> #[trigger] node_ok(nodes@[q], q),
            live@.len() == nodes@.len(),
            id <= nodes@.len(),
            forall|q: int| 0 <= q < roots.len() ==> (#[trigger] roots[q] as int) < nodes@.len(),
            forall|q: int| 0 <= q < roots.len() ==> #[trigger] live@[roots[q] as int],
            forall|y: int| 0 <= y < nodes@.len() && #[trigger] live@[y] ==> operands_covered(nodes@[y], live@, Seq::empty()),
            forall|y: int| 0 <= y < id && (nodes@[y] is Input || nodes@[y] is RegOut) ==> #[trigger] live@[y],
            forall|y: int| 0 <= y < nodes@.len() && #[trigger] live@[y] ==> supported(nodes@, live@, roots, y),
        decreases nodes@.len() - id,
    {
        let keep = match nodes[id] {
            Node::Input(_) | Node::RegOut(_) => true,
            _ => false,
        };
        if keep {
            let ghost live0 = live@;
            live.set(id, true);
            proof {
                assert forall|y: int| 0 <= y < nodes@.len() && #[trigger] live@[y] implies operands_covered(
                    nodes@[y],
                    live@,
                    Seq::empty(),
                ) by {
                    assert(node_ok(nodes@[y], y));
                    if y != id {
                        assert(live0[y]);
                        assert(operands_covered(nodes@[y], live0, Seq::empty()));
                        if let Node::Gate { a, b, c, arity, .. } = nodes@[y] {
                            assert(!Seq::<u32>::empty().contains(a));
                            assert(live0[a as int]);
                            if arity > 1 {
                                assert(!Seq::<u32>::empty().contains(b));
                                assert(live0[b as int]);
                            }
                            if arity > 2 {
                                assert(!Seq::<u32>::empty().contains(c));
                                assert(live0[c as int]);
                            }
                        }
                    }
                }
                assert forall|y: int| 0 <= y < nodes@.len() && #[trigger] live@[y] implies supported(nodes@, live@, roots, y) by {
                    if y != id {
                        lemma_supported_grow(nodes@, live0, live@, roots, y);
                    }
                }
            }
        }
        id += 1;
    }
    live
}

/// Instruction data `d` is node `n` with its operands renamed by `remap`.
spec fn mirrors(d: InstData, n: Node, remap: Seq<Signal>) -> bool {
    match n {
        Node::Const(v) => d == InstData::Const { value: v },
        Node::Input(k) => d == InstData::Input { index: k },
        Node::RegOut(r) => d matches InstData::RegisterOutput { reg } && reg.0 == r,
        Node::Gate { op, a, b, c, arity } => d matches InstData::Gate { op: op2, inputs } && {
            &&& op2 == op
            &&& inputs@.len() == arity
            &&& inputs@[0] == remap[a as int]
            &&& arity > 1 ==> inputs@[1] == remap[b as int]
            &&& arity > 2 ==> inputs@[2] == remap[c as int]
        },
    }
}

/// Some live node below `bound` was renamed to `q`.
spec fn has_origin_below(remap: Seq<Signal>, live: Seq<bool>, q: int, bound: int) -> bool {
    exists|id: int| 0 <= id < bound && live[id] && #[trigger] remap[id].0 == q
}

/// Some live node was renamed to `q`.
spec fn has_origin(remap: Seq<Signal>, live: Seq<bool>, q: int) -> bool {
    has_origin_below(remap, live, q, live.len() as int)
}

/// Emit the live nodes in id order as a fresh instruction table; `remap`
/// gives each live node's new signal.
fn emit(nodes: &Vec<Node>, live: &Vec<bool>, circuit: &Circuit) -> (r: (InstMap, Vec<Signal>))
    requires
        circuit.wf(),
        nodes@.len() < u32::MAX,
        forall|id: int| 0 <= id < nodes@.len() ==> #[trigger] node_ok(nodes@[id], id),
        sources_ok(nodes@, circuit.input_count as nat, circuit.regs_seq().len()),
        live@.len() == nodes@.len(),
        forall|id: int| 0 <= id < nodes@.len() && #[trigger] live@[id] ==> operands_covered(nodes@[id], live@, Seq::empty()),
    ensures
        inst_entries(r.0).len() <= nodes@.len(),
        forall|q: int|
            0 <= q < inst_entries(r.0).len() ==> inst_wf(
                #[trigger] inst_entries(r.0)[q],
                q,
                circuit.input_count as nat,
                circuit.regs_seq().len(),
            ),
        r.1@.len() == nodes@.len(),
        forall|id: int|
            0 <= id < nodes@.len() && #[trigger] live@[id] ==> {
                &&& (r.1@[id].0 as int) < inst_entries(r.0).len()
                &&& forall|inputs: Seq<bool>, state: Seq<bool>|
                    #[trigger] signal_value(inst_entries(r.0), r.1@[id].0 as int, inputs, state) == node_value(
                        nodes@,
                        id,
                        inputs,
                        state,
                    )
                &&& nodes@[id] matches Node::Input(k) ==> inst_entries(r.0)[r.1@[id].0 as int].data == (InstData::Input {
                    index: k,
                })
            },
        forall|q: int, k: int|
            0 <= q < inst_entries(r.0).len() && #[trigger] is_input_inst(inst_entries(r.0)[q], k) ==> exists|id: int|
                0 <= id < nodes@.len() && live@[id] && nodes@[id] == Node::Input(k as u32) && #[trigger] r.1@[id].0 == q,
        forall|q: int, k: int|
            0 <= q < inst_entries(r.0).len() && #[trigger] is_reg_inst(inst_entries(r.0)[q], k) ==> exists|id: int|
                0 <= id < nodes@.len() && live@[id] && nodes@[id] == Node::RegOut(k as u32) && #[trigger] r.1@[id].0 == q,
        forall|id1: int, id2: int|
            0 <= id1 < id2 < nodes@.len() && #[trigger] live@[id1] && #[trigger] live@[id2] ==> r.1@[id1].0 < r.1@[id2].0,
        forall|q: int| 0 <= q < inst_entries(r.0).len() ==> #[trigger] has_origin(r.1@, live@, q),
        forall|id: int|
            0 <= id < nodes@.len() && #[trigger] live@[id] ==> mirrors(inst_entries(r.0)[r.1@[id].0 as int].data, nodes@[id], r.1@),
{
    let mut insts = inst_map_with_capacity(nodes.len());
    let mut remap: Vec<Signal> = vec![Signal(0); nodes.len()];
    let mut id: usize = 0;
    while id < nodes.len()
        invariant
            circuit.wf(),
            nodes@.len() < u32::MAX,
            forall|q: int| 0 <= q < nodes@.len() ==> #[trigger] node_ok(nodes@[q], q),
            sources_ok(nodes@, circuit.input_count as nat, circuit.regs_seq().len()),
            live@.len() == nodes@.len(),
            forall|q: int| 0 <= q < nodes@.len() && #[trigger] live@[q] ==> operands_covered(nodes@[q], live@, Seq::empty()),
            id <= nodes@.len(),
            inst_entries(insts).len() <= id,
            remap@.len() == nodes@.len(),
            forall|q: int|
                0 <= q < inst_entries(insts).len() ==> inst_wf(
                    #[trigger] inst_entries(insts)[q],
                    q,
                    circuit.input_count as nat,
                    circuit.regs_seq().len(),
                ),
            forall|q: int|
                0 <= q < id && #[trigger] live@[q] ==> {
                    &&& (remap@[q].0 as int) < inst_entries(insts).len()
                    &&& forall|inputs: Seq<bool>, state: Seq<bool>|
                        #[trigger] signal_value(inst_entries(insts), remap@[q].0 as int, inputs, state) == node_value(
                            nodes@,
                            q,
                            inputs,
                            state,
                        )
                    &&& nodes@[q] matches Node::Input(k) ==> inst_entries(insts)[remap@[q].0 as int].data == (InstData::Input {
                        index: k,
                    })
                },
            forall|q: int, k: int|
                0 <= q < inst_entries(insts).len() && #[trigger] is_input_inst(inst_entries(insts)[q], k) ==> exists|id2: int|
                    0 <= id2 < id && live@[id2] && nodes@[id2] == Node::Input(k as u32) && #[trigger] remap@[id2].0 == q,
            forall|q: int, k: int|
                0 <= q < inst_entries(insts).len() && #[trigger] is_reg_inst(inst_entries(insts)[q], k) ==> exists|id2: int|
                    0 <= id2 < id && live@[id2] && nodes@[id2] == Node::RegOut(k as u32) && #[trigger] remap@[id2].0 == q,
            forall|id1: int, id2: int|
                0 <= id1 < id2 < id && #[trigger] live@[id1] && #[trigger] live@[id2] ==> remap@[id1].0 < remap@[id2].0,
            forall|q: int| 0 <= q < inst_entries(insts).len() ==> #[trigger] has_origin_below(remap@, live@, q, id as int),
            forall|q: int|
                0 <= q < id && #[trigger] live@[q] ==> mirrors(inst_entries(insts)[remap@[q].0 as int].data, nodes@[q], remap@),
        decreases nodes@.len() - id,
    {
        if live[id] {
            let ghost before = inst_entries(insts);
            let ghost remap0 = remap@;
            proof {
                assert(node_ok(nodes@[id as int], id as int));
                assert(operands_covered(nodes@[id as int], live@, Seq::empty()));
                if let Node::Gate { a, b, c, arity, .. } = nodes@[id as int] {
                    assert(!Seq::<u32>::empty().contains(a));
                    if arity > 1 {
                        assert(!Seq::<u32>::empty().contains(b));
                    }
                    if arity > 2 {
                        assert(!Seq::<u32>::empty().contains(c));
                    }
                }
                assert(match nodes@[id as int] {
                    Node::Input(k) => k < circuit.input_count as nat,
                    Node::RegOut(r) => r < circuit.regs_seq().len(),
                    _ => true,
                });
            }
            let (data, name) = match nodes[id] {
                Node::Const(value) => (InstData::Const { value }, None),
                Node::Input(index) => (InstData::Input { index }, None),
                Node::RegOut(reg) => {
                    let name = reg_map_get(&circuit.regs, Reg(reg)).name_index;
                    (InstData::RegisterOutput { reg: Reg(reg) }, name)
                },
                Node::Gate { op, a, b, c, arity } => {
                    let mut inputs: Vec<Signal> = Vec::new();
                    inputs.push(remap[a as usize]);
                    if arity > 1 {
                        inputs.push(remap[b as usize]);
                    }
                    if arity > 2 {
                        inputs.push(remap[c as usize]);
                    }
                    (InstData::Gate { op, inputs }, None)
                },
            };
            let sig = inst_map_push(&mut insts, Instruction { data, debug_name_index: name });
            remap.set(id, sig);
            proof {
                let after = inst_entries(insts);
                assert forall|q: int, k: int|
                    0 <= q < after.len() && #[trigger] is_input_inst(after[q], k) implies exists|id2: int|
                        0 <= id2 < id + 1 && live@[id2] && nodes@[id2] == Node::Input(k as u32) && #[trigger] remap@[id2].0 == q by {
                    if q < before.len() {
                        assert(after[q] == before[q]);
                        let id2 = choose|id2: int|
                            0 <= id2 < id && live@[id2] && nodes@[id2] == Node::Input(k as u32) && #[trigger] remap0[id2].0 == q;
                        assert(remap@[id2] == remap0[id2]);
                    } else {
                        assert(remap@[id as int].0 == q);
                    }
                }
                assert forall|q: int, k: int|
                    0 <= q < after.len() && #[trigger] is_reg_inst(after[q], k) implies exists|id2: int|
                        0 <= id2 < id + 1 && live@[id2] && nodes@[id2] == Node::RegOut(k as u32) && #[trigger] remap@[id2].0 == q by {
                    if q < before.len() {
                        assert(after[q] == before[q]);
                        let id2 = choose|id2: int|
                            0 <= id2 < id && live@[id2] && nodes@[id2] == Node::RegOut(k as u32) && #[trigger] remap0[id2].0 == q;
                        assert(remap@[id2] == remap0[id2]);
                    } else {
                        assert(remap@[id as int].0 == q);
                    }
                }
                assert(is_prefix(before, after)) by {
                    assert forall|q: int| 0 <= q < before.len() implies after[q] == before[q] by {
                    }
                }
                assert forall|id1: int, id2: int|
                    0 <= id1 < id2 < id + 1 && #[trigger] live@[id1] && #[trigger] live@[id2] implies remap@[id1].0 < remap@[id2].0 by {
                    assert(remap@[id1] == remap0[id1]);
                    if id2 < id {
                        assert(remap@[id2] == remap0[id2]);
                    }
                }
                assert forall|q: int| 0 <= q < after.len() implies #[trigger] has_origin_below(remap@, live@, q, id + 1) by {
                    if q < before.len() {
                        assert(has_origin_below(remap0, live@, q, id as int));
                        let id2 = choose|id2: int| 0 <= id2 < id && live@[id2] && #[trigger] remap0[id2].0 == q;
                        assert(remap@[id2] == remap0[id2]);
                    } else {
                        assert(remap@[id as int].0 == q);
                    }
                }
                assert forall|q: int|
                    0 <= q < id + 1 && #[trigger] live@[q] implies mirrors(after[remap@[q].0 as int].data, nodes@[q], remap@) by {
                    assert(node_ok(nodes@[q], q));
                    if q < id {
                        assert(remap@[q] == remap0[q]);
                        assert(after[remap0[q].0 as int] == before[remap0[q].0 as int]);
                        assert(mirrors(before[remap0[q].0 as int].data, nodes@[q], remap0));
                        if let Node::Gate { a, b, c, arity, .. } = nodes@[q] {
                            assert(remap@[a as int] == remap0[a as int]);
                            if arity > 1 {
                                assert(remap@[b as int] == remap0[b as int]);
                            }
                            if arity > 2 {
                                assert(remap@[c as int] == remap0[c as int]);
                            }
                        }
                    } else {
                        if let Node::Gate { a, b, c, arity, .. } = nodes@[q] {
                            assert(remap@[a as int] == remap0[a as int]);
                            if arity > 1 {
                                assert(remap@[b as int] == remap0[b as int]);
                            }
                            if arity > 2 {
                                assert(remap@[c as int] == remap0[c as int]);
                            }
                        }
                    }
                }
                assert forall|q: int|
                    0 <= q < after.len() implies inst_wf(
                        #[trigger] after[q],
                        q,
                        circuit.input_count as nat,
                        circuit.regs_seq().len(),
                    ) by {
                    if q < before.len() {
                        assert(after[q] == before[q]);
                    }
                }
                assert forall|q: int|
                    0 <= q < id + 1 && #[trigger] live@[q] implies {
                        &&& (remap@[q].0 as int) < after.len()
                        &&& forall|inputs: Seq<bool>, state: Seq<bool>|
                            #[trigger] signal_value(after, remap@[q].0 as int, inputs, state) == node_value(
                                nodes@,
                                q,
                                inputs,
                                state,
                            )
                        &&& nodes@[q] matches Node::Input(k) ==> after[remap@[q].0 as int].data == (InstData::Input {
                            index: k,
                        })
                    } by {
                    if q < id {
                        assert(remap@[q] == remap0[q]);
                        assert forall|inputs: Seq<bool>, state: Seq<bool>|
                            #[trigger] signal_value(after, remap@[q].0 as int, inputs, state) == node_value(
                                nodes@,
                                q,
                                inputs,
                                state,
                            ) by {
                            lemma_signal_value_prefix(before, after, remap0[q].0 as int, inputs, state);
                        }
                        assert(after[remap0[q].0 as int] == before[remap0[q].0 as int]);
                    } else {
                        assert forall|inputs: Seq<bool>, state: Seq<bool>|
                            #[trigger] signal_value(after, remap@[q].0 as int, inputs, state) == node_value(
                                nodes@,
                                q,
                                inputs,
                                state,
                            ) by {
                            if let Node::Gate { op, a, b, c, arity } = nodes@[q] {
                                lemma_signal_value_prefix(before, after, remap0[a as int].0 as int, inputs, state);
                                if arity > 1 {
                                    lemma_signal_value_prefix(before, after, remap0[b as int].0 as int, inputs, state);
                                }
                                if arity > 2 {
                                    lemma_signal_value_prefix(before, after, remap0[c as int].0 as int, inputs, state);
                                }
                            }
                        }
                    }
                }
            }
        } else {
            proof {
                assert forall|q: int| 0 <= q < inst_entries(insts).len() implies #[trigger] has_origin_below(
                    remap@,
                    live@,
                    q,
                    id + 1,
                ) by {
                    assert(has_origin_below(remap@, live@, q, id as int));
                }
            }
        }
        id += 1;
    }
    (insts, remap)
}

/// Structural hashing leaves no two emitted gates alike: equal operations
/// on equal renamed operands would be one hashed node.
proof fn lemma_no_repeats(nodes: Seq<Node>, cse: Map<u128, u32>, live: Seq<bool>, remap: Seq<Signal>, insts: Seq<Instruction>)
    requires
        forall|id: int| 0 <= id < nodes.len() ==> #[trigger] node_ok(nodes[id], id),
        forall|id: int| 0 <= id < nodes.len() ==> hashed(cse, #[trigger] nodes[id], id),
        live.len() == nodes.len(),
        remap.len() == nodes.len(),
        forall|id: int| 0 <= id < nodes.len() && #[trigger] live[id] ==> operands_covered(nodes[id], live, Seq::empty()),
        forall|id1: int, id2: int| 0 <= id1 < id2 < nodes.len() && #[trigger] live[id1] && #[trigger] live[id2] ==> remap[id1].0 < remap[id2].0,
        forall|q: int| 0 <= q < insts.len() ==> #[trigger] has_origin(remap, live, q),
        forall|id: int| 0 <= id < nodes.len() && #[trigger] live[id] ==> (remap[id].0 as int) < insts.len() && mirrors(insts[remap[id].0 as int].data, nodes[id], remap),
    ensures
        forall|i: int, j: int| 0 <= i < j < insts.len() ==> !same_gate(#[trigger] insts[i], #[trigger] insts[j]),
{
    assert forall|i: int, j: int| 0 <= i < j < insts.len() implies !same_gate(#[trigger] insts[i], #[trigger] insts[j]) by {
        if same_gate(insts[i], insts[j]) {
            assert(has_origin(remap, live, i));
            assert(has_origin(remap, live, j));
            let x = choose|id: int| 0 <= id < live.len() && live[id] && #[trigger] remap[id].0 == i;
            let y = choose|id: int| 0 <= id < live.len() && live[id] && #[trigger] remap[id].0 == j;
            assert(mirrors(insts[i].data, nodes[x], remap));
            assert(mirrors(insts[j].data, nodes[y], remap));
            assert(node_ok(nodes[x], x));
            assert(node_ok(nodes[y], y));
            assert(operands_covered(nodes[x], live, Seq::empty()));
            assert(operands_covered(nodes[y], live, Seq::empty()));
            assert(x != y);
            if let (Node::Gate { op: o1, a: a1, b: b1, c: c1, arity: r1 }, Node::Gate { op: o2, a: a2, b: b2, c: c2, arity: r2 }) = (nodes[x], nodes[y]) {
                assert(!Seq::<u32>::empty().contains(a1));
                assert(!Seq::<u32>::empty().contains(a2));
                assert(a1 == a2) by {
                    assert(live[a1 as int] && live[a2 as int]);
                    assert(remap[a1 as int] == remap[a2 as int]);
                }
                if r1 > 1 {
                    assert(!Seq::<u32>::empty().contains(b1));
                    assert(!Seq::<u32>::empty().contains(b2));
                    assert(b1 == b2) by {
                        assert(live[b1 as int] && live[b2 as int]);
                        assert(remap[b1 as int] == remap[b2 as int]);
                    }
                }
                if r1 > 2 {
                    assert(!Seq::<u32>::empty().contains(c1));
                    assert(!Seq::<u32>::empty().contains(c2));
                    assert(c1 == c2) by {
                        assert(live[c1 as int] && live[c2 as int]);
                        assert(remap[c1 as int] == remap[c2 as int]);
                    }
                }
                assert(hashed(cse, nodes[x], x));
                assert(hashed(cse, nodes[y], y));
            }
        }
    }
}

/// Emitted gates read no constants, since no rewritten gate node does.
proof fn lemma_no_const_operands(nodes: Seq<Node>, live: Seq<bool>, remap: Seq<Signal>, insts: Seq<Instruction>)
    requires
        forall|id: int| 0 <= id < nodes.len() ==> #[trigger] node_ok(nodes[id], id),
        forall|id: int| 0 <= id < nodes.len() ==> reads_no_const(nodes, #[trigger] nodes[id]),
        live.len() == nodes.len(),
        remap.len() == nodes.len(),
        forall|id: int| 0 <= id < nodes.len() && #[trigger] live[id] ==> operands_covered(nodes[id], live, Seq::empty()),
        forall|q: int| 0 <= q < insts.len() ==> #[trigger] has_origin(remap, live, q),
        forall|id: int| 0 <= id < nodes.len() && #[trigger] live[id] ==> (remap[id].0 as int) < insts.len() && mirrors(insts[remap[id].0 as int].data, nodes[id], remap),
    ensures
        forall|q: int, k: int|
            0 <= q < insts.len() && 0 <= k < gate_inputs(insts[q]).len() ==> !(insts[#[trigger] gate_inputs(insts[q])[k].0 as int].data is Const),
{
    assert forall|q: int, k: int|
        0 <= q < insts.len() && 0 <= k < gate_inputs(insts[q]).len() implies !(insts[#[trigger] gate_inputs(insts[q])[k].0 as int].data is Const) by {
        assert(has_origin(remap, live, q));
        let x = choose|id: int| 0 <= id < live.len() && live[id] && #[trigger] remap[id].0 == q;
        assert(mirrors(insts[q].data, nodes[x], remap));
        assert(node_ok(nodes[x], x));
        assert(operands_covered(nodes[x], live, Seq::empty()));
        assert(reads_no_const(nodes, nodes[x]));
        if let Node::Gate { a, b, c, arity, .. } = nodes[x] {
            let y = if k == 0 {
                a
            } else if k == 1 {
                b
            } else {
                c
            };
            assert(gate_inputs(insts[q])[k] == remap[y as int]);
            assert(!Seq::<u32>::empty().contains(y));
            assert(live[y as int]);
            assert(mirrors(insts[remap[y as int].0 as int].data, nodes[y as int], remap));
            assert(!(nodes[y as int] is Const));
        }
    }
}

/// Every emitted constant or gate comes from a live node kept for a reason:
/// a root, whose signal is an output or register input, or an operand of
/// a live gate, whose emitted gate reads it.
proof fn lemma_no_dead(c: Circuit, nodes: Seq<Node>, live: Seq<bool>, roots: Seq<u32>, remap: Seq<Signal>)
    requires
        forall|id: int| 0 <= id < nodes.len() ==> #[trigger] node_ok(nodes[id], id),
        live.len() == nodes.len(),
        remap.len() == nodes.len(),
        roots.len() == c.output_signals@.len() + c.regs_seq().len(),
        forall|p: int| 0 <= p < c.output_signals@.len() ==> #[trigger] c.output_signals@[p] == remap[roots[p] as int],
        forall|r: int|
            0 <= r < c.regs_seq().len() ==> (#[trigger] c.regs_seq()[r]).data_input == remap[roots[c.output_signals@.len() + r] as int],
        forall|id: int| 0 <= id < nodes.len() && #[trigger] live[id] ==> supported(nodes, live, roots, id),
        forall|q: int| 0 <= q < c.insts_seq().len() ==> #[trigger] has_origin(remap, live, q),
        forall|id: int|
            0 <= id < nodes.len() && #[trigger] live[id] ==> (remap[id].0 as int) < c.insts_seq().len() && mirrors(
                c.insts_seq()[remap[id].0 as int].data,
                nodes[id],
                remap,
            ),
    ensures
        no_dead_signals(c),
{
    reveal(no_dead_signals);
    let insts = c.insts_seq();
    let nouts = c.output_signals@.len();
    assert forall|q: int|
        0 <= q < insts.len() && !(insts[q].data is Input) && !(insts[q].data is RegisterOutput) implies #[trigger] is_read(c, q) by {
        assert(has_origin(remap, live, q));
        let id = choose|id: int| 0 <= id < live.len() && live[id] && #[trigger] remap[id].0 == q;
        assert(mirrors(insts[q].data, nodes[id], remap));
        assert(supported(nodes, live, roots, id));
        if exists|p: int| 0 <= p < roots.len() && #[trigger] roots[p] as int == id {
            let p = choose|p: int| 0 <= p < roots.len() && #[trigger] roots[p] as int == id;
            if p < nouts {
                assert(c.output_signals@[p] == remap[roots[p] as int]);
                assert(c.output_signals@[p].0 == q);
            } else {
                let rr = p - nouts;
                assert(c.regs_seq()[rr].data_input == remap[roots[nouts + rr] as int]);
                assert(c.regs_seq()[rr].data_input.0 == q);
            }
        } else {
            let g = choose|g: int| 0 <= g < nodes.len() && live[g] && #[trigger] feeds(nodes[g], id);
            let p = remap[g].0 as int;
            assert(0 <= p < insts.len());
            assert(mirrors(insts[p].data, nodes[g], remap));
            assert(node_ok(nodes[g], g));
            if let Node::Gate { a, b, c: cc, arity, .. } = nodes[g] {
                assert(gate_inputs(insts[p]).len() == arity);
                let k: int = if a as int == id {
                    0
                } else if arity > 1 && b as int == id {
                    1
                } else {
                    2
                };
                assert(0 <= k < gate_inputs(insts[p]).len());
                assert(gate_inputs(insts[p])[k].0 == q);
            }
        }
    }
}

/// The operands of a gate instruction; empty for any other instruction.
pub open spec fn gate_inputs(inst: Instruction) -> Seq<Signal> {
    match inst.data {
        InstData::Gate { inputs, .. } => inputs@,
        _ => Seq::empty(),
    }
}

/// No gate reads a constant: constants are folded into their readers.
#[verifier::opaque]
pub open spec fn no_constant_operands(c: Circuit) -> bool {
    let insts = c.insts_seq();
    forall|q: int, k: int|
        0 <= q < insts.len() && 0 <= k < gate_inputs(insts[q]).len() ==> !(insts[#[trigger] gate_inputs(
            insts[q],
        )[k].0 as int].data is Const)
}

/// Both instructions are gates with the same operation and operands.
pub open spec fn same_gate(x: Instruction, y: Instruction) -> bool {
    match (x.data, y.data) {
        (InstData::Gate { op: o1, inputs: i1 }, InstData::Gate { op: o2, inputs: i2 }) => o1 == o2 && i1@ == i2@,
        _ => false,
    }
}

/// No gate is computed twice: common subexpressions are shared.
#[verifier::opaque]
pub open spec fn no_repeated_gates(c: Circuit) -> bool {
    let insts = c.insts_seq();
    forall|i: int, j: int| 0 <= i < j < insts.len() ==> !same_gate(#[trigger] insts[i], #[trigger] insts[j])
}

/// Signal `q` is read by a gate, is a declared output or is a register's
/// data input.
pub open spec fn is_read(c: Circuit, q: int) -> bool {
    let insts = c.insts_seq();
    ||| exists|p: int, k: int|
        0 <= p < insts.len() && 0 <= k < gate_inputs(insts[p]).len() && #[trigger] gate_inputs(insts[p])[k].0 == q
    ||| exists|k: int| 0 <= k < c.output_signals@.len() && #[trigger] c.output_signals@[k].0 == q
    ||| exists|r: int| 0 <= r < c.regs_seq().len() && #[trigger] c.regs_seq()[r].data_input.0 == q
}

/// Every constant and gate is read: dead code is removed. Inputs and
/// register outputs stay whether read or not.
#[verifier::opaque]
pub open spec fn no_dead_signals(c: Circuit) -> bool {
    let insts = c.insts_seq();
    forall|q: int|
        0 <= q < insts.len() && !(insts[q].data is Input) && !(insts[q].data is RegisterOutput) ==> #[trigger] is_read(c, q)
}

/// `inst` inverts signal `s`.
pub open spec fn inverts_signal(inst: Instruction, s: Signal) -> bool {
    inst.data matches InstData::Gate { op: GateOp::Not, inputs } && inputs@.len() > 0 && inputs@[0] == s
}

/// A gate is already simplified: it is no copy, inverts no inversion,
/// reads no signal twice nor a signal beside its inversion, lists the two
/// operands of a commutative operation in signal order, and a multiplexer
/// chooses between two different signals by a third.
pub open spec fn gate_simplified(insts: Seq<Instruction>, inst: Instruction) -> bool {
    match inst.data {
        InstData::Gate { op, inputs } => {
            &&& !(op is Buf)
            &&& op is Not ==> !(insts[inputs@[0].0 as int].data matches InstData::Gate { op: GateOp::Not, .. })
            &&& is_binary(op) ==> inputs@[0].0 < inputs@[1].0 && !inverts_signal(insts[inputs@[0].0 as int], inputs@[1])
                && !inverts_signal(insts[inputs@[1].0 as int], inputs@[0])
            &&& op is Mux ==> inputs@[0] != inputs@[1] && inputs@[0] != inputs@[2] && inputs@[1] != inputs@[2]
        },
        _ => true,
    }
}

/// Every gate is simplified and each constant value is held once.
#[verifier::opaque]
pub open spec fn simplified(c: Circuit) -> bool {
    let insts = c.insts_seq();
    &&& forall|q: int| 0 <= q < insts.len() ==> gate_simplified(insts, #[trigger] insts[q])
    &&& forall|i: int, j: int|
        0 <= i < j < insts.len() && (#[trigger] insts[i]).data is Const && (#[trigger] insts[j]).data is Const ==> insts[i].data
            != insts[j].data
}

/// Live nodes keep distinct signals.
proof fn lemma_remap_injective(live: Seq<bool>, remap: Seq<Signal>, u: int, w: int)
    requires
        live.len() == remap.len(),
        forall|id1: int, id2: int| 0 <= id1 < id2 < live.len() && #[trigger] live[id1] && #[trigger] live[id2] ==> remap[id1].0 < remap[id2].0,
        0 <= u < live.len(),
        0 <= w < live.len(),
        live[u],
        live[w],
        remap[u] == remap[w],
    ensures
        u == w,
{
    if u < w {
        assert(remap[u].0 < remap[w].0);
    } else if w < u {
        assert(remap[w].0 < remap[u].0);
    }
}

/// The emitted circuit inherits the rewriter's simplifications: renaming
/// live nodes to distinct signals keeps operands apart, and every constant
/// node is the one cached for its value.
proof fn lemma_simplified(
    nodes: Seq<Node>,
    const_false: Option<u32>,
    const_true: Option<u32>,
    live: Seq<bool>,
    remap: Seq<Signal>,
    insts: Seq<Instruction>,
)
    requires
        nodes.len() < u32::MAX,
        forall|id: int| 0 <= id < nodes.len() ==> #[trigger] node_ok(nodes[id], id),
        forall|id: int| 0 <= id < nodes.len() ==> simplified_node(nodes, #[trigger] nodes[id]),
        forall|id: int| 0 <= id < nodes.len() ==> ordered_node(#[trigger] nodes[id]),
        forall|id: int| 0 <= id < nodes.len() ==> const_cached(#[trigger] nodes[id], id, const_false, const_true),
        live.len() == nodes.len(),
        remap.len() == nodes.len(),
        forall|id: int| 0 <= id < nodes.len() && #[trigger] live[id] ==> operands_covered(nodes[id], live, Seq::empty()),
        forall|id1: int, id2: int| 0 <= id1 < id2 < nodes.len() && #[trigger] live[id1] && #[trigger] live[id2] ==> remap[id1].0 < remap[id2].0,
        forall|q: int| 0 <= q < insts.len() ==> #[trigger] has_origin(remap, live, q),
        forall|id: int| 0 <= id < nodes.len() && #[trigger] live[id] ==> (remap[id].0 as int) < insts.len() && mirrors(insts[remap[id].0 as int].data, nodes[id], remap),
    ensures
        forall|q: int| 0 <= q < insts.len() ==> gate_simplified(insts, #[trigger] insts[q]),
        forall|i: int, j: int|
            0 <= i < j < insts.len() && (#[trigger] insts[i]).data is Const && (#[trigger] insts[j]).data is Const ==> insts[i].data
                != insts[j].data,
{
    assert forall|q: int| 0 <= q < insts.len() implies gate_simplified(insts, #[trigger] insts[q]) by {
        assert(has_origin(remap, live, q));
        let x = choose|id: int| 0 <= id < live.len() && live[id] && #[trigger] remap[id].0 == q;
        assert(mirrors(insts[q].data, nodes[x], remap));
        assert(node_ok(nodes[x], x));
        assert(simplified_node(nodes, nodes[x]));
        assert(operands_covered(nodes[x], live, Seq::empty()));
        if let Node::Gate { op, a, b, c, arity } = nodes[x] {
            assert(!Seq::<u32>::empty().contains(a));
            assert(live[a as int]);
            assert(node_ok(nodes[a as int], a as int));
            assert(mirrors(insts[remap[a as int].0 as int].data, nodes[a as int], remap));
            assert(operands_covered(nodes[a as int], live, Seq::empty()));
            if arity > 1 {
                assert(!Seq::<u32>::empty().contains(b));
                assert(live[b as int]);
                assert(node_ok(nodes[b as int], b as int));
                assert(mirrors(insts[remap[b as int].0 as int].data, nodes[b as int], remap));
                assert(operands_covered(nodes[b as int], live, Seq::empty()));
                if remap[a as int] == remap[b as int] {
                    lemma_remap_injective(live, remap, a as int, b as int);
                }
                assert(ordered_node(nodes[x]));
                if is_binary(op) {
                    assert(remap[a as int].0 < remap[b as int].0);
                }
                if let Node::Gate { op: op_a, a: ya, .. } = nodes[a as int] {
                    if op_a is Not {
                        assert(!Seq::<u32>::empty().contains(ya));
                        if remap[ya as int] == remap[b as int] {
                            lemma_remap_injective(live, remap, ya as int, b as int);
                        }
                    }
                }
                if let Node::Gate { op: op_b, a: yb, .. } = nodes[b as int] {
                    if op_b is Not {
                        assert(!Seq::<u32>::empty().contains(yb));
                        if remap[yb as int] == remap[a as int] {
                            lemma_remap_injective(live, remap, yb as int, a as int);
                        }
                    }
                }
            }
            if arity > 2 {
                assert(!Seq::<u32>::empty().contains(c));
                assert(live[c as int]);
                if remap[a as int] == remap[c as int] {
                    lemma_remap_injective(live, remap, a as int, c as int);
                }
                if remap[b as int] == remap[c as int] {
                    lemma_remap_injective(live, remap, b as int, c as int);
                }
            }
        }
    }
    assert forall|i: int, j: int|
        0 <= i < j < insts.len() && (#[trigger] insts[i]).data is Const && (#[trigger] insts[j]).data is Const implies insts[i].data
            != insts[j].data by {
        assert(has_origin(remap, live, i));
        assert(has_origin(remap, live, j));
        let x = choose|id: int| 0 <= id < live.len() && live[id] && #[trigger] remap[id].0 == i;
        let y = choose|id: int| 0 <= id < live.len() && live[id] && #[trigger] remap[id].0 == j;
        assert(mirrors(insts[i].data, nodes[x], remap));
        assert(mirrors(insts[j].data, nodes[y], remap));
        assert(const_cached(nodes[x], x, const_false, const_true));
        assert(const_cached(nodes[y], y, const_false, const_true));
        if insts[i].data == insts[j].data {
            assert(nodes[x] == nodes[y]);
            assert(x == y);
        }
    }
}

/// The same instruction data: a gate with the same operation and operands,
/// or an equal source.
pub open spec fn same_data(x: InstData, y: InstData) -> bool {
    match (x, y) {
        (InstData::Gate { op: o1, inputs: i1 }, InstData::Gate { op: o2, inputs: i2 }) => o1 == o2 && i1@ == i2@,
        _ => x == y,
    }
}

/// `a` computes what `b` does the way `b` does: the same instructions in
/// the same order, the same outputs and the same register inputs.
pub open spec fn same_netlist(a: Circuit, b: Circuit) -> bool {
    &&& a.insts_seq().len() == b.insts_seq().len()
    &&& forall|q: int| 0 <= q < a.insts_seq().len() ==> same_data(#[trigger] a.insts_seq()[q].data, b.insts_seq()[q].data)
    &&& a.output_signals@ == b.output_signals@
    &&& a.regs_seq().len() == b.regs_seq().len()
    &&& forall|r: int| 0 <= r < a.regs_seq().len() ==> (#[trigger] a.regs_seq()[r]).data_input == b.regs_seq()[r].data_input
}

/// On a circuit in normal form every node is live: each constant and gate
/// is read by a later gate, an output or a register, all of them live.
proof fn lemma_all_live(c: Circuit, nodes: Seq<Node>, live: Seq<bool>, j: int)
    requires
        c.wf(),
        in_normal_form(c),
        mirrored_prefix(nodes, c.insts_seq(), c.insts_seq().len() as int),
        live.len() == nodes.len(),
        forall|id: int| 0 <= id < nodes.len() && #[trigger] live[id] ==> operands_covered(nodes[id], live, Seq::empty()),
        forall|id: int| 0 <= id < nodes.len() && (nodes[id] is Input || nodes[id] is RegOut) ==> #[trigger] live[id],
        forall|k: int| 0 <= k < c.output_signals@.len() ==> #[trigger] live[c.output_signals@[k].0 as int],
        forall|r: int| 0 <= r < c.regs_seq().len() ==> #[trigger] live[c.regs_seq()[r].data_input.0 as int],
        0 <= j < nodes.len(),
    ensures
        live[j],
    decreases nodes.len() - j,
{
    reveal(no_dead_signals);
    let insts = c.insts_seq();
    assert(node_of_inst(insts[j], nodes[j]));
    if !(insts[j].data is Input) && !(insts[j].data is RegisterOutput) {
        assert(is_read(c, j));
        if exists|p: int, k: int| 0 <= p < insts.len() && 0 <= k < gate_inputs(insts[p]).len() && #[trigger] gate_inputs(insts[p])[k].0 == j {
            let (p, k) = choose|p: int, k: int|
                0 <= p < insts.len() && 0 <= k < gate_inputs(insts[p]).len() && #[trigger] gate_inputs(insts[p])[k].0 == j;
            assert(crate::circuit::inst_wf(insts[p], p, c.input_count as nat, c.regs_seq().len()));
            if let InstData::Gate { op, inputs } = insts[p].data {
                assert(inputs@[k].0 < p);
            }
            lemma_all_live(c, nodes, live, p);
            assert(node_of_inst(insts[p], nodes[p]));
            assert(operands_covered(nodes[p], live, Seq::empty()));
            assert(!Seq::<u32>::empty().contains(j as u32));
        } else if exists|k: int| 0 <= k < c.output_signals@.len() && #[trigger] c.output_signals@[k].0 == j {
            let k = choose|k: int| 0 <= k < c.output_signals@.len() && #[trigger] c.output_signals@[k].0 == j;
            assert(live[c.output_signals@[k].0 as int]);
        } else {
            let r = choose|r: int| 0 <= r < c.regs_seq().len() && #[trigger] c.regs_seq()[r].data_input.0 == j;
            assert(live[c.regs_seq()[r].data_input.0 as int]);
        }
    }
}

/// A strictly increasing renaming of `n` nodes into fewer than `n + 1`
/// signals is the identity.
proof fn lemma_remap_identity(live: Seq<bool>, remap: Seq<Signal>, total: int)
    requires
        live.len() == remap.len(),
        0 <= total <= live.len(),
        forall|id: int| 0 <= id < live.len() ==> #[trigger] live[id],
        forall|id1: int, id2: int| 0 <= id1 < id2 < live.len() && #[trigger] live[id1] && #[trigger] live[id2] ==> remap[id1].0 < remap[id2].0,
        forall|id: int| 0 <= id < live.len() ==> (#[trigger] remap[id].0 as int) < total,
    ensures
        total == live.len(),
        forall|id: int| 0 <= id < live.len() ==> #[trigger] remap[id].0 == id,
{
    let n = live.len() as int;
    assert forall|id: int| 0 <= id < n implies #[trigger] remap[id].0 == id by {
        lemma_remap_below(live, remap, total, id);
        lemma_remap_above(live, remap, id);
    }
    if n > 0 {
        assert(remap[n - 1].0 == n - 1);
    }
}

proof fn lemma_remap_above(live: Seq<bool>, remap: Seq<Signal>, id: int)
    requires
        live.len() == remap.len(),
        forall|i: int| 0 <= i < live.len() ==> #[trigger] live[i],
        forall|id1: int, id2: int| 0 <= id1 < id2 < live.len() && #[trigger] live[id1] && #[trigger] live[id2] ==> remap[id1].0 < remap[id2].0,
        0 <= id < live.len(),
    ensures
        remap[id].0 >= id,
    decreases id,
{
    if id > 0 {
        lemma_remap_above(live, remap, id - 1);
        assert(live[id - 1] && live[id]);
    }
}

proof fn lemma_remap_below(live: Seq<bool>, remap: Seq<Signal>, total: int, id: int)
    requires
        live.len() == remap.len(),
        total <= live.len(),
        forall|i: int| 0 <= i < live.len() ==> #[trigger] live[i],
        forall|id1: int, id2: int| 0 <= id1 < id2 < live.len() && #[trigger] live[id1] && #[trigger] live[id2] ==> remap[id1].0 < remap[id2].0,
        forall|i: int| 0 <= i < live.len() ==> (#[trigger] remap[i].0 as int) < total,
        0 <= id < live.len(),
    ensures
        remap[id].0 <= total - live.len() + id,
    decreases live.len() - id,
{
    if id < live.len() - 1 {
        lemma_remap_below(live, remap, total, id + 1);
        assert(live[id] && live[id + 1]);
    }
}

/// On a circuit in normal form the rewrite took every instruction over as
/// it stands, every node survives and keeps its position: the emitted
/// netlist is the circuit's.
proof fn lemma_normal_kept(c: Circuit, opt: Circuit, nodes: Seq<Node>, live: Seq<bool>, remap: Seq<Signal>)
    requires
        c.wf(),
        in_normal_form(c),
        mirrored_prefix(nodes, c.insts_seq(), c.insts_seq().len() as int),
        live.len() == nodes.len(),
        remap.len() == nodes.len(),
        forall|id: int| 0 <= id < nodes.len() && #[trigger] live[id] ==> operands_covered(nodes[id], live, Seq::empty()),
        forall|id: int| 0 <= id < nodes.len() && (nodes[id] is Input || nodes[id] is RegOut) ==> #[trigger] live[id],
        forall|k: int| 0 <= k < c.output_signals@.len() ==> #[trigger] live[c.output_signals@[k].0 as int],
        forall|r: int| 0 <= r < c.regs_seq().len() ==> #[trigger] live[c.regs_seq()[r].data_input.0 as int],
        forall|id1: int, id2: int| 0 <= id1 < id2 < nodes.len() && #[trigger] live[id1] && #[trigger] live[id2] ==> remap[id1].0 < remap[id2].0,
        opt.insts_seq().len() <= nodes.len(),
        forall|id: int|
            0 <= id < nodes.len() && #[trigger] live[id] ==> (remap[id].0 as int) < opt.insts_seq().len() && mirrors(
                opt.insts_seq()[remap[id].0 as int].data,
                nodes[id],
                remap,
            ),
        opt.output_signals@.len() == c.output_signals@.len(),
        forall|k: int| 0 <= k < c.output_signals@.len() ==> #[trigger] opt.output_signals@[k] == remap[c.output_signals@[k].0 as int],
        opt.regs_seq().len() == c.regs_seq().len(),
        forall|r: int| 0 <= r < c.regs_seq().len() ==> (#[trigger] opt.regs_seq()[r]).data_input == remap[c.regs_seq()[r].data_input.0 as int],
    ensures
        same_netlist(opt, c),
{
    let insts = c.insts_seq();
    let n = nodes.len() as int;
    assert forall|j: int| 0 <= j < n implies #[trigger] live[j] by {
        lemma_all_live(c, nodes, live, j);
    }
    assert forall|id: int| 0 <= id < n implies (#[trigger] remap[id].0 as int) < opt.insts_seq().len() by {
        assert(live[id]);
    }
    lemma_remap_identity(live, remap, opt.insts_seq().len() as int);
    assert forall|q: int| 0 <= q < opt.insts_seq().len() implies same_data(#[trigger] opt.insts_seq()[q].data, insts[q].data) by {
        assert(live[q]);
        assert(remap[q].0 == q);
        assert(mirrors(opt.insts_seq()[q].data, nodes[q], remap));
        assert(node_of_inst(insts[q], nodes[q]));
        assert(crate::circuit::inst_wf(insts[q], q, c.input_count as nat, c.regs_seq().len()));
        if let InstData::Gate { op, inputs } = insts[q].data {
            if let InstData::Gate { op: op2, inputs: in2 } = opt.insts_seq()[q].data {
                assert forall|k: int| 0 <= k < inputs@.len() implies in2@[k] == inputs@[k] by {
                    assert(inputs@[k].0 < q);
                    assert(remap[inputs@[k].0 as int].0 == inputs@[k].0);
                }
                assert(in2@ =~= inputs@);
            }
        }
    }
    assert forall|k: int| 0 <= k < c.output_signals@.len() implies opt.output_signals@[k] == c.output_signals@[k] by {
        assert(remap[c.output_signals@[k].0 as int].0 == c.output_signals@[k].0);
    }
    assert(opt.output_signals@ =~= c.output_signals@);
    assert forall|r: int| 0 <= r < c.regs_seq().len() implies (#[trigger] opt.regs_seq()[r]).data_input == c.regs_seq()[r].data_input by {
        assert(remap[c.regs_seq()[r].data_input.0 as int].0 == c.regs_seq()[r].data_input.0);
    }
}

/// Rewrite `circuit` into an observably equivalent, usually smaller one:
/// on every input and register state its declared outputs and its
/// registers' next states are those of `circuit`. Inputs keep their
/// indices, registers their numbers and initial values, and the name lists
/// are kept. In the result no gate reads a constant, no gate is computed
/// twice, every constant and gate is read, and every gate is simplified;
/// a circuit already in that form comes back with the same instructions,
/// outputs and register inputs, so optimizing twice changes nothing more.
pub fn optimize(circuit: &Circuit) -> (opt: Circuit)
    requires
        circuit.wf(),
        2 * circuit.insts_seq().len() < u32::MAX,
    ensures
        opt.wf(),
        opt.insts_seq().len() <= 2 * circuit.insts_seq().len(),
        opt.input_count == circuit.input_count,
        opt.regs_seq().len() == circuit.regs_seq().len(),
        forall|r: int|
            0 <= r < opt.regs_seq().len() ==> (#[trigger] opt.regs_seq()[r]).initial == circuit.regs_seq()[r].initial
                && opt.regs_seq()[r].name_index == circuit.regs_seq()[r].name_index,
        opt.output_signals@.len() == circuit.output_signals@.len(),
        opt.initial_state_spec() == circuit.initial_state_spec(),
        forall|inputs: Seq<bool>, state: Seq<bool>|
            #[trigger] opt.output_values(inputs, state) == circuit.output_values(inputs, state),
        forall|inputs: Seq<bool>, state: Seq<bool>|
            #[trigger] opt.next_state(inputs, state) == circuit.next_state(inputs, state),
        opt.input_names@ == circuit.input_names@,
        opt.output_names@ == circuit.output_names@,
        opt.debug_names@ == circuit.debug_names@,
        no_constant_operands(opt),
        no_repeated_gates(opt),
        no_dead_signals(opt),
        simplified(opt),
        in_normal_form(*circuit) ==> same_netlist(opt, *circuit),
{
    let ghost insts0 = circuit.insts_seq();
    let ghost regs0 = circuit.regs_seq();
    let ghost outs0 = circuit.output_signals@;
    let (rw, repr) = rewrite(circuit);
    let ghost nodes = rw.nodes@;

    // Liveness from the observable roots: declared outputs and register
    // next-state inputs.
    let nouts = circuit.output_signals.len();
    let nregs = reg_map_len(&circuit.regs);
    let mut stack: Vec<u32> = Vec::new();
    let mut k: usize = 0;
    while k < nouts
        invariant
            circuit.wf(),
            nouts == outs0.len(),
            outs0 == circuit.output_signals@,
            insts0 == circuit.insts_seq(),
            repr@.len() == insts0.len(),
            forall|j: int| 0 <= j < repr@.len() ==> #[trigger] represents(nodes, repr@[j] as int, insts0, j),
            k <= nouts,
            stack@.len() == k,
            forall|q: int| 0 <= q < k ==> #[trigger] stack@[q] == repr@[outs0[q].0 as int],
        decreases nouts - k,
    {
        stack.push(repr[circuit.output_signals[k].0 as usize]);
        k += 1;
    }
    let mut r: usize = 0;
    while r < nregs
        invariant
            circuit.wf(),
            nouts == outs0.len(),
            nregs == regs0.len(),
            regs0 == circuit.regs_seq(),
            insts0 == circuit.insts_seq(),
            repr@.len() == insts0.len(),
            r <= nregs,
            stack@.len() == nouts + r,
            forall|q: int| 0 <= q < nouts ==> #[trigger] stack@[q] == repr@[outs0[q].0 as int],
            forall|q: int| 0 <= q < r ==> #[trigger] stack@[nouts + q] == repr@[regs0[q].data_input.0 as int],
        decreases nregs - r,
    {
        let reg = reg_map_get(&circuit.regs, Reg(r as u32));
        stack.push(repr[reg.data_input.0 as usize]);
        r += 1;
    }
    proof {
        assert forall|q: int| 0 <= q < stack@.len() implies (#[trigger] stack@[q] as int) < nodes.len() by {
            if q < nouts {
                assert(represents(nodes, repr@[outs0[q].0 as int] as int, insts0, outs0[q].0 as int));
            } else {
                let rr = q - nouts;
                assert(stack@[nouts + rr] == repr@[regs0[rr].data_input.0 as int]);
                assert(represents(nodes, repr@[regs0[rr].data_input.0 as int] as int, insts0, regs0[rr].data_input.0 as int));
            }
        }
    }
    let ghost roots = stack@;
    let live = mark_live(&rw.nodes, stack);

    // Emit the surviving nodes in id order.
    let (insts, remap) = emit(&rw.nodes, &live, circuit);
    let ghost new_insts = inst_entries(insts);

    let mut regs = reg_map_with_capacity(nregs);
    let mut r: usize = 0;
    while r < nregs
        invariant
            circuit.wf(),
            nregs == regs0.len(),
            regs0 == circuit.regs_seq(),
            r <= nregs,
            reg_entries(regs).len() == r,
            forall|q: int|
                0 <= q < r ==> #[trigger] reg_entries(regs)[q] == (Register {
                    data_input: remap@[repr@[regs0[q].data_input.0 as int] as int],
                    initial: regs0[q].initial,
                    name_index: regs0[q].name_index,
                }),
            repr@.len() == insts0.len(),
            insts0 == circuit.insts_seq(),
            forall|j: int| 0 <= j < repr@.len() ==> #[trigger] represents(nodes, repr@[j] as int, insts0, j),
            remap@.len() == nodes.len(),
        decreases nregs - r,
    {
        let reg = reg_map_get(&circuit.regs, Reg(r as u32));
        proof {
            assert(represents(nodes, repr@[regs0[r as int].data_input.0 as int] as int, insts0, regs0[r as int].data_input.0 as int));
        }
        let ghost before = reg_entries(regs);
        reg_map_push(
            &mut regs,
            Register {
                data_input: remap[repr[reg.data_input.0 as usize] as usize],
                initial: reg.initial,
                name_index: reg.name_index,
            },
        );
        proof {
            assert forall|q: int|
                0 <= q < r + 1 implies #[trigger] reg_entries(regs)[q] == (Register {
                    data_input: remap@[repr@[regs0[q].data_input.0 as int] as int],
                    initial: regs0[q].initial,
                    name_index: regs0[q].name_index,
                }) by {
                if q < r {
                    assert(reg_entries(regs)[q] == before[q]);
                }
            }
        }
        r += 1;
    }

    let mut output_signals: Vec<Signal> = Vec::new();
    let mut k: usize = 0;
    while k < nouts
        invariant
            circuit.wf(),
            nouts == outs0.len(),
            outs0 == circuit.output_signals@,
            k <= nouts,
            output_signals@.len() == k,
            forall|q: int| 0 <= q < k ==> #[trigger] output_signals@[q] == remap@[repr@[outs0[q].0 as int] as int],
            repr@.len() == insts0.len(),
            insts0 == circuit.insts_seq(),
            forall|j: int| 0 <= j < repr@.len() ==> #[trigger] represents(nodes, repr@[j] as int, insts0, j),
            remap@.len() == nodes.len(),
        decreases nouts - k,
    {
        proof {
            assert(represents(nodes, repr@[outs0[k as int].0 as int] as int, insts0, outs0[k as int].0 as int));
        }
        output_signals.push(remap[repr[circuit.output_signals[k].0 as usize] as usize]);
        k += 1;
    }

    let opt = Circuit {
        insts,
        regs,
        input_names: circuit.input_names.clone(),
        output_names: circuit.output_names.clone(),
        output_signals,
        debug_names: circuit.debug_names.clone(),
        input_count: circuit.input_count,
        register_count: circuit.register_count,
        output_count: circuit.output_count,
    };
    proof {
        // Every root survives and carries its original signal's value.
        assert forall|q: int| 0 <= q < nouts implies #[trigger] live@[repr@[outs0[q].0 as int] as int] && represents(
            nodes,
            repr@[outs0[q].0 as int] as int,
            insts0,
            outs0[q].0 as int,
        ) by {
            assert(roots[q] == repr@[outs0[q].0 as int]);
            assert(represents(nodes, repr@[outs0[q].0 as int] as int, insts0, outs0[q].0 as int));
        }
        assert forall|rr: int| 0 <= rr < nregs implies #[trigger] live@[repr@[regs0[rr].data_input.0 as int] as int]
            && represents(nodes, repr@[regs0[rr].data_input.0 as int] as int, insts0, regs0[rr].data_input.0 as int) by {
            assert(roots[nouts + rr] == repr@[regs0[rr].data_input.0 as int]);
            assert(represents(nodes, repr@[regs0[rr].data_input.0 as int] as int, insts0, regs0[rr].data_input.0 as int));
        }
        assert forall|inputs: Seq<bool>, state: Seq<bool>|
            #[trigger] opt.output_values(inputs, state) == circuit.output_values(inputs, state) by {
            assert forall|q: int| 0 <= q < nouts implies opt.output_values(inputs, state)[q] == circuit.output_values(
                inputs,
                state,
            )[q] by {
                let s = outs0[q].0 as int;
                assert(live@[repr@[s] as int]);
                assert(represents(nodes, repr@[s] as int, insts0, s));
                assert(node_value(nodes, repr@[s] as int, inputs, state) == signal_value(insts0, s, inputs, state));
            }
            assert(opt.output_values(inputs, state) =~= circuit.output_values(inputs, state));
        }
        assert forall|inputs: Seq<bool>, state: Seq<bool>|
            #[trigger] opt.next_state(inputs, state) == circuit.next_state(inputs, state) by {
            assert forall|rr: int| 0 <= rr < nregs implies opt.next_state(inputs, state)[rr] == circuit.next_state(
                inputs,
                state,
            )[rr] by {
                let s = regs0[rr].data_input.0 as int;
                assert(live@[repr@[s] as int]);
                assert(represents(nodes, repr@[s] as int, insts0, s));
                assert(node_value(nodes, repr@[s] as int, inputs, state) == signal_value(insts0, s, inputs, state));
                assert(opt.regs_seq()[rr].data_input == remap@[repr@[s] as int]);
            }
            assert(opt.next_state(inputs, state) =~= circuit.next_state(inputs, state));
        }
        assert(opt.initial_state_spec() =~= circuit.initial_state_spec());
        // The new circuit is well formed.
        assert forall|kk: int| 0 <= kk < opt.input_count implies #[trigger] input_has_inst(opt.insts_seq(), kk) by {
            assert(input_has_inst(insts0, kk));
            let j = choose|j: int| 0 <= j < insts0.len() && #[trigger] is_input_inst(insts0[j], kk);
            assert(represents(nodes, repr@[j] as int, insts0, j));
            let id = repr@[j] as int;
            assert(nodes[id] == Node::Input(kk as u32));
            assert(live@[id]);
            assert(is_input_inst(new_insts[remap@[id].0 as int], kk));
        }
        assert forall|i: int, j: int, k: int|
            0 <= i < new_insts.len() && 0 <= j < new_insts.len() && #[trigger] is_input_inst(new_insts[i], k)
                && #[trigger] is_input_inst(new_insts[j], k) implies i == j by {
            let id1 = choose|id: int| 0 <= id < nodes.len() && live@[id] && nodes[id] == Node::Input(k as u32) && #[trigger] remap@[id].0 == i;
            let id2 = choose|id: int| 0 <= id < nodes.len() && live@[id] && nodes[id] == Node::Input(k as u32) && #[trigger] remap@[id].0 == j;
            let j1 = choose|j1: int| 0 <= j1 < insts0.len() && repr@[j1] == id1 && #[trigger] is_input_inst(insts0[j1], (k as u32) as int);
            let j2 = choose|j2: int| 0 <= j2 < insts0.len() && repr@[j2] == id2 && #[trigger] is_input_inst(insts0[j2], (k as u32) as int);
            assert(j1 == j2);
        }
        assert forall|i: int, j: int, k: int|
            0 <= i < new_insts.len() && 0 <= j < new_insts.len() && #[trigger] is_reg_inst(new_insts[i], k)
                && #[trigger] is_reg_inst(new_insts[j], k) implies i == j by {
            let id1 = choose|id: int| 0 <= id < nodes.len() && live@[id] && nodes[id] == Node::RegOut(k as u32) && #[trigger] remap@[id].0 == i;
            let id2 = choose|id: int| 0 <= id < nodes.len() && live@[id] && nodes[id] == Node::RegOut(k as u32) && #[trigger] remap@[id].0 == j;
            let j1 = choose|j1: int| 0 <= j1 < insts0.len() && repr@[j1] == id1 && #[trigger] is_reg_inst(insts0[j1], (k as u32) as int);
            let j2 = choose|j2: int| 0 <= j2 < insts0.len() && repr@[j2] == id2 && #[trigger] is_reg_inst(insts0[j2], (k as u32) as int);
            assert(j1 == j2);
        }
        assert forall|rr: int| 0 <= rr < opt.regs_seq().len() implies (#[trigger] opt.regs_seq()[rr]).data_input.0
            < opt.insts_seq().len() by {
            let s = regs0[rr].data_input.0 as int;
            assert(live@[repr@[s] as int]);
            assert(represents(nodes, repr@[s] as int, insts0, s));
        }
        assert forall|q: int| 0 <= q < opt.output_signals@.len() implies (#[trigger] opt.output_signals@[q]).0
            < opt.insts_seq().len() by {
            let s = outs0[q].0 as int;
            assert(live@[repr@[s] as int]);
            assert(represents(nodes, repr@[s] as int, insts0, s));
        }
        assert(opt.input_names@ =~= circuit.input_names@);
        assert(opt.output_names@ =~= circuit.output_names@);
        assert(opt.debug_names@ =~= circuit.debug_names@);
        lemma_no_repeats(nodes, rw.cse@, live@, remap@, new_insts);
        lemma_no_const_operands(nodes, live@, remap@, new_insts);
        lemma_simplified(nodes, rw.const_false, rw.const_true, live@, remap@, new_insts);
        reveal(no_constant_operands);
        reveal(no_repeated_gates);
        reveal(simplified);
        // Every signal kept is read.
        assert forall|p: int| 0 <= p < nouts implies #[trigger] opt.output_signals@[p] == remap@[roots[p] as int] by {
            assert(roots[p] == repr@[outs0[p].0 as int]);
        }
        assert forall|rr: int| 0 <= rr < nregs implies (#[trigger] opt.regs_seq()[rr]).data_input == remap@[roots[nouts + rr] as int] by {
            assert(roots[nouts + rr] == repr@[regs0[rr].data_input.0 as int]);
        }
        lemma_no_dead(opt, nodes, live@, roots, remap@);
        if in_normal_form(*circuit) {
            assert forall|k: int| 0 <= k < nouts implies #[trigger] live@[outs0[k].0 as int] by {
                assert(roots[k] == repr@[outs0[k].0 as int]);
                assert(repr@[outs0[k].0 as int] == outs0[k].0);
            }
            assert forall|rr: int| 0 <= rr < nregs implies #[trigger] live@[regs0[rr].data_input.0 as int] by {
                assert(roots[nouts + rr] == repr@[regs0[rr].data_input.0 as int]);
                assert(repr@[regs0[rr].data_input.0 as int] == regs0[rr].data_input.0);
            }
            assert forall|k: int| 0 <= k < nouts implies #[trigger] opt.output_signals@[k] == remap@[outs0[k].0 as int] by {
                assert(repr@[outs0[k].0 as int] == outs0[k].0);
            }
            assert forall|rr: int| 0 <= rr < nregs implies (#[trigger] opt.regs_seq()[rr]).data_input == remap@[regs0[rr].data_input.0 as int] by {
                assert(repr@[regs0[rr].data_input.0 as int] == regs0[rr].data_input.0);
            }
            lemma_normal_kept(*circuit, opt, nodes, live@, remap@);
        }
    }
    opt
}

} // verus!
