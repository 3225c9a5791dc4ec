//! The compiled tape and the engines that run it, held against the
//! reference interpreter on the unoptimized netlist.

use std::sync::Arc;

use ryzr::batch::{BatchEngine, LANES};
use ryzr::opt::optimize;
use ryzr::scalar::ScalarEngine;
use ryzr::tape::{arity, Compiled, Op};
use ryzr::{Backend, BuildError, Circuit, CircuitBuilder, InstData, Interpreter};

/// `sum = a ^ b ^ cin`, `cout = a & b | cin & (a ^ b)`.
fn full_adder() -> Circuit {
    let mut b = CircuitBuilder::new();
    let a = b.input("a".to_string());
    let x = b.input("b".to_string());
    let cin = b.input("cin".to_string());
    let axb = b.xor(a, x);
    let sum = b.xor(axb, cin);
    let ab = b.and(a, x);
    let c_axb = b.and(cin, axb);
    let cout = b.or(ab, c_axb);
    b.output("sum".to_string(), sum);
    b.output("cout".to_string(), cout);
    b.finish().expect("adder is complete")
}

/// A two-bit counter that advances while `en` is high; outputs its bits.
fn counter() -> Circuit {
    let mut b = CircuitBuilder::new();
    let en = b.input("en".to_string());
    let (r0, q0) = b.reg("r0".to_string(), false);
    let (r1, q1) = b.reg("r1".to_string(), false);
    let n0 = b.xor(q0, en);
    let carry = b.and(q0, en);
    let n1 = b.xor(q1, carry);
    b.drive(r0, n0);
    b.drive(r1, n1);
    b.output("q0".to_string(), q0);
    b.output("q1".to_string(), q1);
    b.finish().expect("counter is complete")
}

/// Redundant logic: constants, double negation, a repeated gate and a
/// self-cancelling xor, over two inputs.
fn redundant() -> Circuit {
    let mut b = CircuitBuilder::new();
    let x = b.input("x".to_string());
    let y = b.input("y".to_string());
    let t = b.const_val(true);
    let f = b.const_val(false);
    let x_and_t = b.and(x, t);
    let y_or_f = b.or(y, f);
    let nx = b.not(x);
    let nnx = b.not(nx);
    let g1 = b.and(x_and_t, y_or_f);
    let g2 = b.and(x_and_t, y_or_f);
    let zero = b.xor(g1, g2);
    let o = b.or(nnx, zero);
    b.output("o".to_string(), o);
    b.output("g".to_string(), g2);
    b.output("one".to_string(), t);
    b.finish().expect("redundant circuit is complete")
}

fn bits(v: u32, n: usize) -> Vec<bool> {
    (0..n).map(|i| v >> i & 1 == 1).collect()
}

/// One interpreter tick: the outputs shown and the next state.
fn interpret(c: &Circuit, inputs: &[bool], state: &mut Vec<bool>) -> Vec<bool> {
    let mut outputs = vec![false; c.output_signals.len()];
    Interpreter.tick(c, inputs, state, &mut outputs);
    outputs
}

#[test]
fn arity_of_every_op() {
    assert_eq!(arity(Op::Not), 1);
    assert_eq!(arity(Op::Buf), 1);
    assert_eq!(arity(Op::Mux), 3);
    for op in [Op::And, Op::Or, Op::Xor, Op::Nand, Op::Nor, Op::Xnor] {
        assert_eq!(arity(op), 2, "{op:?}");
    }
}

#[test]
fn tape_orders_operands_before_their_readers() {
    let c = full_adder();
    let t = Compiled::new(&c);
    assert_eq!(t.input_count(), 3);
    assert_eq!(t.output_count(), 2);
    assert_eq!(t.register_count(), 0);
    let n = t.slot_count();
    assert!(t.gate_start as usize <= n);
    for s in t.gate_start as usize..n {
        let ar = arity(t.ops[s]);
        let mut operands = vec![t.a[s]];
        if ar > 1 {
            operands.push(t.b[s]);
        }
        if ar > 2 {
            operands.push(t.c[s]);
        }
        for o in operands {
            assert!((o as usize) < s, "operand {o} of slot {s}");
            assert!(t.slot_level[o as usize] < t.slot_level[s]);
        }
    }
    for s in 1..n {
        if s > t.gate_start as usize {
            assert!(t.slot_level[s - 1] <= t.slot_level[s]);
        }
    }
}

#[test]
fn tape_runs_and_levels_cover_the_gate_region() {
    let c = redundant();
    let t = Compiled::new(&c);
    let n = t.slot_count() as u32;
    let mut at = t.gate_start;
    for run in &t.runs {
        assert_eq!(run.start, at);
        assert!(run.start < run.end);
        for s in run.start..run.end {
            assert_eq!(t.ops[s as usize], run.op);
            assert_eq!(t.slot_level[s as usize], t.slot_level[run.start as usize]);
        }
        at = run.end;
    }
    assert_eq!(at, n);
    let mut at = t.gate_start;
    let mut next_run = 0;
    for level in &t.levels {
        assert_eq!(level.start, at);
        assert_eq!(level.run_start, next_run);
        assert_eq!(t.runs[level.run_start as usize].start, level.start);
        assert_eq!(t.runs[level.run_end as usize - 1].end, level.end);
        at = level.end;
        next_run = level.run_end;
    }
    assert_eq!(at, n);
    assert_eq!(next_run as usize, t.runs.len());
}

#[test]
fn tape_successors_list_every_reader() {
    let c = counter();
    let t = Compiled::new(&c);
    let n = t.slot_count();
    for src in 0..n {
        let mut expected = Vec::new();
        for s in t.gate_start as usize..n {
            let ar = arity(t.ops[s]);
            if t.a[s] as usize == src {
                expected.push(s as u32);
            }
            if ar > 1 && t.b[s] as usize == src {
                expected.push(s as u32);
            }
            if ar > 2 && t.c[s] as usize == src {
                expected.push(s as u32);
            }
        }
        assert_eq!(t.successors(src as u32), expected.as_slice(), "slot {src}");
    }
}

#[test]
fn tape_initial_values_apply_constants_and_registers() {
    let mut b = CircuitBuilder::new();
    let (r, q) = b.reg("r".to_string(), true);
    let one = b.const_val(true);
    let next = b.and(q, one);
    b.drive(r, next);
    b.output("q".to_string(), q);
    let c = b.finish().expect("complete");
    let t = Compiled::new(&c);
    let values = t.initial_values();
    assert_eq!(values.len(), t.slot_count());
    for &(slot, value) in &t.const_slots {
        assert_eq!(values[slot as usize], value);
    }
    assert_eq!(values[t.reg_out_slots[0] as usize], 1);
    for s in t.gate_start as usize..t.slot_count() {
        assert_eq!(values[s], 0);
    }
}

#[test]
fn undriven_register_is_refused() {
    let mut b = CircuitBuilder::new();
    let (_r, q) = b.reg("r".to_string(), false);
    b.output("q".to_string(), q);
    match b.finish() {
        Err(e) => {
            assert_eq!(e, BuildError::UndrivenRegister(0));
            assert_eq!(e.message(), "undriven register r0");
        }
        Ok(_) => panic!("an undriven register must be refused"),
    }
}

#[test]
fn scalar_engine_adds() {
    let c = full_adder();
    let mut e = ScalarEngine::new(&c);
    assert_eq!(e.input_count(), 3);
    assert_eq!(e.output_count(), 2);
    for v in 0..8u32 {
        let ins = bits(v, 3);
        for (i, &x) in ins.iter().enumerate() {
            e.set_input(i, x);
        }
        e.tick();
        let total = ins.iter().filter(|&&x| x).count();
        assert_eq!(e.output(0), total % 2 == 1, "sum of {v:03b}");
        assert_eq!(e.output(1), total >= 2, "carry of {v:03b}");
    }
}

#[test]
fn scalar_engine_counts_and_shows_pre_edge_values() {
    let c = counter();
    let mut e = ScalarEngine::new(&c);
    e.set_input(0, true);
    let mut seen = Vec::new();
    for _ in 0..6 {
        e.tick();
        seen.push((e.output(0), e.output(1)));
    }
    assert_eq!(
        seen,
        vec![(false, false), (true, false), (false, true), (true, true), (false, false), (true, false)]
    );
    // Holding enable low freezes the count.
    e.set_input(0, false);
    e.tick();
    let held = (e.output(0), e.output(1));
    e.tick();
    assert_eq!((e.output(0), e.output(1)), held);
}

#[test]
fn scalar_engine_output_wired_to_an_input_follows_it_at_once() {
    let mut b = CircuitBuilder::new();
    let x = b.input("x".to_string());
    b.output("x".to_string(), x);
    let c = b.finish().expect("complete");
    let mut e = ScalarEngine::new(&c);
    assert!(!e.output(0));
    e.set_input(0, true);
    assert!(e.output(0));
}

#[test]
fn scalar_engine_with_shared_tape() {
    let c = counter();
    let tape = Arc::new(Compiled::new(&c));
    let mut e1 = ScalarEngine::with_tape(tape.clone());
    let mut e2 = ScalarEngine::with_tape(tape);
    assert_eq!(e1.tape().slot_count(), e2.tape().slot_count());
    e1.set_input(0, true);
    e1.tick();
    e1.tick();
    e2.tick();
    e2.tick();
    assert!(e1.output(0));
    assert!(!e2.output(0));
}

#[test]
fn scalar_engine_matches_interpreter() {
    for c in [full_adder(), counter(), redundant()] {
        let mut e = ScalarEngine::new(&c);
        let mut state = c.initial_state();
        let ni = e.input_count();
        for step in 0..40u32 {
            let ins = bits(step.wrapping_mul(2654435761) >> 7, ni);
            for (i, &x) in ins.iter().enumerate() {
                e.set_input(i, x);
            }
            e.tick();
            let expected = interpret(&c, &ins, &mut state);
            let got: Vec<bool> = (0..e.output_count()).map(|k| e.output(k)).collect();
            assert_eq!(got, expected, "step {step}");
        }
    }
}

#[test]
fn optimize_preserves_behaviour_and_shrinks() {
    let c = redundant();
    let o = optimize(&c);
    assert_eq!(o.input_count, c.input_count);
    assert_eq!(o.output_signals.len(), c.output_signals.len());
    assert!(o.inst_count() < c.inst_count(), "{} !< {}", o.inst_count(), c.inst_count());
    for v in 0..4u32 {
        let ins = bits(v, 2);
        let mut s1 = c.initial_state();
        let mut s2 = o.initial_state();
        assert_eq!(interpret(&c, &ins, &mut s1), interpret(&o, &ins, &mut s2));
    }
    let k = counter();
    let ko = optimize(&k);
    let mut s1 = k.initial_state();
    let mut s2 = ko.initial_state();
    for step in 0..10u32 {
        let ins = vec![step % 3 != 0];
        assert_eq!(interpret(&k, &ins, &mut s1), interpret(&ko, &ins, &mut s2));
        assert_eq!(s1, s2);
    }
}

#[test]
fn batch_engine_runs_every_input_combination_at_once() {
    let c = full_adder();
    let mut e = BatchEngine::new(&c);
    assert_eq!(e.input_count(), 3);
    assert_eq!(e.output_count(), 2);
    // Lane k gets input bits of k.
    for i in 0..3 {
        let mut mask = 0u64;
        for lane in 0..LANES {
            if lane >> i & 1 == 1 {
                mask |= 1 << lane;
            }
        }
        e.set_input_mask(i, mask);
    }
    e.tick();
    for lane in 0..LANES {
        let total = (0..3).filter(|i| lane >> i & 1 == 1).count();
        assert_eq!(e.output_lane(0, lane), total % 2 == 1, "lane {lane}");
        assert_eq!(e.output_lane(1, lane), total >= 2, "lane {lane}");
    }
    let sum = e.output_mask(0);
    for lane in 0..LANES {
        assert_eq!(sum >> lane & 1 == 1, e.output_lane(0, lane));
    }
}

#[test]
fn batch_set_input_lane_touches_one_lane() {
    let c = counter();
    let mut e = BatchEngine::new(&c);
    e.set_input_lane(0, 5, true);
    e.set_input_lane(0, 9, true);
    e.set_input_lane(0, 9, false);
    for _ in 0..3 {
        e.tick();
    }
    // Lane 5 counted 0, 1, 2 and shows 2 = (q0 low, q1 high); every other lane held.
    for lane in 0..LANES {
        let q0 = e.output_lane(0, lane);
        let q1 = e.output_lane(1, lane);
        if lane == 5 {
            assert_eq!((q0, q1), (false, true));
        } else {
            assert_eq!((q0, q1), (false, false), "lane {lane}");
        }
    }
}

#[test]
fn batch_lanes_match_scalar_engines() {
    let c = counter();
    let mut batch = BatchEngine::new(&c);
    let mut scalars: Vec<ScalarEngine> = (0..LANES).map(|_| ScalarEngine::new(&c)).collect();
    for step in 0..12usize {
        for lane in 0..LANES {
            let en = (lane + step) % 3 != 0;
            batch.set_input_lane(0, lane, en);
            scalars[lane].set_input(0, en);
        }
        batch.tick();
        for (lane, s) in scalars.iter_mut().enumerate() {
            s.tick();
            for k in 0..2 {
                assert_eq!(batch.output_lane(k, lane), s.output(k), "step {step} lane {lane}");
            }
        }
    }
}

#[test]
fn batch_broadcast_input_and_lane_zero_output() {
    let c = full_adder();
    let tape = Arc::new(Compiled::new(&c));
    let mut e = BatchEngine::with_tape(tape);
    e.set_input(0, true);
    e.set_input(1, true);
    e.set_input(2, false);
    e.tick();
    assert!(!e.output(0));
    assert!(e.output(1));
    assert_eq!(e.output_mask(1), u64::MAX);
    assert_eq!(e.output_mask(0), 0);
}

#[test]
fn tape_levels_are_exact_and_runs_maximal() {
    let c = full_adder();
    let t = Compiled::new(&c);
    // Inputs at level 0; a ^ b and a & b at 1; the sum and cin & (a ^ b) at
    // 2; the carry at 3.
    assert_eq!(t.slot_level.iter().max(), Some(&3));
    assert_eq!(t.levels.len(), 3);
    let per_level: Vec<u32> = t.levels.iter().map(|l| l.end - l.start).collect();
    assert_eq!(per_level, vec![2, 2, 1]);
    for s in 0..t.gate_start as usize {
        assert_eq!(t.slot_level[s], 0);
    }
    for w in t.runs.windows(2) {
        assert!(
            w[0].op != w[1].op || t.slot_level[w[0].start as usize] != t.slot_level[w[1].start as usize],
            "neighbouring runs must differ"
        );
    }
    // Within a level, gates are grouped by opcode in declaration order.
    for s in t.gate_start as usize + 1..t.slot_count() {
        if t.slot_level[s - 1] == t.slot_level[s] {
            assert!(t.ops[s - 1] <= t.ops[s]);
        }
    }
}

#[test]
fn optimize_folds_a_contradiction_and_drops_the_dead_inverter() {
    let mut b = CircuitBuilder::new();
    let x = b.input("x".to_string());
    let n = b.not(x);
    let a = b.and(x, n);
    b.output("o".to_string(), a);
    let c = b.finish().unwrap();
    let o = optimize(&c);
    assert_eq!(o.inst_count(), 2, "the input and one constant");
    assert!(matches!(o.inst(o.output_signals[0]).data, InstData::Const { value: false }));
    assert_eq!(o.input_names, c.input_names);
    assert_eq!(o.output_names, c.output_names);
}

#[test]
fn optimize_shares_gates_and_keeps_no_constant_operands() {
    let o = optimize(&redundant());
    let mut gates: Vec<(String, Vec<u32>)> = Vec::new();
    for i in 0..o.inst_count() {
        if let InstData::Gate { op, inputs } = &o.inst(ryzr::Signal(i as u32)).data {
            for s in inputs {
                assert!(!matches!(o.inst(*s).data, InstData::Const { .. }), "a gate reads a constant");
            }
            let key = (format!("{op:?}"), inputs.iter().map(|s| s.0).collect::<Vec<u32>>());
            assert!(!gates.contains(&key), "gate {key:?} computed twice");
            gates.push(key);
        }
    }
    // Every constant and gate is read by a gate or an output.
    for i in 0..o.inst_count() as u32 {
        let kept = match &o.inst(ryzr::Signal(i)).data {
            InstData::Input { .. } | InstData::RegisterOutput { .. } => true,
            _ => false,
        };
        let read = o.output_signals.iter().any(|s| s.0 == i)
            || (0..o.inst_count() as u32).any(|p| match &o.inst(ryzr::Signal(p)).data {
                InstData::Gate { inputs, .. } => inputs.iter().any(|s| s.0 == i),
                _ => false,
            });
        assert!(kept || read, "signal {i} is dead");
    }
}

#[test]
fn tape_of_a_normal_circuit_sorts_by_level_then_opcode() {
    let mut b = CircuitBuilder::new();
    let x = b.input("x".to_string());
    let y = b.input("y".to_string());
    let z = b.input("z".to_string());
    let p = b.and(x, y);
    let q = b.or(x, y);
    let r = b.and(x, z);
    b.output("p".to_string(), p);
    b.output("q".to_string(), q);
    b.output("r".to_string(), r);
    let c = b.finish().unwrap();
    let t = Compiled::new(&c);
    assert_eq!(t.gate_start, 3);
    assert_eq!(t.runs.len(), 2);
    assert_eq!((t.runs[0].op, t.runs[0].start, t.runs[0].end), (Op::And, 3, 5));
    assert_eq!((t.runs[1].op, t.runs[1].start, t.runs[1].end), (Op::Or, 5, 6));
    assert_eq!(t.levels.len(), 1);
    assert_eq!(t.input_slots, vec![0, 1, 2]);
    assert_eq!(t.output_slots, vec![3, 5, 4]);
}

#[test]
fn optimizing_twice_changes_nothing_more() {
    let once = optimize(&redundant());
    let twice = optimize(&once);
    assert_eq!(once.inst_count(), twice.inst_count());
    for i in 0..once.inst_count() as u32 {
        let a = format!("{:?}", once.inst(ryzr::Signal(i)).data);
        let b = format!("{:?}", twice.inst(ryzr::Signal(i)).data);
        assert_eq!(a, b);
    }
    assert_eq!(once.output_signals, twice.output_signals);
}

#[test]
fn broadcast_inputs_keep_every_instance_alike_over_a_run() {
    let k = counter();
    let mut e = BatchEngine::new(&k);
    for step in 0..12u32 {
        e.set_input(0, step % 3 != 0);
        e.tick();
        for o in 0..k.output_signals.len() {
            let m = e.output_mask(o);
            assert!(m == 0 || m == u64::MAX, "instances diverged at tick {step}: {m:#x}");
        }
    }
}

#[test]
fn a_fresh_batch_engine_holds_one_value_per_word() {
    let c = counter();
    let tape = Arc::new(Compiled::new(&c));
    let mut e = BatchEngine::with_tape(tape);
    for o in 0..c.output_signals.len() {
        let m = e.output_mask(o);
        assert!(m == 0 || m == u64::MAX);
    }
    e.set_input_mask(0, u64::MAX);
    for _ in 0..5 {
        e.tick();
        for o in 0..c.output_signals.len() {
            let m = e.output_mask(o);
            assert!(m == 0 || m == u64::MAX);
        }
    }
}

#[test]
fn time_per_tick_runs_a_bounded_burst() {
    let c = counter();
    let mut e = ScalarEngine::new(&c);
    e.set_input(0, true);
    let per_tick = ryzr::timing::time_per_tick(&mut e);
    assert!(per_tick < std::time::Duration::from_millis(500));
    // 2 + 4j ticks ran; the outputs show the count before the last one,
    // 1 + 4j: bit 0 high, bit 1 low.
    assert!(e.output(0));
    assert!(!e.output(1));
}
