//! Measuring how long one tick of an engine takes: a short warm-up, then a
//! timed burst of about half a millisecond, capped in length.

use std::time::{Duration, Instant};
use vstd::prelude::*;

use crate::scalar::ScalarEngine;
use crate::sim::{run_outputs, run_state};

verus! {

#[verifier::external_type_specification]
#[verifier::external_body]
pub struct ExInstant(Instant);

/// `Instant::now`: the current time; nothing is claimed of it.
#[verifier::external_body]
fn clock_now() -> Instant {
    Instant::now()
}

/// `Instant::elapsed`: the time since `start`; nothing is claimed of it.
#[verifier::external_body]
fn elapsed_since(start: &Instant) -> Duration {
    start.elapsed()
}

/// `Duration::as_micros`: whole microseconds; nothing is claimed of a
/// measured duration.
#[verifier::external_body]
fn whole_micros(d: &Duration) -> u128 {
    d.as_micros()
}

/// `Duration / u32`: the duration split into `n` equal parts; it panics
/// only for `n == 0`, which `requires` leaves out.
#[verifier::external_body]
fn split_duration(d: Duration, n: u32) -> Duration
    requires
        n > 0,
{
    d / n
}

/// `after` is `before` advanced by two ticks and then `j` times four, its
/// inputs held.
pub open spec fn ran_in_fours(before: ScalarEngine, after: ScalarEngine, j: nat) -> bool {
    let net = before.tape_spec().netlist@;
    let n = 2 + 4 * j;
    &&& after.state_spec() == run_state(net, before.inputs_spec(), before.state_spec(), n)
    &&& after.outputs_spec() == run_outputs(net, before.inputs_spec(), before.state_spec(), before.outputs_spec(), n)
}

/// The longest burst, in ticks.
pub const MAX_BURST_TICKS: u32 = 4096;

/// The burst length, in microseconds, after which timing stops.
pub const BURST_MICROS: u128 = 500;

/// Average tick latency of `engine` over a short timed burst: two warm-up
/// ticks, then ticks in fours until half a millisecond has passed or 4096
/// ticks were timed. The engine runs `2 + 4 * j` ticks for some `j` from 1 to
/// 1024 with its inputs held; how long they took is the clock's to say.
pub fn time_per_tick(engine: &mut ScalarEngine) -> (per_tick: Duration)
    requires
        old(engine).wf(),
    ensures
        final(engine).wf(),
        final(engine).tape_spec() == old(engine).tape_spec(),
        final(engine).inputs_spec() == old(engine).inputs_spec(),
        exists|j: nat| 1 <= j <= 1024 && #[trigger] ran_in_fours(*old(engine), *final(engine), j),
{
    let ghost e0 = *engine;
    let ghost net = e0.tape_spec().netlist@;
    let ghost i0 = e0.inputs_spec();
    engine.tick();
    let ghost s1 = engine.state_spec();
    engine.tick();
    proof {
        assert(run_state(net, i0, e0.state_spec(), 0) == e0.state_spec());
        assert(run_state(net, i0, e0.state_spec(), 1) == s1);
        assert(run_state(net, i0, e0.state_spec(), 2) == engine.state_spec());
    }
    let start = clock_now();
    let mut ticks: u32 = 0;
    loop
        invariant
            e0 == *old(engine),
            engine.wf(),
            engine.tape_spec() == e0.tape_spec(),
            engine.inputs_spec() == e0.inputs_spec(),
            net == e0.tape_spec().netlist@,
            ticks % 4 == 0,
            ticks < MAX_BURST_TICKS,
            engine.state_spec() == run_state(net, e0.inputs_spec(), e0.state_spec(), (2 + ticks) as nat),
            engine.outputs_spec() == run_outputs(net, e0.inputs_spec(), e0.state_spec(), e0.outputs_spec(), (2 + ticks) as nat),
        decreases MAX_BURST_TICKS - ticks,
    {
        let mut q: u32 = 0;
        while q < 4
            invariant
                engine.wf(),
                engine.tape_spec() == e0.tape_spec(),
                engine.inputs_spec() == e0.inputs_spec(),
                net == e0.tape_spec().netlist@,
                q <= 4,
                ticks < MAX_BURST_TICKS,
                engine.state_spec() == run_state(net, e0.inputs_spec(), e0.state_spec(), (2 + ticks + q) as nat),
                engine.outputs_spec() == run_outputs(
                    net,
                    e0.inputs_spec(),
                    e0.state_spec(),
                    e0.outputs_spec(),
                    (2 + ticks + q) as nat,
                ),
            decreases 4 - q,
        {
            engine.tick();
            q += 1;
        }
        ticks += 4;
        let elapsed = elapsed_since(&start);
        if whole_micros(&elapsed) >= BURST_MICROS || ticks >= MAX_BURST_TICKS {
            proof {
                let j = (ticks / 4) as nat;
                assert(1 <= j <= 1024 && 2 + 4 * j == 2 + ticks);
                assert(ran_in_fours(e0, *engine, j));
            }
            return split_duration(elapsed, ticks);
        }
    }
}

} // verus!
