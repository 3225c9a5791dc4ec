//! Trusted declarations for the dense entity maps of `cranelift_entity` that
//! hold a circuit's instructions and registers.

use cranelift_entity::PrimaryMap;
use vstd::prelude::*;

use crate::circuit::{Instruction, Reg, Register, Signal};

verus! {

/// The instruction table of a circuit: a `PrimaryMap<Signal, Instruction>`
/// held opaquely; `inst_entries` names what it holds.
#[verifier::external_body]
pub struct InstMap {
    map: PrimaryMap<Signal, Instruction>,
}

/// The register table of a circuit: a `PrimaryMap<Reg, Register>`.
#[verifier::external_body]
pub struct RegMap {
    map: PrimaryMap<Reg, Register>,
}

/// The instructions a `PrimaryMap<Signal, Instruction>` holds, in key order.
pub uninterp spec fn inst_entries(m: InstMap) -> Seq<Instruction>;

/// The registers a `PrimaryMap<Reg, Register>` holds, in key order.
pub uninterp spec fn reg_entries(m: RegMap) -> Seq<Register>;

/// `PrimaryMap::with_capacity`: a map with no entries (the capacity is only a
/// reservation).
#[verifier::external_body]
pub(crate) fn inst_map_with_capacity(capacity: usize) -> (m: InstMap)
    ensures
        inst_entries(m) == Seq::<Instruction>::empty(),
{
    InstMap { map: PrimaryMap::with_capacity(capacity) }
}

/// `PrimaryMap::push`: appends `v` and returns the key `Signal::new(old length)`.
#[verifier::external_body]
pub(crate) fn inst_map_push(m: &mut InstMap, v: Instruction) -> (k: Signal)
    requires
        inst_entries(*old(m)).len() < u32::MAX,
    ensures
        inst_entries(*final(m)) == inst_entries(*old(m)).push(v),
        k.0 as int == inst_entries(*old(m)).len(),
{
    m.map.push(v)
}

/// `PrimaryMap::len`: the number of entries.
#[verifier::external_body]
pub(crate) fn inst_map_len(m: &InstMap) -> (n: usize)
    ensures
        n == inst_entries(*m).len(),
{
    m.map.len()
}

/// `PrimaryMap` indexing: the entry stored under key `k`.
#[verifier::external_body]
pub(crate) fn inst_map_get(m: &InstMap, k: Signal) -> (r: &Instruction)
    requires
        (k.0 as int) < inst_entries(*m).len(),
    ensures
        *r == inst_entries(*m)[k.0 as int],
{
    &m.map[k]
}

/// `PrimaryMap::with_capacity` for registers.
#[verifier::external_body]
pub(crate) fn reg_map_with_capacity(capacity: usize) -> (m: RegMap)
    ensures
        reg_entries(m) == Seq::<Register>::empty(),
{
    RegMap { map: PrimaryMap::with_capacity(capacity) }
}

/// `PrimaryMap::push` for registers.
#[verifier::external_body]
pub(crate) fn reg_map_push(m: &mut RegMap, v: Register) -> (k: Reg)
    requires
        reg_entries(*old(m)).len() < u32::MAX,
    ensures
        reg_entries(*final(m)) == reg_entries(*old(m)).push(v),
        k.0 as int == reg_entries(*old(m)).len(),
{
    m.map.push(v)
}

/// `PrimaryMap::len` for registers.
#[verifier::external_body]
pub(crate) fn reg_map_len(m: &RegMap) -> (n: usize)
    ensures
        n == reg_entries(*m).len(),
{
    m.map.len()
}

/// `PrimaryMap` indexing for registers.
#[verifier::external_body]
pub(crate) fn reg_map_get(m: &RegMap, k: Reg) -> (r: &Register)
    requires
        (k.0 as int) < reg_entries(*m).len(),
    ensures
        *r == reg_entries(*m)[k.0 as int],
{
    &m.map[k]
}

} // verus!
