//! A counting gate that bounds how many probe invocations may be in flight
//! at once, however many targets are configured.

use vstd::prelude::*;

verus! {

/// The limiter: a fixed capacity and the number of slots currently taken.
pub struct Limiter {
    capacity: u64,
    in_flight: u64,
}

impl Limiter {
    /// Number of slots the limiter was created with.
    pub closed spec fn spec_capacity(self) -> int {
        self.capacity as int
    }

    /// Number of slots currently taken.
    pub closed spec fn spec_in_flight(self) -> int {
        self.in_flight as int
    }

    /// The limiter never hands out more slots than its capacity.
    pub open spec fn wf(self) -> bool {
        0 <= self.spec_in_flight() <= self.spec_capacity()
    }

    pub fn new(capacity: u64) -> (gate: Limiter)
        ensures
            gate.wf(),
            gate.spec_capacity() == capacity,
            gate.spec_in_flight() == 0,
    {
        Limiter { capacity, in_flight: 0 }
    }

    pub fn capacity(&self) -> (c: u64)
        ensures
            c == self.spec_capacity(),
    {
        self.capacity
    }

    pub fn in_flight(&self) -> (n: u64)
        ensures
            n == self.spec_in_flight(),
    {
        self.in_flight
    }

    /// Take a slot if one is free; `true` means the caller may start a probe.
    pub fn try_acquire(&mut self) -> (granted: bool)
        requires
            old(self).wf(),
        ensures
            final(self).wf(),
            final(self).spec_capacity() == old(self).spec_capacity(),
            granted == (old(self).spec_in_flight() < old(self).spec_capacity()),
            final(self).spec_in_flight() == gate_step(
                old(self).spec_in_flight(),
                old(self).spec_capacity(),
                GateOp::Acquire,
            ),
    {
        if self.in_flight < self.capacity {
            self.in_flight = self.in_flight + 1;
            true
        } else {
            false
        }
    }

    /// Give a slot back once the probe call has resolved.
    pub fn release(&mut self)
        requires
            old(self).wf(),
            old(self).spec_in_flight() > 0,
        ensures
            final(self).wf(),
            final(self).spec_capacity() == old(self).spec_capacity(),
            final(self).spec_in_flight() == old(self).spec_in_flight() - 1,
    {
        self.in_flight = self.in_flight - 1;
    }
}

/// One event at the limiter, as the tasks drive it.
pub enum GateOp {
    Acquire,
    Release,
}

/// How one event changes the number of slots taken: an acquire is granted
/// only below capacity, a release only while a slot is out.
pub open spec fn gate_step(in_flight: int, capacity: int, op: GateOp) -> int {
    match op {
        GateOp::Acquire => if in_flight < capacity {
            in_flight + 1
        } else {
            in_flight
        },
        GateOp::Release => if in_flight > 0 {
            in_flight - 1
        } else {
            in_flight
        },
    }
}

/// The slots taken after a whole sequence of events.
pub open spec fn gate_run(in_flight: int, capacity: int, ops: Seq<GateOp>) -> int
    decreases ops.len(),
{
    if ops.len() == 0 {
        in_flight
    } else {
        gate_run(gate_step(in_flight, capacity, ops[0]), capacity, ops.skip(1))
    }
}

/// Bounded concurrency: whatever sequence of acquires and releases the probe
/// tasks perform, the number of slots out at once never exceeds the limiter's
/// capacity.
pub proof fn lemma_gate_bounded(in_flight: int, capacity: int, ops: Seq<GateOp>)
    requires
        0 <= in_flight <= capacity,
    ensures
        0 <= gate_run(in_flight, capacity, ops) <= capacity,
    decreases ops.len(),
{
    if ops.len() > 0 {
        lemma_gate_bounded(gate_step(in_flight, capacity, ops[0]), capacity, ops.skip(1));
    }
}

} // verus!
