//! The admission gate: a pool of permits that bounds how many hosts are probed
//! at a time.
//!
//! A gate belongs to one scan. A probe of a host starts only with a permit from
//! its gate and gives the permit back when it ends, however it ends.

use vstd::prelude::*;

verus! {

/// The number of hosts that are probed at a time unless a caller says otherwise.
pub const DEFAULT_CAPACITY: usize = 100;

/// What a gate stands for: how many permits it has, and how many are out.
pub struct GateView {
    pub capacity: nat,
    pub in_use: nat,
}

/// A counting gate with a fixed number of permits.
#[derive(Debug)]
pub struct AdmissionGate {
    capacity: usize,
    in_use: usize,
}

impl View for AdmissionGate {
    type V = GateView;

    closed spec fn view(&self) -> GateView {
        GateView { capacity: self.capacity as nat, in_use: self.in_use as nat }
    }
}

impl AdmissionGate {
    /// At no time are more permits out than there are.
    pub open spec fn wf(&self) -> bool {
        self@.in_use <= self@.capacity
    }

    /// A gate with `capacity` permits, none of them out.
    pub fn new(capacity: usize) -> (gate: AdmissionGate)
        ensures
            gate.wf(),
            gate@ == (GateView { capacity: capacity as nat, in_use: 0 }),
    {
        AdmissionGate { capacity, in_use: 0 }
    }

    /// How many permits there are.
    pub fn capacity(&self) -> (capacity: usize)
        ensures
            capacity == self@.capacity,
    {
        self.capacity
    }

    /// How many permits are out.
    pub fn in_use(&self) -> (in_use: usize)
        ensures
            in_use == self@.in_use,
    {
        self.in_use
    }

    /// How many permits can still be taken.
    pub fn available(&self) -> (free: usize)
        requires
            self.wf(),
        ensures
            free == self@.capacity - self@.in_use,
    {
        self.capacity - self.in_use
    }

    /// Takes a permit if one is left, and says whether it did.
    pub fn try_acquire(&mut self) -> (admitted: bool)
        requires
            old(self).wf(),
        ensures
            final(self).wf(),
            admitted <==> old(self)@.in_use < old(self)@.capacity,
            final(self)@.capacity == old(self)@.capacity,
            final(self)@.in_use == old(self)@.in_use + if admitted { 1nat } else { 0nat },
    {
        if self.in_use < self.capacity {
            self.in_use = self.in_use + 1;
            true
        } else {
            false
        }
    }

    /// Gives a permit back.
    pub fn release(&mut self)
        requires
            old(self).wf(),
            old(self)@.in_use > 0,
        ensures
            final(self).wf(),
            final(self)@.capacity == old(self)@.capacity,
            final(self)@.in_use == old(self)@.in_use - 1,
    {
        self.in_use = self.in_use - 1;
    }
}

} // verus!
