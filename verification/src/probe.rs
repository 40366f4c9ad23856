//! The probe of one host: which port to try next, and what the host amounts to
//! once every port was tried.
//!
//! The probe decides and remembers; the connection attempts are its caller's.
//! A caller asks for the next port, tries to connect within its time limit, and
//! records whether it connected. Every way of not connecting is recorded alike.

use vstd::prelude::*;
use crate::host::{HostResult, HostView};
use crate::ports::{
    lemma_open_subset_valid, open_subset, probe_port, probe_ports, PROBE_PORT_COUNT,
};

verus! {

/// The time limit of one connection attempt, in seconds, unless a caller says
/// otherwise.
pub const DEFAULT_TIMEOUT_SECS: u64 = 1;

/// What a probe stands for: the host, and the outcomes recorded so far, in
/// probe order.
pub struct ProbeView {
    pub address: u32,
    pub outcomes: Seq<bool>,
}

/// The state of the probe of one host.
pub struct HostProbe {
    address: u32,
    probed: usize,
    open_ports: Vec<u16>,
    outcomes: Ghost<Seq<bool>>,
}

impl View for HostProbe {
    type V = ProbeView;

    closed spec fn view(&self) -> ProbeView {
        ProbeView { address: self.address, outcomes: self.outcomes@ }
    }
}

impl HostProbe {
    /// A probe is well formed when it has recorded at most one outcome per port
    /// and holds the ports that its outcomes opened.
    pub closed spec fn wf(&self) -> bool {
        &&& self.probed == self.outcomes@.len()
        &&& self.probed <= PROBE_PORT_COUNT
        &&& self.open_ports@ == open_subset(self.outcomes@)
    }

    /// Whether every port was tried.
    pub open spec fn complete(&self) -> bool {
        self@.outcomes.len() == PROBE_PORT_COUNT
    }

    /// Starts the probe of a host: no port was tried yet.
    pub fn new(address: u32) -> (probe: HostProbe)
        ensures
            probe.wf(),
            probe@ == (ProbeView { address, outcomes: Seq::empty() }),
    {
        HostProbe { address, probed: 0, open_ports: Vec::new(), outcomes: Ghost(Seq::empty()) }
    }

    /// The host that is probed.
    pub fn address(&self) -> (address: u32)
        ensures
            address == self@.address,
    {
        self.address
    }

    /// Whether every port was tried.
    pub fn is_complete(&self) -> (done: bool)
        requires
            self.wf(),
        ensures
            done == self.complete(),
    {
        self.probed == PROBE_PORT_COUNT
    }

    /// The port to try next: the first in probe order that has no outcome yet.
    /// There is none once every port was tried.
    pub fn next_port(&self) -> (port: Option<u16>)
        requires
            self.wf(),
        ensures
            self.complete() ==> port is None,
            !self.complete() ==> port == Some(probe_ports()[self@.outcomes.len() as int]),
    {
        if self.probed < PROBE_PORT_COUNT {
            Some(probe_port(self.probed))
        } else {
            None
        }
    }

    /// Records the outcome for the port that `next_port` named: whether the
    /// connection was made.
    pub fn record(&mut self, connected: bool)
        requires
            old(self).wf(),
            !old(self).complete(),
        ensures
            final(self).wf(),
            final(self)@ == (ProbeView {
                address: old(self)@.address,
                outcomes: old(self)@.outcomes.push(connected),
            }),
    {
        let ghost before = self.outcomes@;
        if connected {
            self.open_ports.push(probe_port(self.probed));
        }
        self.probed = self.probed + 1;
        self.outcomes = Ghost(before.push(connected));
        proof {
            assert(before.push(connected).drop_last() =~= before);
        }
    }

    /// Ends the probe. A host with an open port gets its record; a host
    /// without one gets none.
    pub fn finish(self) -> (found: Option<HostResult>)
        requires
            self.wf(),
            self.complete(),
        ensures
            found is Some <==> open_subset(self@.outcomes).len() > 0,
            found matches Some(record) ==> record.wf() && record@ == (HostView {
                address: self@.address,
                open_ports: open_subset(self@.outcomes),
            }),
    {
        if self.open_ports.len() > 0 {
            proof {
                lemma_open_subset_valid(self.outcomes@);
            }
            Some(HostResult::new(self.address, self.open_ports))
        } else {
            None
        }
    }
}

/// A port is open after a probe exactly if its own outcome was a connection.
pub proof fn lemma_open_subset_members(outcomes: Seq<bool>, port: u16)
    requires
        outcomes.len() <= probe_ports().len(),
    ensures
        open_subset(outcomes).contains(port) <==> exists|i: int|
            0 <= i < outcomes.len() && outcomes[i] && probe_ports()[i] == port,
    decreases outcomes.len(),
{
    if outcomes.len() > 0 {
        let shorter = outcomes.drop_last();
        let last = outcomes.len() - 1;
        lemma_open_subset_members(shorter, port);
        let earlier = open_subset(shorter);
        if open_subset(outcomes).contains(port) {
            if earlier.contains(port) {
                let i = choose|i: int|
                    0 <= i < shorter.len() && shorter[i] && probe_ports()[i] == port;
                assert(outcomes[i] && probe_ports()[i] == port);
            } else {
                let k = choose|k: int|
                    0 <= k < open_subset(outcomes).len() && open_subset(outcomes)[k] == port;
                assert(outcomes[last] && probe_ports()[last] == port);
            }
        }
        if exists|i: int| 0 <= i < outcomes.len() && outcomes[i] && probe_ports()[i] == port {
            let i = choose|i: int| 0 <= i < outcomes.len() && outcomes[i] && probe_ports()[i] == port;
            if i < last {
                assert(shorter[i] && probe_ports()[i] == port);
                let k = choose|k: int| 0 <= k < earlier.len() && earlier[k] == port;
                assert(open_subset(outcomes)[k] == port);
            } else {
                assert(open_subset(outcomes) == earlier.push(port));
                assert(open_subset(outcomes)[earlier.len() as int] == port);
            }
        }
    }
}

/// A host gets a record exactly if one of its probes connected.
pub proof fn lemma_record_iff_connected(outcomes: Seq<bool>)
    requires
        outcomes.len() <= probe_ports().len(),
    ensures
        open_subset(outcomes).len() > 0 <==> exists|i: int| 0 <= i < outcomes.len() && outcomes[i],
    decreases outcomes.len(),
{
    if outcomes.len() > 0 {
        let shorter = outcomes.drop_last();
        lemma_record_iff_connected(shorter);
        if exists|i: int| 0 <= i < outcomes.len() && outcomes[i] {
            let i = choose|i: int| 0 <= i < outcomes.len() && outcomes[i];
            if i < outcomes.len() - 1 {
                assert(shorter[i]);
            }
        }
        if open_subset(outcomes).len() > 0 {
            if outcomes.last() {
            } else {
                let i = choose|i: int| 0 <= i < shorter.len() && shorter[i];
                assert(outcomes[i]);
            }
        }
    }
}

} // verus!
