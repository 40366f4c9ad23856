//! The scan of a range: which host to probe next, how many at a time, and the
//! list of hosts that comes out, in address order.
//!
//! A scan decides and remembers; running the probes is its caller's part. The
//! caller asks for the next step. On `Probe` it starts the probe of that host
//! beside those already running; on `Wait` it waits for any running probe to
//! end and reports how it ended; on `Finished` it takes the list. Probes may
//! end in any order: the list is the same.

use vstd::prelude::*;
use crate::error::ScanError;
use crate::gate::AdmissionGate;
use crate::host::{all_wf, views, HostResult, HostView};
use crate::range::AddressRange;

verus! {

/// What the caller of a scan does next.
#[derive(Clone, Copy, Debug, PartialEq, Eq, Structural)]
pub enum Step {
    /// Start the probe of this host; it holds a permit from now on.
    Probe(u32),
    /// Start nothing: wait until a running probe ends, and report it.
    Wait,
    /// Nothing is left to do: the scan has ended, or has failed.
    Finished,
}

/// What the probe of a host came to: its open ports, or nothing where it has
/// none.
pub open spec fn ports_of(outcome: Option<HostView>) -> Option<Seq<u16>> {
    match outcome {
        Some(host) => Some(host.open_ports),
        None => None,
    }
}

/// What an optional record stands for.
pub open spec fn view_of(outcome: Option<HostResult>) -> Option<HostView> {
    match outcome {
        Some(record) => Some(record@),
        None => None,
    }
}

/// What a scan stands for.
pub struct ScanView {
    /// The addresses to scan.
    pub range: AddressRange,
    /// How many hosts may be probed at a time.
    pub capacity: nat,
    /// How many addresses of the range were handed out for probing, from its
    /// start.
    pub admitted: nat,
    /// The hosts whose probes are running.
    pub in_flight: Set<u32>,
    /// What the probes that ended have reported, by host.
    pub reported: Map<u32, Option<Seq<u16>>>,
    /// Whether the scan has failed.
    pub failed: bool,
}

impl ScanView {
    /// The address that is handed out next.
    pub open spec fn next_address(self) -> u32 {
        self.range.at(self.admitted as int)
    }

    /// Whether a probe can start now: the scan has not failed, an address is
    /// left, and so is a permit.
    pub open spec fn can_admit(self) -> bool {
        &&& !self.failed
        &&& self.admitted < self.range.count()
        &&& self.in_flight.len() < self.capacity
    }

    /// What the caller does next.
    pub open spec fn step(self) -> Step {
        if self.failed {
            Step::Finished
        } else if self.can_admit() {
            Step::Probe(self.next_address())
        } else if self.admitted < self.range.count() || !self.in_flight.is_empty() {
            Step::Wait
        } else {
            Step::Finished
        }
    }

    /// The scan after it has named the next step.
    pub open spec fn after_step(self) -> ScanView {
        if self.can_admit() {
            ScanView {
                admitted: self.admitted + 1,
                in_flight: self.in_flight.insert(self.next_address()),
                ..self
            }
        } else {
            self
        }
    }

    /// Whether a report is in order: the scan has not failed, the probe of
    /// that host is running, and a record is that of this host.
    pub open spec fn accepts(self, address: u32, outcome: Option<HostView>) -> bool {
        &&& !self.failed
        &&& self.in_flight.contains(address)
        &&& outcome matches Some(host) ==> host.address == address
    }

    /// The scan after a report: a report in order ends the probe of its host
    /// and is kept; any other makes the scan fail.
    pub open spec fn after_report(self, address: u32, outcome: Option<HostView>) -> ScanView {
        if self.accepts(address, outcome) {
            ScanView {
                in_flight: self.in_flight.remove(address),
                reported: self.reported.insert(address, ports_of(outcome)),
                ..self
            }
        } else {
            ScanView { failed: true, ..self }
        }
    }

    /// The scan after the work on a host has ended abnormally.
    pub open spec fn after_failure(self) -> ScanView {
        ScanView { failed: true, ..self }
    }

    /// Whether the scan has ended well: every address was handed out and every
    /// probe has reported.
    pub open spec fn done(self) -> bool {
        &&& !self.failed
        &&& self.admitted == self.range.count()
        &&& self.in_flight.is_empty()
    }
}

/// The hosts found among the first `count` addresses of a range: for each
/// address in turn, the record of its host if the probe reported open ports.
pub open spec fn hosts_found(
    range: AddressRange,
    count: nat,
    reported: Map<u32, Option<Seq<u16>>>,
) -> Seq<HostView>
    decreases count,
{
    if count == 0 {
        Seq::empty()
    } else {
        let earlier = hosts_found(range, (count - 1) as nat, reported);
        let address = range.at(count - 1);
        match reported[address] {
            Some(open_ports) => earlier.push(HostView { address, open_ports }),
            None => earlier,
        }
    }
}

/// Whether a list holds, in ascending order of address, exactly the hosts for
/// which open ports were reported.
pub open spec fn agrees(hosts: Seq<HostView>, reported: Map<u32, Option<Seq<u16>>>) -> bool {
    &&& forall|i: int, j: int| 0 <= i < j < hosts.len() ==> hosts[i].address < hosts[j].address
    &&& forall|i: int|
        0 <= i < hosts.len() ==> reported.contains_key((#[trigger] hosts[i]).address)
            && reported[hosts[i].address] == Some(hosts[i].open_ports)
    &&& forall|address: u32|
        #[trigger] reported.contains_key(address) && reported[address] is Some ==> exists|
            i: int,
        |
            0 <= i < hosts.len() && (#[trigger] hosts[i]).address == address
}

/// The state of a scan.
pub struct Scan {
    range: AddressRange,
    gate: AdmissionGate,
    admitted: u64,
    in_flight: Vec<u32>,
    results: Vec<HostResult>,
    failed: bool,
    reported: Ghost<Map<u32, Option<Seq<u16>>>>,
}

impl View for Scan {
    type V = ScanView;

    closed spec fn view(&self) -> ScanView {
        ScanView {
            range: self.range,
            capacity: self.gate@.capacity,
            admitted: self.admitted as nat,
            in_flight: self.in_flight@.to_set(),
            reported: self.reported@,
            failed: self.failed,
        }
    }
}

/// Taking an element out of a list without duplicates takes it out of the set
/// of its elements.
proof fn lemma_remove_from_set(list: Seq<u32>, index: int)
    requires
        list.no_duplicates(),
        0 <= index < list.len(),
    ensures
        list.remove(index).no_duplicates(),
        list.remove(index).len() == list.len() - 1,
        list.remove(index).to_set() == list.to_set().remove(list[index]),
{
    let shorter = list.remove(index);
    assert forall|i: int| 0 <= i < shorter.len() implies shorter[i] == if i < index {
        list[i]
    } else {
        list[i + 1]
    } by {}
    assert forall|x: u32| shorter.to_set().contains(x) <==> list.to_set().remove(
        list[index],
    ).contains(x) by {
        if shorter.contains(x) {
            let i = choose|i: int| 0 <= i < shorter.len() && shorter[i] == x;
            if i < index {
                assert(list[i] == x);
            } else {
                assert(list[i + 1] == x);
            }
        }
        if list.contains(x) && x != list[index] {
            let i = choose|i: int| 0 <= i < list.len() && list[i] == x;
            if i < index {
                assert(shorter[i] == x);
            } else {
                assert(shorter[i - 1] == x);
            }
        }
    }
    assert(shorter.to_set() =~= list.to_set().remove(list[index]));
}

/// Adding a new element to a list without duplicates adds it to the set of
/// its elements.
proof fn lemma_push_to_set(list: Seq<u32>, element: u32)
    requires
        list.no_duplicates(),
        !list.contains(element),
    ensures
        list.push(element).no_duplicates(),
        list.push(element).to_set() == list.to_set().insert(element),
{
    let longer = list.push(element);
    assert forall|x: u32| longer.to_set().contains(x) <==> list.to_set().insert(element).contains(
        x,
    ) by {
        if longer.contains(x) {
            let i = choose|i: int| 0 <= i < longer.len() && longer[i] == x;
            if i < list.len() {
                assert(list[i] == x);
            }
        }
        if list.contains(x) {
            let i = choose|i: int| 0 <= i < list.len() && list[i] == x;
            assert(longer[i] == x);
        }
        if x == element {
            assert(longer[list.len() as int] == x);
        }
    }
    assert(longer.to_set() =~= list.to_set().insert(element));
}

impl Scan {
    /// A scan is well formed when no more probes run than its gate has
    /// permits, every address handed out either has its probe running or has
    /// reported, and the list so far agrees with the reports.
    pub closed spec fn wf(&self) -> bool {
        &&& self.gate.wf()
        &&& self.gate@.in_use == self.in_flight@.len()
        &&& self.admitted <= self.range.count()
        &&& self.in_flight@.no_duplicates()
        &&& forall|address: u32| #[trigger]
            self.in_flight@.contains(address) ==> self.range.start <= address < self.range.start
                + self.admitted
        &&& forall|address: u32| #[trigger]
            self.reported@.contains_key(address) ==> self.range.start <= address
                < self.range.start + self.admitted
        &&& forall|address: u32|
            self.range.start <= address < self.range.start + self.admitted ==> (
            #[trigger] self.in_flight@.contains(address)) != self.reported@.contains_key(address)
        &&& all_wf(self.results@)
        &&& agrees(views(self.results@), self.reported@)
    }

    /// The scan of `range` with at most `capacity` probes at a time.
    pub fn new(range: AddressRange, capacity: usize) -> (scan: Scan)
        ensures
            scan.wf(),
            scan@ == (ScanView {
                range,
                capacity: capacity as nat,
                admitted: 0,
                in_flight: Set::empty(),
                reported: Map::empty(),
                failed: false,
            }),
    {
        Scan::start(range, AdmissionGate::new(capacity))
    }

    /// The scan of `range` behind a gate that its caller made and that the
    /// scan owns from now on. A gate with a permit out belongs to other work
    /// and is refused.
    pub fn with_gate(range: AddressRange, gate: AdmissionGate) -> (made: Option<Scan>)
        requires
            gate.wf(),
        ensures
            made is Some <==> gate@.in_use == 0,
            made matches Some(scan) ==> scan.wf() && scan@ == (ScanView {
                range,
                capacity: gate@.capacity,
                admitted: 0,
                in_flight: Set::empty(),
                reported: Map::empty(),
                failed: false,
            }),
    {
        if gate.in_use() == 0 {
            Some(Scan::start(range, gate))
        } else {
            None
        }
    }

    /// The scan of `range` behind a gate with no permit out.
    fn start(range: AddressRange, gate: AdmissionGate) -> (scan: Scan)
        requires
            gate.wf(),
            gate@.in_use == 0,
        ensures
            scan.wf(),
            scan@ == (ScanView {
                range,
                capacity: gate@.capacity,
                admitted: 0,
                in_flight: Set::empty(),
                reported: Map::empty(),
                failed: false,
            }),
    {
        let scan = Scan {
            range,
            gate,
            admitted: 0,
            in_flight: Vec::new(),
            results: Vec::new(),
            failed: false,
            reported: Ghost(Map::empty()),
        };
        proof {
            assert(scan.in_flight@.to_set() =~= Set::<u32>::empty());
            assert(views(scan.results@) =~= Seq::<HostView>::empty());
        }
        scan
    }

    /// In every state of a scan the probes that run are no more than its gate
    /// has permits, they are probes of addresses that were handed out, and each
    /// address handed out is either being probed or has reported.
    pub proof fn lemma_invariant(&self)
        requires
            self.wf(),
        ensures
            self@.in_flight.finite(),
            self@.in_flight.len() <= self@.capacity,
            self@.admitted <= self@.range.count(),
            forall|address: u32| #[trigger]
                self@.in_flight.contains(address) ==> self@.range.holds(address) && address
                    < self@.range.start + self@.admitted,
            forall|address: u32| #[trigger]
                self@.reported.contains_key(address) ==> self@.range.holds(address) && address
                    < self@.range.start + self@.admitted,
            forall|address: u32|
                self@.range.start <= address < self@.range.start + self@.admitted ==> (
                #[trigger] self@.in_flight.contains(address)) != self@.reported.contains_key(
                    address,
                ),
    {
        self.in_flight@.unique_seq_to_set();
        vstd::seq_lib::seq_to_set_is_finite(self.in_flight@);
    }

    /// A scan that has ended well has handed out every address of its range,
    /// `end - start + 1` of them where the range is not empty, and holds a
    /// report for each address of the range and for no other.
    pub proof fn lemma_done_covers_range(&self)
        requires
            self.wf(),
            self@.done(),
        ensures
            self@.admitted == self@.range.count(),
            self@.range.start <= self@.range.end ==> self@.admitted == self@.range.end
                - self@.range.start + 1,
            forall|address: u32| #[trigger]
                self@.reported.contains_key(address) <==> self@.range.holds(address),
    {
        assert forall|address: u32| #[trigger]
            self@.reported.contains_key(address) <==> self@.range.holds(address) by {
            if self.range.holds(address) {
                assert(!self.in_flight@.to_set().contains(address));
                assert(!self.in_flight@.contains(address));
            }
        }
    }

    /// The addresses to scan.
    pub fn range(&self) -> (range: AddressRange)
        ensures
            range == self@.range,
    {
        self.range
    }

    /// How many hosts may be probed at a time.
    pub fn capacity(&self) -> (capacity: usize)
        ensures
            capacity == self@.capacity,
    {
        self.gate.capacity()
    }

    /// How many addresses were handed out for probing so far.
    pub fn examined(&self) -> (count: u64)
        ensures
            count == self@.admitted,
    {
        self.admitted
    }

    /// How many probes are running.
    pub fn in_flight(&self) -> (count: usize)
        requires
            self.wf(),
        ensures
            count == self@.in_flight.len(),
            count <= self@.capacity,
    {
        proof {
            self.in_flight@.unique_seq_to_set();
        }
        self.gate.in_use()
    }

    /// Whether the scan has failed.
    pub fn has_failed(&self) -> (failed: bool)
        ensures
            failed == self@.failed,
    {
        self.failed
    }

    /// Names the next step. Where a permit and an address are left, the step is
    /// the probe of the next address, and that probe counts as running from
    /// now on.
    pub fn next_step(&mut self) -> (step: Step)
        requires
            old(self).wf(),
        ensures
            final(self).wf(),
            step == old(self)@.step(),
            final(self)@ == old(self)@.after_step(),
    {
        proof {
            self.in_flight@.unique_seq_to_set();
        }
        if self.failed {
            return Step::Finished;
        }
        let total = self.range.len();
        if self.admitted < total {
            let ghost before = self.in_flight@;
            if self.gate.try_acquire() {
                let address = (self.range.start as u64 + self.admitted) as u32;
                proof {
                    lemma_push_to_set(before, address);
                }
                self.in_flight.push(address);
                self.admitted = self.admitted + 1;
                proof {
                    let after = self.in_flight@;
                    assert forall|x: u32| #[trigger]
                        after.contains(x) <==> before.contains(x) || x == address by {
                        assert(after.to_set().contains(x) <==> before.to_set().insert(
                            address,
                        ).contains(x));
                    }
                    assert(!self.reported@.contains_key(address));
                }
                Step::Probe(address)
            } else {
                Step::Wait
            }
        } else if self.in_flight.len() > 0 {
            proof {
                assert(self.in_flight@.to_set().contains(self.in_flight@[0]));
            }
            Step::Wait
        } else {
            proof {
                assert(self.in_flight@.to_set() =~= Set::<u32>::empty());
            }
            Step::Finished
        }
    }

    /// Records that the work on a host ended abnormally. The scan has failed
    /// from now on, whatever else was found.
    pub fn fail(&mut self)
        requires
            old(self).wf(),
        ensures
            final(self).wf(),
            final(self)@ == old(self)@.after_failure(),
    {
        self.failed = true;
    }

    /// Takes the report of a probe that ended: the record of the host, or
    /// nothing where no port was open. A report is in order when the probe of
    /// that host is running and a record is that of this host; it gives the
    /// permit back and is kept. A report out of order is an abnormal end: the
    /// scan has failed from now on.
    pub fn complete(&mut self, address: u32, outcome: Option<HostResult>) -> (accepted: Result<
        (),
        ScanError,
    >)
        requires
            old(self).wf(),
            outcome matches Some(record) ==> record.wf(),
        ensures
            final(self).wf(),
            final(self)@ == old(self)@.after_report(address, view_of(outcome)),
            accepted is Ok <==> old(self)@.accepts(address, view_of(outcome)),
            accepted matches Err(error) ==> error == ScanError::TaskFailure,
    {
        if self.failed {
            return Err(ScanError::TaskFailure);
        }
        let mut index: usize = 0;
        while index < self.in_flight.len() && self.in_flight[index] != address
            invariant
                index <= self.in_flight.len(),
                forall|k: int| 0 <= k < index ==> self.in_flight@[k] != address,
            decreases self.in_flight.len() - index,
        {
            index += 1;
        }
        if index == self.in_flight.len() {
            self.failed = true;
            return Err(ScanError::TaskFailure);
        }
        let mismatch = match &outcome {
            Some(record) => record.address_value() != address,
            None => false,
        };
        if mismatch {
            self.failed = true;
            return Err(ScanError::TaskFailure);
        }
        let ghost running = self.in_flight@;
        let ghost reports = self.reported@;
        let ghost hosts = views(self.results@);
        proof {
            lemma_remove_from_set(running, index as int);
            assert(running.contains(address));
            assert(!reports.contains_key(address));
        }
        self.in_flight.remove(index);
        self.gate.release();
        match outcome {
            Some(record) => {
                let mut position: usize = self.results.len();
                while position > 0 && self.results[position - 1].address_value() > address
                    invariant
                        position <= self.results.len(),
                        forall|k: int|
                            position <= k < self.results.len() ==> (#[trigger] self.results@[k])@.address
                                > address,
                    decreases position,
                {
                    position -= 1;
                }
                let ghost host = record@;
                let ghost records = self.results@;
                proof {
                    assert forall|k: int| 0 <= k < hosts.len() implies #[trigger] hosts[k]
                        == records[k]@ by {}
                    assert forall|k: int| 0 <= k < position implies (#[trigger] hosts[k]).address
                        < address by {
                        assert(reports.contains_key(hosts[position - 1].address));
                        assert(reports.contains_key(hosts[k].address));
                    }
                }
                self.results.insert(position, record);
                self.reported = Ghost(reports.insert(address, Some(host.open_ports)));
                proof {
                    let longer = views(self.results@);
                    assert(longer =~= hosts.insert(position as int, host));
                    lemma_agrees_after_insert(hosts, reports, position as int, host);
                    assert forall|k: int| 0 <= k < self.results@.len() implies (
                    #[trigger] self.results@[k]).wf() by {
                        if k < position {
                            assert(self.results@[k] == records[k]);
                        } else if k > position {
                            assert(self.results@[k] == records[k - 1]);
                        }
                    }
                }
            },
            None => {
                self.reported = Ghost(reports.insert(address, None));
                proof {
                    lemma_agrees_after_silence(hosts, reports, address);
                }
            },
        }
        proof {
            let after = self.in_flight@;
            assert forall|x: u32| #[trigger]
                after.contains(x) <==> running.contains(x) && x != address by {
                assert(after.to_set().contains(x) <==> running.to_set().remove(address).contains(
                    x,
                ));
            }
        }
        Ok(())
    }

    /// Ends the scan. A scan that has ended well gives its list: the records
    /// of the hosts with an open port, in ascending order of address, whatever
    /// the order in which the probes ended. A scan that has failed, or that is
    /// ended before every probe has reported, gives no list at all.
    pub fn finish(self) -> (outcome: Result<Vec<HostResult>, ScanError>)
        requires
            self.wf(),
        ensures
            self@.done() ==> (outcome matches Ok(list) && all_wf(list@) && views(list@)
                == hosts_found(self@.range, self@.range.count(), self@.reported) && list.len()
                <= self@.admitted == self@.range.count()),
            !self@.done() ==> (outcome matches Err(error) && error == ScanError::TaskFailure),
    {
        if self.failed || self.admitted < self.range.len() || self.in_flight.len() > 0 {
            proof {
                if self.in_flight@.len() > 0 {
                    assert(self.in_flight@.to_set().contains(self.in_flight@[0]));
                }
            }
            Err(ScanError::TaskFailure)
        } else {
            proof {
                assert(self.in_flight@.to_set() =~= Set::<u32>::empty());
                let hosts = views(self.results@);
                let reported = self.reported@;
                assert forall|address: u32|
                    self.range.start <= address < self.range.start + self.admitted
                    implies #[trigger] reported.contains_key(address) by {
                    assert(!self.in_flight@.contains(address));
                }
                lemma_agreeing_list_is_found(hosts, self.range, self.range.count(), reported);
                lemma_hosts_found_ordered(self.range, self.range.count(), reported);
            }
            Ok(self.results)
        }
    }
}

/// The list of the hosts found is no longer than the addresses it was made
/// from. It ascends strictly by address, whatever the order in which the
/// reports came. It holds a host exactly if open ports were reported for its
/// address, and with those ports.
pub proof fn lemma_hosts_found_ordered(
    range: AddressRange,
    count: nat,
    reported: Map<u32, Option<Seq<u16>>>,
)
    requires
        count <= range.count(),
    ensures
        hosts_found(range, count, reported).len() <= count,
        forall|i: int, j: int|
            0 <= i < j < hosts_found(range, count, reported).len() ==> hosts_found(
                range,
                count,
                reported,
            )[i].address < hosts_found(range, count, reported)[j].address,
        forall|i: int|
            0 <= i < hosts_found(range, count, reported).len() ==> {
                let host = #[trigger] hosts_found(range, count, reported)[i];
                &&& range.start <= host.address < range.start + count
                &&& reported[host.address] == Some(host.open_ports)
            },
        forall|address: u32|
            range.start <= address < range.start + count && (#[trigger] reported[address])
                is Some ==> exists|i: int|
                0 <= i < hosts_found(range, count, reported).len() && (#[trigger] hosts_found(
                    range,
                    count,
                    reported,
                )[i]).address == address,
    decreases count,
{
    if count > 0 {
        let fewer = (count - 1) as nat;
        let earlier = hosts_found(range, fewer, reported);
        let all = hosts_found(range, count, reported);
        let last = range.at(count - 1);
        lemma_hosts_found_ordered(range, fewer, reported);
        assert forall|i: int, j: int| 0 <= i < j < all.len() implies all[i].address
            < all[j].address by {
            if j < earlier.len() {
                assert(all[i] == earlier[i] && all[j] == earlier[j]);
            } else {
                assert(all[i] == earlier[i]);
                assert(all[j].address == last);
            }
        }
        assert forall|i: int| 0 <= i < all.len() implies {
            let host = #[trigger] all[i];
            &&& range.start <= host.address < range.start + count
            &&& reported[host.address] == Some(host.open_ports)
        } by {
            if i < earlier.len() {
                assert(all[i] == earlier[i]);
            }
        }
        assert forall|address: u32|
            range.start <= address < range.start + count && (#[trigger] reported[address])
                is Some implies exists|i: int|
            0 <= i < all.len() && (#[trigger] all[i]).address == address by {
            if address == last {
                assert(all[all.len() - 1].address == address);
            } else {
                let i = choose|i: int|
                    0 <= i < earlier.len() && (#[trigger] earlier[i]).address == address;
                assert(all[i].address == address);
            }
        }
    }
}

/// The list of the hosts found depends on nothing but what was reported for
/// the addresses of the range: scans of one range whose probes report alike
/// give the same list.
pub proof fn lemma_hosts_found_depends_on_reports(
    range: AddressRange,
    count: nat,
    first: Map<u32, Option<Seq<u16>>>,
    second: Map<u32, Option<Seq<u16>>>,
)
    requires
        count <= range.count(),
        forall|address: u32|
            range.start <= address < range.start + count ==> #[trigger] first[address]
                == second[address],
    ensures
        hosts_found(range, count, first) == hosts_found(range, count, second),
    decreases count,
{
    if count > 0 {
        lemma_hosts_found_depends_on_reports(range, (count - 1) as nat, first, second);
        assert(first[range.at(count - 1)] == second[range.at(count - 1)]);
    }
}

/// Two reports in order, of different hosts, leave the same scan in either
/// order.
pub proof fn lemma_reports_commute(
    scan: ScanView,
    first: u32,
    first_outcome: Option<HostView>,
    second: u32,
    second_outcome: Option<HostView>,
)
    requires
        first != second,
        scan.accepts(first, first_outcome),
        scan.accepts(second, second_outcome),
    ensures
        scan.after_report(first, first_outcome).accepts(second, second_outcome),
        scan.after_report(second, second_outcome).accepts(first, first_outcome),
        scan.after_report(first, first_outcome).after_report(second, second_outcome)
            == scan.after_report(second, second_outcome).after_report(first, first_outcome),
{
    let one = scan.after_report(first, first_outcome).after_report(second, second_outcome);
    let other = scan.after_report(second, second_outcome).after_report(first, first_outcome);
    assert(one.in_flight =~= other.in_flight);
    assert(one.reported =~= other.reported);
}

/// A scan with a permit to give never waits in vain: where the step is to
/// wait, a probe is running whose end the caller can wait for. Where the step
/// is to finish and the scan has not failed, it has ended well.
pub proof fn lemma_wait_has_reason(scan: ScanView)
    requires
        scan.in_flight.finite(),
        scan.in_flight.len() <= scan.capacity,
        scan.admitted <= scan.range.count(),
    ensures
        scan.step() == Step::Wait && scan.capacity > 0 ==> scan.in_flight.len() > 0,
        scan.step() == Step::Finished && !scan.failed ==> scan.done(),
        scan.step() is Probe ==> scan.range.holds(scan.next_address()) && scan.next_address()
            == scan.range.start + scan.admitted,
{
    if scan.in_flight.len() == 0 {
        assert(scan.in_flight =~= Set::<u32>::empty());
    }
}

/// A range whose start lies above its end holds no address: its scan is
/// finished before it starts, without any failure, and finds no host.
pub proof fn lemma_empty_range(range: AddressRange, capacity: nat)
    requires
        range.start > range.end,
    ensures
        range.count() == 0,
        ({
            let scan = ScanView {
                range,
                capacity,
                admitted: 0,
                in_flight: Set::empty(),
                reported: Map::empty(),
                failed: false,
            };
            &&& scan.step() == Step::Finished
            &&& scan.after_step() == scan
            &&& scan.done()
            &&& hosts_found(range, range.count(), scan.reported) == Seq::<HostView>::empty()
        }),
{
}

/// A list that agrees with the reports still does so when a host whose probe
/// had not reported is put in its place in the order.
proof fn lemma_agrees_after_insert(
    hosts: Seq<HostView>,
    reported: Map<u32, Option<Seq<u16>>>,
    position: int,
    host: HostView,
)
    requires
        agrees(hosts, reported),
        !reported.contains_key(host.address),
        0 <= position <= hosts.len(),
        forall|k: int| 0 <= k < position ==> (#[trigger] hosts[k]).address < host.address,
        forall|k: int| position <= k < hosts.len() ==> (#[trigger] hosts[k]).address > host.address,
    ensures
        agrees(
            hosts.insert(position, host),
            reported.insert(host.address, Some(host.open_ports)),
        ),
{
    let longer = hosts.insert(position, host);
    let reports = reported.insert(host.address, Some(host.open_ports));
    assert forall|k: int| 0 <= k < longer.len() implies #[trigger] longer[k] == if k < position {
        hosts[k]
    } else if k == position {
        host
    } else {
        hosts[k - 1]
    } by {}
    assert forall|i: int, j: int| 0 <= i < j < longer.len() implies longer[i].address
        < longer[j].address by {
        let a = longer[i];
        let b = longer[j];
    }
    assert forall|i: int| 0 <= i < longer.len() implies reports.contains_key(
        (#[trigger] longer[i]).address,
    ) && reports[longer[i].address] == Some(longer[i].open_ports) by {
        if i < position {
            assert(reported.contains_key(hosts[i].address));
        } else if i > position {
            assert(reported.contains_key(hosts[i - 1].address));
        }
    }
    assert forall|address: u32| #[trigger]
        reports.contains_key(address) && reports[address] is Some implies exists|i: int|
        0 <= i < longer.len() && (#[trigger] longer[i]).address == address by {
        if address == host.address {
            assert(longer[position].address == address);
        } else {
            assert(reported.contains_key(address));
            let i = choose|i: int| 0 <= i < hosts.len() && (#[trigger] hosts[i]).address == address;
            if i < position {
                assert(longer[i].address == address);
            } else {
                assert(longer[i + 1].address == address);
            }
        }
    }
}

/// A list that agrees with the reports still does so when a probe reports
/// that its host has no open port.
proof fn lemma_agrees_after_silence(
    hosts: Seq<HostView>,
    reported: Map<u32, Option<Seq<u16>>>,
    address: u32,
)
    requires
        agrees(hosts, reported),
        !reported.contains_key(address),
    ensures
        agrees(hosts, reported.insert(address, None)),
{
    let reports = reported.insert(address, None);
    assert forall|i: int| 0 <= i < hosts.len() implies reports.contains_key(
        (#[trigger] hosts[i]).address,
    ) && reports[hosts[i].address] == Some(hosts[i].open_ports) by {
        assert(reported.contains_key(hosts[i].address));
    }
    assert forall|other: u32| #[trigger]
        reports.contains_key(other) && reports[other] is Some implies exists|i: int|
        0 <= i < hosts.len() && (#[trigger] hosts[i]).address == other by {
        assert(reported.contains_key(other));
    }
}

/// An ascending list that holds exactly the hosts with open ports among the
/// first `count` addresses of a range is the list of the hosts found there.
proof fn lemma_ascending_list_is_found(
    hosts: Seq<HostView>,
    range: AddressRange,
    count: nat,
    reported: Map<u32, Option<Seq<u16>>>,
)
    requires
        count <= range.count(),
        forall|i: int, j: int| 0 <= i < j < hosts.len() ==> hosts[i].address < hosts[j].address,
        forall|i: int|
            0 <= i < hosts.len() ==> range.start <= (#[trigger] hosts[i]).address < range.start
                + count && reported[hosts[i].address] == Some(hosts[i].open_ports),
        forall|address: u32|
            range.start <= address < range.start + count && (#[trigger] reported[address])
                is Some ==> exists|i: int|
                0 <= i < hosts.len() && (#[trigger] hosts[i]).address == address,
    ensures
        hosts == hosts_found(range, count, reported),
    decreases count,
{
    if count == 0 {
        if hosts.len() > 0 {
            assert(range.start <= hosts[0].address < range.start + count);
        }
        assert(hosts =~= Seq::<HostView>::empty());
    } else {
        let last = range.at(count - 1);
        let fewer = (count - 1) as nat;
        match reported[last] {
            Some(open_ports) => {
                let i = choose|i: int| 0 <= i < hosts.len() && (#[trigger] hosts[i]).address == last;
                if i < hosts.len() - 1 {
                    assert(hosts[i].address < hosts[hosts.len() - 1].address);
                    assert(hosts[hosts.len() - 1].address < range.start + count);
                }
                let shorter = hosts.drop_last();
                assert forall|k: int| 0 <= k < shorter.len() implies range.start <= (
                #[trigger] shorter[k]).address < range.start + fewer && reported[shorter[k].address]
                    == Some(shorter[k].open_ports) by {
                    assert(shorter[k] == hosts[k]);
                    assert(hosts[k].address < hosts[hosts.len() - 1].address);
                }
                assert forall|address: u32|
                    range.start <= address < range.start + fewer && (#[trigger] reported[address])
                        is Some implies exists|k: int|
                    0 <= k < shorter.len() && (#[trigger] shorter[k]).address == address by {
                    let k = choose|k: int|
                        0 <= k < hosts.len() && (#[trigger] hosts[k]).address == address;
                    assert(shorter[k].address == address);
                }
                lemma_ascending_list_is_found(shorter, range, fewer, reported);
                assert(hosts =~= shorter.push(hosts[hosts.len() - 1]));
                assert(hosts[hosts.len() - 1] == (HostView { address: last, open_ports }));
            },
            None => {
                assert forall|k: int| 0 <= k < hosts.len() implies range.start <= (
                #[trigger] hosts[k]).address < range.start + fewer by {
                    assert(reported[hosts[k].address] is Some);
                }
                lemma_ascending_list_is_found(hosts, range, fewer, reported);
            },
        }
    }
}

/// A list that agrees with the reports of a whole range is the list of the
/// hosts found in it.
proof fn lemma_agreeing_list_is_found(
    hosts: Seq<HostView>,
    range: AddressRange,
    count: nat,
    reported: Map<u32, Option<Seq<u16>>>,
)
    requires
        count == range.count(),
        agrees(hosts, reported),
        forall|address: u32| #[trigger]
            reported.contains_key(address) ==> range.start <= address < range.start + count,
        forall|address: u32|
            range.start <= address < range.start + count ==> #[trigger] reported.contains_key(
                address,
            ),
    ensures
        hosts == hosts_found(range, count, reported),
{
    assert forall|i: int| 0 <= i < hosts.len() implies range.start <= (#[trigger] hosts[i]).address
        < range.start + count && reported[hosts[i].address] == Some(hosts[i].open_ports) by {
        assert(reported.contains_key(hosts[i].address));
    }
    assert forall|address: u32|
        range.start <= address < range.start + count && (#[trigger] reported[address])
            is Some implies exists|i: int|
        0 <= i < hosts.len() && (#[trigger] hosts[i]).address == address by {
        assert(reported.contains_key(address));
    }
    lemma_ascending_list_is_found(hosts, range, count, reported);
}

} // verus!
