//! The fixed set of TCP ports that is probed on every host.

use vstd::prelude::*;

verus! {

/// How many ports are probed per host.
pub const PROBE_PORT_COUNT: usize = 6;

/// The probed ports, in the order in which they are probed.
pub open spec fn probe_ports() -> Seq<u16> {
    seq![21u16, 22u16, 80u16, 443u16, 3306u16, 5432u16]
}

/// The ports among the first `outcomes.len()` probed ones whose probe connected,
/// in probe order. Outcomes beyond the sixth stand for no port.
pub open spec fn open_subset(outcomes: Seq<bool>) -> Seq<u16>
    decreases outcomes.len(),
{
    if outcomes.len() == 0 {
        Seq::empty()
    } else {
        let earlier = open_subset(outcomes.drop_last());
        if outcomes.last() && outcomes.len() <= probe_ports().len() {
            earlier.push(probe_ports()[outcomes.len() - 1])
        } else {
            earlier
        }
    }
}

/// A port list as a host record may carry it: not empty, strictly ascending (so
/// free of duplicates), and drawn from the probed ports.
pub open spec fn valid_open_ports(ports: Seq<u16>) -> bool {
    &&& ports.len() > 0
    &&& forall|i: int, j: int| 0 <= i < j < ports.len() ==> ports[i] < ports[j]
    &&& forall|i: int| 0 <= i < ports.len() ==> probe_ports().contains(#[trigger] ports[i])
}

/// The port that is probed at position `index` of the probe order.
pub fn probe_port(index: usize) -> (port: u16)
    requires
        index < PROBE_PORT_COUNT,
    ensures
        port == probe_ports()[index as int],
{
    if index == 0 {
        21
    } else if index == 1 {
        22
    } else if index == 2 {
        80
    } else if index == 3 {
        443
    } else if index == 4 {
        3306
    } else {
        5432
    }
}

/// Whether `port` is one of the probed ports.
pub fn is_probe_port(port: u16) -> (known: bool)
    ensures
        known == probe_ports().contains(port),
{
    let mut index: usize = 0;
    while index < PROBE_PORT_COUNT
        invariant
            index <= PROBE_PORT_COUNT,
            forall|k: int| 0 <= k < index ==> probe_ports()[k] != port,
        decreases PROBE_PORT_COUNT - index,
    {
        if probe_port(index) == port {
            return true;
        }
        index += 1;
    }
    false
}

/// Whether a host record may carry `ports`.
pub fn check_open_ports(ports: &[u16]) -> (valid: bool)
    ensures
        valid == valid_open_ports(ports@),
{
    if ports.len() == 0 {
        return false;
    }
    let mut index: usize = 0;
    while index < ports.len()
        invariant
            index <= ports.len(),
            forall|i: int, j: int| 0 <= i < j < index ==> ports@[i] < ports@[j],
            forall|i: int| 0 <= i < index ==> probe_ports().contains(#[trigger] ports@[i]),
        decreases ports.len() - index,
    {
        if !is_probe_port(ports[index]) {
            return false;
        }
        if index > 0 && ports[index - 1] >= ports[index] {
            return false;
        }
        index += 1;
    }
    true
}

/// The probe order is strictly ascending, so a list that follows it needs no sort.
pub proof fn lemma_probe_ports_ascending()
    ensures
        probe_ports().len() == PROBE_PORT_COUNT,
        forall|i: int, j: int|
            0 <= i < j < probe_ports().len() ==> probe_ports()[i] < probe_ports()[j],
{
}

/// Whatever the outcomes, the open ports are strictly ascending, drawn from the
/// probed ports, and each lies below every port that was not probed yet.
pub proof fn lemma_open_subset_ordered(outcomes: Seq<bool>)
    ensures
        open_subset(outcomes).len() <= outcomes.len(),
        forall|i: int, j: int|
            0 <= i < j < open_subset(outcomes).len() ==> open_subset(outcomes)[i]
                < open_subset(outcomes)[j],
        forall|i: int|
            0 <= i < open_subset(outcomes).len() ==> probe_ports().contains(
                #[trigger] open_subset(outcomes)[i],
            ),
        forall|i: int, k: int|
            0 <= i < open_subset(outcomes).len() && outcomes.len() <= k < probe_ports().len()
                ==> open_subset(outcomes)[i] < probe_ports()[k],
    decreases outcomes.len(),
{
    if outcomes.len() > 0 {
        let shorter = outcomes.drop_last();
        lemma_open_subset_ordered(shorter);
        lemma_probe_ports_ascending();
        let earlier = open_subset(shorter);
        if outcomes.last() && outcomes.len() <= probe_ports().len() {
            let port = probe_ports()[outcomes.len() - 1];
            let all = earlier.push(port);
            assert(open_subset(outcomes) == all);
            assert(probe_ports().contains(port));
            assert forall|i: int, j: int| 0 <= i < j < all.len() implies all[i] < all[j] by {
                if j < earlier.len() {
                } else {
                    assert(earlier[i] < probe_ports()[outcomes.len() - 1]);
                }
            }
            assert forall|i: int| 0 <= i < all.len() implies probe_ports().contains(
                #[trigger] all[i],
            ) by {
                if i < earlier.len() {
                    assert(all[i] == earlier[i]);
                }
            }
        }
    }
}

/// A probe of all six ports that found one open yields a valid port list.
pub proof fn lemma_open_subset_valid(outcomes: Seq<bool>)
    requires
        open_subset(outcomes).len() > 0,
    ensures
        valid_open_ports(open_subset(outcomes)),
{
    lemma_open_subset_ordered(outcomes);
}

} // verus!
