//! The record of one host that answered.

use vstd::prelude::*;
use crate::addr::{dotted_quad, format_address, format_subnet, network_of, subnet_text};
use crate::os::{classify, lemma_windows_unreachable, os_of, OsGuess};
use crate::ports::{check_open_ports, valid_open_ports};

verus! {

/// What a host record is made of: the address as a number and the open ports.
/// Everything else that a record shows is derived from these two.
pub struct HostView {
    pub address: u32,
    pub open_ports: Seq<u16>,
}

impl HostView {
    /// The /24 network that the host lies in.
    pub open spec fn network(self) -> u32 {
        network_of(self.address)
    }
}

/// What a list of records stands for.
pub open spec fn views(records: Seq<HostResult>) -> Seq<HostView> {
    records.map_values(|record: HostResult| record@)
}

/// Whether every record of a list is well formed.
pub open spec fn all_wf(records: Seq<HostResult>) -> bool {
    forall|i: int| 0 <= i < records.len() ==> (#[trigger] records[i]).wf()
}

/// A host on which at least one probed port was open. A record is made once,
/// when the probe of its host ends, and does not change afterwards.
#[derive(Debug)]
pub struct HostResult {
    value: u32,
    address: String,
    open_ports: Vec<u16>,
    os_guess: OsGuess,
    subnet: String,
}

impl View for HostResult {
    type V = HostView;

    closed spec fn view(&self) -> HostView {
        HostView { address: self.value, open_ports: self.open_ports@ }
    }
}

impl HostResult {
    /// The address as the record shows it.
    pub closed spec fn address_text(&self) -> Seq<char> {
        self.address@
    }

    /// The network name as the record shows it.
    pub closed spec fn subnet_name(&self) -> Seq<char> {
        self.subnet@
    }

    /// The guess at the operating system as the record shows it.
    pub closed spec fn os(&self) -> OsGuess {
        self.os_guess
    }

    /// A record is well formed when its port list is valid and what it shows
    /// agrees with its address and its ports.
    pub open spec fn wf(&self) -> bool {
        &&& valid_open_ports(self@.open_ports)
        &&& self.address_text() == dotted_quad(self@.address)
        &&& self.subnet_name() == subnet_text(self@.address)
        &&& self.os() == os_of(self@.open_ports)
    }

    /// Makes the record of a host, deriving what it shows.
    pub(crate) fn new(address: u32, open_ports: Vec<u16>) -> (record: HostResult)
        requires
            valid_open_ports(open_ports@),
        ensures
            record.wf(),
            record@ == (HostView { address, open_ports: open_ports@ }),
    {
        let os_guess = classify(open_ports.as_slice());
        HostResult {
            value: address,
            address: format_address(address),
            open_ports,
            os_guess,
            subnet: format_subnet(address),
        }
    }

    /// The record of the host at `address` with these open ports, if a record
    /// may carry them: they must be some of the probed ports, at least one, in
    /// ascending order.
    pub fn from_open_ports(address: u32, open_ports: Vec<u16>) -> (made: Option<HostResult>)
        ensures
            made is Some <==> valid_open_ports(open_ports@),
            made matches Some(record) ==> record.wf() && record@ == (HostView {
                address,
                open_ports: open_ports@,
            }),
    {
        if check_open_ports(open_ports.as_slice()) {
            Some(HostResult::new(address, open_ports))
        } else {
            None
        }
    }

    /// The address as a number; records are ordered by it.
    pub fn address_value(&self) -> (value: u32)
        ensures
            value == self@.address,
    {
        self.value
    }

    /// The address as a canonical dotted quad.
    pub fn address(&self) -> (text: &String)
        ensures
            text@ == self.address_text(),
    {
        &self.address
    }

    /// The open ports, ascending.
    pub fn open_ports(&self) -> (ports: &Vec<u16>)
        ensures
            ports@ == self@.open_ports,
    {
        &self.open_ports
    }

    /// The guess at the operating system.
    pub fn os_guess(&self) -> (os: OsGuess)
        ensures
            os == self.os(),
    {
        self.os_guess
    }

    /// The name of the /24 network that the host lies in.
    pub fn subnet(&self) -> (text: &String)
        ensures
            text@ == self.subnet_name(),
    {
        &self.subnet
    }

    /// The /24 network that the host lies in.
    pub fn network(&self) -> (network: u32)
        ensures
            network == self@.network(),
    {
        self.value - self.value % 0x100
    }

    /// A second record of the same host.
    pub fn duplicate(&self) -> (copy: HostResult)
        ensures
            copy@ == self@,
            copy.address_text() == self.address_text(),
            copy.subnet_name() == self.subnet_name(),
            copy.os() == self.os(),
            self.wf() ==> copy.wf(),
    {
        let mut open_ports: Vec<u16> = Vec::new();
        let mut i: usize = 0;
        while i < self.open_ports.len()
            invariant
                i <= self.open_ports.len(),
                open_ports@ == self.open_ports@.subrange(0, i as int),
            decreases self.open_ports.len() - i,
        {
            open_ports.push(self.open_ports[i]);
            assert(open_ports@ =~= self.open_ports@.subrange(0, i + 1));
            i += 1;
        }
        assert(open_ports@ =~= self.open_ports@);
        HostResult {
            value: self.value,
            address: self.address.clone(),
            open_ports,
            os_guess: self.os_guess,
            subnet: self.subnet.clone(),
        }
    }

    /// The network name of a record is that of its address: the first three
    /// octets of the address as the record shows it, then `.0/24`.
    pub proof fn lemma_subnet_follows_address(&self)
        requires
            self.wf(),
        ensures
            self.subnet_name() == subnet_text(self@.address),
            self.address_text() == dotted_quad(self@.address),
            exists|cut: int|
                0 <= cut <= self.address_text().len() && self.subnet_name()
                    == self.address_text().subrange(0, cut) + seq!['0', '/', '2', '4'],
    {
        crate::addr::lemma_subnet_shares_prefix(self@.address);
    }

    /// The guess of a record is the guess for its ports, and it is never Windows.
    pub proof fn lemma_os_follows_ports(&self)
        requires
            self.wf(),
        ensures
            self.os() == os_of(self@.open_ports),
            self.os() != OsGuess::Windows,
    {
        lemma_windows_unreachable(self@.open_ports);
    }
}

} // verus!
