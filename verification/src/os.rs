//! The coarse guess at a host's operating system, from its open ports alone.

use vstd::prelude::*;
use crate::ports::probe_ports;

verus! {

/// What a host is taken to run.
#[derive(Clone, Copy, Debug, PartialEq, Eq, Structural)]
pub enum OsGuess {
    Linux,
    Windows,
    Unknown,
}

/// The guess for a set of open ports: SSH together with HTTP speaks for Linux,
/// otherwise remote desktop speaks for Windows, otherwise nothing is known.
pub open spec fn os_of(ports: Seq<u16>) -> OsGuess {
    if ports.contains(22u16) && ports.contains(80u16) {
        OsGuess::Linux
    } else if ports.contains(3389u16) {
        OsGuess::Windows
    } else {
        OsGuess::Unknown
    }
}

impl OsGuess {
    /// The name under which the guess is shown.
    pub open spec fn label_text(self) -> Seq<char> {
        match self {
            OsGuess::Linux => "Linux"@,
            OsGuess::Windows => "Windows"@,
            OsGuess::Unknown => "Unknown"@,
        }
    }

    /// The name under which the guess is shown.
    pub fn label(&self) -> (text: String)
        ensures
            text@ == self.label_text(),
    {
        match self {
            OsGuess::Linux => "Linux".to_owned(),
            OsGuess::Windows => "Windows".to_owned(),
            OsGuess::Unknown => "Unknown".to_owned(),
        }
    }
}

/// Whether `port` occurs in `ports`.
pub fn contains_port(ports: &[u16], port: u16) -> (found: bool)
    ensures
        found == ports@.contains(port),
{
    let mut i: usize = 0;
    while i < ports.len()
        invariant
            i <= ports.len(),
            forall|k: int| 0 <= k < i ==> ports@[k] != port,
        decreases ports.len() - i,
    {
        if ports[i] == port {
            return true;
        }
        i += 1;
    }
    false
}

/// Guesses the operating system behind a list of open ports.
pub fn classify(open_ports: &[u16]) -> (os: OsGuess)
    ensures
        os == os_of(open_ports@),
{
    if contains_port(open_ports, 22) && contains_port(open_ports, 80) {
        OsGuess::Linux
    } else if contains_port(open_ports, 3389) {
        OsGuess::Windows
    } else {
        OsGuess::Unknown
    }
}

/// Guesses the operating system behind a list of open ports and names it.
pub fn guess_os(open_ports: &[u16]) -> (label: String)
    ensures
        label@ == os_of(open_ports@).label_text(),
{
    classify(open_ports).label()
}

/// The guess depends on which ports are open, not on their order or number of
/// occurrences.
pub proof fn lemma_os_of_depends_on_port_set(a: Seq<u16>, b: Seq<u16>)
    requires
        a.to_set() == b.to_set(),
    ensures
        os_of(a) == os_of(b),
{
    assert forall|p: u16| a.contains(p) == b.contains(p) by {
        assert(a.to_set().contains(p) == a.contains(p));
        assert(b.to_set().contains(p) == b.contains(p));
    }
}

/// No list drawn from the probed ports is ever taken for Windows: the port that
/// speaks for it is not among those probed.
pub proof fn lemma_windows_unreachable(ports: Seq<u16>)
    requires
        forall|i: int| 0 <= i < ports.len() ==> probe_ports().contains(#[trigger] ports[i]),
    ensures
        os_of(ports) != OsGuess::Windows,
{
    if ports.contains(3389u16) {
        let i = choose|i: int| 0 <= i < ports.len() && ports[i] == 3389u16;
        assert(probe_ports().contains(ports[i]));
        let k = choose|k: int| 0 <= k < probe_ports().len() && probe_ports()[k] == 3389u16;
        assert(false);
    }
}

} // verus!
