use network_mapper::gate::{AdmissionGate, DEFAULT_CAPACITY};
use network_mapper::host::HostResult;
use network_mapper::os::{classify, contains_port, guess_os, OsGuess};
use network_mapper::ports::{check_open_ports, is_probe_port, probe_port, PROBE_PORT_COUNT};
use network_mapper::probe::{HostProbe, DEFAULT_TIMEOUT_SECS};

fn probe_with(address: u32, outcomes: [bool; 6]) -> Option<HostResult> {
    let mut probe = HostProbe::new(address);
    for connected in outcomes {
        assert!(!probe.is_complete());
        probe.record(connected);
    }
    assert!(probe.is_complete());
    probe.finish()
}

#[test]
fn ssh_with_http_is_linux() {
    assert_eq!(guess_os(&[22, 80]), "Linux");
    assert_eq!(guess_os(&[80, 22]), "Linux");
    assert_eq!(guess_os(&[21, 22, 80, 443]), "Linux");
    assert_eq!(classify(&[22, 80]), OsGuess::Linux);
}

#[test]
fn linux_wins_over_windows() {
    assert_eq!(guess_os(&[22, 80, 3389]), "Linux");
    assert_eq!(guess_os(&[3389, 80, 22]), "Linux");
}

#[test]
fn remote_desktop_is_windows() {
    assert_eq!(guess_os(&[3389]), "Windows");
    assert_eq!(guess_os(&[22, 3389]), "Windows");
    assert_eq!(guess_os(&[80, 3389]), "Windows");
    assert_eq!(classify(&[443, 3389]), OsGuess::Windows);
}

#[test]
fn anything_else_is_unknown() {
    assert_eq!(guess_os(&[]), "Unknown");
    assert_eq!(guess_os(&[22]), "Unknown");
    assert_eq!(guess_os(&[80]), "Unknown");
    assert_eq!(guess_os(&[21, 443, 3306, 5432]), "Unknown");
    assert_eq!(classify(&[]), OsGuess::Unknown);
}

#[test]
fn guess_ignores_order_and_repetition() {
    assert_eq!(guess_os(&[80, 80, 22, 22]), guess_os(&[22, 80]));
    assert_eq!(guess_os(&[443, 21]), guess_os(&[21, 443, 21]));
}

#[test]
fn labels_name_the_three_guesses() {
    assert_eq!(OsGuess::Linux.label(), "Linux");
    assert_eq!(OsGuess::Windows.label(), "Windows");
    assert_eq!(OsGuess::Unknown.label(), "Unknown");
}

#[test]
fn finds_a_port_in_a_list() {
    assert!(contains_port(&[21, 22, 80], 80));
    assert!(contains_port(&[21, 22, 80], 21));
    assert!(!contains_port(&[21, 22, 80], 443));
    assert!(!contains_port(&[], 21));
}

#[test]
fn probes_the_six_ports_in_order() {
    assert_eq!(PROBE_PORT_COUNT, 6);
    let ports: Vec<u16> = (0..PROBE_PORT_COUNT).map(probe_port).collect();
    assert_eq!(ports, vec![21, 22, 80, 443, 3306, 5432]);
}

#[test]
fn knows_its_probe_ports() {
    for port in [21u16, 22, 80, 443, 3306, 5432] {
        assert!(is_probe_port(port));
    }
    for port in [0u16, 20, 23, 79, 81, 3389, 8080, 65535] {
        assert!(!is_probe_port(port));
    }
}

#[test]
fn defaults_are_one_second_and_a_hundred_probes() {
    assert_eq!(DEFAULT_TIMEOUT_SECS, 1);
    assert_eq!(DEFAULT_CAPACITY, 100);
}

#[test]
fn probe_names_each_port_once_and_then_none() {
    let mut probe = HostProbe::new(0x0A00_0001);
    assert_eq!(probe.address(), 0x0A00_0001);
    let mut asked = Vec::new();
    while let Some(port) = probe.next_port() {
        assert_eq!(probe.next_port(), Some(port));
        asked.push(port);
        probe.record(port == 443);
    }
    assert_eq!(asked, vec![21, 22, 80, 443, 3306, 5432]);
    assert!(probe.is_complete());
    assert_eq!(probe.next_port(), None);
    let record = probe.finish().unwrap();
    assert_eq!(record.open_ports(), &vec![443]);
}

#[test]
fn host_without_open_port_gets_no_record() {
    assert!(probe_with(0x0A00_0001, [false; 6]).is_none());
}

#[test]
fn host_with_every_port_open_lists_them_ascending() {
    let record = probe_with(0x0A00_0001, [true; 6]).unwrap();
    assert_eq!(record.open_ports(), &vec![21, 22, 80, 443, 3306, 5432]);
    assert_eq!(record.os_guess(), OsGuess::Linux);
}

#[test]
fn record_shows_address_ports_guess_and_subnet() {
    let record = probe_with(0x0A00_0002, [false, true, true, false, false, false]).unwrap();
    assert_eq!(record.address(), "10.0.0.2");
    assert_eq!(record.address_value(), 0x0A00_0002);
    assert_eq!(record.open_ports(), &vec![22, 80]);
    assert_eq!(record.os_guess(), OsGuess::Linux);
    assert_eq!(record.os_guess().label(), "Linux");
    assert_eq!(record.subnet(), "10.0.0.0/24");
    assert_eq!(record.network(), 0x0A00_0000);
}

#[test]
fn record_keeps_only_the_ports_that_connected() {
    let record = probe_with(0xC0A8_0105, [true, false, false, false, true, true]).unwrap();
    assert_eq!(record.open_ports(), &vec![21, 3306, 5432]);
    assert_eq!(record.os_guess(), OsGuess::Unknown);
    assert_eq!(record.address(), "192.168.1.5");
    assert_eq!(record.subnet(), "192.168.1.0/24");
}

#[test]
fn every_outcome_pattern_gives_the_matching_record() {
    let ports = [21u16, 22, 80, 443, 3306, 5432];
    for pattern in 0u32..64 {
        let mut outcomes = [false; 6];
        let mut expected = Vec::new();
        for bit in 0..6 {
            if pattern & (1 << bit) != 0 {
                outcomes[bit] = true;
                expected.push(ports[bit]);
            }
        }
        let found = probe_with(0x0A01_0203, outcomes);
        if pattern == 0 {
            assert!(found.is_none());
            continue;
        }
        let record = found.unwrap();
        assert_eq!(record.open_ports(), &expected);
        assert_eq!(record.os_guess(), classify(&expected));
        assert_eq!(record.os_guess().label(), guess_os(&expected));
        let linux = outcomes[1] && outcomes[2];
        assert_eq!(record.os_guess(), if linux { OsGuess::Linux } else { OsGuess::Unknown });
        assert_eq!(record.subnet(), "10.1.2.0/24");
        assert_eq!(record.address(), "10.1.2.3");
    }
}

#[test]
fn no_record_is_ever_guessed_to_be_windows() {
    for pattern in 1u32..64 {
        let mut outcomes = [false; 6];
        for bit in 0..6 {
            outcomes[bit] = pattern & (1 << bit) != 0;
        }
        let record = probe_with(pattern, outcomes).unwrap();
        assert_ne!(record.os_guess(), OsGuess::Windows);
        assert_ne!(record.os_guess().label(), "Windows");
    }
}

#[test]
fn subnet_is_the_address_with_its_last_octet_replaced() {
    for address in [0u32, 0x0A00_0002, 0x7F00_0001, 0xC0A8_01FE, 0xFFFF_FFFF, 0x0102_0304] {
        let record = probe_with(address, [true, false, false, false, false, false]).unwrap();
        let text = record.address().clone();
        let cut = text.rfind('.').unwrap();
        assert_eq!(record.subnet(), &format!("{}.0/24", &text[..cut]));
    }
}

#[test]
fn record_is_made_from_valid_ports() {
    let record = HostResult::from_open_ports(0x0A00_0002, vec![22, 80]).unwrap();
    assert_eq!(record.address(), "10.0.0.2");
    assert_eq!(record.open_ports(), &vec![22, 80]);
    assert_eq!(record.os_guess(), OsGuess::Linux);
    assert_eq!(record.subnet(), "10.0.0.0/24");
    let same = probe_with(0x0A00_0002, [false, true, true, false, false, false]).unwrap();
    assert_eq!(same.open_ports(), record.open_ports());
    assert_eq!(same.address(), record.address());
}

#[test]
fn record_is_not_made_from_invalid_ports() {
    assert!(HostResult::from_open_ports(1, vec![]).is_none());
    assert!(HostResult::from_open_ports(1, vec![80, 22]).is_none());
    assert!(HostResult::from_open_ports(1, vec![22, 22]).is_none());
    assert!(HostResult::from_open_ports(1, vec![3389]).is_none());
    assert!(HostResult::from_open_ports(1, vec![22, 8080]).is_none());
    assert!(HostResult::from_open_ports(1, vec![21, 22, 80, 443, 3306, 5432]).is_some());
}

#[test]
fn port_lists_are_checked() {
    assert!(check_open_ports(&[21]));
    assert!(check_open_ports(&[21, 5432]));
    assert!(!check_open_ports(&[]));
    assert!(!check_open_ports(&[5432, 21]));
    assert!(!check_open_ports(&[21, 21]));
    assert!(!check_open_ports(&[23]));
}

#[test]
fn duplicate_shows_what_the_record_shows() {
    let record = probe_with(0xC0A8_0A0A, [true, true, true, false, false, false]).unwrap();
    let copy = record.duplicate();
    assert_eq!(copy.address(), record.address());
    assert_eq!(copy.address_value(), record.address_value());
    assert_eq!(copy.open_ports(), record.open_ports());
    assert_eq!(copy.os_guess(), record.os_guess());
    assert_eq!(copy.subnet(), record.subnet());
}

#[test]
fn gate_admits_up_to_its_capacity() {
    let mut gate = AdmissionGate::new(3);
    assert_eq!(gate.capacity(), 3);
    assert_eq!(gate.in_use(), 0);
    assert_eq!(gate.available(), 3);
    assert!(gate.try_acquire());
    assert!(gate.try_acquire());
    assert!(gate.try_acquire());
    assert_eq!(gate.in_use(), 3);
    assert_eq!(gate.available(), 0);
    assert!(!gate.try_acquire());
    assert_eq!(gate.in_use(), 3);
}

#[test]
fn gate_admits_again_after_a_release() {
    let mut gate = AdmissionGate::new(1);
    assert!(gate.try_acquire());
    assert!(!gate.try_acquire());
    gate.release();
    assert_eq!(gate.in_use(), 0);
    assert!(gate.try_acquire());
    assert_eq!(gate.in_use(), 1);
}

#[test]
fn gate_without_permits_admits_nothing() {
    let mut gate = AdmissionGate::new(0);
    assert!(!gate.try_acquire());
    assert_eq!(gate.in_use(), 0);
    assert_eq!(gate.available(), 0);
}
