use network_mapper::addr::{format_address, format_subnet, parse_address};
use network_mapper::error::ScanError;
use network_mapper::range::AddressRange;

#[test]
fn formats_the_lowest_and_the_highest_address() {
    assert_eq!(format_address(0), "0.0.0.0");
    assert_eq!(format_address(u32::MAX), "255.255.255.255");
}

#[test]
fn formats_octets_of_one_two_and_three_digits() {
    assert_eq!(format_address(0x0A00_0002), "10.0.0.2");
    assert_eq!(format_address(0xC0A8_01FE), "192.168.1.254");
    assert_eq!(format_address(0x0109_6340), "1.9.99.64");
    assert_eq!(format_address(0x640A_C7C8), "100.10.199.200");
}

#[test]
fn names_the_network_by_the_first_three_octets() {
    assert_eq!(format_subnet(0x0A00_0002), "10.0.0.0/24");
    assert_eq!(format_subnet(0xC0A8_01FE), "192.168.1.0/24");
    assert_eq!(format_subnet(0), "0.0.0.0/24");
    assert_eq!(format_subnet(u32::MAX), "255.255.255.0/24");
}

#[test]
fn network_name_does_not_depend_on_the_last_octet() {
    for last in 0..=255u32 {
        assert_eq!(format_subnet(0xAC10_0500 + last), "172.16.5.0/24");
    }
}

#[test]
fn parses_canonical_dotted_quads() {
    assert_eq!(parse_address("0.0.0.0"), Ok(0));
    assert_eq!(parse_address("255.255.255.255"), Ok(u32::MAX));
    assert_eq!(parse_address("10.0.0.2"), Ok(0x0A00_0002));
    assert_eq!(parse_address("192.168.1.1"), Ok(0xC0A8_0101));
    assert_eq!(parse_address("192.168.1.254"), Ok(0xC0A8_01FE));
    assert_eq!(parse_address("1.20.250.9"), Ok(0x0114_FA09));
}

#[test]
fn refuses_text_with_too_few_or_too_many_octets() {
    for text in ["", "1", "1.2", "1.2.3", "1.2.3.4.5", "1.2.3.4.", ".1.2.3.4", "1..2.3", "...", "1.2.3."] {
        assert_eq!(parse_address(text), Err(ScanError::AddressParseError), "{text:?}");
    }
}

#[test]
fn refuses_octets_above_255() {
    for text in ["256.0.0.0", "0.256.0.0", "0.0.256.0", "0.0.0.256", "999.1.1.1", "1.1.1.1000", "1.2.3.4294967296"] {
        assert_eq!(parse_address(text), Err(ScanError::AddressParseError), "{text:?}");
    }
}

#[test]
fn refuses_leading_zeros() {
    for text in ["01.2.3.4", "1.02.3.4", "1.2.003.4", "1.2.3.04", "00.0.0.0", "1.2.3.00"] {
        assert_eq!(parse_address(text), Err(ScanError::AddressParseError), "{text:?}");
    }
}

#[test]
fn refuses_anything_that_is_not_digits_and_dots() {
    for text in [
        "a.b.c.d", "1.2.3.4 ", " 1.2.3.4", "1.2.3.4\n", "-1.2.3.4", "+1.2.3.4", "1,2,3,4",
        "1.2.3.4/24", "0x1.2.3.4", "1.2.3.x", "localhost", "::1", "\u{ff11}.2.3.4", "1.2.3.\u{663}",
    ] {
        assert_eq!(parse_address(text), Err(ScanError::AddressParseError), "{text:?}");
    }
}

#[test]
fn parsing_undoes_formatting() {
    let mut address: u32 = 0;
    for _ in 0..5000 {
        let text = format_address(address);
        assert_eq!(parse_address(&text), Ok(address), "{text}");
        address = address.wrapping_mul(1_664_525).wrapping_add(1_013_904_223);
    }
    for address in [0, 1, 255, 256, 65_535, 65_536, 16_777_215, 16_777_216, u32::MAX - 1, u32::MAX] {
        assert_eq!(parse_address(&format_address(address)), Ok(address));
    }
}

#[test]
fn formatting_undoes_parsing() {
    for text in ["8.8.8.8", "127.0.0.1", "10.10.10.10", "200.100.50.25", "9.99.199.0"] {
        let address = parse_address(text).unwrap();
        assert_eq!(format_address(address), text);
    }
}

#[test]
fn different_addresses_have_different_texts() {
    let near: Vec<u32> = vec![0x0101_0101, 0x0101_0102, 0x0101_0201, 0x0102_0101, 0x0201_0101, 0x0B01_0101, 0x010B_0101];
    for (i, a) in near.iter().enumerate() {
        for (j, b) in near.iter().enumerate() {
            assert_eq!(format_address(*a) == format_address(*b), i == j);
        }
    }
}

#[test]
fn range_counts_its_addresses() {
    assert_eq!(AddressRange::new(0x0A00_0001, 0x0A00_0003).len(), 3);
    assert_eq!(AddressRange::new(7, 7).len(), 1);
    assert_eq!(AddressRange::new(0xC0A8_0101, 0xC0A8_01FE).len(), 254);
    assert_eq!(AddressRange::new(0, u32::MAX).len(), 4_294_967_296);
}

#[test]
fn range_with_start_above_end_is_empty() {
    let range = AddressRange::new(10, 9);
    assert_eq!(range.len(), 0);
    assert!(range.is_empty());
    assert_eq!(range.get(0), None);
    assert!(!range.contains(9));
    assert!(!range.contains(10));
    assert!(!AddressRange::new(10, 10).is_empty());
}

#[test]
fn range_hands_out_addresses_in_ascending_order() {
    let range = AddressRange::new(0x0A00_00FE, 0x0A00_0101);
    let got: Vec<Option<u32>> = (0..6).map(|i| range.get(i)).collect();
    assert_eq!(
        got,
        vec![Some(0x0A00_00FE), Some(0x0A00_00FF), Some(0x0A00_0100), Some(0x0A00_0101), None, None]
    );
    assert_eq!(range.get(1), Some(0x0A00_00FF));
    assert_eq!(range.get(u64::MAX), None);
}

#[test]
fn range_reaches_the_highest_address() {
    let range = AddressRange::new(u32::MAX - 1, u32::MAX);
    assert_eq!(range.len(), 2);
    assert_eq!(range.get(1), Some(u32::MAX));
    assert_eq!(range.get(2), None);
    assert_eq!(AddressRange::new(0, u32::MAX).get(4_294_967_295), Some(u32::MAX));
}

#[test]
fn range_contains_its_bounds_and_what_lies_between() {
    let range = AddressRange::new(100, 200);
    assert!(range.contains(100));
    assert!(range.contains(150));
    assert!(range.contains(200));
    assert!(!range.contains(99));
    assert!(!range.contains(201));
}

#[test]
fn range_is_parsed_from_two_texts() {
    assert_eq!(
        AddressRange::parse("192.168.1.1", "192.168.1.254"),
        Ok(AddressRange { start: 0xC0A8_0101, end: 0xC0A8_01FE })
    );
    assert_eq!(
        AddressRange::parse("10.0.0.3", "10.0.0.1"),
        Ok(AddressRange { start: 0x0A00_0003, end: 0x0A00_0001 })
    );
}

#[test]
fn range_with_a_malformed_bound_is_refused() {
    assert_eq!(AddressRange::parse("192.168.1", "192.168.1.254"), Err(ScanError::AddressParseError));
    assert_eq!(AddressRange::parse("192.168.1.1", "192.168.1.256"), Err(ScanError::AddressParseError));
    assert_eq!(AddressRange::parse("", ""), Err(ScanError::AddressParseError));
}

#[test]
fn errors_describe_themselves() {
    assert_eq!(ScanError::AddressParseError.message(), "invalid IPv4 address syntax");
    assert_eq!(ScanError::TaskFailure.message(), "a host scan task failed");
    assert_ne!(ScanError::AddressParseError, ScanError::TaskFailure);
}
