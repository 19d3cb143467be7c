use cfip::ip::{parse_ranges, require_ranges, sample_ips, AddressRange};
use cfip::PipelineError;

fn v4(base: u32, prefix: u8) -> AddressRange {
    AddressRange { v6: false, base: base as u128, prefix }
}

#[test]
fn parses_lines_skipping_blank_and_garbage() {
    let text: Vec<u8> =
        b"173.245.48.0/20\n\n  not-a-cidr \n103.21.244.0/22\r\n   \n".to_vec();
    let ranges = parse_ranges(&text);
    assert_eq!(ranges.len(), 2);
    assert!(!ranges[0].v6);
    assert_eq!(ranges[0].base, 0xADF5_3000u128);
    assert_eq!(ranges[0].prefix, 20);
    assert!(!ranges[1].v6);
    assert_eq!(ranges[1].base, 0x6715_F400u128);
    assert_eq!(ranges[1].prefix, 22);
}

#[test]
fn parses_ipv6_lines() {
    let text: Vec<u8> = b"2400:cb00::/32\n".to_vec();
    let ranges = parse_ranges(&text);
    assert_eq!(ranges.len(), 1);
    assert!(ranges[0].v6);
    assert_eq!(ranges[0].base, 0x2400_cb00u128 << 96);
    assert_eq!(ranges[0].prefix, 32);
}

#[test]
fn masks_host_bits_of_parsed_network() {
    let text: Vec<u8> = b"192.168.1.77/24\n".to_vec();
    let ranges = parse_ranges(&text);
    assert_eq!(ranges.len(), 1);
    assert_eq!(ranges[0].base, 0xC0A8_0100u128);
}

#[test]
fn empty_document_parses_to_nothing() {
    let text: Vec<u8> = b"\n\n  \n".to_vec();
    let ranges = parse_ranges(&text);
    assert_eq!(ranges.len(), 0);
}

#[test]
fn document_with_no_parseable_line_is_fatal() {
    let text: Vec<u8> = b"not-a-cidr\n999.999.0.0/8\n10.0.0.0/99\n\n".to_vec();
    let ranges = parse_ranges(&text);
    assert!(ranges.is_empty());
    assert!(matches!(require_ranges(ranges), Err(PipelineError::NoRanges)));
}

#[test]
fn empty_range_list_is_fatal() {
    let r = require_ranges(Vec::new());
    assert!(matches!(r, Err(PipelineError::NoRanges)));
    let ok = require_ranges(vec![v4(0x0A00_0000, 8)]);
    assert!(ok.is_ok());
    assert_eq!(ok.unwrap().len(), 1);
}

#[test]
fn policy_table_counts_are_exact() {
    // One /32, one /28 and one /22: 1 + 2 + 5 candidates.
    let ranges = vec![v4(0x0101_0101, 32), v4(0x0A00_0010, 28), v4(0x0A01_0000, 22)];
    let ips = sample_ips(&ranges);
    assert_eq!(ips.len(), 8);
}

#[test]
fn samples_are_distinct_and_inside_the_range() {
    // A /29 holds 8 addresses, 6 usable; the policy draws 2 of them.
    let base = 0xC0A8_0100u128; // 192.168.1.0
    let ranges = vec![v4(base as u32, 29)];
    for _ in 0..50 {
        let ips = sample_ips(&ranges);
        assert_eq!(ips.len(), 2);
        assert_ne!(ips[0].addr, ips[1].addr);
        for c in &ips {
            assert!(!c.v6);
            // Network and broadcast addresses never appear.
            assert_ne!(c.addr, base);
            assert_ne!(c.addr, base + 7);
            assert!(base + 1 <= c.addr && c.addr <= base + 6);
        }
    }
}

#[test]
fn tiny_ranges_are_taken_whole() {
    // A /31 has two addresses, both usable, and the policy takes them all.
    let base = 0xC0A8_0200u128;
    let ips = sample_ips(&vec![v4(base as u32, 31)]);
    assert_eq!(ips.len(), 2);
    let mut addrs: Vec<u128> = ips.iter().map(|c| c.addr).collect();
    addrs.sort();
    assert_eq!(addrs, vec![base, base + 1]);
}

#[test]
fn ipv6_ranges_contribute_five() {
    let r = AddressRange { v6: true, base: 0x2400_cb00u128 << 96, prefix: 32 };
    let ips = sample_ips(&vec![r]);
    assert_eq!(ips.len(), 5);
    for c in &ips {
        assert!(c.v6);
        // The first and last address of the block are excluded here too.
        assert!(c.addr > r.base);
        assert!(c.addr < r.base + (1u128 << 96) - 1);
    }
    for i in 0..5 {
        for j in 0..5 {
            if i != j {
                assert_ne!(ips[i].addr, ips[j].addr);
            }
        }
    }
}

#[test]
fn no_ranges_no_candidates() {
    let ips = sample_ips(&Vec::new());
    assert_eq!(ips.len(), 0);
}

#[test]
fn disjoint_ranges_contribute_their_exact_counts() {
    // Two disjoint blocks: a /29 and a /28, two samples each.
    let a = v4(0xC0A8_0100, 29); // 192.168.1.0/29
    let b = v4(0x0A00_0020, 28); // 10.0.0.32/28
    let ips = sample_ips(&vec![a, b]);
    assert_eq!(ips.len(), 4);
    let in_a = ips.iter().filter(|c| (0xC0A8_0100..0xC0A8_0108).contains(&c.addr)).count();
    let in_b = ips.iter().filter(|c| (0x0A00_0020..0x0A00_0030).contains(&c.addr)).count();
    assert_eq!(in_a, 2);
    assert_eq!(in_b, 2);
}

#[test]
fn policy_table_boundaries() {
    assert_eq!(v4(0x0101_0101, 32).policy(), 1);
    assert_eq!(v4(0x0A00_0000, 31).policy(), 2); // all usable: both addresses
    assert_eq!(v4(0x0A00_0000, 30).policy(), 2);
    assert_eq!(v4(0x0A00_0000, 25).policy(), 2);
    assert_eq!(v4(0x0A00_0000, 24).policy(), 5);
    assert_eq!(v4(0x0A00_0000, 21).policy(), 5);
    assert_eq!(v4(0x0A00_0000, 20).policy(), 10);
    assert_eq!(v4(0x0A00_0000, 17).policy(), 10);
    assert_eq!(v4(0x0A00_0000, 16).policy(), 20);
    assert_eq!(v4(0x0A00_0000, 8).policy(), 20);
    let r6 = AddressRange { v6: true, base: 0x2400_cb00u128 << 96, prefix: 32 };
    assert_eq!(r6.policy(), 5);
}

#[test]
fn usable_counts_exclude_network_and_broadcast() {
    assert_eq!(v4(0x0101_0101, 32).usable(), 1);
    assert_eq!(v4(0x0A00_0000, 31).usable(), 2);
    assert_eq!(v4(0x0A00_0000, 30).usable(), 2);
    assert_eq!(v4(0x0A00_0000, 24).usable(), 254);
    assert_eq!(v4(0x0A00_0000, 24).first(), 0x0A00_0001);
    assert_eq!(v4(0x0A00_0000, 31).first(), 0x0A00_0000);
    let r6 = AddressRange { v6: true, base: 0, prefix: 0 };
    assert_eq!(r6.usable(), u128::MAX - 1);
}
