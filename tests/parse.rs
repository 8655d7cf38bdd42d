use neigh_table::ip::{parse_ip_addr, parse_ipv4, parse_ipv6, IpAddr};
use neigh_table::neighbor::{
    ascii_lowercase, neighbors_from_output, parse_listing, ArpTable, FormatReason, NeighborError,
};
use neigh_table::nud::{parse_nud_from_str, NudState};

fn format_reason(line: &str) -> FormatReason {
    match ArpTable::parse_from_string(line) {
        Err(NeighborError::FormatError(l, why)) => {
            assert_eq!(l, line);
            why
        }
        other => panic!("expected a format error, got {:?}", other),
    }
}

#[test]
fn reachable_ipv4_entry() {
    let line = "192.168.0.33 dev br-lan lladdr dc:a6:32:57:46:d6 ref 1 used 0/0/0 probes 1 REACHABLE";
    let rec = ArpTable::parse_from_string(line).unwrap();
    assert_eq!(rec.ip, IpAddr::V4(vec![192, 168, 0, 33]));
    assert_eq!(rec.iface, "br-lan");
    assert_eq!(rec.mac_addr, "dc:a6:32:57:46:d6");
    assert_eq!(rec.nud_state, NudState::REACHABLE);
}

#[test]
fn entry_without_link_layer_address_is_refused() {
    let line = "192.168.0.2 dev br-lan used 0/0/0 probes 6 FAILED";
    assert_eq!(format_reason(line), FormatReason::NoLinkLayerAddress);
}

#[test]
fn entry_with_double_space_is_refused() {
    let line = "192.168.0.2 dev br-lan  used 0/0/0 probes 6 FAILED";
    assert_eq!(format_reason(line), FormatReason::NoLinkLayerAddress);
}

#[test]
fn stale_ipv6_entry() {
    let line = "fe80::1866:4ccf:140e:95b0 dev br-lan lladdr 1a:42:85:a2:22:fb used 0/0/0 probes 4 STALE";
    let rec = ArpTable::parse_from_string(line).unwrap();
    assert_eq!(
        rec.ip,
        IpAddr::V6(vec![0xfe80, 0, 0, 0, 0x1866, 0x4ccf, 0x140e, 0x95b0])
    );
    assert_eq!(rec.iface, "br-lan");
    assert_eq!(rec.mac_addr, "1a:42:85:a2:22:fb");
    assert_eq!(rec.nud_state, NudState::STALE);
}

#[test]
fn mac_address_is_lower_cased() {
    let line = "10.0.0.1 DEV eth0 LLADDR DC:A6:32:57:46:D6 Stale";
    let rec = ArpTable::parse_from_string(line).unwrap();
    assert_eq!(rec.mac_addr, "dc:a6:32:57:46:d6");
    assert_eq!(rec.iface, "eth0");
    assert_eq!(rec.nud_state, NudState::STALE);
}

#[test]
fn interface_kept_verbatim() {
    let line = "10.0.0.1 dev Eth-WAN.7 lladdr 00:01:5c:68:3c:46 PERMANENT";
    let rec = ArpTable::parse_from_string(line).unwrap();
    assert_eq!(rec.iface, "Eth-WAN.7");
    assert_eq!(rec.nud_state, NudState::PERMANENT);
}

#[test]
fn too_few_fields() {
    assert_eq!(format_reason("10.0.0.1 dev eth0 lladdr aa:bb"), FormatReason::UnexpectedString);
    assert_eq!(format_reason(""), FormatReason::UnexpectedString);
}

#[test]
fn bad_address() {
    let line = "10.0.0.256 dev eth0 lladdr aa:bb:cc:dd:ee:ff REACHABLE";
    assert_eq!(format_reason(line), FormatReason::BadAddress);
    let line = "router dev eth0 lladdr aa:bb:cc:dd:ee:ff REACHABLE";
    assert_eq!(format_reason(line), FormatReason::BadAddress);
}

#[test]
fn second_field_not_dev() {
    let line = "10.0.0.1 via eth0 lladdr aa:bb:cc:dd:ee:ff REACHABLE";
    assert_eq!(format_reason(line), FormatReason::NoDevice);
}

#[test]
fn fourth_field_not_lladdr() {
    let line = "10.0.0.1 dev eth0 mac aa:bb:cc:dd:ee:ff REACHABLE";
    assert_eq!(format_reason(line), FormatReason::NoLinkLayerAddress);
}

#[test]
fn unknown_state_word() {
    let line = "10.0.0.1 dev eth0 lladdr aa:bb:cc:dd:ee:ff ref 1 BOGUS";
    let rec = ArpTable::parse_from_string(line).unwrap();
    assert_eq!(rec.nud_state, NudState::UNKNOWN);
}

#[test]
fn parsing_twice_gives_equal_records() {
    let line = "192.168.0.8 dev br-lan lladdr 88:66:5a:49:16:b3 used 0/0/0 probes 1 STALE";
    assert_eq!(
        ArpTable::parse_from_string(line),
        ArpTable::parse_from_string(line)
    );
}

#[test]
fn state_keywords_in_any_case() {
    let cases = [
        ("permanent", NudState::PERMANENT),
        ("NoArp", NudState::NOARP),
        ("REACHABLE", NudState::REACHABLE),
        ("stale", NudState::STALE),
        ("nOnE", NudState::NONE),
        ("Incomplete", NudState::INCOMPLETE),
        ("delay", NudState::DELAY),
        ("PROBE", NudState::PROBE),
        ("failed", NudState::FAILED),
        ("", NudState::UNKNOWN),
        ("STALEE", NudState::UNKNOWN),
        ("unknown", NudState::UNKNOWN),
    ];
    for (word, state) in cases {
        assert_eq!(parse_nud_from_str(word), state, "{}", word);
    }
}

#[test]
fn ipv4_forms() {
    assert_eq!(parse_ipv4("0.0.0.0"), Some(vec![0, 0, 0, 0]));
    assert_eq!(parse_ipv4("255.255.255.255"), Some(vec![255, 255, 255, 255]));
    assert_eq!(parse_ipv4("172.119.56.1"), Some(vec![172, 119, 56, 1]));
    assert_eq!(parse_ipv4("01.2.3.4"), None);
    assert_eq!(parse_ipv4("1.2.3"), None);
    assert_eq!(parse_ipv4("1.2.3.4.5"), None);
    assert_eq!(parse_ipv4("1.2.3.256"), None);
    assert_eq!(parse_ipv4("1..3.4"), None);
    assert_eq!(parse_ipv4("1.2.3.0004"), None);
}

#[test]
fn ipv6_forms() {
    assert_eq!(parse_ipv6("::"), Some(vec![0; 8]));
    assert_eq!(parse_ipv6("::1"), Some(vec![0, 0, 0, 0, 0, 0, 0, 1]));
    assert_eq!(parse_ipv6("1::"), Some(vec![1, 0, 0, 0, 0, 0, 0, 0]));
    assert_eq!(parse_ipv6("1:2:3:4:5:6:7:8"), Some(vec![1, 2, 3, 4, 5, 6, 7, 8]));
    assert_eq!(
        parse_ipv6("fd35:e227:2f15::169"),
        Some(vec![0xfd35, 0xe227, 0x2f15, 0, 0, 0, 0, 0x169])
    );
    assert_eq!(
        parse_ipv6("::ffff:192.168.0.1"),
        Some(vec![0, 0, 0, 0, 0, 0xffff, 0xc0a8, 0x0001])
    );
    assert_eq!(
        parse_ipv6("1:2:3:4:5:6:1.2.3.4"),
        Some(vec![1, 2, 3, 4, 5, 6, 0x0102, 0x0304])
    );
    assert_eq!(parse_ipv6("ABCD::0001"), Some(vec![0xabcd, 0, 0, 0, 0, 0, 0, 1]));
    assert_eq!(parse_ipv6("1:2:3:4:5:6:7::"), Some(vec![1, 2, 3, 4, 5, 6, 7, 0]));
    assert_eq!(parse_ipv6(":"), None);
    assert_eq!(parse_ipv6(":::"), None);
    assert_eq!(parse_ipv6("1:"), None);
    assert_eq!(parse_ipv6(":1::"), None);
    assert_eq!(parse_ipv6("1::2::3"), None);
    assert_eq!(parse_ipv6("1:2:3:4:5:6:7"), None);
    assert_eq!(parse_ipv6("1:2:3:4:5:6:7:8:9"), None);
    assert_eq!(parse_ipv6("1::2:3:4:5:6:7:8"), None);
    assert_eq!(parse_ipv6("12345::"), None);
    assert_eq!(parse_ipv6("1:2:3:4:5:6::1.2.3.4"), None);
    assert_eq!(parse_ipv6("1.2.3.4::"), None);
    assert_eq!(parse_ipv6("g::"), None);
}

#[test]
fn dotted_quad_reads_as_ipv4() {
    assert_eq!(parse_ip_addr("10.1.2.3"), Some(IpAddr::V4(vec![10, 1, 2, 3])));
    assert_eq!(
        parse_ip_addr("fe80::e132:56de:1eac:d560"),
        Some(IpAddr::V6(vec![0xfe80, 0, 0, 0, 0xe132, 0x56de, 0x1eac, 0xd560]))
    );
    assert_eq!(parse_ip_addr("10.1.2"), None);
}

#[test]
fn listing_reads_every_line_in_order() {
    let text = "192.168.0.33 dev br-lan lladdr dc:a6:32:57:46:d6 ref 1 used 0/0/0 probes 1 REACHABLE\n\
                \n   \t\n  192.168.0.200 dev br-lan lladdr 0a:99:ad:f6:ce:e6 used 0/0/0 probes 1 STALE  \n\
                fe80::1866:4ccf:140e:95b0 dev br-lan lladdr 1a:42:85:a2:22:fb used 0/0/0 probes 4 STALE\n";
    let recs = parse_listing(text).unwrap();
    assert_eq!(recs.len(), 3);
    assert_eq!(recs[0].ip, IpAddr::V4(vec![192, 168, 0, 33]));
    assert_eq!(recs[1].ip, IpAddr::V4(vec![192, 168, 0, 200]));
    assert_eq!(recs[1].nud_state, NudState::STALE);
    assert_eq!(recs[2].mac_addr, "1a:42:85:a2:22:fb");
}

#[test]
fn empty_listing_gives_no_records() {
    assert_eq!(parse_listing(""), Ok(vec![]));
    assert_eq!(parse_listing("\n \n"), Ok(vec![]));
}

#[test]
fn one_bad_line_fails_the_listing() {
    let good = "192.168.0.5 dev br-lan lladdr dc:a6:32:a3:48:b1 ref 1 used 0/0/0 probes 1 REACHABLE";
    let bad = "192.168.0.2 dev br-lan used 0/0/0 probes 6 FAILED";
    for pos in 0..3 {
        let mut lines = vec![good; 3];
        lines.insert(pos, bad);
        let text = lines.join("\n");
        assert_eq!(
            parse_listing(&text),
            Err(NeighborError::FormatError(
                bad.to_string(),
                FormatReason::NoLinkLayerAddress
            ))
        );
    }
}

#[test]
fn failed_command_reports_lower_cased_error_output() {
    let r = neighbors_from_output(
        false,
        "192.168.0.5 dev br-lan lladdr dc:a6:32:a3:48:b1 REACHABLE",
        b"Cannot Open NETLINK socket",
    );
    assert_eq!(
        r,
        Err(NeighborError::CommandError(b"cannot open netlink socket".to_vec()))
    );
}

#[test]
fn successful_command_reads_its_output() {
    let r = neighbors_from_output(
        true,
        "192.168.0.5 dev br-lan lladdr DC:A6:32:A3:48:B1 ref 1 REACHABLE\n",
        b"",
    )
    .unwrap();
    assert_eq!(r.len(), 1);
    assert_eq!(r[0].mac_addr, "dc:a6:32:a3:48:b1");
}

#[test]
fn ascii_lowercase_leaves_other_bytes() {
    assert_eq!(ascii_lowercase(b"AZaz@[09\xc3\x89"), b"azaz@[09\xc3\x89".to_vec());
}

#[test]
fn reasons_read_as_text() {
    assert_eq!(FormatReason::UnexpectedString.describe(), "unexpected string");
    assert_eq!(FormatReason::BadAddress.describe(), "failed to parse address");
    assert_eq!(FormatReason::NoDevice.describe(), "no device name found");
    assert_eq!(FormatReason::NoLinkLayerAddress.describe(), "no link layer address found");
}

#[test]
fn state_keywords_through_unicode_upper_case() {
    assert_eq!(parse_nud_from_str("\u{17f}tale"), NudState::STALE);
    assert_eq!(parse_nud_from_str("\u{fb06}ale"), NudState::STALE);
    assert_eq!(parse_nud_from_str("\u{131}ncomplete"), NudState::INCOMPLETE);
    assert_eq!(parse_nud_from_str("fa\u{131}led"), NudState::FAILED);
    assert_eq!(parse_nud_from_str("st\u{e4}le"), NudState::UNKNOWN);
}

#[test]
fn listing_trims_unicode_white_space() {
    let text = "\u{a0}\u{3000}\n\u{2003}10.0.0.1 dev eth0 lladdr aa:bb:cc:dd:ee:ff REACHABLE\u{a0}\n\u{85}\t\n";
    let recs = parse_listing(text).unwrap();
    assert_eq!(recs.len(), 1);
    assert_eq!(recs[0].ip, IpAddr::V4(vec![10, 0, 0, 1]));
    assert_eq!(recs[0].nud_state, NudState::REACHABLE);
}
