use dnsblk::packet::{decide, find_query, find_udp, FRAME_PREFIX_LEN};
use dnsblk::{dnsblk, domain_to_wire, fnv1a_64, Action};

/// The bytes behind an IP header: UDP, DNS and a question with this name.
fn dns_query(src_port: u16, dst_port: u16, name: &[u8], qtype: u16) -> Vec<u8> {
    let mut bytes = Vec::new();
    bytes.extend_from_slice(&src_port.to_be_bytes());
    bytes.extend_from_slice(&dst_port.to_be_bytes());
    bytes.extend_from_slice(&[0, 0, 0, 0]);
    bytes.extend_from_slice(&[0xab, 0xcd, 0x01, 0x00, 0, 1, 0, 0, 0, 0, 0, 0]);
    bytes.extend_from_slice(name);
    bytes.extend_from_slice(&qtype.to_be_bytes());
    bytes.extend_from_slice(&[0, 1]);
    bytes
}

fn ethernet(ether_type: [u8; 2]) -> Vec<u8> {
    let mut frame = vec![0u8; 12];
    frame.extend_from_slice(&ether_type);
    frame
}

/// A query over IPv4, with an IP header of `words` words.
fn ipv4(words: u8, payload: &[u8]) -> Vec<u8> {
    let mut frame = ethernet([0x08, 0x00]);
    let mut header = vec![0u8; words as usize * 4];
    header[0] = 0x40 + words;
    header[9] = 17;
    header[12..16].copy_from_slice(&[10, 0, 0, 1]);
    header[16..20].copy_from_slice(&[8, 8, 4, 4]);
    frame.extend_from_slice(&header);
    frame.extend_from_slice(payload);
    frame
}

fn ipv6(payload: &[u8]) -> Vec<u8> {
    let mut frame = ethernet([0x86, 0xdd]);
    let mut header = vec![0u8; 40];
    header[0] = 0x60;
    header[6] = 17;
    frame.extend_from_slice(&header);
    frame.extend_from_slice(payload);
    frame
}

fn query_for(domain: &str) -> Vec<u8> {
    ipv4(5, &dns_query(40000, 53, &domain_to_wire(domain), 1))
}

#[test]
fn the_query_of_an_ipv4_frame_is_found() {
    let query = find_query(&query_for("example.com")).unwrap();
    assert_eq!(query.hash, 0x951d_f470_18d5_1fc6);
    assert_eq!(query.event.src_addr.to_le_bytes(), [10, 0, 0, 1]);
    assert_eq!(query.event.dst_addr.to_le_bytes(), [8, 8, 4, 4]);
    assert_eq!(query.event.src_port, 40000);
    assert_eq!(query.event.dst_port, 53);
    assert_eq!(query.event.qtype, 1);
    assert_eq!(query.event._pad, [0, 0]);
    assert_eq!(query.event.domain[..13], domain_to_wire("example.com")[..]);
    assert!(query.event.domain[13..].iter().all(|b| *b == 0));
}

#[test]
fn the_query_of_an_ipv6_frame_is_found() {
    let frame = ipv6(&dns_query(1234, 53, &domain_to_wire("example.com"), 28));
    let udp = find_udp(&frame).unwrap();
    assert_eq!(udp.offset, 54);
    let query = find_query(&frame).unwrap();
    assert_eq!(query.hash, 0x951d_f470_18d5_1fc6);
    assert_eq!(query.event.src_addr, 0);
    assert_eq!(query.event.dst_addr, 0);
    assert_eq!(query.event.qtype, 28);
}

#[test]
fn options_push_the_udp_header_back() {
    let payload = dns_query(40000, 53, &domain_to_wire("example.com"), 1);
    for words in 5..=15u8 {
        let frame = ipv4(words, &payload);
        assert_eq!(find_udp(&frame).unwrap().offset, 14 + words as usize * 4);
        assert_eq!(find_query(&frame).unwrap().hash, 0x951d_f470_18d5_1fc6);
    }
}

#[test]
fn either_port_may_be_that_of_dns() {
    let wire = domain_to_wire("a");
    assert!(find_query(&ipv4(5, &dns_query(53, 9999, &wire, 1))).is_some());
    assert!(find_query(&ipv4(5, &dns_query(9999, 53, &wire, 1))).is_some());
    assert!(find_query(&ipv4(5, &dns_query(9999, 9998, &wire, 1))).is_none());
}

#[test]
fn other_traffic_holds_no_query() {
    let payload = dns_query(40000, 53, &domain_to_wire("a"), 1);
    let mut arp = ipv4(5, &payload);
    arp[12..14].copy_from_slice(&[0x08, 0x06]);
    assert!(find_udp(&arp).is_none());
    let mut tcp = ipv4(5, &payload);
    tcp[23] = 6;
    assert!(find_udp(&tcp).is_none());
    let mut tcp6 = ipv6(&payload);
    tcp6[20] = 6;
    assert!(find_udp(&tcp6).is_none());
    for frame in [arp, tcp, tcp6] {
        assert!(find_query(&frame).is_none());
        let verdict = dnsblk(&frame, |_| true);
        assert_eq!(verdict.action, Action::Pass);
        assert!(verdict.blocked.is_none());
    }
}

#[test]
fn responses_and_empty_questions_pass() {
    let mut response = query_for("a");
    response[14 + 20 + 8 + 2] |= 0x80;
    assert!(find_query(&response).is_none());
    let mut no_question = query_for("a");
    no_question[14 + 20 + 8 + 5] = 0;
    assert!(find_query(&no_question).is_none());
    let mut many = query_for("a");
    many[14 + 20 + 8 + 4] = 1;
    many[14 + 20 + 8 + 5] = 0;
    assert!(find_query(&many).is_some());
}

#[test]
fn a_compressed_name_passes() {
    let frame = ipv4(5, &dns_query(40000, 53, &[1, 97, 0xc0, 12], 1));
    assert!(find_query(&frame).is_none());
    let high = ipv4(5, &dns_query(40000, 53, &[1, 0xbf, 0], 1));
    assert!(find_query(&high).is_some());
}

#[test]
fn a_frame_cut_short_passes() {
    let frame = query_for("a");
    // The query ends with the class, which is not read.
    let needed = frame.len() - 2;
    assert!(find_query(&frame[..needed]).is_some());
    for n in 0..needed {
        assert!(find_query(&frame[..n]).is_none());
    }
}

#[test]
fn addresses_stand_in_the_ring_buffer_as_in_the_frame() {
    let mut frame = query_for("a");
    frame[26..34].copy_from_slice(&[192, 168, 1, 77, 9, 8, 7, 6]);
    let event = find_query(&frame).unwrap().event;
    assert_eq!(event.encode()[..8], frame[26..34]);
    assert_eq!(event.encode()[..8], [192, 168, 1, 77, 9, 8, 7, 6]);
    let verdict = dnsblk(&frame, |_| true);
    assert_eq!(verdict.blocked.unwrap().event.encode()[..8], frame[26..34]);
}

#[test]
fn the_hash_covers_names_that_an_event_has_no_room_for() {
    let x63 = "x".repeat(63);
    // 64 + 63 + 1 bytes.
    let fits = domain_to_wire(&format!("{x63}.{}", "y".repeat(62)));
    assert_eq!(fits.len(), 128);
    let query = find_query(&ipv4(5, &dns_query(40000, 53, &fits, 1))).unwrap();
    assert_eq!(query.hash, fnv1a_64(&fits));
    assert_eq!(query.event.qtype, 1);
    assert_eq!(query.event.domain[..], fits[..]);
    let longer = [
        format!("{x63}.{x63}"),
        format!("{x63}.{x63}.{x63}"),
        format!("{x63}.{x63}.{x63}.{}", "z".repeat(61)),
    ];
    for domain in longer {
        let long = domain_to_wire(&domain);
        assert!(long.len() > 128 && long.len() <= 255);
        for frame in [
            ipv4(5, &dns_query(40000, 53, &long, 28)),
            ipv6(&dns_query(40000, 53, &long, 28)),
        ] {
            let query = find_query(&frame).unwrap();
            assert_eq!(query.hash, fnv1a_64(&long));
            assert_eq!(query.event.domain[..], long[..128]);
            assert_eq!(query.event.qtype, 28);
        }
    }
}

#[test]
fn of_a_question_without_an_end_128_bytes_are_taken() {
    let x63 = "x".repeat(63);
    // The zero byte is the 256th.
    let long = domain_to_wire(&format!("{x63}.{x63}.{x63}.{}", "z".repeat(62)));
    assert_eq!(long.len(), 256);
    let query = find_query(&ipv4(5, &dns_query(40000, 53, &long, 1))).unwrap();
    assert_eq!(query.hash, fnv1a_64(&long[..128]));
    assert_eq!(query.event.domain[..], long[..128]);
    // The bytes behind the first two labels.
    assert_eq!(query.event.qtype, 63 * 256 + 120);
    let frame = ipv4(5, &dns_query(40000, 53, &long, 1));
    let key = fnv1a_64(&long[..128]).to_be_bytes();
    assert_eq!(dnsblk(&frame, |k| k == key).action, Action::Drop);
    assert_eq!(dnsblk(&frame, |k| k != key).action, Action::Pass);
}

#[test]
fn a_frame_may_end_before_the_name_does() {
    let x63 = "x".repeat(63);
    let long = domain_to_wire(&format!("{x63}.{x63}.{x63}"));
    let frame = ipv4(5, &dns_query(40000, 53, &long, 1));
    let question = 14 + 20 + 8 + 12;
    for n in 0..130 {
        assert!(find_query(&frame[..question + n]).is_none());
    }
    for n in 130..long.len() {
        let query = find_query(&frame[..question + n]).unwrap();
        assert_eq!(query.hash, fnv1a_64(&long[..128]));
        assert_eq!(query.event.qtype, 63 * 256 + 120);
    }
    // With the zero byte it is a name, but its type is cut off.
    assert!(find_query(&frame[..question + long.len()]).is_none());
    assert!(find_query(&frame[..question + long.len() + 1]).is_none());
    let query = find_query(&frame[..question + long.len() + 2]).unwrap();
    assert_eq!(query.hash, fnv1a_64(&long));
    assert_eq!(query.event.qtype, 1);
}

#[test]
fn a_pointer_behind_the_room_of_the_event_is_seen() {
    let x63 = "x".repeat(63);
    let mut wire = domain_to_wire(&format!("{x63}.{x63}.a"));
    let last = wire.len() - 1;
    wire[last] = 0xc0;
    assert!(find_query(&ipv4(5, &dns_query(40000, 53, &wire, 1))).is_none());
}

#[test]
fn nothing_behind_the_prefix_matters() {
    assert_eq!(FRAME_PREFIX_LEN, 351);
    let x63 = "x".repeat(63);
    let long = domain_to_wire(&format!("{x63}.{x63}.{x63}.{}", "z".repeat(61)));
    assert_eq!(long.len(), 255);
    let frame = ipv4(15, &dns_query(40000, 53, &long, 1));
    assert!(frame.len() > FRAME_PREFIX_LEN);
    let whole = find_query(&frame).unwrap();
    let prefix = find_query(&frame[..FRAME_PREFIX_LEN]).unwrap();
    assert_eq!(whole.hash, prefix.hash);
    assert_eq!(whole.event.qtype, 1);
    assert_eq!(prefix.event.qtype, 1);
    assert_eq!(whole.event.domain, prefix.event.domain);
    assert!(find_query(&frame[..FRAME_PREFIX_LEN - 1]).is_none());
}

#[test]
fn only_the_name_decides() {
    let key = 0x951d_f470_18d5_1fc6u64.to_be_bytes();
    let wire = domain_to_wire("example.com");
    let mut other_id = query_for("example.com");
    other_id[42] ^= 0xff;
    for frame in [
        query_for("example.com"),
        other_id,
        ipv4(7, &dns_query(53, 1, &wire, 255)),
        ipv6(&dns_query(9, 53, &wire, 28)),
    ] {
        assert_eq!(dnsblk(&frame, |k| k == key).action, Action::Drop);
        assert_eq!(dnsblk(&frame, |k| k != key).action, Action::Pass);
    }
}

#[test]
fn the_deny_map_decides() {
    let frame = query_for("example.com");
    let key = 0x951d_f470_18d5_1fc6u64.to_be_bytes();
    let verdict = dnsblk(&frame, |k| k == key);
    assert_eq!(verdict.action, Action::Drop);
    assert_eq!(verdict.blocked.unwrap().event.dst_port, 53);
    let verdict = dnsblk(&frame, |k| k != key);
    assert_eq!(verdict.action, Action::Pass);
    assert!(verdict.blocked.is_none());
}

#[test]
fn a_query_is_dropped_only_if_denied() {
    let dropped = decide(find_query(&query_for("a")).unwrap(), true);
    assert_eq!(dropped.action, Action::Drop);
    assert!(dropped.blocked.is_some());
    let passed = decide(find_query(&query_for("a")).unwrap(), false);
    assert_eq!(passed.action, Action::Pass);
    assert!(passed.blocked.is_none());
}

#[test]
fn the_event_has_the_hash_of_the_query_unless_the_name_is_cut() {
    let fits = format!("{}.{}", "x".repeat(63), "y".repeat(62));
    for domain in ["", "a", "example.com", fits.as_str()] {
        let query = find_query(&query_for(domain)).unwrap();
        assert_eq!(fnv1a_64(&query.event.domain), query.hash);
    }
    let query = find_query(&query_for(&format!("{fits}y"))).unwrap();
    assert_ne!(fnv1a_64(&query.event.domain), query.hash);
}
