use dnsblk::event::BLOCK_EVENT_LEN;
use dnsblk::report::{blocked_domain, blocked_line, counted_line, item_message};
use dnsblk::{
    domain_to_wire, qtype_name, validate_block_event, BlockEvent, WorkerMsg, DNS_TYPE_A,
    DNS_TYPE_AAAA, MAX_DOMAIN_LEN,
};

fn event_for(domain: &str, qtype: u16) -> BlockEvent {
    let mut field = [0u8; MAX_DOMAIN_LEN];
    let wire = domain_to_wire(domain);
    field[..wire.len()].copy_from_slice(&wire);
    BlockEvent {
        src_addr: 0x0a00_0001,
        dst_addr: 0x0808_0404,
        src_port: 40000,
        dst_port: 53,
        qtype,
        _pad: [0; 2],
        domain: field,
    }
}

#[test]
fn the_event_has_the_size_of_its_fields() {
    assert!(validate_block_event());
    assert_eq!(BLOCK_EVENT_LEN, 144);
}

#[test]
fn an_event_is_laid_out_field_by_field() {
    let bytes = event_for("a", 28).encode();
    assert_eq!(&bytes[0..4], &[0x01, 0x00, 0x00, 0x0a]);
    assert_eq!(&bytes[4..8], &[0x04, 0x04, 0x08, 0x08]);
    assert_eq!(&bytes[8..10], &[0x40, 0x9c]);
    assert_eq!(&bytes[10..12], &[53, 0]);
    assert_eq!(&bytes[12..14], &[28, 0]);
    assert_eq!(&bytes[14..16], &[0, 0]);
    assert_eq!(&bytes[16..20], &[1, 97, 0, 0]);
    assert!(bytes[20..].iter().all(|b| *b == 0));
}

#[test]
fn decode_undoes_encode() {
    let sent = event_for("ads.example.com", 65);
    let mut item = sent.encode().to_vec();
    item.extend_from_slice(&[9, 9, 9]);
    let got = BlockEvent::decode(&item).unwrap();
    assert_eq!(got.src_addr, sent.src_addr);
    assert_eq!(got.dst_addr, sent.dst_addr);
    assert_eq!(got.src_port, sent.src_port);
    assert_eq!(got.dst_port, sent.dst_port);
    assert_eq!(got.qtype, 65);
    assert_eq!(got._pad, [0, 0]);
    assert_eq!(got.domain, sent.domain);
}

#[test]
fn a_short_item_holds_no_event() {
    let bytes = event_for("a", 1).encode();
    assert!(BlockEvent::decode(&bytes[..143]).is_none());
    assert!(BlockEvent::decode(&[]).is_none());
    assert!(BlockEvent::decode(&bytes).is_some());
    assert!(item_message(&bytes[..143]).is_none());
}

#[test]
fn query_types_have_names() {
    assert_eq!(DNS_TYPE_A, 1);
    assert_eq!(DNS_TYPE_AAAA, 28);
    assert_eq!(qtype_name(1), "A");
    assert_eq!(qtype_name(28), "AAAA");
    assert_eq!(qtype_name(0), "OTHER");
    assert_eq!(qtype_name(65), "OTHER");
}

#[test]
fn a_blocked_query_has_a_line() {
    assert_eq!(blocked_line(&event_for("example.com", 1)), "Blocked (A) : example.com");
    assert_eq!(blocked_line(&event_for("example.com", 28)), "Blocked (AAAA) : example.com");
    assert_eq!(blocked_line(&event_for("", 2)), "Blocked (OTHER) : ");
    match item_message(&event_for("t.co", 1).encode()) {
        Some(WorkerMsg::Blocked(line)) => assert_eq!(line, "Blocked (A) : t.co"),
        _ => panic!("no line"),
    }
}

#[test]
fn the_line_names_the_domain() {
    assert_eq!(blocked_domain("Blocked (A) : example.com"), "example.com");
    assert_eq!(blocked_domain("Blocked (A) : a : b"), "a : b");
    assert_eq!(blocked_domain("no delimiter"), "no delimiter");
    assert_eq!(blocked_domain(" : "), "");
    assert_eq!(blocked_domain(""), "");
    let odd = event_for("x : y", 1);
    assert_eq!(blocked_domain(&blocked_line(&odd)), "x : y");
}

#[test]
fn reports_left_out_are_counted_in_the_line() {
    assert_eq!(counted_line("line".to_string(), 0), "line");
    assert_eq!(counted_line("line".to_string(), 1), "line (1)");
    assert_eq!(counted_line("line".to_string(), 10), "line (10)");
    assert_eq!(counted_line("line".to_string(), u32::MAX), "line (4294967295)");
}
