use dnsblk::report::{blocked_domain, item_message};
use dnsblk::{dnsblk, domain_to_wire, load_deny_map, Action, DenyPlan, WorkerMsg};

fn query_for(wire: &[u8]) -> Vec<u8> {
    let mut frame = vec![0u8; 12];
    frame.extend_from_slice(&[0x08, 0x00, 0x45]);
    frame.extend_from_slice(&[0; 8]);
    frame.push(17);
    frame.extend_from_slice(&[0; 10]);
    frame.extend_from_slice(&[0x30, 0x39, 0, 53, 0, 0, 0, 0]);
    frame.extend_from_slice(&[0, 0, 1, 0, 0, 1, 0, 0, 0, 0, 0, 0]);
    frame.extend_from_slice(wire);
    frame.extend_from_slice(&[0, 28, 0, 1]);
    frame
}

fn has_key(plan: &DenyPlan, key: [u8; 8]) -> bool {
    plan.entries.iter().any(|entry| entry.key == key)
}

#[test]
fn a_listed_domain_is_blocked_and_named() {
    let plan = load_deny_map("# ads\n  ADS.Example.com.\ntracker.test\n");
    let frame = query_for(&domain_to_wire("ads.example.com"));
    let verdict = dnsblk(&frame, |key| has_key(&plan, key));
    assert_eq!(verdict.action, Action::Drop);
    let item = verdict.blocked.unwrap().event.encode();
    match item_message(&item) {
        Some(WorkerMsg::Blocked(line)) => {
            assert_eq!(line, "Blocked (AAAA) : ads.example.com");
            assert_eq!(blocked_domain(&line), "ads.example.com");
        }
        _ => panic!("no report"),
    }
}

#[test]
fn other_domains_pass() {
    let plan = load_deny_map("ads.example.com\n");
    for domain in ["example.com", "x.ads.example.com", "ads.example.org", ""] {
        let frame = query_for(&domain_to_wire(domain));
        let verdict = dnsblk(&frame, |key| has_key(&plan, key));
        assert_eq!(verdict.action, Action::Pass);
        assert!(verdict.blocked.is_none());
    }
}

#[test]
fn names_are_compared_as_they_come() {
    let plan = load_deny_map("ads.example.com\n");
    let frame = query_for(b"\x03ADS\x07example\x03com\x00");
    let verdict = dnsblk(&frame, |key| has_key(&plan, key));
    assert_eq!(verdict.action, Action::Pass);
}

#[test]
fn long_names_are_blocked_and_named_as_far_as_they_fit() {
    let x63 = "x".repeat(63);
    let y62 = "y".repeat(62);
    let y63 = "y".repeat(63);
    let z61 = "z".repeat(61);
    // What a name of 128, 129, 193 and 255 bytes is reported as. The last label of
    // the second ends where the event does, without the zero byte.
    let cases = [
        (format!("{x63}.{y62}"), format!("{x63}.{y62}")),
        (format!("{x63}.{y63}"), format!("{x63}.{y63}")),
        (format!("{x63}.{y62}.{x63}"), format!("{x63}.{y62}")),
        (format!("{x63}.{y63}.{x63}.{z61}"), format!("{x63}.{y63}")),
    ];
    for (domain, shown) in cases {
        let plan = load_deny_map(&domain);
        assert_eq!(plan.entries.len(), 1);
        let frame = query_for(&domain_to_wire(&domain));
        let verdict = dnsblk(&frame, |key| has_key(&plan, key));
        assert_eq!(verdict.action, Action::Drop);
        match item_message(&verdict.blocked.unwrap().event.encode()) {
            Some(WorkerMsg::Blocked(line)) => assert_eq!(blocked_domain(&line), shown),
            _ => panic!("no report"),
        }
    }
}

#[test]
fn names_with_high_bytes_pass() {
    let plan = load_deny_map("bücher.de\n");
    let verdict = dnsblk(&query_for(&domain_to_wire("bücher.de")), |key| has_key(&plan, key));
    assert_eq!(verdict.action, Action::Pass);
}
