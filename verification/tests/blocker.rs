use dnsblk::blocker::{attached_line, loaded_line};
use dnsblk::{run_blocker, BlockEvent, Blocker, Outcome, Step, WorkerMsg, MAX_DOMAIN_LEN};

fn worker(interfaces: &[&str]) -> Blocker {
    let names = interfaces.iter().map(|name| name.to_string()).collect();
    run_blocker(names, "/etc/deny.txt".to_string())
}

/// Takes the worker through steps that are done, up to `step`.
fn advance_to(worker: &mut Blocker, step: Step) -> Vec<String> {
    let mut lines = Vec::new();
    while worker.step != step {
        if let Some(WorkerMsg::Info(line)) = worker.advance(Outcome::Done) {
            lines.push(line);
        }
    }
    lines
}

fn info_of(msg: Option<WorkerMsg>) -> String {
    match msg {
        Some(WorkerMsg::Info(line)) => line,
        _ => panic!("no message"),
    }
}

#[test]
fn the_worker_goes_step_by_step() {
    let mut w = worker(&["eth0", "wlan0"]);
    assert_eq!(w.step, Step::LoadObject);
    let order = [
        Step::FindProgram,
        Step::CastProgram,
        Step::LoadProgram,
        Step::Attach(0),
        Step::Attach(1),
    ];
    for step in order {
        assert!(w.advance(Outcome::Done).is_none());
        assert_eq!(w.step, step);
    }
    assert_eq!(info_of(w.advance(Outcome::Done)), "Attached to eth0, wlan0");
    assert_eq!(w.step, Step::FindDenyMap);
    assert!(w.advance(Outcome::Done).is_none());
    assert_eq!(w.step, Step::OpenDenyMap);
    assert!(w.advance(Outcome::Done).is_none());
    assert_eq!(w.step, Step::ReadDenyFile);
    assert!(w.advance(Outcome::Content("# list\na.b\n\nc.d\n".to_string())).is_none());
    assert_eq!(w.step, Step::Insert(0));
    assert_eq!(w.plan.entries.len(), 2);
    assert!(w.advance(Outcome::Done).is_none());
    assert_eq!(w.step, Step::Insert(1));
    assert_eq!(
        info_of(w.advance(Outcome::Done)),
        "Loaded 2 deny entries from /etc/deny.txt (skipped: 0)"
    );
    for step in [Step::FindEvents, Step::OpenEvents, Step::BuildRuntime, Step::WatchRing] {
        assert_eq!(w.step, step);
        assert!(w.advance(Outcome::Done).is_none());
    }
    assert_eq!(w.step, Step::CheckStop);
    assert!(w.failure.is_none());
}

#[test]
fn events_are_reported_until_the_worker_is_to_stop() {
    let mut w = worker(&["eth0"]);
    let _ = advance_to(&mut w, Step::ReadDenyFile);
    let _ = w.advance(Outcome::Content(String::new()));
    let _ = advance_to(&mut w, Step::CheckStop);
    assert!(w.advance(Outcome::Stop(false)).is_none());
    assert_eq!(w.step, Step::Wait);
    assert!(w.advance(Outcome::TimedOut).is_none());
    assert_eq!(w.step, Step::CheckStop);
    let _ = w.advance(Outcome::Stop(false));
    assert!(w.advance(Outcome::Ready).is_none());
    assert_eq!(w.step, Step::Drain);
    let mut domain = [0u8; MAX_DOMAIN_LEN];
    domain[..3].copy_from_slice(&[1, 97, 0]);
    let event = BlockEvent {
        src_addr: 0,
        dst_addr: 0,
        src_port: 0,
        dst_port: 53,
        qtype: 1,
        _pad: [0; 2],
        domain,
    };
    match w.advance(Outcome::Item(event.encode().to_vec())) {
        Some(WorkerMsg::Blocked(line)) => assert_eq!(line, "Blocked (A) : a"),
        _ => panic!("no report"),
    }
    assert_eq!(w.step, Step::Drain);
    assert!(w.advance(Outcome::Item(vec![0; 143])).is_none());
    assert_eq!(w.step, Step::Drain);
    assert!(w.advance(Outcome::NoItem).is_none());
    assert_eq!(w.step, Step::CheckStop);
    assert!(w.advance(Outcome::Stop(true)).is_none());
    assert_eq!(w.step, Step::Ended);
    assert!(w.failure.is_none());
}

#[test]
fn an_empty_list_is_loaded_at_once() {
    let mut w = worker(&["eth0"]);
    let _ = advance_to(&mut w, Step::ReadDenyFile);
    let x63 = "x".repeat(63);
    let content = format!("# nothing\n{x63}.{x63}.{x63}.{x63}\n");
    assert_eq!(
        info_of(w.advance(Outcome::Content(content))),
        "Loaded 0 deny entries from /etc/deny.txt (skipped: 1)"
    );
    assert_eq!(w.step, Step::FindEvents);
}

#[test]
fn without_interfaces_nothing_is_attached() {
    let mut w = worker(&[]);
    let lines = advance_to(&mut w, Step::FindDenyMap);
    assert_eq!(lines, vec!["Attached to "]);
}

#[test]
fn a_failure_ends_the_worker_and_says_what_failed() {
    let steps = [
        (Step::LoadObject, "Failed to load embedded eBPF program: why"),
        (Step::CastProgram, "Failed to cast to SchedClassifier: why"),
        (Step::LoadProgram, "Failed to load tc classifier: why"),
        (Step::Attach(0), "Failed to attach eBPF program to interface eth0: why"),
        (Step::Attach(1), "Failed to attach eBPF program to interface wlan0: why"),
        (Step::OpenDenyMap, "why"),
        (Step::ReadDenyFile, "Failed to read deny file: /etc/deny.txt: why"),
    ];
    for (step, failure) in steps {
        let mut w = worker(&["eth0", "wlan0"]);
        let _ = advance_to(&mut w, step);
        assert!(w.advance(Outcome::Failed("why".to_string())).is_none());
        assert_eq!(w.step, Step::Ended);
        assert_eq!(w.failure.as_deref(), Some(failure));
    }
}

#[test]
fn a_failure_behind_the_deny_list_says_what_failed() {
    let steps = [
        (Step::Insert(0), "Failed to insert deny entry at line 2: a.b: why"),
        (Step::Insert(1), "Failed to insert deny entry at line 12: C.d: why"),
        (Step::OpenEvents, "why"),
        (Step::BuildRuntime, "Failed to create runtime: why"),
        (Step::WatchRing, "Failed to open ringbuf fd: why"),
    ];
    for (step, failure) in steps {
        let mut w = worker(&["eth0"]);
        let _ = advance_to(&mut w, Step::ReadDenyFile);
        let _ = w.advance(Outcome::Content("\na.b\n\n\n\n\n\n\n\n\n\n C.d\n".to_string()));
        let _ = advance_to(&mut w, step);
        assert!(w.advance(Outcome::Failed("why".to_string())).is_none());
        assert_eq!(w.step, Step::Ended);
        assert_eq!(w.failure.as_deref(), Some(failure));
    }
}

#[test]
fn a_failed_wait_says_so() {
    let mut w = worker(&["eth0"]);
    let _ = advance_to(&mut w, Step::ReadDenyFile);
    let _ = w.advance(Outcome::Content(String::new()));
    let _ = advance_to(&mut w, Step::CheckStop);
    let _ = w.advance(Outcome::Stop(false));
    let _ = w.advance(Outcome::Failed("why".to_string()));
    assert_eq!(w.step, Step::Ended);
    assert_eq!(w.failure.as_deref(), Some("RingBuf wait failed: why"));
}

#[test]
fn what_is_missing_is_named() {
    let steps = [
        (Step::FindProgram, "eBPF program 'dnsblk' not found"),
        (Step::FindDenyMap, "DENY_MAP not found"),
    ];
    for (step, failure) in steps {
        let mut w = worker(&["eth0"]);
        let _ = advance_to(&mut w, step);
        assert!(w.advance(Outcome::Missing).is_none());
        assert_eq!(w.step, Step::Ended);
        assert_eq!(w.failure.as_deref(), Some(failure));
    }
    let mut w = worker(&["eth0"]);
    let _ = advance_to(&mut w, Step::ReadDenyFile);
    let _ = w.advance(Outcome::Content(String::new()));
    assert_eq!(w.step, Step::FindEvents);
    let _ = w.advance(Outcome::Missing);
    assert_eq!(w.failure.as_deref(), Some("EVENTS map not found"));
}

#[test]
fn lines_on_progress() {
    let names = vec!["a".to_string(), "b".to_string(), "c".to_string()];
    assert_eq!(attached_line(&names), "Attached to a, b, c");
    assert_eq!(
        loaded_line(u64::MAX, "list", 1_000),
        "Loaded 18446744073709551615 deny entries from list (skipped: 1000)"
    );
}
