use dnsblk::session::{farewell, preflight, prepare_run};
use dnsblk::{is_root, Reaction, Received, Session, WorkerMsg};

const SECOND: i64 = 1_000_000_000;

fn blocked(line: &str) -> Received {
    Received::Message(WorkerMsg::Blocked(line.to_string()))
}

fn info_line(reaction: Reaction) -> String {
    match reaction {
        Reaction::Info(line) => line,
        _ => panic!("no line to log"),
    }
}

#[test]
fn only_the_user_0_is_root() {
    assert!(is_root(0));
    assert!(!is_root(1));
    assert!(!is_root(1000));
}

#[test]
fn the_layout_is_checked_before_the_user() {
    assert_eq!(preflight(true, 0), Ok(()));
    assert_eq!(
        preflight(true, 1000),
        Err("This program requires root privileges. Please run with sudo.")
    );
    let mismatch = "BlockEvent size mismatch with eBPF — rebuild eBPF first";
    assert_eq!(preflight(false, 0), Err(mismatch));
    assert_eq!(preflight(false, 1000), Err(mismatch));
}

#[test]
fn a_run_needs_a_deny_list() {
    assert_eq!(
        prepare_run(false, "/etc/deny.txt", Vec::new()),
        Err("Deny list file not found: /etc/deny.txt".to_string())
    );
    assert_eq!(prepare_run(true, "/etc/deny.txt", Vec::new()), Ok(vec!["eth0".to_string()]));
    assert_eq!(
        prepare_run(true, "/etc/deny.txt", vec!["wlan0".to_string()]),
        Ok(vec!["wlan0".to_string()])
    );
}

#[test]
fn the_worker_says_why_it_ends_and_that_it_has() {
    let messages = farewell(Some("cause".to_string()));
    assert_eq!(messages.len(), 2);
    assert!(matches!(&messages[0], WorkerMsg::Error(line) if line == "cause"));
    assert!(matches!(&messages[1], WorkerMsg::Stopped));
    let messages = farewell(None);
    assert_eq!(messages.len(), 1);
    assert!(matches!(&messages[0], WorkerMsg::Stopped));
}

#[test]
fn messages_are_logged() {
    let mut session = Session::new();
    let info = Received::Message(WorkerMsg::Info("hello".to_string()));
    assert_eq!(info_line(session.react(info, 0)), "hello");
    let error = Received::Message(WorkerMsg::Error("oh".to_string()));
    assert!(matches!(session.react(error, 0), Reaction::Error(line) if line == "oh"));
}

#[test]
fn repeated_reports_are_left_out_and_counted() {
    let mut session = Session::new();
    let line = "Blocked (A) : a.b";
    assert!(session.can_take(&blocked(line), 0));
    assert_eq!(info_line(session.react(blocked(line), 0)), "Blocked (A) : a.b");
    // The query type makes no difference.
    let other = "Blocked (AAAA) : a.b";
    assert!(matches!(session.react(blocked(other), 1), Reaction::Quiet));
    assert!(matches!(session.react(blocked(line), 2), Reaction::Quiet));
    let third = "Blocked (A) : c.d";
    assert_eq!(info_line(session.react(blocked(third), 3)), "Blocked (A) : c.d");
    assert_eq!(info_line(session.react(blocked(line), 2 * SECOND)), "Blocked (A) : a.b (2)");
}

#[test]
fn the_session_leaves_with_the_worker() {
    let mut session = Session::new();
    assert!(matches!(session.react(Received::Timeout, 0), Reaction::Quiet));
    let stopped = Received::Message(WorkerMsg::Stopped);
    assert!(matches!(session.react(stopped, 0), Reaction::Leave));
    assert!(matches!(session.react(Received::Disconnected, 0), Reaction::Leave));
}

#[test]
fn the_worker_is_told_to_stop_once() {
    let mut session = Session::new();
    assert!(!session.poll_shutdown(false));
    assert!(!session.stopping);
    assert!(session.poll_shutdown(true));
    assert!(session.stopping);
    assert!(!session.poll_shutdown(true));
    assert!(!session.poll_shutdown(false));
    assert!(session.stopping);
    assert!(matches!(session.react(Received::Timeout, 0), Reaction::Leave));
}

#[test]
fn messages_are_still_logged_while_stopping() {
    let mut session = Session::new();
    assert!(session.poll_shutdown(true));
    assert_eq!(info_line(session.react(blocked("x : y"), 0)), "x : y");
}
