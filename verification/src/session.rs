//! The foreground process: whether it may start, what it makes of the messages
//! of the worker, and when it leaves.
use crate::dedup::{self, SeenDomains};
use crate::interfaces;
use crate::report::{self, Msg, WorkerMsg};
use crate::text;
use vstd::prelude::*;

verus! {

/// Check if the process with this effective user is running as root (euid 0).
#[must_use]
pub fn is_root(euid: u32) -> (root: bool)
    ensures
        root == (euid == 0),
{
    euid == 0
}

/// Whether the process may start: not if the event layout is wrong, and not
/// without root privileges.
pub fn preflight(layout_ok: bool, euid: u32) -> (start: Result<(), &'static str>)
    ensures
        match start {
            Ok(()) => layout_ok && euid == 0,
            Err(reason) => if layout_ok {
                euid != 0 && reason@
                    == "This program requires root privileges. Please run with sudo."@
            } else {
                reason@ == "BlockEvent size mismatch with eBPF — rebuild eBPF first"@
            },
        },
{
    if !layout_ok {
        Err("BlockEvent size mismatch with eBPF — rebuild eBPF first")
    } else if !is_root(euid) {
        Err("This program requires root privileges. Please run with sudo.")
    } else {
        Ok(())
    }
}

/// The interfaces to run on, given the command line: an error where there is no
/// deny list.
pub fn prepare_run(list_exists: bool, list: &str, chosen: Vec<String>) -> (ready: Result<
    Vec<String>,
    String,
>)
    ensures
        match ready {
            Ok(names) => list_exists && interfaces::texts(names@) == if chosen@.len() == 0 {
                seq![interfaces::default_interface()]
            } else {
                interfaces::texts(chosen@)
            } && (chosen@.len() == 0 ==> names@.len() == 1 && names@[0]@ == "eth0"@) && (
            chosen@.len() > 0 ==> names == chosen),
            Err(reason) => !list_exists && reason@ == "Deny list file not found: "@ + list@,
        },
{
    if !list_exists {
        let mut reason: String = "Deny list file not found: ".to_owned();
        reason.push_str(list);
        return Err(reason);
    }
    Ok(interfaces::interfaces_or_default(chosen))
}

/// The messages as values.
pub open spec fn msgs(messages: Seq<WorkerMsg>) -> Seq<Msg> {
    messages.map_values(|msg: WorkerMsg| msg@)
}

/// The last messages of the worker: the reason it failed, if it did, and that it
/// has stopped.
pub fn farewell(failure: Option<String>) -> (messages: Vec<WorkerMsg>)
    ensures
        msgs(messages@) == match failure {
            Some(reason) => seq![Msg::Error(reason@), Msg::Stopped],
            None => seq![Msg::Stopped],
        },
{
    let mut messages: Vec<WorkerMsg> = Vec::new();
    match failure {
        Some(reason) => {
            let ghost text = reason@;
            messages.push(WorkerMsg::Error(reason));
            messages.push(WorkerMsg::Stopped);
            assert(msgs(messages@) =~= seq![Msg::Error(text), Msg::Stopped]);
        },
        None => {
            messages.push(WorkerMsg::Stopped);
            assert(msgs(messages@) =~= seq![Msg::Stopped]);
        },
    }
    messages
}

/// What came while waiting for the worker.
pub enum Received {
    /// A message.
    Message(WorkerMsg),
    /// Nothing, for a while.
    Timeout,
    /// Word that nothing will come any more.
    Disconnected,
}

/// What to do about it.
pub enum Reaction {
    /// Log this line.
    Info(String),
    /// Log this line as an error.
    Error(String),
    /// Nothing.
    Quiet,
    /// Leave.
    Leave,
}

/// A `Reaction` as a value.
pub enum ReactionText {
    Info(Seq<char>),
    Error(Seq<char>),
    Quiet,
    Leave,
}

impl View for Reaction {
    type V = ReactionText;

    open spec fn view(&self) -> ReactionText {
        match self {
            Reaction::Info(line) => ReactionText::Info(line@),
            Reaction::Error(line) => ReactionText::Error(line@),
            Reaction::Quiet => ReactionText::Quiet,
            Reaction::Leave => ReactionText::Leave,
        }
    }
}

/// The state of the foreground process.
pub struct Session {
    /// The domains reported of late.
    pub seen: SeenDomains,
    /// Whether the worker has been told to stop.
    pub stopping: bool,
}

/// What the session does about `received` at the time `now`.
pub open spec fn reaction_text(s: Session, received: Received, now: i64) -> ReactionText {
    match received {
        Received::Message(WorkerMsg::Info(line)) => ReactionText::Info(line@),
        Received::Message(WorkerMsg::Blocked(line)) => match dedup::report_of(
            s.seen@,
            report::domain_in(line@),
            now,
        ) {
            Some(count) => ReactionText::Info(report::counted_text(line@, count)),
            None => ReactionText::Quiet,
        },
        Received::Message(WorkerMsg::Error(line)) => ReactionText::Error(line@),
        Received::Message(WorkerMsg::Stopped) => ReactionText::Leave,
        Received::Timeout => if s.stopping {
            ReactionText::Leave
        } else {
            ReactionText::Quiet
        },
        Received::Disconnected => ReactionText::Leave,
    }
}

/// The domains held once the session has dealt with `received` at the time `now`.
pub open spec fn seen_then(s: Session, received: Received, now: i64) -> Map<Seq<char>, dedup::Seen> {
    match received {
        Received::Message(WorkerMsg::Blocked(line)) => dedup::seen_after(
            s.seen@,
            report::domain_in(line@),
            now,
        ),
        _ => s.seen@,
    }
}

impl Session {
    /// No domain is held twice.
    pub open spec fn wf(self) -> bool {
        self.seen.wf()
    }

    /// The count of reports left out has room for one more, if `received` is to
    /// be counted.
    pub open spec fn takes(self, received: Received, now: i64) -> bool {
        received matches Received::Message(WorkerMsg::Blocked(line)) ==> dedup::has_room(
            self.seen@,
            report::domain_in(line@),
            now,
        )
    }

    /// A session at its start.
    pub fn new() -> (s: Session)
        ensures
            s.wf(),
            s.seen@ == Map::<Seq<char>, dedup::Seen>::empty(),
            !s.stopping,
    {
        Session { seen: SeenDomains::new(), stopping: false }
    }

    /// Takes note of whether a shutdown was requested. Says whether the worker is
    /// to be told to stop now, which it is once.
    pub fn poll_shutdown(&mut self, requested: bool) -> (stop_now: bool)
        ensures
            stop_now == (requested && !old(self).stopping),
            final(self).stopping == (requested || old(self).stopping),
            final(self).seen == old(self).seen,
    {
        let stop_now: bool = requested && !self.stopping;
        if stop_now {
            self.stopping = true;
        }
        stop_now
    }

    /// Whether the session can take what came: not if that overflows a count.
    pub fn can_take(&self, received: &Received, now: i64) -> (ok: bool)
        requires
            self.wf(),
        ensures
            ok == self.takes(*received, now),
    {
        match received {
            Received::Message(WorkerMsg::Blocked(line)) => {
                let domain: &str = report::blocked_domain(line.as_str());
                self.seen.room_for(domain, now)
            },
            _ => true,
        }
    }

    /// Deals with what came from the worker.
    pub fn react(&mut self, received: Received, now: i64) -> (reaction: Reaction)
        requires
            old(self).wf(),
            old(self).takes(received, now),
        ensures
            final(self).wf(),
            reaction@ == reaction_text(*old(self), received, now),
            final(self).seen@ == seen_then(*old(self), received, now),
            final(self).stopping == old(self).stopping,
    {
        match received {
            Received::Message(WorkerMsg::Info(line)) => Reaction::Info(line),
            Received::Message(WorkerMsg::Blocked(line)) => {
                let report: Option<u32> = {
                    let domain: &str = report::blocked_domain(line.as_str());
                    dedup::check_domain(&mut self.seen, domain, now)
                };
                match report {
                    Some(count) => Reaction::Info(report::counted_line(line, count)),
                    None => Reaction::Quiet,
                }
            },
            Received::Message(WorkerMsg::Error(line)) => Reaction::Error(line),
            Received::Message(WorkerMsg::Stopped) => Reaction::Leave,
            Received::Timeout => {
                if self.stopping {
                    Reaction::Leave
                } else {
                    Reaction::Quiet
                }
            },
            Received::Disconnected => Reaction::Leave,
        }
    }
}

/// The session leaves once the worker has stopped or is gone, and, if the worker
/// was told to stop, once it has been silent for a while. It leaves for nothing
/// else.
pub proof fn law_when_the_session_leaves(s: Session, received: Received, now: i64)
    ensures
        reaction_text(s, received, now) is Leave <==> match received {
            Received::Message(msg) => msg is Stopped,
            Received::Timeout => s.stopping,
            Received::Disconnected => true,
        },
{
}

/// A blocked domain that is not held is logged, with the line as it came.
pub proof fn law_new_domain_is_logged(s: Session, line: String, now: i64)
    requires
        !s.seen@.contains_key(report::domain_in(line@)),
    ensures
        reaction_text(s, Received::Message(WorkerMsg::Blocked(line)), now) == ReactionText::Info(
            line@,
        ),
{
    dedup::law_first_sighting_is_reported(s.seen@, report::domain_in(line@), now);
}

/// Once a blocked domain has come up, a line on the same domain within the window
/// is not logged.
pub proof fn law_repeated_domain_is_not_logged(
    s: Session,
    line: String,
    first: i64,
    later: Session,
    repeat: String,
    again: i64,
)
    requires
        later.seen@ == seen_then(s, Received::Message(WorkerMsg::Blocked(line)), first),
        report::domain_in(repeat@) == report::domain_in(line@),
        again - first < dedup::LOG_DEDUP_WINDOW,
    ensures
        reaction_text(later, Received::Message(WorkerMsg::Blocked(repeat)), again)
            == ReactionText::Quiet,
{
    dedup::law_repeat_is_suppressed(s.seen@, report::domain_in(line@), first, again);
}

/// Messages other than reports are logged as they come, errors as errors.
pub proof fn law_messages_are_logged_as_they_come(s: Session, line: String, now: i64)
    ensures
        reaction_text(s, Received::Message(WorkerMsg::Info(line)), now) == ReactionText::Info(line@),
        reaction_text(s, Received::Message(WorkerMsg::Error(line)), now) == ReactionText::Error(
            line@,
        ),
        seen_then(s, Received::Message(WorkerMsg::Info(line)), now) == s.seen@,
        seen_then(s, Received::Message(WorkerMsg::Error(line)), now) == s.seen@,
        seen_then(s, Received::Message(WorkerMsg::Stopped), now) == s.seen@,
        seen_then(s, Received::Timeout, now) == s.seen@,
        seen_then(s, Received::Disconnected, now) == s.seen@,
        !s.stopping ==> reaction_text(s, Received::Timeout, now) == ReactionText::Quiet,
{
}

/// A report is left out exactly if its domain came up less than 1.2 seconds before.
/// Otherwise its line is logged, with the number of reports left out if there are
/// any. Either way it is checked, and noted, under the domain that the line names.
pub proof fn law_when_a_report_is_logged(s: Session, line: String, now: i64)
    ensures
        ({
            let domain = report::domain_in(line@);
            let known = s.seen@.contains_key(domain);
            let reaction = reaction_text(s, Received::Message(WorkerMsg::Blocked(line)), now);
            let count = if known {
                s.seen@[domain].suppressed
            } else {
                0
            };
            &&& known && now - s.seen@[domain].last < 1_200_000_000 ==> reaction
                == ReactionText::Quiet
            &&& !known || now - s.seen@[domain].last >= 1_200_000_000 ==> reaction
                == ReactionText::Info(
                if count == 0 {
                    line@
                } else {
                    line@ + " ("@ + text::decimal(count as nat) + ")"@
                },
            )
            &&& seen_then(s, Received::Message(WorkerMsg::Blocked(line)), now) == dedup::seen_after(
                s.seen@,
                domain,
                now,
            )
        }),
{
}

/// A session takes everything but a report that would overflow the count of its
/// domain.
pub proof fn law_what_a_session_takes(s: Session, line: String, now: i64)
    ensures
        s.takes(Received::Message(WorkerMsg::Info(line)), now),
        s.takes(Received::Message(WorkerMsg::Error(line)), now),
        s.takes(Received::Message(WorkerMsg::Stopped), now),
        s.takes(Received::Timeout, now),
        s.takes(Received::Disconnected, now),
        s.takes(Received::Message(WorkerMsg::Blocked(line)), now) <==> {
            let domain = report::domain_in(line@);
            !(s.seen@.contains_key(domain) && now - s.seen@[domain].last < 1_200_000_000
                && s.seen@[domain].suppressed == 0xffff_ffff)
        },
{
}

/// Reactions are the same as values only where they are of one sort, with one text.
pub proof fn law_reactions_as_values(reaction: Reaction)
    ensures
        reaction matches Reaction::Info(line) ==> reaction@ == ReactionText::Info(line@),
        reaction matches Reaction::Error(line) ==> reaction@ == ReactionText::Error(line@),
        reaction is Quiet ==> reaction@ == ReactionText::Quiet,
        reaction is Leave ==> reaction@ == ReactionText::Leave,
{
}

/// The values of messages are theirs one by one.
pub proof fn law_messages_one_by_one(messages: Seq<WorkerMsg>, i: int)
    ensures
        msgs(messages).len() == messages.len(),
        0 <= i < messages.len() ==> msgs(messages)[i] == messages[i]@,
{
}

} // verus!
