//! The blocking worker, step by step: what it does next, what it reports, and
//! how it ends, for every outcome of the step before.
use crate::deny::{self, DenyPlan};
use crate::interfaces;
use crate::report::{self, Msg, WorkerMsg};
use crate::text;
use vstd::prelude::*;

verus! {

/// A step of the worker.
#[derive(Clone, Copy, Debug, PartialEq, Eq, Structural)]
pub enum Step {
    /// Load the eBPF object.
    LoadObject,
    /// Find the classifier in it.
    FindProgram,
    /// Take the program found as a classifier.
    CastProgram,
    /// Load the classifier into the kernel.
    LoadProgram,
    /// Attach the classifier to the interface with this index.
    Attach(usize),
    /// Find the deny map.
    FindDenyMap,
    /// Open the deny map.
    OpenDenyMap,
    /// Read the deny list.
    ReadDenyFile,
    /// Put the entry with this index into the deny map.
    Insert(usize),
    /// Find the map of events.
    FindEvents,
    /// Open it as a ring buffer.
    OpenEvents,
    /// Set up the runtime to wait with.
    BuildRuntime,
    /// Watch the ring buffer.
    WatchRing,
    /// See whether the worker is to stop.
    CheckStop,
    /// Wait for the ring buffer to have items, for a while.
    Wait,
    /// Take the next item out of the ring buffer.
    Drain,
    /// Nothing: the worker has ended.
    Ended,
}

/// How a step went.
pub enum Outcome {
    /// It was done.
    Done,
    /// There is no such thing to find.
    Missing,
    /// It failed, for this cause.
    Failed(String),
    /// The deny list holds this.
    Content(String),
    /// Whether the worker is to stop.
    Stop(bool),
    /// The wait was over before anything came.
    TimedOut,
    /// The ring buffer has items.
    Ready,
    /// This item was next.
    Item(Vec<u8>),
    /// No item was left.
    NoItem,
}

/// The worker.
pub struct Blocker {
    /// The interfaces to attach to.
    pub interfaces: Vec<String>,
    /// The path of the deny list.
    pub deny_file: String,
    /// What the deny list asks for, once it is read.
    pub plan: DenyPlan,
    /// What to do next.
    pub step: Step,
    /// Why the worker ended, unless it was told to stop.
    pub failure: Option<String>,
}

/// The step can have this outcome.
pub open spec fn expects(step: Step, outcome: Outcome) -> bool {
    match step {
        Step::FindProgram | Step::FindDenyMap | Step::FindEvents => outcome is Done
            || outcome is Missing,
        Step::ReadDenyFile => outcome is Content || outcome is Failed,
        Step::CheckStop => outcome is Stop,
        Step::Wait => outcome is TimedOut || outcome is Ready || outcome is Failed,
        Step::Drain => outcome is Item || outcome is NoItem,
        Step::Ended => false,
        _ => outcome is Done || outcome is Failed,
    }
}

/// What failed, where `step` did; empty where the cause stands for itself.
pub open spec fn context_text(b: Blocker, step: Step) -> Seq<char> {
    match step {
        Step::LoadObject => "Failed to load embedded eBPF program"@,
        Step::FindProgram => "eBPF program 'dnsblk' not found"@,
        Step::CastProgram => "Failed to cast to SchedClassifier"@,
        Step::LoadProgram => "Failed to load tc classifier"@,
        Step::Attach(i) => "Failed to attach eBPF program to interface "@ + b.interfaces[i as int]@,
        Step::FindDenyMap => "DENY_MAP not found"@,
        Step::ReadDenyFile => "Failed to read deny file: "@ + b.deny_file@,
        Step::Insert(i) => "Failed to insert deny entry at line "@ + text::decimal(
            b.plan.entries[i as int].line_no as nat,
        ) + ": "@ + b.plan.entries[i as int].line@,
        Step::FindEvents => "EVENTS map not found"@,
        Step::BuildRuntime => "Failed to create runtime"@,
        Step::WatchRing => "Failed to open ringbuf fd"@,
        Step::Wait => "RingBuf wait failed"@,
        _ => Seq::empty(),
    }
}

/// Why the worker ends with this outcome, if it does for a failure.
pub open spec fn failure_text(b: Blocker, outcome: Outcome) -> Option<Seq<char>> {
    let context = context_text(b, b.step);
    match outcome {
        Outcome::Missing => Some(context),
        Outcome::Failed(cause) => Some(
            if context.len() == 0 {
                cause@
            } else {
                context + ": "@ + cause@
            },
        ),
        _ => None,
    }
}

/// The step behind one that did not fail.
pub open spec fn next_step(b: Blocker, outcome: Outcome) -> Step {
    match b.step {
        Step::LoadObject => Step::FindProgram,
        Step::FindProgram => Step::CastProgram,
        Step::CastProgram => Step::LoadProgram,
        Step::LoadProgram => if b.interfaces.len() > 0 {
            Step::Attach(0)
        } else {
            Step::FindDenyMap
        },
        Step::Attach(i) => if i + 1 < b.interfaces.len() {
            Step::Attach((i + 1) as usize)
        } else {
            Step::FindDenyMap
        },
        Step::FindDenyMap => Step::OpenDenyMap,
        Step::OpenDenyMap => Step::ReadDenyFile,
        Step::ReadDenyFile => if deny::records(deny::lines_of(outcome->Content_0@)).len() > 0 {
            Step::Insert(0)
        } else {
            Step::FindEvents
        },
        Step::Insert(i) => if i + 1 < b.plan.entries.len() {
            Step::Insert((i + 1) as usize)
        } else {
            Step::FindEvents
        },
        Step::FindEvents => Step::OpenEvents,
        Step::OpenEvents => Step::BuildRuntime,
        Step::BuildRuntime => Step::WatchRing,
        Step::WatchRing => Step::CheckStop,
        Step::CheckStop => if outcome->Stop_0 {
            Step::Ended
        } else {
            Step::Wait
        },
        Step::Wait => if outcome is Ready {
            Step::Drain
        } else {
            Step::CheckStop
        },
        Step::Drain => if outcome is Item {
            Step::Drain
        } else {
            Step::CheckStop
        },
        Step::Ended => Step::Ended,
    }
}

/// The report that the classifier is attached.
pub open spec fn attached_text(interfaces: Seq<Seq<char>>) -> Seq<char> {
    "Attached to "@ + text::join(interfaces, ", "@)
}

/// The report that the deny list is loaded.
pub open spec fn loaded_text(loaded: nat, deny_file: Seq<char>, skipped: nat) -> Seq<char> {
    "Loaded "@ + text::decimal(loaded) + " deny entries from "@ + deny_file + " (skipped: "@
        + text::decimal(skipped) + ")"@
}

/// The message that goes out with an outcome, if any: when the last interface is
/// attached, when the last entry is in the deny map, and for each event.
pub open spec fn message_text(b: Blocker, outcome: Outcome) -> Option<Msg> {
    let attached = Some(Msg::Info(attached_text(interfaces::texts(b.interfaces@))));
    if failure_text(b, outcome) is Some {
        None
    } else {
        match b.step {
            Step::LoadProgram => if b.interfaces.len() == 0 {
                attached
            } else {
                None
            },
            Step::Attach(i) => if i + 1 == b.interfaces.len() {
                attached
            } else {
                None
            },
            Step::ReadDenyFile => {
                let lines = deny::lines_of(outcome->Content_0@);
                if deny::records(lines).len() == 0 {
                    Some(Msg::Info(loaded_text(0, b.deny_file@, deny::oversized(lines))))
                } else {
                    None
                }
            },
            Step::Insert(i) => if i + 1 == b.plan.entries.len() {
                Some(
                    Msg::Info(
                        loaded_text(
                            b.plan.entries.len() as nat,
                            b.deny_file@,
                            b.plan.skipped as nat,
                        ),
                    ),
                )
            } else {
                None
            },
            Step::Drain => match outcome {
                Outcome::Item(item) => report::item_text(item@),
                _ => None,
            },
            _ => None,
        }
    }
}

/// The text, if there is one.
pub open spec fn opt_text(s: Option<String>) -> Option<Seq<char>> {
    match s {
        Some(s) => Some(s@),
        None => None,
    }
}

/// `after` is the worker `before` once its step had this outcome.
pub open spec fn is_advanced(before: Blocker, outcome: Outcome, after: Blocker) -> bool {
    &&& after.interfaces == before.interfaces
    &&& after.deny_file == before.deny_file
    &&& outcome matches Outcome::Content(content) ==> after.plan.is_plan_of(content@)
    &&& !(outcome is Content) ==> after.plan == before.plan
    &&& opt_text(after.failure) == failure_text(before, outcome)
    &&& after.step == if failure_text(before, outcome) is Some {
        Step::Ended
    } else {
        next_step(before, outcome)
    }
}

/// The names with a comma and a space between each two.
fn comma_joined(names: &Vec<String>) -> (out: String)
    ensures
        out@ == text::join(interfaces::texts(names@), ", "@),
{
    let mut out: String = String::new();
    let mut i: usize = 0;
    let ghost all = interfaces::texts(names@);
    assert(all.take(0) =~= Seq::empty());
    while i < names.len()
        invariant
            i <= names@.len(),
            all == interfaces::texts(names@),
            out@ == text::join(all.take(i as int), ", "@),
        decreases names@.len() - i,
    {
        proof {
            assert(all.take(i + 1).drop_last() =~= all.take(i as int));
            assert(all.take(i + 1).last() == names@[i as int]@);
            assert(i == 0 ==> out@ + names@[i as int]@ =~= names@[i as int]@);
        }
        if i > 0 {
            out.push_str(", ");
        }
        out.push_str(names[i].as_str());
        i += 1;
    }
    assert(all.take(i as int) =~= all);
    out
}

/// The report that the classifier is attached.
pub fn attached_line(names: &Vec<String>) -> (line: String)
    ensures
        line@ == attached_text(interfaces::texts(names@)),
{
    let mut line: String = "Attached to ".to_owned();
    let joined: String = comma_joined(names);
    line.push_str(joined.as_str());
    line
}

/// The report that the deny list is loaded.
pub fn loaded_line(loaded: u64, deny_file: &str, skipped: u64) -> (line: String)
    ensures
        line@ == loaded_text(loaded as nat, deny_file@, skipped as nat),
{
    let mut line: String = "Loaded ".to_owned();
    text::push_decimal(&mut line, loaded);
    line.push_str(" deny entries from ");
    line.push_str(deny_file);
    line.push_str(" (skipped: ");
    text::push_decimal(&mut line, skipped);
    line.push_str(")");
    line
}

/// The worker of the eBPF blocker, before its first step.
///
/// It attaches the classifier to the given interfaces, puts what the deny list
/// names into the deny map, then reports the events of the ring buffer until it
/// is told to stop.
pub fn run_blocker(interfaces: Vec<String>, deny_file: String) -> (b: Blocker)
    ensures
        b.wf(),
        b.interfaces == interfaces,
        b.deny_file == deny_file,
        b.plan.entries@.len() == 0,
        b.plan.skipped == 0,
        b.step == Step::LoadObject,
{
    Blocker {
        interfaces,
        deny_file,
        plan: DenyPlan { entries: Vec::new(), skipped: 0 },
        step: Step::LoadObject,
        failure: None,
    }
}

impl Blocker {
    /// The step is one that can be done, and nothing has failed before it.
    pub open spec fn wf(self) -> bool {
        &&& self.step matches Step::Attach(i) ==> i < self.interfaces.len()
        &&& self.step matches Step::Insert(i) ==> i < self.plan.entries.len()
        &&& self.step != Step::Ended ==> self.failure is None
    }

    /// What failed, if the present step did.
    fn context(&self) -> (line: String)
        requires
            self.wf(),
        ensures
            line@ == context_text(*self, self.step),
    {
        match self.step {
            Step::LoadObject => "Failed to load embedded eBPF program".to_owned(),
            Step::FindProgram => "eBPF program 'dnsblk' not found".to_owned(),
            Step::CastProgram => "Failed to cast to SchedClassifier".to_owned(),
            Step::LoadProgram => "Failed to load tc classifier".to_owned(),
            Step::Attach(i) => {
                let mut line: String = "Failed to attach eBPF program to interface ".to_owned();
                line.push_str(self.interfaces[i].as_str());
                line
            },
            Step::FindDenyMap => "DENY_MAP not found".to_owned(),
            Step::ReadDenyFile => {
                let mut line: String = "Failed to read deny file: ".to_owned();
                line.push_str(self.deny_file.as_str());
                line
            },
            Step::Insert(i) => {
                let mut line: String = "Failed to insert deny entry at line ".to_owned();
                text::push_decimal(&mut line, self.plan.entries[i].line_no);
                line.push_str(": ");
                line.push_str(self.plan.entries[i].line.as_str());
                line
            },
            Step::FindEvents => "EVENTS map not found".to_owned(),
            Step::BuildRuntime => "Failed to create runtime".to_owned(),
            Step::WatchRing => "Failed to open ringbuf fd".to_owned(),
            Step::Wait => "RingBuf wait failed".to_owned(),
            _ => String::new(),
        }
    }

    /// Ends the worker for a failure.
    fn fail(&mut self, failure: String)
        ensures
            final(self).interfaces == old(self).interfaces,
            final(self).deny_file == old(self).deny_file,
            final(self).plan == old(self).plan,
            final(self).step == Step::Ended,
            final(self).failure == Some(failure),
    {
        self.step = Step::Ended;
        self.failure = Some(failure);
    }

    /// Takes the outcome of the present step, and goes on to the next. What is
    /// returned goes out as a message.
    pub fn advance(&mut self, outcome: Outcome) -> (msg: Option<WorkerMsg>)
        requires
            old(self).wf(),
            expects(old(self).step, outcome),
        ensures
            final(self).wf(),
            is_advanced(*old(self), outcome, *final(self)),
            report::msg_text(msg) == message_text(*old(self), outcome),
    {
        match outcome {
            Outcome::Missing => {
                let failure: String = self.context();
                self.fail(failure);
                return None;
            },
            Outcome::Failed(cause) => {
                let mut failure: String = self.context();
                if failure.as_str().is_empty() {
                    failure = cause;
                } else {
                    failure.push_str(": ");
                    failure.push_str(cause.as_str());
                }
                self.fail(failure);
                return None;
            },
            Outcome::Content(content) => {
                self.plan = deny::load_deny_map(content.as_str());
                assert(self.plan.records().len() == self.plan.entries@.len());
                if self.plan.entries.len() > 0 {
                    self.step = Step::Insert(0);
                    return None;
                }
                self.step = Step::FindEvents;
                return Some(
                    WorkerMsg::Info(loaded_line(0, self.deny_file.as_str(), self.plan.skipped)),
                );
            },
            Outcome::Stop(stop) => {
                self.step = if stop {
                    Step::Ended
                } else {
                    Step::Wait
                };
                return None;
            },
            Outcome::TimedOut => {
                self.step = Step::CheckStop;
                return None;
            },
            Outcome::Ready => {
                self.step = Step::Drain;
                return None;
            },
            Outcome::Item(item) => {
                return report::item_message(item.as_slice());
            },
            Outcome::NoItem => {
                self.step = Step::CheckStop;
                return None;
            },
            Outcome::Done => {},
        }
        match self.step {
            Step::LoadObject => self.step = Step::FindProgram,
            Step::FindProgram => self.step = Step::CastProgram,
            Step::CastProgram => self.step = Step::LoadProgram,
            Step::LoadProgram => {
                if self.interfaces.len() > 0 {
                    self.step = Step::Attach(0);
                } else {
                    self.step = Step::FindDenyMap;
                    return Some(WorkerMsg::Info(attached_line(&self.interfaces)));
                }
            },
            Step::Attach(i) => {
                if i + 1 < self.interfaces.len() {
                    self.step = Step::Attach(i + 1);
                } else {
                    self.step = Step::FindDenyMap;
                    return Some(WorkerMsg::Info(attached_line(&self.interfaces)));
                }
            },
            Step::FindDenyMap => self.step = Step::OpenDenyMap,
            Step::OpenDenyMap => self.step = Step::ReadDenyFile,
            Step::Insert(i) => {
                let count: usize = self.plan.entries.len();
                if i + 1 < count {
                    self.step = Step::Insert(i + 1);
                } else {
                    self.step = Step::FindEvents;
                    return Some(
                        WorkerMsg::Info(
                            loaded_line(count as u64, self.deny_file.as_str(), self.plan.skipped),
                        ),
                    );
                }
            },
            Step::FindEvents => self.step = Step::OpenEvents,
            Step::OpenEvents => self.step = Step::BuildRuntime,
            Step::BuildRuntime => self.step = Step::WatchRing,
            _ => self.step = Step::CheckStop,
        }
        None
    }
}

/// The worker ends for a failure with the first outcome that is one, and without
/// a failure only when it is told to stop.
pub proof fn law_worker_ends_for_failure_or_stop(before: Blocker, outcome: Outcome, after: Blocker)
    requires
        before.wf(),
        expects(before.step, outcome),
        is_advanced(before, outcome, after),
    ensures
        outcome is Failed || outcome is Missing <==> after.failure is Some,
        after.failure is Some ==> after.step == Step::Ended,
        after.step == Step::Ended && after.failure is None ==> before.step == Step::CheckStop
            && outcome == Outcome::Stop(true),
{
}

/// The states that a worker goes through, from its first, and the outcomes that
/// lead from each to the next.
pub open spec fn is_history(states: Seq<Blocker>, outcomes: Seq<Outcome>) -> bool {
    &&& states.len() == outcomes.len() + 1
    &&& states[0].step == Step::LoadObject
    &&& forall|k: int|
        0 <= k < outcomes.len() ==> (#[trigger] states[k]).wf() && expects(
            states[k].step,
            outcomes[k],
        ) && is_advanced(states[k], outcomes[k], states[k + 1])
}

/// The step was done at some point of the history, on the interfaces and the deny
/// list that the worker has at the end of it.
pub open spec fn was_done(states: Seq<Blocker>, outcomes: Seq<Outcome>, step: Step) -> bool {
    exists|k: int|
        0 <= k < outcomes.len() && (#[trigger] states[k]).step == step && outcomes[k] is Done
            && states[k].interfaces == states.last().interfaces && (step is Insert
            ==> states[k].plan == states.last().plan)
}

/// The plan of the worker is that of the deny list that was read in the history.
pub open spec fn was_read(states: Seq<Blocker>, outcomes: Seq<Outcome>) -> bool {
    exists|k: int|
        0 <= k < outcomes.len() && (#[trigger] outcomes[k] matches Outcome::Content(content)
            && states.last().plan.is_plan_of(content@))
}

/// Whether the deny list is read when it is time for a step.
spec fn is_read_by(step: Step) -> bool {
    match step {
        Step::Insert(_) | Step::FindEvents | Step::OpenEvents | Step::BuildRuntime
        | Step::WatchRing | Step::CheckStop | Step::Wait | Step::Drain => true,
        _ => false,
    }
}

/// How many interfaces are attached when it is time for a step.
spec fn attached_by(b: Blocker) -> int {
    match b.step {
        Step::LoadObject | Step::FindProgram | Step::CastProgram | Step::LoadProgram
        | Step::Ended => 0,
        Step::Attach(i) => i as int,
        _ => b.interfaces.len() as int,
    }
}

/// How many entries are in the deny map when it is time for a step.
spec fn inserted_by(b: Blocker) -> int {
    match b.step {
        Step::Insert(i) => i as int,
        Step::FindEvents | Step::OpenEvents | Step::BuildRuntime | Step::WatchRing
        | Step::CheckStop | Step::Wait | Step::Drain => b.plan.entries.len() as int,
        _ => 0,
    }
}

/// What is done stays done as the history goes on.
proof fn lemma_was_done_stays(states: Seq<Blocker>, outcomes: Seq<Outcome>, step: Step)
    requires
        outcomes.len() > 0,
        states.len() == outcomes.len() + 1,
        states[outcomes.len() - 1].interfaces == states.last().interfaces,
        step is Insert ==> states[outcomes.len() - 1].plan == states.last().plan,
        was_done(states.drop_last(), outcomes.drop_last(), step),
    ensures
        was_done(states, outcomes, step),
{
    let earlier = states.drop_last();
    let k = choose|k: int|
        0 <= k < outcomes.drop_last().len() && (#[trigger] earlier[k]).step == step
            && outcomes.drop_last()[k] is Done && earlier[k].interfaces
            == earlier.last().interfaces && (step is Insert ==> earlier[k].plan
            == earlier.last().plan);
    assert(states[k].step == step && outcomes[k] is Done);
}

/// A list that was read stays read as the history goes on.
proof fn lemma_was_read_stays(states: Seq<Blocker>, outcomes: Seq<Outcome>)
    requires
        outcomes.len() > 0,
        states.len() == outcomes.len() + 1,
        states[outcomes.len() - 1].plan == states.last().plan,
        was_read(states.drop_last(), outcomes.drop_last()),
    ensures
        was_read(states, outcomes),
{
    let k = choose|k: int|
        0 <= k < outcomes.drop_last().len() && (
        #[trigger] outcomes.drop_last()[k] matches Outcome::Content(content)
            && states.drop_last().last().plan.is_plan_of(content@));
    assert(outcomes[k] == outcomes.drop_last()[k]);
}

/// Interfaces and entries are dealt with one by one, none left out, and the
/// entries are those of the list that was read.
proof fn lemma_progress(states: Seq<Blocker>, outcomes: Seq<Outcome>)
    requires
        is_history(states, outcomes),
    ensures
        states.last().interfaces == states[0].interfaces,
        is_read_by(states.last().step) ==> was_read(states, outcomes),
        forall|i: usize|
            i < attached_by(states.last()) ==> #[trigger] was_done(states, outcomes, Step::Attach(i)),
        forall|i: usize|
            i < inserted_by(states.last()) ==> #[trigger] was_done(states, outcomes, Step::Insert(i)),
    decreases outcomes.len(),
{
    if outcomes.len() > 0 {
        let n = outcomes.len() - 1;
        let earlier = states.drop_last();
        let before = states[n];
        let after = states[n + 1];
        assert(is_history(earlier, outcomes.drop_last())) by {
            assert forall|k: int| 0 <= k < n implies (#[trigger] earlier[k]).wf() && expects(
                earlier[k].step,
                outcomes.drop_last()[k],
            ) && is_advanced(earlier[k], outcomes.drop_last()[k], earlier[k + 1]) by {
                assert(states[k].wf());
            }
        }
        lemma_progress(earlier, outcomes.drop_last());
        assert(before.wf() && is_advanced(before, outcomes[n], after));
        if is_read_by(after.step) {
            if before.step == Step::ReadDenyFile {
                assert(outcomes[n] is Content);
            } else {
                lemma_was_read_stays(states, outcomes);
            }
        }
        assert forall|i: usize| i < attached_by(after) implies #[trigger] was_done(
            states,
            outcomes,
            Step::Attach(i),
        ) by {
            if i < attached_by(before) {
                lemma_was_done_stays(states, outcomes, Step::Attach(i));
            } else {
                assert(before.step == Step::Attach(i));
                assert(states[n].step == Step::Attach(i) && outcomes[n] is Done);
            }
        }
        assert forall|i: usize| i < inserted_by(after) implies #[trigger] was_done(
            states,
            outcomes,
            Step::Insert(i),
        ) by {
            if i < inserted_by(before) {
                lemma_was_done_stays(states, outcomes, Step::Insert(i));
            } else {
                if before.step == Step::ReadDenyFile {
                    assert(after.plan.records().len() == after.plan.entries@.len());
                }
                assert(before.step == Step::Insert(i));
                assert(states[n].step == Step::Insert(i) && outcomes[n] is Done);
            }
        }
    }
}

/// Before the worker waits for events or reports one, the classifier is attached
/// to every interface that the worker was given, the deny list is read, and every
/// entry of it is in the deny map.
pub proof fn law_events_come_after_setup(states: Seq<Blocker>, outcomes: Seq<Outcome>)
    requires
        is_history(states, outcomes),
        states.last().step == Step::Wait || states.last().step == Step::Drain,
    ensures
        states.last().interfaces == states[0].interfaces,
        was_read(states, outcomes),
        forall|i: usize|
            i < states.last().interfaces.len() ==> #[trigger] was_done(
                states,
                outcomes,
                Step::Attach(i),
            ),
        forall|i: usize|
            i < states.last().plan.entries.len() ==> #[trigger] was_done(
                states,
                outcomes,
                Step::Insert(i),
            ),
{
    lemma_progress(states, outcomes);
}

/// The worker keeps its interfaces and its file, and keeps its plan until it reads a
/// list; then it has the plan for that list.
pub proof fn law_what_the_worker_keeps(before: Blocker, outcome: Outcome, after: Blocker)
    requires
        is_advanced(before, outcome, after),
    ensures
        after.interfaces == before.interfaces,
        after.deny_file == before.deny_file,
        outcome matches Outcome::Content(content) ==> after.plan.is_plan_of(content@),
        !(outcome is Content) ==> after.plan == before.plan,
{
}

/// What the worker can be told of a step: that a thing is there or missing, what the
/// list holds, whether to stop, what came of the wait, the next item; of every other
/// step, that it was done or failed.
pub proof fn law_what_the_worker_takes(step: Step, outcome: Outcome)
    ensures
        step == Step::FindProgram || step == Step::FindDenyMap || step == Step::FindEvents ==> (
        expects(step, outcome) <==> outcome is Done || outcome is Missing),
        step == Step::ReadDenyFile ==> (expects(step, outcome) <==> outcome is Content
            || outcome is Failed),
        step == Step::CheckStop ==> (expects(step, outcome) <==> outcome is Stop),
        step == Step::Wait ==> (expects(step, outcome) <==> outcome is TimedOut || outcome is Ready
            || outcome is Failed),
        step == Step::Drain ==> (expects(step, outcome) <==> outcome is Item || outcome is NoItem),
        step == Step::Ended ==> !expects(step, outcome),
        step == Step::LoadObject || step == Step::CastProgram || step == Step::LoadProgram || step
            is Attach || step == Step::OpenDenyMap || step is Insert || step == Step::OpenEvents
            || step == Step::BuildRuntime || step == Step::WatchRing ==> (expects(step, outcome)
            <==> outcome is Done || outcome is Failed),
{
}

/// The steps up to the deny list come in their order, with one for each interface.
pub proof fn law_order_of_steps_up_to_the_list(before: Blocker, outcome: Outcome, after: Blocker)
    requires
        before.wf(),
        is_advanced(before, outcome, after),
        outcome is Done,
    ensures
        before.step == Step::LoadObject ==> after.step == Step::FindProgram,
        before.step == Step::FindProgram ==> after.step == Step::CastProgram,
        before.step == Step::CastProgram ==> after.step == Step::LoadProgram,
        before.step == Step::LoadProgram ==> after.step == if before.interfaces.len() > 0 {
            Step::Attach(0)
        } else {
            Step::FindDenyMap
        },
        before.step matches Step::Attach(i) ==> if i == before.interfaces.len() - 1 {
            after.step == Step::FindDenyMap
        } else {
            after.step matches Step::Attach(j) && j == i + 1
        },
        before.step == Step::FindDenyMap ==> after.step == Step::OpenDenyMap,
        before.step == Step::OpenDenyMap ==> after.step == Step::ReadDenyFile,
{
}

/// The steps from the deny list on come in their order, with one for each entry.
pub proof fn law_order_of_steps_from_the_list_on(before: Blocker, outcome: Outcome, after: Blocker)
    requires
        before.wf(),
        expects(before.step, outcome),
        is_advanced(before, outcome, after),
        after.failure is None,
    ensures
        before.step == Step::ReadDenyFile ==> after.step == if after.plan.entries.len() > 0 {
            Step::Insert(0)
        } else {
            Step::FindEvents
        },
        before.step matches Step::Insert(i) ==> if i == before.plan.entries.len() - 1 {
            after.step == Step::FindEvents
        } else {
            after.step matches Step::Insert(j) && j == i + 1
        },
        before.step == Step::FindEvents ==> after.step == Step::OpenEvents,
        before.step == Step::OpenEvents ==> after.step == Step::BuildRuntime,
        before.step == Step::BuildRuntime ==> after.step == Step::WatchRing,
        before.step == Step::WatchRing ==> after.step == Step::CheckStop,
{
    if before.step == Step::ReadDenyFile {
        deny::law_plan_has_all_lines(after.plan, outcome->Content_0@);
    }
}

/// Whether to stop is looked at before every wait, and a worker that is to stop
/// ends. What the ring buffer has is taken out to the last item, and each is
/// reported.
pub proof fn law_events_are_reported_until_the_stop(
    before: Blocker,
    outcome: Outcome,
    after: Blocker,
)
    requires
        before.wf(),
        expects(before.step, outcome),
        is_advanced(before, outcome, after),
    ensures
        outcome matches Outcome::Stop(stop) ==> after.step == if stop {
            Step::Ended
        } else {
            Step::Wait
        },
        outcome is TimedOut || outcome is NoItem ==> after.step == Step::CheckStop,
        outcome is Ready || outcome is Item ==> after.step == Step::Drain,
        outcome matches Outcome::Item(item) ==> message_text(before, outcome) == report::item_text(
            item@,
        ),
        message_text(before, outcome) matches Some(Msg::Blocked(_)) ==> outcome is Item,
{
}

/// The worker says that it is attached, to all its interfaces, once the last of them
/// is, and how many entries are loaded once the last of them is. It says nothing
/// else but reports.
pub proof fn law_what_the_worker_says(before: Blocker, outcome: Outcome, after: Blocker)
    requires
        before.wf(),
        expects(before.step, outcome),
        is_advanced(before, outcome, after),
        !(outcome is Item),
    ensures
        ({
            let set_up = before.step != Step::FindDenyMap && after.step == Step::FindDenyMap;
            let loaded = before.step != Step::FindEvents && after.step == Step::FindEvents;
            message_text(before, outcome) == if set_up {
                Some(
                    Msg::Info(
                        "Attached to "@ + text::join(interfaces::texts(before.interfaces@), ", "@),
                    ),
                )
            } else if loaded {
                Some(
                    Msg::Info(
                        "Loaded "@ + text::decimal(after.plan.entries.len() as nat)
                            + " deny entries from "@ + before.deny_file@ + " (skipped: "@
                            + text::decimal(after.plan.skipped as nat) + ")"@,
                    ),
                )
            } else {
                None
            }
        }),
{
    if before.step == Step::ReadDenyFile && outcome is Content {
        deny::law_plan_has_all_lines(after.plan, outcome->Content_0@);
    }
}

/// A failure is told with what failed and the cause, or with the cause alone where a
/// map cannot be opened. Where a thing is missing, there is no cause.
pub proof fn law_what_a_failure_says(before: Blocker, outcome: Outcome, after: Blocker)
    requires
        before.wf(),
        expects(before.step, outcome),
        is_advanced(before, outcome, after),
    ensures
        outcome is Missing ==> (after.failure matches Some(failure) && failure@
            == match before.step {
            Step::FindProgram => "eBPF program 'dnsblk' not found"@,
            Step::FindDenyMap => "DENY_MAP not found"@,
            _ => "EVENTS map not found"@,
        }),
        outcome matches Outcome::Failed(cause) ==> {
            let told = |what: Seq<char>|
                after.failure matches Some(failure) && failure@ == what + ": "@ + cause@;
            &&& before.step == Step::LoadObject ==> told("Failed to load embedded eBPF program"@)
            &&& before.step == Step::CastProgram ==> told("Failed to cast to SchedClassifier"@)
            &&& before.step == Step::LoadProgram ==> told("Failed to load tc classifier"@)
            &&& before.step matches Step::Attach(i) ==> told(
                "Failed to attach eBPF program to interface "@ + before.interfaces[i as int]@,
            )
            &&& before.step == Step::OpenDenyMap || before.step == Step::OpenEvents ==> (
            after.failure matches Some(failure) && failure@ == cause@)
            &&& before.step == Step::ReadDenyFile ==> told(
                "Failed to read deny file: "@ + before.deny_file@,
            )
            &&& before.step matches Step::Insert(i) ==> told(
                "Failed to insert deny entry at line "@ + text::decimal(
                    before.plan.entries[i as int].line_no as nat,
                ) + ": "@ + before.plan.entries[i as int].line@,
            )
            &&& before.step == Step::BuildRuntime ==> told("Failed to create runtime"@)
            &&& before.step == Step::WatchRing ==> told("Failed to open ringbuf fd"@)
            &&& before.step == Step::Wait ==> told("RingBuf wait failed"@)
        },
{
    reveal_strlit("Failed to load embedded eBPF program");
    reveal_strlit("Failed to cast to SchedClassifier");
    reveal_strlit("Failed to load tc classifier");
    reveal_strlit("Failed to attach eBPF program to interface ");
    reveal_strlit("Failed to read deny file: ");
    reveal_strlit("Failed to insert deny entry at line ");
    reveal_strlit("Failed to create runtime");
    reveal_strlit("Failed to open ringbuf fd");
    reveal_strlit("RingBuf wait failed");
}

} // verus!
