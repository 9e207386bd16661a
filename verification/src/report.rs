//! The messages of the worker, and the lines they are logged as.
use crate::event;
use crate::event::{BlockEvent, DNS_TYPE_A, DNS_TYPE_AAAA};
use crate::text;
use crate::wire;
use vstd::prelude::*;

verus! {

/// Messages sent from the worker thread to the event consumer.
pub enum WorkerMsg {
    /// Informational status message.
    Info(String),
    /// Error message from the worker.
    Error(String),
    /// A DNS query was blocked (contains formatted message).
    Blocked(String),
    /// Worker has stopped (clean shutdown).
    Stopped,
}

/// A `WorkerMsg` as a value.
pub enum Msg {
    Info(Seq<char>),
    Error(Seq<char>),
    Blocked(Seq<char>),
    Stopped,
}

impl View for WorkerMsg {
    type V = Msg;

    open spec fn view(&self) -> Msg {
        match self {
            WorkerMsg::Info(line) => Msg::Info(line@),
            WorkerMsg::Error(line) => Msg::Error(line@),
            WorkerMsg::Blocked(line) => Msg::Blocked(line@),
            WorkerMsg::Stopped => Msg::Stopped,
        }
    }
}

/// The name of a query type; `OTHER` for all but A and AAAA.
pub open spec fn qtype_text(qtype: u16) -> Seq<char> {
    if qtype == DNS_TYPE_A {
        "A"@
    } else if qtype == DNS_TYPE_AAAA {
        "AAAA"@
    } else {
        "OTHER"@
    }
}

/// Return a human-readable name for a DNS query type.
#[must_use]
pub fn qtype_name(qtype: u16) -> (name: &'static str)
    ensures
        name@ == qtype_text(qtype),
{
    if qtype == DNS_TYPE_A {
        "A"
    } else if qtype == DNS_TYPE_AAAA {
        "AAAA"
    } else {
        "OTHER"
    }
}

/// The line for a blocked query.
pub open spec fn blocked_text(event: BlockEvent) -> Seq<char> {
    "Blocked ("@ + qtype_text(event.qtype) + ") : "@ + wire::wire_text(event.domain@)
}

/// The line for a blocked query.
pub fn blocked_line(event: &BlockEvent) -> (line: String)
    ensures
        line@ == blocked_text(*event),
{
    let mut line: String = "Blocked (".to_owned();
    line.push_str(qtype_name(event.qtype));
    line.push_str(") : ");
    let domain: String = wire::wire_to_domain(event.domain.as_slice());
    line.push_str(domain.as_str());
    line
}

/// The message for a ring-buffer item; none for an item too short to hold an
/// event.
pub open spec fn item_text(item: Seq<u8>) -> Option<Msg> {
    match event::event_in(item) {
        Some(event) => Some(Msg::Blocked(blocked_text(event))),
        None => None,
    }
}

/// The message as a value, if there is one.
pub open spec fn msg_text(msg: Option<WorkerMsg>) -> Option<Msg> {
    match msg {
        Some(msg) => Some(msg@),
        None => None,
    }
}

/// The message for a ring-buffer item; none for an item too short to hold an
/// event.
pub fn item_message(item: &[u8]) -> (msg: Option<WorkerMsg>)
    ensures
        msg_text(msg) == item_text(item@),
{
    match BlockEvent::decode(item) {
        Some(event) => Some(WorkerMsg::Blocked(blocked_line(&event))),
        None => None,
    }
}

/// What stands behind the first occurrence of `delimiter` in `s`, if it occurs.
pub open spec fn behind_first(s: Seq<char>, delimiter: Seq<char>) -> Option<Seq<char>>
    decreases s.len(),
{
    if text::occurs_at(s, delimiter, 0) {
        Some(s.skip(delimiter.len() as int))
    } else if s.len() == 0 {
        None
    } else {
        behind_first(s.drop_first(), delimiter)
    }
}

/// The domain that a line for a blocked query names: what stands behind its
/// first ` : `, or the whole line without one.
pub open spec fn domain_in(line: Seq<char>) -> Seq<char> {
    match behind_first(line, " : "@) {
        Some(domain) => domain,
        None => line,
    }
}

/// The domain that a line for a blocked query names.
pub fn blocked_domain(line: &str) -> (domain: &str)
    ensures
        domain@ == domain_in(line@),
{
    match text::split_once(line, " : ") {
        Some((before, behind)) => {
            proof {
                lemma_behind_first(before@, " : "@, behind@);
            }
            behind
        },
        None => {
            proof {
                lemma_behind_none(line@, " : "@);
            }
            line
        },
    }
}

/// A delimiter that first occurs behind `before`.
proof fn lemma_behind_first(before: Seq<char>, delimiter: Seq<char>, behind: Seq<char>)
    requires
        forall|i: int|
            0 <= i < before.len() ==> !text::occurs_at(before + delimiter + behind, delimiter, i),
    ensures
        behind_first(before + delimiter + behind, delimiter) == Some(behind),
    decreases before.len(),
{
    let s = before + delimiter + behind;
    if before.len() == 0 {
        assert(s.subrange(0, delimiter.len() as int) =~= delimiter);
        assert(s.skip(delimiter.len() as int) =~= behind);
    } else {
        let rest = before.drop_first();
        assert(s.drop_first() =~= rest + delimiter + behind);
        assert forall|i: int| 0 <= i < rest.len() implies !text::occurs_at(
            rest + delimiter + behind,
            delimiter,
            i,
        ) by {
            assert(!text::occurs_at(s, delimiter, i + 1));
            assert(s.subrange(i + 1, i + 1 + delimiter.len()) =~= (rest + delimiter
                + behind).subrange(i, i + delimiter.len()));
        }
        lemma_behind_first(rest, delimiter, behind);
        assert(!text::occurs_at(s, delimiter, 0));
    }
}

/// A delimiter that does not occur.
proof fn lemma_behind_none(s: Seq<char>, delimiter: Seq<char>)
    requires
        forall|i: int| !text::occurs_at(s, delimiter, i),
    ensures
        behind_first(s, delimiter) is None,
    decreases s.len(),
{
    assert(!text::occurs_at(s, delimiter, 0));
    if s.len() > 0 {
        let rest = s.drop_first();
        assert forall|i: int| !text::occurs_at(rest, delimiter, i) by {
            assert(!text::occurs_at(s, delimiter, i + 1));
            if 0 <= i && i + delimiter.len() <= rest.len() {
                assert(s.subrange(i + 1, i + 1 + delimiter.len()) =~= rest.subrange(
                    i,
                    i + delimiter.len(),
                ));
            }
        }
        lemma_behind_none(rest, delimiter);
    }
}

/// The line as logged: with the number of reports left out, if any.
pub open spec fn counted_text(line: Seq<char>, count: u32) -> Seq<char> {
    if count > 0 {
        line + " ("@ + text::decimal(count as nat) + ")"@
    } else {
        line
    }
}

/// The line as logged: with the number of reports left out, if any.
pub fn counted_line(line: String, count: u32) -> (out: String)
    ensures
        out@ == counted_text(line@, count),
{
    let mut line: String = line;
    if count > 0 {
        line.push_str(" (");
        text::push_decimal(&mut line, count as u64);
        line.push_str(")");
    }
    line
}

/// The line for a blocked query names the domain of the query, whatever
/// characters that holds.
pub proof fn law_blocked_line_names_the_domain(event: BlockEvent)
    ensures
        domain_in(blocked_text(event)) == wire::wire_text(event.domain@),
{
    reveal_strlit("Blocked (");
    reveal_strlit(") : ");
    reveal_strlit(" : ");
    reveal_strlit("A");
    reveal_strlit("AAAA");
    reveal_strlit("OTHER");
    let before = "Blocked ("@ + qtype_text(event.qtype) + seq![')'];
    let domain = wire::wire_text(event.domain@);
    let line = before + " : "@ + domain;
    assert(") : "@ =~= seq![')'] + " : "@);
    assert(blocked_text(event) =~= line);
    assert forall|i: int| 0 <= i < before.len() implies !text::occurs_at(line, " : "@, i) by {
        if text::occurs_at(line, " : "@, i) {
            let found = line.subrange(i, i + 3);
            assert(found[0] == line[i] && found[1] == line[i + 1]);
            assert(" : "@[0] == ' ' && " : "@[1] == ':');
            assert(line[i] == before[i]);
            assert(i == 7);
            assert(line[8] == '(');
        }
    }
    lemma_behind_first(before, " : "@, domain);
}

/// The types 1 and 28 have their names, and no other has one.
pub proof fn law_names_of_query_types(qtype: u16)
    ensures
        qtype == 1 ==> qtype_text(qtype) == "A"@,
        qtype == 28 ==> qtype_text(qtype) == "AAAA"@,
        qtype != 1 && qtype != 28 ==> qtype_text(qtype) == "OTHER"@,
{
}

/// An item with the bytes of an event in front gives the line that names the query
/// type and the domain of the event; a shorter item gives none.
pub proof fn law_what_an_item_reports(item: Seq<u8>, event: BlockEvent)
    ensures
        item.len() < 144 ==> item_text(item) is None,
        item.len() >= 144 && item.take(144) == event.bytes() ==> item_text(item) == Some(
            Msg::Blocked(
                "Blocked ("@ + qtype_text(event.qtype) + ") : "@ + wire::wire_text(event.domain@),
            ),
        ),
{
    event::law_what_holds_an_event(item, event);
}

/// The domain is what stands behind the first ` : ` of a line.
pub proof fn law_domain_stands_behind_the_delimiter(before: Seq<char>, domain: Seq<char>)
    requires
        forall|i: int|
            0 <= i < before.len() ==> (#[trigger] (before + " : "@ + domain).subrange(i, i + 3))
                != " : "@,
    ensures
        domain_in(before + " : "@ + domain) == domain,
{
    reveal_strlit(" : ");
    let line = before + " : "@ + domain;
    assert forall|i: int| 0 <= i < before.len() implies !text::occurs_at(line, " : "@, i) by {
        assert(line.subrange(i, i + 3) != " : "@);
    }
    lemma_behind_first(before, " : "@, domain);
}

/// A line without ` : ` is taken for the domain as a whole.
pub proof fn law_line_without_delimiter_is_the_domain(line: Seq<char>)
    requires
        forall|i: int|
            0 <= i <= line.len() - 3 ==> (#[trigger] line.subrange(i, i + 3)) != " : "@,
    ensures
        domain_in(line) == line,
{
    reveal_strlit(" : ");
    assert forall|i: int| !text::occurs_at(line, " : "@, i) by {
        if text::occurs_at(line, " : "@, i) {
            assert(line.subrange(i, i + 3) != " : "@);
        }
    }
    lemma_behind_none(line, " : "@);
}

/// A line is logged as it is where nothing was left out, and else with the number in
/// brackets behind it.
pub proof fn law_what_was_left_out_is_counted(line: Seq<char>, count: u32)
    ensures
        count == 0 ==> counted_text(line, count) == line,
        count > 0 ==> counted_text(line, count) == line + " ("@ + text::decimal(count as nat)
            + ")"@,
{
}

/// Two messages have the same value only where they are of one sort, with one text.
pub proof fn law_messages_as_values(msg: WorkerMsg)
    ensures
        msg matches WorkerMsg::Info(line) ==> msg@ == Msg::Info(line@),
        msg matches WorkerMsg::Error(line) ==> msg@ == Msg::Error(line@),
        msg matches WorkerMsg::Blocked(line) ==> msg@ == Msg::Blocked(line@),
        msg is Stopped ==> msg@ == Msg::Stopped,
        msg_text(Some(msg)) == Some(msg@),
        msg_text(None) is None,
{
}

} // verus!
