//! What the parts add up to: a domain on the deny list is blocked, nothing else
//! is, and the report names the domain.
use crate::deny;
use crate::event::{self, MAX_DOMAIN_LEN};
use crate::hash;
use crate::packet::{self, Action, Verdict};
use crate::report::{self, Msg};
use crate::text;
use crate::wire;
use vstd::prelude::*;

verus! {

/// The keys that the deny list `content` puts into the deny map.
pub open spec fn list_keys(content: Seq<char>) -> Set<Seq<u8>> {
    deny::records(deny::lines_of(content)).map_values(|record: deny::DenyRecord| record.key).to_set()
}

/// The name by which a query for the domain of a line of the deny list is
/// recognised.
pub open spec fn line_name(line: Seq<char>) -> Seq<u8> {
    hash::through_nul(wire::domain_wire(text::trimmed(line)))
}

/// The key of every line with a domain to block is a key of the list.
proof fn lemma_line_key(content: Seq<char>, i: int)
    requires
        0 <= i < deny::lines_of(content).len(),
        deny::is_denied_line(deny::lines_of(content)[i]),
    ensures
        list_keys(content).contains(
            hash::be_bytes(
                hash::name_hash(wire::domain_wire(text::trimmed(deny::lines_of(content)[i]))),
            ),
        ),
{
    let lines = deny::lines_of(content);
    let records = deny::records(lines);
    let record = deny::record_of((i + 1) as nat, lines[i]);
    deny::law_denied_line_is_loaded(lines, i);
    let j = records.index_of(record);
    assert(records.map_values(|record: deny::DenyRecord| record.key)[j] == record.key);
}

/// A query for a domain on the deny list is dropped, and reported with the name
/// that it asked for, while the keys of the list are in the deny map.
///
/// The classifier takes a byte with both high bits set for the sign of a
/// compressed name; it does not recognise a listed name that has such a byte.
pub proof fn law_listed_domain_is_blocked(
    content: Seq<char>,
    i: int,
    keys: Set<Seq<u8>>,
    frame: Seq<u8>,
    verdict: Verdict,
)
    requires
        0 <= i < deny::lines_of(content).len(),
        deny::is_denied_line(deny::lines_of(content)[i]),
        list_keys(content).subset_of(keys),
        !packet::has_pointer(line_name(deny::lines_of(content)[i])),
        packet::asks_for(frame, line_name(deny::lines_of(content)[i])),
        packet::is_verdict(verdict, frame, keys),
    ensures
        verdict.action == Action::Drop,
        verdict.blocked matches Some(query) && packet::is_query_of(
            query,
            frame,
            line_name(deny::lines_of(content)[i]),
        ),
{
    let w = wire::domain_wire(text::trimmed(deny::lines_of(content)[i]));
    wire::law_wire_ends_with_zero(text::trimmed(deny::lines_of(content)[i]));
    assert(w[w.len() - 1] == 0);
    lemma_line_key(content, i);
    hash::lemma_through_nul_is_prefix(w);
    packet::law_query_is_found(frame, w);
}

/// A frame is dropped only if it is a query whose name has the hash of a domain
/// on the deny list, while the deny map has no keys but those of the list.
pub proof fn law_only_listed_hashes_are_blocked(
    content: Seq<char>,
    frame: Seq<u8>,
    verdict: Verdict,
) -> (i: int)
    requires
        packet::is_verdict(verdict, frame, list_keys(content)),
        verdict.action == Action::Drop,
    ensures
        0 <= i < deny::lines_of(content).len(),
        deny::is_denied_line(deny::lines_of(content)[i]),
        packet::question_name(frame) matches Some(name) && hash::fnv_fold(hash::FNV_OFFSET, name)
            == hash::name_hash(wire::domain_wire(text::trimmed(deny::lines_of(content)[i]))),
{
    let lines = deny::lines_of(content);
    let records = deny::records(lines);
    let name = packet::question_name(frame)->0;
    let query = choose|query: packet::DnsQuery| #[trigger]
        packet::is_query_of(query, frame, name) && verdict == packet::decided(
            query,
            list_keys(content).contains(hash::be_bytes(query.hash)),
        );
    let keys = records.map_values(|record: deny::DenyRecord| record.key);
    let j = keys.index_of(hash::be_bytes(query.hash));
    let i = deny::law_loaded_entry_is_listed(lines, j);
    hash::law_deny_key_is_injective(
        query.hash,
        hash::name_hash(wire::domain_wire(text::trimmed(lines[i]))),
    );
    i
}

/// The report of a blocked query comes out of the ring buffer as a message that
/// names the domain of the line: its labels in lower case with dots between
/// them, which is the domain itself where it is in normal form.
///
/// A name is cut at its first zero byte, and where the room of the event ends;
/// one with anything but zeros behind either is not given back whole.
pub proof fn law_report_names_the_listed_domain(
    line: Seq<char>,
    event: event::BlockEvent,
    trailer: Seq<u8>,
)
    requires
        event.domain@ == packet::domain_field(line_name(line)),
        wire::domain_wire(text::trimmed(line)).len() <= MAX_DOMAIN_LEN + 1,
        forall|j: int|
            line_name(line).len() <= j < wire::domain_wire(text::trimmed(line)).len()
                ==> wire::domain_wire(text::trimmed(line))[j] == 0,
    ensures
        report::item_text(event.bytes() + trailer) == Some(
            Msg::Blocked(report::blocked_text(event)),
        ),
        report::domain_in(report::blocked_text(event)) == text::join(
            wire::name_labels(line),
            seq!['.'],
        ),
        wire::is_normal(text::trimmed(line)) ==> report::domain_in(report::blocked_text(event))
            == text::trimmed(line),
{
    let domain = text::trimmed(line);
    let w = wire::domain_wire(domain);
    hash::lemma_through_nul_is_prefix(w);
    if w.len() <= MAX_DOMAIN_LEN {
        let zeros = Seq::new((MAX_DOMAIN_LEN - w.len()) as nat, |i: int| 0u8);
        assert(event.domain@ =~= w + zeros);
        wire::law_wire_reads_back(domain, zeros);
    } else {
        assert(event.domain@ =~= w.take(MAX_DOMAIN_LEN as int));
        let k = wire::law_cut_wire_reads_back(domain, MAX_DOMAIN_LEN as int);
        assert(wire::name_labels(domain).take(k) =~= wire::name_labels(domain));
    }
    event::law_decode_undoes_encode(event, trailer);
    report::law_blocked_line_names_the_domain(event);
    text::lemma_trimmed_twice(line);
    if wire::is_normal(domain) {
        wire::law_wire_reads_back(domain, Seq::empty());
        assert(w + Seq::empty() =~= w);
        wire::law_wire_to_domain_undoes_domain_to_wire(domain);
    }
}

/// The report of a blocked query for a name that an event has no room for names
/// the first labels of the domain of the line: as many as fit.
pub proof fn law_report_names_what_fits_of_a_long_domain(
    line: Seq<char>,
    event: event::BlockEvent,
) -> (k: int)
    requires
        event.domain@ == packet::domain_field(line_name(line)),
        line_name(line).len() > MAX_DOMAIN_LEN,
    ensures
        0 <= k <= wire::name_labels(line).len(),
        wire::encode_labels(wire::name_labels(line).take(k)).len() - 1 <= MAX_DOMAIN_LEN,
        k < wire::name_labels(line).len() ==> MAX_DOMAIN_LEN < wire::encode_labels(
            wire::name_labels(line).take(k + 1),
        ).len() - 1,
        report::domain_in(report::blocked_text(event)) == text::join(
            wire::name_labels(line).take(k),
            seq!['.'],
        ),
{
    let domain = text::trimmed(line);
    let w = wire::domain_wire(domain);
    hash::lemma_through_nul_is_prefix(w);
    assert(event.domain@ =~= w.take(MAX_DOMAIN_LEN as int));
    report::law_blocked_line_names_the_domain(event);
    text::lemma_trimmed_twice(line);
    wire::law_cut_wire_reads_back(domain, MAX_DOMAIN_LEN as int)
}

/// The keys of a list are those of the entries of its plan.
pub proof fn law_list_keys_are_those_of_the_plan(
    plan: deny::DenyPlan,
    content: Seq<char>,
    key: Seq<u8>,
)
    requires
        plan.is_plan_of(content),
    ensures
        list_keys(content).contains(key) <==> exists|j: int|
            0 <= j < plan.entries.len() && (#[trigger] plan.entries[j]).key@ == key,
{
    deny::law_plan_has_all_lines(plan, content);
    let records = deny::records(deny::lines_of(content));
    let keys = records.map_values(|record: deny::DenyRecord| record.key);
    if list_keys(content).contains(key) {
        let j = keys.index_of(key);
        assert(plan.entries[j].key@ == key);
    }
    if exists|j: int| 0 <= j < plan.entries.len() && (#[trigger] plan.entries[j]).key@ == key {
        let j = choose|j: int|
            0 <= j < plan.entries.len() && (#[trigger] plan.entries[j]).key@ == key;
        assert(keys[j] == key);
    }
}

/// A query for the domain that stands in a list between newlines is dropped, while
/// the keys of the entries of the list are in the deny map: the query holds the
/// domain in wire format, all of whose bytes but the last are other than zero and
/// below 0xC0, with the query type behind it.
pub proof fn law_query_for_a_stretch_of_the_list_is_dropped(
    plan: deny::DenyPlan,
    before: Seq<char>,
    line: Seq<char>,
    after: Seq<char>,
    keys: Set<Seq<u8>>,
    frame: Seq<u8>,
    at: int,
    verdict: Verdict,
)
    requires
        plan.is_plan_of(before + line + after),
        before.len() > 0 ==> before.last() == '\n',
        after.len() > 0 ==> after[0] == '\n',
        !line.contains('\n'),
        text::trimmed(line).len() > 0,
        text::trimmed(line)[0] != '#',
        wire::domain_wire(line).len() <= 255,
        forall|i: int|
            0 <= i < wire::domain_wire(line).len() - 1 ==> 0 < #[trigger] wire::domain_wire(line)[i]
                < 0xC0,
        forall|j: int|
            0 <= j < plan.entries.len() ==> keys.contains((#[trigger] plan.entries[j]).key@),
        packet::question_offset(frame) == Some(at),
        frame.len() >= at + wire::domain_wire(line).len() + 2,
        frame.subrange(at, at + wire::domain_wire(line).len()) == wire::domain_wire(line),
        packet::is_verdict(verdict, frame, keys),
    ensures
        verdict.action == Action::Drop,
        verdict.blocked matches Some(query) && packet::is_query_of(
            query,
            frame,
            wire::domain_wire(line),
        ),
{
    let w = wire::domain_wire(line);
    let j = deny::law_every_stretch_is_loaded(plan, before, line, after);
    assert(keys.contains(plan.entries[j].key@));
    wire::law_wire_ends_with_zero(line);
    packet::law_where_a_question_is_found(frame);
    packet::law_where_udp_is_found(frame);
    assert forall|i: int| at <= i < at + w.len() implies frame[i] == w[i - at] by {
        assert(frame.subrange(at, at + w.len())[i - at] == frame[i]);
    }
    assert forall|i: int| at <= i < at + w.len() - 1 implies 0 < #[trigger] frame[i] < 0xC0 by {
        assert(0 < w[i - at] < 0xC0);
    }
    packet::law_name_ends_with_its_zero_byte(frame, at, w.len() - 1);
    packet::law_what_is_dropped(verdict, frame, keys);
}

} // verus!
