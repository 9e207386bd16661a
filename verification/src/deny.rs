//! The deny list: which lines of it name a domain to block, and under which key.
use crate::hash;
use crate::text;
use crate::wire;
use vstd::prelude::*;

verus! {

/// A domain to block, as a line of the deny list names it.
pub struct DenyEntry {
    /// The number of the line, from 1.
    pub line_no: u64,
    /// The line, without the white space around it.
    pub line: String,
    /// The key in the deny map.
    pub key: [u8; 8],
}

/// What a deny list asks for.
pub struct DenyPlan {
    /// The domains to block, in the order of their lines.
    pub entries: Vec<DenyEntry>,
    /// How many lines name a domain that is too long.
    pub skipped: u64,
}

/// A `DenyEntry` as a value.
pub struct DenyRecord {
    pub line_no: nat,
    pub line: Seq<char>,
    pub key: Seq<u8>,
}

impl View for DenyEntry {
    type V = DenyRecord;

    open spec fn view(&self) -> DenyRecord {
        DenyRecord { line_no: self.line_no as nat, line: self.line@, key: self.key@ }
    }
}

/// A line that names no domain: blank, or a comment.
pub open spec fn is_blank_or_comment(line: Seq<char>) -> bool {
    text::trimmed(line).len() == 0 || text::trimmed(line)[0] == '#'
}

/// A line whose domain is too long for wire format.
pub open spec fn is_oversized(line: Seq<char>) -> bool {
    !is_blank_or_comment(line) && wire::domain_wire(text::trimmed(line)).len() > wire::MAX_WIRE_LEN
}

/// A line whose domain is to be blocked.
pub open spec fn is_denied_line(line: Seq<char>) -> bool {
    !is_blank_or_comment(line) && wire::domain_wire(text::trimmed(line)).len() <= wire::MAX_WIRE_LEN
}

/// The entry of the line with the number `line_no`.
pub open spec fn record_of(line_no: nat, line: Seq<char>) -> DenyRecord {
    DenyRecord {
        line_no,
        line: text::trimmed(line),
        key: hash::be_bytes(hash::name_hash(wire::domain_wire(text::trimmed(line)))),
    }
}

/// The entries of the lines.
pub open spec fn records(lines: Seq<Seq<char>>) -> Seq<DenyRecord>
    decreases lines.len(),
{
    if lines.len() == 0 {
        Seq::empty()
    } else if is_denied_line(lines.last()) {
        records(lines.drop_last()).push(record_of(lines.len(), lines.last()))
    } else {
        records(lines.drop_last())
    }
}

/// How many of the lines are oversized.
pub open spec fn oversized(lines: Seq<Seq<char>>) -> nat
    decreases lines.len(),
{
    if lines.len() == 0 {
        0
    } else if is_oversized(lines.last()) {
        oversized(lines.drop_last()) + 1
    } else {
        oversized(lines.drop_last())
    }
}

/// The lines of a file.
pub open spec fn lines_of(content: Seq<char>) -> Seq<Seq<char>> {
    text::split(content, '\n')
}

impl DenyPlan {
    /// The entries as values.
    pub open spec fn records(self) -> Seq<DenyRecord> {
        self.entries@.map_values(|entry: DenyEntry| entry@)
    }

    /// The plan for the deny list `content`.
    pub open spec fn is_plan_of(self, content: Seq<char>) -> bool {
        &&& self.records() == records(lines_of(content))
        &&& self.skipped == oversized(lines_of(content))
    }
}

/// Takes one more line into the plan, the `before` lines before it being in it.
fn push_line(plan: &mut DenyPlan, before: u64, line: &str, Ghost(lines): Ghost<Seq<Seq<char>>>)
    requires
        old(plan).records() == records(lines),
        old(plan).skipped == oversized(lines),
        before == lines.len(),
        before + line@.len() <= u64::MAX,
    ensures
        final(plan).records() == records(lines.push(line@)),
        final(plan).skipped == oversized(lines.push(line@)),
{
    proof {
        assert(lines.push(line@).drop_last() =~= lines);
        lemma_oversized_bound(lines);
    }
    let line: &str = line.trim();
    if line.is_empty() || line.get_char(0) == '#' {
        return ;
    }
    let wire: Vec<u8> = wire::domain_to_wire(line);
    if wire.len() > wire::MAX_WIRE_LEN {
        plan.skipped = plan.skipped + 1;
        return ;
    }
    let key: [u8; 8] = hash::deny_key(hash::fnv1a_64(wire.as_slice()));
    let entry = DenyEntry { line_no: before + 1, line: line.to_owned(), key };
    let ghost entries = plan.entries@;
    let ghost record = entry@;
    plan.entries.push(entry);
    assert(plan.records() =~= entries.map_values(|entry: DenyEntry| entry@).push(record));
}

/// No more lines are oversized than there are.
proof fn lemma_oversized_bound(lines: Seq<Seq<char>>)
    ensures
        oversized(lines) <= lines.len(),
    decreases lines.len(),
{
    if lines.len() > 0 {
        lemma_oversized_bound(lines.drop_last());
    }
}

/// Works out which keys the deny list `content` puts into the deny map.
///
/// Each line names one domain; blank lines and lines that start with `#` name
/// none. A domain of more than 255 bytes in wire format is skipped.
pub fn load_deny_map(content: &str) -> (plan: DenyPlan)
    ensures
        plan.is_plan_of(content@),
{
    let mut plan = DenyPlan { entries: Vec::new(), skipped: 0 };
    let mut rest: &str = content;
    let mut count: u64 = 0;
    let bytes: &[u8] = content.as_bytes();
    let limit: usize = bytes.len();
    let ghost mut lines: Seq<Seq<char>> = Seq::empty();
    proof {
        text::lemma_chars_within_bytes(content@);
        reveal_strlit("\n");
        assert("\n"@ =~= seq!['\n']);
        assert(plan.records() =~= Seq::empty());
        assert(lines + lines_of(content@) =~= lines_of(content@));
    }
    loop
        invariant_except_break
            "\n"@ == seq!['\n'],
            lines + text::split(rest@, '\n') == lines_of(content@),
            count == lines.len(),
            lines.len() + rest@.len() <= limit,
            plan.records() == records(lines),
            plan.skipped == oversized(lines),
        ensures
            plan.is_plan_of(content@),
        decreases rest@.len(),
    {
        let (line, behind) = text::first_piece(rest, "\n", Ghost('\n'));
        push_line(&mut plan, count, line, Ghost(lines));
        match behind {
            Some(next) => {
                proof {
                    assert(lines.push(line@) + text::split(next@, '\n') =~= lines + (seq![line@]
                        + text::split(next@, '\n')));
                    lines = lines.push(line@);
                }
                rest = next;
                count = count + 1;
            },
            None => {
                assert(lines.push(line@) =~= lines + seq![line@]);
                break ;
            },
        }
    }
    plan
}

/// Every line with a domain to block becomes an entry.
pub proof fn law_denied_line_is_loaded(lines: Seq<Seq<char>>, i: int)
    requires
        0 <= i < lines.len(),
        is_denied_line(lines[i]),
    ensures
        records(lines).contains(record_of((i + 1) as nat, lines[i])),
    decreases lines.len(),
{
    let record = record_of((i + 1) as nat, lines[i]);
    let all = records(lines);
    if i == lines.len() - 1 {
        assert(all[all.len() - 1] == record);
    } else {
        let before = records(lines.drop_last());
        law_denied_line_is_loaded(lines.drop_last(), i);
        let j = before.index_of(record);
        assert(all[j] == record);
    }
}

/// Every entry comes from a line with a domain to block.
pub proof fn law_loaded_entry_is_listed(lines: Seq<Seq<char>>, j: int) -> (i: int)
    requires
        0 <= j < records(lines).len(),
    ensures
        0 <= i < lines.len(),
        is_denied_line(lines[i]),
        records(lines)[j] == record_of((i + 1) as nat, lines[i]),
    decreases lines.len(),
{
    let before = records(lines.drop_last());
    if j < before.len() {
        law_loaded_entry_is_listed(lines.drop_last(), j)
    } else {
        lines.len() - 1
    }
}

/// The entries stand in the order of their lines.
pub proof fn law_entries_keep_the_order_of_lines(lines: Seq<Seq<char>>, j: int, k: int)
    requires
        0 <= j < k < records(lines).len(),
    ensures
        records(lines)[j].line_no < records(lines)[k].line_no,
    decreases lines.len(),
{
    let before = records(lines.drop_last());
    if k < before.len() {
        law_entries_keep_the_order_of_lines(lines.drop_last(), j, k);
    } else {
        let i = law_loaded_entry_is_listed(lines.drop_last(), j);
    }
}

/// How many of the lines name no domain.
pub open spec fn unnamed(lines: Seq<Seq<char>>) -> nat
    decreases lines.len(),
{
    if lines.len() == 0 {
        0
    } else if is_blank_or_comment(lines.last()) {
        unnamed(lines.drop_last()) + 1
    } else {
        unnamed(lines.drop_last())
    }
}

/// Every line is loaded, skipped, or names no domain.
pub proof fn law_every_line_is_accounted_for(lines: Seq<Seq<char>>)
    ensures
        records(lines).len() + oversized(lines) + unnamed(lines) == lines.len(),
    decreases lines.len(),
{
    if lines.len() > 0 {
        law_every_line_is_accounted_for(lines.drop_last());
    }
}

/// The lines of a file, with newlines between them, are the file, and no line holds
/// a newline.
pub proof fn law_lines_make_up_the_file(content: Seq<char>)
    ensures
        text::join(lines_of(content), seq!['\n']) == content,
        forall|i: int|
            0 <= i < lines_of(content).len() ==> !(#[trigger] lines_of(content)[i]).contains('\n'),
{
    text::law_join_undoes_split(content, '\n');
    assert forall|i: int| 0 <= i < lines_of(content).len() implies !(
    #[trigger] lines_of(content)[i]).contains('\n') by {
        text::law_pieces_hold_no_separator(content, '\n', i);
    }
}

/// One more line adds an entry if it names a domain of at most 255 bytes in wire
/// format, adds to the count of those skipped if it names a longer one, and changes
/// nothing if it is blank or a comment.
pub proof fn law_list_is_loaded_line_by_line(lines: Seq<Seq<char>>, line: Seq<char>)
    ensures
        records(Seq::empty()) == Seq::<DenyRecord>::empty(),
        oversized(Seq::empty()) == 0,
        ({
            let name = text::trimmed(line);
            let names = name.len() > 0 && name[0] != '#';
            let len = wire::domain_wire(line).len();
            &&& names && len <= 255 ==> records(lines.push(line)) == records(lines).push(
                DenyRecord {
                    line_no: lines.len() + 1,
                    line: name,
                    key: hash::be_bytes(hash::name_hash(wire::domain_wire(line))),
                },
            ) && oversized(lines.push(line)) == oversized(lines)
            &&& names && len > 255 ==> records(lines.push(line)) == records(lines) && oversized(
                lines.push(line),
            ) == oversized(lines) + 1
            &&& !names ==> records(lines.push(line)) == records(lines) && oversized(
                lines.push(line),
            ) == oversized(lines)
        }),
{
    wire::law_white_space_does_not_matter(line);
    assert(lines.push(line).drop_last() =~= lines);
}

/// The plan for a list has the entries and the count of the lines of the list, none
/// more and none less.
pub proof fn law_plan_has_all_lines(plan: DenyPlan, content: Seq<char>)
    requires
        plan.is_plan_of(content),
    ensures
        plan.entries.len() == records(lines_of(content)).len(),
        plan.skipped == oversized(lines_of(content)),
        forall|j: int|
            0 <= j < plan.entries.len() ==> {
                let record = records(lines_of(content))[j];
                &&& (#[trigger] plan.entries[j]).line_no == record.line_no
                &&& plan.entries[j].line@ == record.line
                &&& plan.entries[j].key@ == record.key
            },
{
    assert(plan.records().len() == plan.entries.len());
    assert forall|j: int| 0 <= j < plan.entries.len() implies {
        let record = records(lines_of(content))[j];
        &&& (#[trigger] plan.entries[j]).line_no == record.line_no
        &&& plan.entries[j].line@ == record.line
        &&& plan.entries[j].key@ == record.key
    } by {
        assert(plan.records()[j] == plan.entries[j]@);
    }
}

/// Every stretch of a list between newlines that names a domain of at most 255
/// bytes in wire format has its entry, wherever it stands.
pub proof fn law_every_stretch_is_loaded(
    plan: DenyPlan,
    before: Seq<char>,
    line: Seq<char>,
    after: Seq<char>,
) -> (j: int)
    requires
        plan.is_plan_of(before + line + after),
        before.len() > 0 ==> before.last() == '\n',
        after.len() > 0 ==> after[0] == '\n',
        !line.contains('\n'),
        text::trimmed(line).len() > 0,
        text::trimmed(line)[0] != '#',
        wire::domain_wire(line).len() <= 255,
    ensures
        0 <= j < plan.entries.len(),
        plan.entries[j].line_no == text::split(before, '\n').len(),
        plan.entries[j].line@ == text::trimmed(line),
        plan.entries[j].key@ == hash::be_bytes(hash::name_hash(wire::domain_wire(line))),
{
    let content = before + line + after;
    let lines = lines_of(content);
    let tail = line + after;
    if after.len() == 0 {
        assert(tail =~= line);
        text::lemma_split_whole(line, '\n');
    } else {
        assert(tail =~= line + seq!['\n'] + after.drop_first());
        text::lemma_split_at_first(line, '\n', after.drop_first());
    }
    assert(text::split(tail, '\n')[0] == line);
    let i = text::split(before, '\n').len() - 1;
    if before.len() == 0 {
        assert(content =~= tail);
    } else {
        let front = before.drop_last();
        assert(before =~= front.push('\n'));
        assert(content =~= front + seq!['\n'] + tail);
        text::lemma_split_push_separator(front, '\n');
        text::law_separator_parts_the_pieces(front, '\n', tail);
    }
    text::lemma_split_not_empty(before, '\n');
    assert(lines[i] == line);
    wire::law_white_space_does_not_matter(line);
    law_denied_line_is_loaded(lines, i);
    law_plan_has_all_lines(plan, content);
    records(lines).index_of(record_of((i + 1) as nat, line))
}

/// Every entry comes from a stretch of the list between newlines that names a
/// domain of at most 255 bytes in wire format.
pub proof fn law_every_entry_is_a_stretch(plan: DenyPlan, content: Seq<char>, j: int) -> (parts: (
    Seq<char>,
    Seq<char>,
    Seq<char>,
))
    requires
        plan.is_plan_of(content),
        0 <= j < plan.entries.len(),
    ensures
        content == parts.0 + parts.1 + parts.2,
        parts.0.len() > 0 ==> parts.0.last() == '\n',
        parts.2.len() > 0 ==> parts.2[0] == '\n',
        !parts.1.contains('\n'),
        text::trimmed(parts.1).len() > 0,
        text::trimmed(parts.1)[0] != '#',
        wire::domain_wire(parts.1).len() <= 255,
        plan.entries[j].line_no == text::split(parts.0, '\n').len(),
        plan.entries[j].line@ == text::trimmed(parts.1),
        plan.entries[j].key@ == hash::be_bytes(hash::name_hash(wire::domain_wire(parts.1))),
{
    let lines = lines_of(content);
    law_plan_has_all_lines(plan, content);
    let i = law_loaded_entry_is_listed(lines, j);
    let (before, after) = text::law_piece_stands_between_separators(content, '\n', i);
    text::law_pieces_hold_no_separator(content, '\n', i);
    wire::law_white_space_does_not_matter(lines[i]);
    (before, lines[i], after)
}

} // verus!
