//! Suppression of repeated reports: a domain that is blocked again and again is
//! reported once, and later with the number of reports left out.
use vstd::prelude::*;

verus! {

/// Deduplication window for log suppression, in nanoseconds.
pub const LOG_DEDUP_WINDOW: i64 = 1_200_000_000;

/// When a domain was last seen, and how many reports of it were left out since
/// the last one.
#[derive(Clone, Copy)]
pub struct Seen {
    /// The time, in nanoseconds from a fixed point.
    pub last: i64,
    pub suppressed: u32,
}

/// A domain that was seen.
pub struct Sighting {
    pub domain: String,
    pub seen: Seen,
}

/// The domains seen of late.
pub struct SeenDomains {
    entries: Vec<Sighting>,
}

/// The domain is among the entries.
spec fn listed(entries: Seq<Sighting>, domain: Seq<char>) -> bool {
    exists|i: int| 0 <= i < entries.len() && (#[trigger] entries[i]).domain@ == domain
}

/// Where the domain is among the entries.
spec fn place(entries: Seq<Sighting>, domain: Seq<char>) -> int {
    choose|i: int| 0 <= i < entries.len() && (#[trigger] entries[i]).domain@ == domain
}

/// No domain is listed twice.
spec fn distinct(entries: Seq<Sighting>) -> bool {
    forall|i: int, j: int|
        0 <= i < j < entries.len() ==> (#[trigger] entries[i]).domain@ != (
        #[trigger] entries[j]).domain@
}

/// The entries as a map.
spec fn as_map(entries: Seq<Sighting>) -> Map<Seq<char>, Seen> {
    Map::new(
        |domain: Seq<char>| listed(entries, domain),
        |domain: Seq<char>| entries[place(entries, domain)].seen,
    )
}

/// The entry is one of `all` from `from` on, and was seen since `time`.
spec fn kept_from(all: Seq<Sighting>, from: int, entry: Sighting, time: i64) -> bool {
    entry.seen.last >= time && exists|j: int| from <= j < all.len() && #[trigger] all[j] == entry
}

impl View for SeenDomains {
    type V = Map<Seq<char>, Seen>;

    closed spec fn view(&self) -> Map<Seq<char>, Seen> {
        as_map(self.entries@)
    }
}

/// The time from `last` to `now`; none where `last` is the later.
pub open spec fn elapsed(last: i64, now: i64) -> int {
    if last <= now {
        now - last
    } else {
        0
    }
}

/// The domain was seen within the window before `now`.
pub open spec fn is_recent(seen: Map<Seq<char>, Seen>, domain: Seq<char>, now: i64) -> bool {
    seen.contains_key(domain) && elapsed(seen[domain].last, now) < LOG_DEDUP_WINDOW
}

/// Domains not seen since this time are forgotten: the start of the window
/// before `now`, or `now` where time does not reach back that far.
pub open spec fn keep_after(now: i64) -> i64 {
    if now - LOG_DEDUP_WINDOW >= i64::MIN {
        (now - LOG_DEDUP_WINDOW) as i64
    } else {
        now
    }
}

/// What is left of `seen` without the domains not seen since `time`.
pub open spec fn since(seen: Map<Seq<char>, Seen>, time: i64) -> Map<Seq<char>, Seen> {
    Map::new(
        |domain: Seq<char>| seen.contains_key(domain) && seen[domain].last >= time,
        |domain: Seq<char>| seen[domain],
    )
}

/// The count of reports left out for `domain`.
pub open spec fn suppressed_count(seen: Map<Seq<char>, Seen>, domain: Seq<char>) -> u32 {
    if seen.contains_key(domain) {
        seen[domain].suppressed
    } else {
        0
    }
}

/// What `check_domain` answers.
pub open spec fn report_of(seen: Map<Seq<char>, Seen>, domain: Seq<char>, now: i64) -> Option<u32> {
    if is_recent(seen, domain, now) {
        None
    } else {
        Some(suppressed_count(seen, domain))
    }
}

/// What `check_domain` leaves behind.
pub open spec fn seen_after(seen: Map<Seq<char>, Seen>, domain: Seq<char>, now: i64) -> Map<
    Seq<char>,
    Seen,
> {
    if is_recent(seen, domain, now) {
        seen.insert(domain, Seen { last: now, suppressed: (seen[domain].suppressed + 1) as u32 })
    } else {
        since(seen.insert(domain, Seen { last: now, suppressed: 0 }), keep_after(now))
    }
}

/// The count for the domain has room for one more.
pub open spec fn has_room(seen: Map<Seq<char>, Seen>, domain: Seq<char>, now: i64) -> bool {
    is_recent(seen, domain, now) ==> seen[domain].suppressed < u32::MAX
}

/// The map of distinct entries has each under its domain.
proof fn lemma_as_map(entries: Seq<Sighting>, i: int)
    requires
        distinct(entries),
        0 <= i < entries.len(),
    ensures
        as_map(entries).contains_key(entries[i].domain@),
        as_map(entries)[entries[i].domain@] == entries[i].seen,
{
    let domain = entries[i].domain@;
    assert(listed(entries, domain));
    let p = place(entries, domain);
    assert(entries[p].domain@ == domain);
    assert(p == i);
}

impl SeenDomains {
    /// Whether no domain is held twice.
    pub closed spec fn wf(self) -> bool {
        distinct(self.entries@)
    }

    /// No domain has been seen.
    pub fn new() -> (seen: SeenDomains)
        ensures
            seen.wf(),
            seen@ == Map::<Seq<char>, Seen>::empty(),
    {
        let seen = SeenDomains { entries: Vec::new() };
        assert(seen@ =~= Map::<Seq<char>, Seen>::empty());
        seen
    }

    /// Where the domain is held.
    fn find(&self, domain: &str) -> (at: Option<usize>)
        requires
            self.wf(),
        ensures
            match at {
                Some(i) => i < self.entries@.len() && self.entries@[i as int].domain@ == domain@,
                None => !self@.contains_key(domain@),
            },
    {
        let wanted: String = domain.to_owned();
        let mut i: usize = 0;
        while i < self.entries.len()
            invariant
                i <= self.entries@.len(),
                wanted@ == domain@,
                forall|j: int| 0 <= j < i ==> (#[trigger] self.entries@[j]).domain@ != domain@,
            decreases self.entries@.len() - i,
        {
            if self.entries[i].domain == wanted {
                return Some(i);
            }
            i += 1;
        }
        None
    }

    /// What is known of a domain.
    pub fn get(&self, domain: &str) -> (seen: Option<Seen>)
        requires
            self.wf(),
        ensures
            seen == (if self@.contains_key(domain@) {
                Some(self@[domain@])
            } else {
                None
            }),
    {
        match self.find(domain) {
            Some(i) => {
                proof {
                    lemma_as_map(self.entries@, i as int);
                }
                Some(self.entries[i].seen)
            },
            None => None,
        }
    }

    /// Whether the count for a domain has room for one more.
    pub fn room_for(&self, domain: &str, now: i64) -> (room: bool)
        requires
            self.wf(),
        ensures
            room == has_room(self@, domain@, now),
    {
        match self.get(domain) {
            Some(known) => known.suppressed < u32::MAX || !within_window(known.last, now),
            None => true,
        }
    }

    /// Notes that a domain was seen.
    fn put(&mut self, domain: &str, seen: Seen)
        requires
            old(self).wf(),
        ensures
            final(self).wf(),
            final(self)@ == old(self)@.insert(domain@, seen),
    {
        let ghost before = self.entries@;
        match self.find(domain) {
            Some(i) => {
                self.entries[i].seen = seen;
                proof {
                    lemma_put_in_place(before, self.entries@, i as int, seen);
                }
            },
            None => {
                self.entries.push(Sighting { domain: domain.to_owned(), seen });
                proof {
                    assert(self.entries@.drop_last() =~= before);
                    lemma_put_new(before, self.entries@);
                }
            },
        }
    }

    /// Forgets the domains not seen since `time`.
    fn forget_before(&mut self, time: i64)
        requires
            old(self).wf(),
        ensures
            final(self).wf(),
            final(self)@ == since(old(self)@, time),
    {
        let ghost all = self.entries@;
        let mut kept: Vec<Sighting> = Vec::new();
        loop
            invariant
                distinct(all),
                self.entries@.len() <= all.len(),
                self.entries@ == all.take(self.entries@.len() as int),
                distinct(kept@),
                forall|i: int|
                    0 <= i < kept@.len() ==> kept_from(
                        all,
                        self.entries@.len() as int,
                        #[trigger] kept@[i],
                        time,
                    ),
                forall|j: int|
                    self.entries@.len() <= j < all.len() && (#[trigger] all[j]).seen.last >= time
                        ==> kept@.contains(all[j]),
            ensures
                self.entries@.len() == 0,
            decreases self.entries@.len(),
        {
            let ghost left = self.entries@.len() as int;
            match self.entries.pop() {
                Some(entry) => {
                    let ghost before = kept@;
                    assert(entry == all[left - 1]);
                    assert(self.entries@ =~= all.take(left - 1));
                    if entry.seen.last >= time {
                        kept.push(entry);
                        proof {
                            assert forall|i: int, j: int| 0 <= i < j < kept@.len() implies (
                            #[trigger] kept@[i]).domain@ != (#[trigger] kept@[j]).domain@ by {
                                if j == before.len() {
                                    assert(kept_from(all, left, before[i], time));
                                    let k = choose|k: int|
                                        left <= k < all.len() && #[trigger] all[k] == before[i];
                                    assert(all[left - 1].domain@ != all[k].domain@);
                                }
                            }
                            assert forall|i: int| 0 <= i < kept@.len() implies kept_from(
                                all,
                                left - 1,
                                #[trigger] kept@[i],
                                time,
                            ) by {
                                if i < before.len() {
                                    assert(kept_from(all, left, before[i], time));
                                } else {
                                    assert(all[left - 1] == kept@[i]);
                                }
                            }
                            assert forall|j: int|
                                left - 1 <= j < all.len() && (#[trigger] all[j]).seen.last
                                    >= time implies kept@.contains(all[j]) by {
                                if j == left - 1 {
                                    assert(kept@[before.len() as int] == all[j]);
                                } else {
                                    let i = choose|i: int|
                                        0 <= i < before.len() && before[i] == all[j];
                                    assert(kept@[i] == all[j]);
                                }
                            }
                        }
                    }
                },
                None => break ,
            }
        }
        proof {
            lemma_kept(all, kept@, time);
        }
        self.entries = kept;
    }
}

/// The entries kept for their time make up the map of what was seen since.
proof fn lemma_kept(all: Seq<Sighting>, kept: Seq<Sighting>, time: i64)
    requires
        distinct(all),
        distinct(kept),
        forall|i: int| 0 <= i < kept.len() ==> kept_from(all, 0, #[trigger] kept[i], time),
        forall|j: int|
            0 <= j < all.len() && (#[trigger] all[j]).seen.last >= time ==> kept.contains(all[j]),
    ensures
        as_map(kept) == since(as_map(all), time),
{
    let wanted = since(as_map(all), time);
    assert forall|domain: Seq<char>| #[trigger] as_map(kept).contains_key(domain) implies
        wanted.contains_key(domain) && as_map(kept)[domain] == wanted[domain] by {
        let p = place(kept, domain);
        assert(kept[p].domain@ == domain);
        lemma_as_map(kept, p);
        assert(kept_from(all, 0, kept[p], time));
        let j = choose|j: int| 0 <= j < all.len() && #[trigger] all[j] == kept[p];
        lemma_as_map(all, j);
    }
    assert forall|domain: Seq<char>| #[trigger] wanted.contains_key(domain) implies as_map(
        kept,
    ).contains_key(domain) by {
        let j = place(all, domain);
        assert(all[j].domain@ == domain);
        lemma_as_map(all, j);
        let i = choose|i: int| 0 <= i < kept.len() && kept[i] == all[j];
        assert(kept[i].domain@ == domain);
    }
    assert(as_map(kept) =~= wanted);
}

/// An entry with another `seen` changes the map under its domain alone.
proof fn lemma_put_in_place(before: Seq<Sighting>, after: Seq<Sighting>, i: int, seen: Seen)
    requires
        distinct(before),
        0 <= i < before.len(),
        after.len() == before.len(),
        after[i].domain@ == before[i].domain@,
        after[i].seen == seen,
        forall|j: int| 0 <= j < before.len() && j != i ==> after[j] == before[j],
    ensures
        distinct(after),
        as_map(after) == as_map(before).insert(before[i].domain@, seen),
{
    assert forall|domain: Seq<char>| listed(after, domain) == listed(before, domain) by {
        if listed(before, domain) {
            let p = place(before, domain);
            assert(after[p].domain@ == domain);
        }
        if listed(after, domain) {
            let p = place(after, domain);
            assert(before[p].domain@ == domain);
        }
    }
    let wanted = as_map(before).insert(before[i].domain@, seen);
    assert forall|domain: Seq<char>| as_map(after).contains_key(domain) implies as_map(
        after,
    )[domain] == wanted[domain] by {
        let p = place(after, domain);
        assert(after[p].domain@ == domain);
        lemma_as_map(after, p);
        lemma_as_map(before, p);
    }
    lemma_as_map(before, i);
    assert(as_map(after) =~= wanted);
}

/// One more entry adds its domain to the map.
proof fn lemma_put_new(before: Seq<Sighting>, after: Seq<Sighting>)
    requires
        distinct(before),
        after.len() == before.len() + 1,
        after.drop_last() == before,
        !listed(before, after.last().domain@),
    ensures
        distinct(after),
        as_map(after) == as_map(before).insert(after.last().domain@, after.last().seen),
{
    let n = before.len() as int;
    assert forall|j: int| 0 <= j < n implies after[j] == before[j] by {
        assert(after.drop_last()[j] == before[j]);
    }
    let wanted = as_map(before).insert(after.last().domain@, after.last().seen);
    assert forall|domain: Seq<char>|
        as_map(after).contains_key(domain) == wanted.contains_key(domain) by {
        if listed(before, domain) {
            let p = place(before, domain);
            assert(after[p].domain@ == domain);
        }
        if listed(after, domain) {
            let p = place(after, domain);
            if p < n {
                assert(before[p].domain@ == domain);
            }
        }
        if domain == after.last().domain@ {
            assert(after[n].domain@ == domain);
        }
    }
    assert forall|domain: Seq<char>| as_map(after).contains_key(domain) implies as_map(
        after,
    )[domain] == wanted[domain] by {
        let p = place(after, domain);
        assert(after[p].domain@ == domain);
        lemma_as_map(after, p);
        if p < n {
            lemma_as_map(before, p);
        }
    }
    assert(as_map(after) =~= wanted);
}

/// Whether less than the window lies between two times.
fn within_window(last: i64, now: i64) -> (within: bool)
    ensures
        within == (elapsed(last, now) < LOG_DEDUP_WINDOW),
{
    now <= last || now as i128 - (last as i128) < LOG_DEDUP_WINDOW as i128
}

/// Check if a domain was recently seen and return suppression count.
///
/// Returns `None` if the event should be suppressed (deduplicated within the window),
/// `Some(count)` otherwise. `count > 0` indicates previously suppressed events.
#[must_use]
pub fn check_domain(seen: &mut SeenDomains, domain: &str, now: i64) -> (report: Option<u32>)
    requires
        old(seen).wf(),
        has_room(old(seen)@, domain@, now),
    ensures
        final(seen).wf(),
        report == report_of(old(seen)@, domain@, now),
        final(seen)@ == seen_after(old(seen)@, domain@, now),
{
    let mut count: u32 = 0;
    if let Some(known) = seen.get(domain) {
        if within_window(known.last, now) {
            seen.put(domain, Seen { last: now, suppressed: known.suppressed + 1 });
            return None;
        }
        count = known.suppressed;
    }
    seen.put(domain, Seen { last: now, suppressed: 0 });
    let start: i64 = match now.checked_sub(LOG_DEDUP_WINDOW) {
        Some(time) => time,
        None => now,
    };
    seen.forget_before(start);
    Some(count)
}

/// A domain not held is reported, with no reports left out.
pub proof fn law_first_sighting_is_reported(
    seen: Map<Seq<char>, Seen>,
    domain: Seq<char>,
    now: i64,
)
    requires
        !seen.contains_key(domain),
    ensures
        report_of(seen, domain, now) == Some(0u32),
{
}

/// A domain that was checked is held from then on, as seen at that time.
pub proof fn law_checked_domain_is_held(seen: Map<Seq<char>, Seen>, domain: Seq<char>, now: i64)
    ensures
        seen_after(seen, domain, now).contains_key(domain),
        seen_after(seen, domain, now)[domain].last == now,
{
}

/// A check within the window after another is suppressed.
pub proof fn law_repeat_is_suppressed(
    seen: Map<Seq<char>, Seen>,
    domain: Seq<char>,
    first: i64,
    again: i64,
)
    requires
        again - first < LOG_DEDUP_WINDOW,
    ensures
        report_of(seen_after(seen, domain, first), domain, again) is None,
{
    law_checked_domain_is_held(seen, domain, first);
}

/// A check no sooner than the window after another is reported.
pub proof fn law_later_check_is_reported(
    seen: Map<Seq<char>, Seen>,
    domain: Seq<char>,
    first: i64,
    later: i64,
)
    requires
        later - first >= LOG_DEDUP_WINDOW,
    ensures
        report_of(seen_after(seen, domain, first), domain, later) is Some,
{
    law_checked_domain_is_held(seen, domain, first);
}

/// What is held after checks of one domain at the given times.
pub open spec fn seen_after_run(
    seen: Map<Seq<char>, Seen>,
    domain: Seq<char>,
    times: Seq<i64>,
) -> Map<Seq<char>, Seen>
    decreases times.len(),
{
    if times.len() == 0 {
        seen
    } else {
        seen_after(seen_after_run(seen, domain, times.drop_last()), domain, times.last())
    }
}

/// Each time is less than the window after the one before, the first of them
/// after `start`.
pub open spec fn is_burst(start: i64, times: Seq<i64>) -> bool {
    forall|i: int|
        0 <= i < times.len() ==> #[trigger] times[i] - (if i == 0 {
            start
        } else {
            times[i - 1]
        }) < LOG_DEDUP_WINDOW
}

/// A burst of checks that follows a report is suppressed in full, and the next
/// report gives the number of checks in it.
pub proof fn law_report_counts_the_burst(
    seen: Map<Seq<char>, Seen>,
    domain: Seq<char>,
    start: i64,
    times: Seq<i64>,
    later: i64,
)
    requires
        !is_recent(seen, domain, start),
        is_burst(start, times),
        times.len() <= u32::MAX,
        later - (if times.len() == 0 {
            start
        } else {
            times.last()
        }) >= LOG_DEDUP_WINDOW,
    ensures
        forall|i: int|
            0 <= i < times.len() ==> report_of(
                seen_after_run(seen_after(seen, domain, start), domain, times.take(i)),
                domain,
                #[trigger] times[i],
            ) is None,
        report_of(
            seen_after_run(seen_after(seen, domain, start), domain, times),
            domain,
            later,
        ) == Some(times.len() as u32),
{
    let begun = seen_after(seen, domain, start);
    assert forall|i: int| 0 <= i < times.len() implies report_of(
        seen_after_run(begun, domain, times.take(i)),
        domain,
        #[trigger] times[i],
    ) is None by {
        lemma_burst(seen, domain, start, times.take(i));
        if i > 0 {
            assert(times.take(i).last() == times[i - 1]);
        }
    }
    lemma_burst(seen, domain, start, times);
}

/// What is held of a domain after a report and a burst of checks.
proof fn lemma_burst(
    seen: Map<Seq<char>, Seen>,
    domain: Seq<char>,
    start: i64,
    times: Seq<i64>,
)
    requires
        !is_recent(seen, domain, start),
        is_burst(start, times),
        times.len() <= u32::MAX,
    ensures
        ({
            let held = seen_after_run(seen_after(seen, domain, start), domain, times);
            &&& held.contains_key(domain)
            &&& held[domain].suppressed == times.len()
            &&& held[domain].last == if times.len() == 0 {
                start
            } else {
                times.last()
            }
        }),
    decreases times.len(),
{
    law_checked_domain_is_held(seen, domain, start);
    if times.len() > 0 {
        let n = times.len() - 1;
        let before = times.drop_last();
        assert forall|i: int| 0 <= i < before.len() implies #[trigger] before[i] - (if i == 0 {
            start
        } else {
            before[i - 1]
        }) < LOG_DEDUP_WINDOW by {
            assert(before[i] == times[i]);
        }
        lemma_burst(seen, domain, start, before);
        assert(times[n] - (if n == 0 {
            start
        } else {
            times[n - 1]
        }) < LOG_DEDUP_WINDOW);
    }
}

/// A check of one domain changes nothing that is held of another, unless the
/// check is reported and the other was not seen within the window.
pub proof fn law_other_domains_are_kept(
    seen: Map<Seq<char>, Seen>,
    domain: Seq<char>,
    other: Seq<char>,
    now: i64,
)
    requires
        other != domain,
        seen.contains_key(other),
        report_of(seen, domain, now) is None || seen[other].last >= keep_after(now),
    ensures
        seen_after(seen, domain, now).contains_key(other),
        seen_after(seen, domain, now)[other] == seen[other],
{
}

/// After a report, only domains seen within the window are held.
pub proof fn law_old_domains_are_forgotten(
    seen: Map<Seq<char>, Seen>,
    domain: Seq<char>,
    other: Seq<char>,
    now: i64,
)
    requires
        report_of(seen, domain, now) is Some,
        seen_after(seen, domain, now).contains_key(other),
    ensures
        seen_after(seen, domain, now)[other].last >= keep_after(now),
{
}

/// A check is suppressed exactly if the domain is held and was seen less than 1.2
/// seconds before; a time that lies ahead counts as now. Otherwise it is reported
/// with the count that is held of the domain, or with none.
pub proof fn law_when_a_check_is_reported(
    seen: Map<Seq<char>, Seen>,
    domain: Seq<char>,
    now: i64,
)
    ensures
        report_of(seen, domain, now) is None <==> seen.contains_key(domain) && now
            - seen[domain].last < 1_200_000_000,
        report_of(seen, domain, now) matches Some(count) ==> count == if seen.contains_key(domain) {
            seen[domain].suppressed
        } else {
            0
        },
{
}

/// A suppressed check adds one to the count of its domain and moves its time, and
/// changes nothing else.
pub proof fn law_suppressed_check_counts(
    seen: Map<Seq<char>, Seen>,
    domain: Seq<char>,
    other: Seq<char>,
    now: i64,
)
    requires
        seen.contains_key(domain),
        now - seen[domain].last < 1_200_000_000,
        seen[domain].suppressed < u32::MAX,
        other != domain,
    ensures
        ({
            let after = seen_after(seen, domain, now);
            &&& after.contains_key(domain)
            &&& after[domain].last == now
            &&& after[domain].suppressed == seen[domain].suppressed + 1
            &&& after.contains_key(other) == seen.contains_key(other)
            &&& seen.contains_key(other) ==> after[other] == seen[other]
        }),
{
}

/// A reported check starts the count of its domain anew. Another domain is kept as
/// it was if it was seen 1.2 seconds before or later, and forgotten if it was not.
///
/// This leaves out the first 1.2 seconds of time, from which it does not reach back
/// that far.
pub proof fn law_report_keeps_the_window(
    seen: Map<Seq<char>, Seen>,
    domain: Seq<char>,
    other: Seq<char>,
    now: i64,
)
    requires
        !seen.contains_key(domain) || now - seen[domain].last >= 1_200_000_000,
        now - 1_200_000_000 >= i64::MIN,
        other != domain,
    ensures
        ({
            let after = seen_after(seen, domain, now);
            &&& after.contains_key(domain)
            &&& after[domain].last == now
            &&& after[domain].suppressed == 0
            &&& after.contains_key(other) <==> seen.contains_key(other) && now - seen[other].last
                <= 1_200_000_000
            &&& after.contains_key(other) ==> after[other] == seen[other]
        }),
{
}

/// In the first 1.2 seconds of time a reported check forgets what was seen before
/// it.
pub proof fn law_report_at_the_start_of_time(
    seen: Map<Seq<char>, Seen>,
    domain: Seq<char>,
    other: Seq<char>,
    now: i64,
)
    requires
        !seen.contains_key(domain) || now - seen[domain].last >= 1_200_000_000,
        now - 1_200_000_000 < i64::MIN,
        other != domain,
    ensures
        ({
            let after = seen_after(seen, domain, now);
            &&& after.contains_key(domain)
            &&& after[domain].last == now
            &&& after[domain].suppressed == 0
            &&& after.contains_key(other) <==> seen.contains_key(other) && seen[other].last >= now
            &&& after.contains_key(other) ==> after[other] == seen[other]
        }),
{
}

/// A check of one domain keeps what is held of every other domain seen within the
/// window.
pub proof fn law_check_keeps_recent_domains(
    seen: Map<Seq<char>, Seen>,
    domain: Seq<char>,
    other: Seq<char>,
    now: i64,
)
    requires
        other != domain,
        seen.contains_key(other),
        now - seen[other].last <= 1_200_000_000,
        now - 1_200_000_000 >= i64::MIN,
    ensures
        seen_after(seen, domain, now).contains_key(other),
        seen_after(seen, domain, now)[other] == seen[other],
{
}

/// What is held after checks of several domains, each at its time.
pub open spec fn seen_after_all(
    seen: Map<Seq<char>, Seen>,
    checks: Seq<(Seq<char>, i64)>,
) -> Map<Seq<char>, Seen>
    decreases checks.len(),
{
    if checks.len() == 0 {
        seen
    } else {
        seen_after(
            seen_after_all(seen, checks.drop_last()),
            checks.last().0,
            checks.last().1,
        )
    }
}

/// A check of a domain less than 1.2 seconds after its last is suppressed, whatever
/// other domains were checked in between.
pub proof fn law_repeat_is_suppressed_among_others(
    seen: Map<Seq<char>, Seen>,
    domain: Seq<char>,
    first: i64,
    checks: Seq<(Seq<char>, i64)>,
    again: i64,
)
    requires
        forall|i: int|
            0 <= i < checks.len() ==> (#[trigger] checks[i]).0 != domain && checks[i].1 - first
                <= 1_200_000_000 && checks[i].1 - 1_200_000_000 >= i64::MIN,
        again - first < 1_200_000_000,
    ensures
        report_of(
            seen_after_all(seen_after(seen, domain, first), checks),
            domain,
            again,
        ) is None,
{
    law_checked_domain_is_held(seen, domain, first);
    lemma_held_among_others(seen_after(seen, domain, first), domain, checks);
}

/// What is held of a domain stays while others are checked within its window.
proof fn lemma_held_among_others(
    seen: Map<Seq<char>, Seen>,
    domain: Seq<char>,
    checks: Seq<(Seq<char>, i64)>,
)
    requires
        seen.contains_key(domain),
        forall|i: int|
            0 <= i < checks.len() ==> (#[trigger] checks[i]).0 != domain && checks[i].1
                - seen[domain].last <= 1_200_000_000 && checks[i].1 - 1_200_000_000 >= i64::MIN,
    ensures
        seen_after_all(seen, checks).contains_key(domain),
        seen_after_all(seen, checks)[domain] == seen[domain],
    decreases checks.len(),
{
    if checks.len() > 0 {
        let front = checks.drop_last();
        assert forall|i: int| 0 <= i < front.len() implies (#[trigger] front[i]).0 != domain
            && front[i].1 - seen[domain].last <= 1_200_000_000 && front[i].1 - 1_200_000_000
            >= i64::MIN by {
            assert(front[i] == checks[i]);
        }
        lemma_held_among_others(seen, domain, front);
        assert(checks[checks.len() - 1].0 != domain);
        law_check_keeps_recent_domains(
            seen_after_all(seen, front),
            checks.last().0,
            domain,
            checks.last().1,
        );
    }
}

/// Only a full count has no room, and only for a check that is to be counted.
pub proof fn law_when_there_is_room(seen: Map<Seq<char>, Seen>, domain: Seq<char>, now: i64)
    ensures
        has_room(seen, domain, now) <==> !(seen.contains_key(domain) && now - seen[domain].last
            < 1_200_000_000 && seen[domain].suppressed == 0xffff_ffff),
{
}

} // verus!
