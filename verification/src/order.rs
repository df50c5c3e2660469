//! The order of a timeline: events once each, runs by when they began, the
//! events of a run by their sequence numbers.
use std::collections::HashMap;
use vstd::hash_map::StringHashMap;
use vstd::prelude::*;

use crate::event;
use crate::event::AuditEvent;
use crate::event::EventView;
use crate::text;
use crate::text::text_eq;
use crate::text::text_less;
use crate::timestamp::Timestamp;

verus! {

/// Two records of the same event: the same session, run and sequence number.
pub open spec fn same_event(a: EventView, b: EventView) -> bool {
    a.session_id == b.session_id && a.run_id == b.run_id && a.seq == b.seq
}

/// Whether a list holds a record of `e`.
pub open spec fn recorded(events: Seq<EventView>, e: EventView) -> bool {
    exists|j: int| 0 <= j < events.len() && same_event(#[trigger] events[j], e)
}

/// The list without repeated records: of each event the first record stays.
pub open spec fn dedup(events: Seq<EventView>) -> Seq<EventView>
    decreases events.len(),
{
    if events.len() == 0 {
        events
    } else if recorded(events.drop_last(), events.last()) {
        dedup(events.drop_last())
    } else {
        dedup(events.drop_last()).push(events.last())
    }
}

/// Whether the event at `i` opens the run: no event of the run has a smaller
/// sequence number, and none before it has the same.
pub open spec fn opens_run(events: Seq<EventView>, run: Seq<char>, i: int) -> bool {
    &&& 0 <= i < events.len()
    &&& events[i].run_id == run
    &&& forall|j: int|
        0 <= j < events.len() && (#[trigger] events[j]).run_id == run ==> events[i].seq
            < events[j].seq || (events[i].seq == events[j].seq && i <= j)
}

/// When a run began: the time of the event that opens it.
pub open spec fn run_start(events: Seq<EventView>, run: Seq<char>) -> Timestamp {
    events[choose|i: int| opens_run(events, run, i)].ts
}

/// Whether `a` goes strictly before `b` in the timeline of `all`: the run that
/// began earlier first, runs that began together by name, the events of a run by
/// sequence number.
pub open spec fn goes_before(all: Seq<EventView>, a: EventView, b: EventView) -> bool {
    let a_start = run_start(all, a.run_id);
    let b_start = run_start(all, b.run_id);
    a_start.before(b_start) || (a_start == b_start && (text::text_lt(a.run_id, b.run_id) || (
    a.run_id == b.run_id && a.seq < b.seq)))
}

/// Puts `e` into an ordered list, behind everything that it does not go before.
pub open spec fn place(all: Seq<EventView>, ordered: Seq<EventView>, e: EventView) -> Seq<EventView>
    decreases ordered.len(),
{
    if ordered.len() == 0 || !goes_before(all, e, ordered.last()) {
        ordered.push(e)
    } else {
        place(all, ordered.drop_last(), e).push(ordered.last())
    }
}

/// The events put in order, each in turn.
pub open spec fn arrange(all: Seq<EventView>, events: Seq<EventView>) -> Seq<EventView>
    decreases events.len(),
{
    if events.len() == 0 {
        events
    } else {
        place(all, arrange(all, events.drop_last()), events.last())
    }
}

/// The timeline of a list of events.
pub open spec fn timeline(events: Seq<EventView>) -> Seq<EventView> {
    arrange(dedup(events), dedup(events))
}

/// Whether a list is in timeline order.
pub open spec fn in_order(all: Seq<EventView>, events: Seq<EventView>) -> bool {
    forall|i: int, j: int|
        0 <= i < j < events.len() ==> !goes_before(all, #[trigger] events[j], #[trigger] events[i])
}

/// The timeline order is transitive.
pub proof fn goes_before_transitive(all: Seq<EventView>, a: EventView, b: EventView, c: EventView)
    requires
        goes_before(all, a, b),
        goes_before(all, b, c),
    ensures
        goes_before(all, a, c),
{
    if text::text_lt(a.run_id, b.run_id) && text::text_lt(b.run_id, c.run_id) {
        text::text_lt_transitive(a.run_id, b.run_id, c.run_id);
    }
}

/// No event goes before itself.
pub proof fn goes_before_irreflexive(all: Seq<EventView>, a: EventView)
    ensures
        !goes_before(all, a, a),
{
    text::text_lt_irreflexive(a.run_id);
}

/// Events of which neither goes before the other have the same place: the same
/// run and the same sequence number.
pub proof fn goes_before_connected(all: Seq<EventView>, a: EventView, b: EventView)
    ensures
        goes_before(all, a, b) || goes_before(all, b, a) || (a.run_id == b.run_id && a.seq
            == b.seq),
{
    text::text_lt_connected(a.run_id, b.run_id);
}

/// What does not go after an event does not go after a later one either.
pub proof fn not_after_transitive(all: Seq<EventView>, a: EventView, b: EventView, c: EventView)
    requires
        !goes_before(all, b, a),
        !goes_before(all, c, b),
    ensures
        !goes_before(all, c, a),
{
    if goes_before(all, c, a) {
        goes_before_connected(all, a, b);
        goes_before_connected(all, b, c);
        if goes_before(all, a, b) {
            goes_before_transitive(all, c, a, b);
        } else if goes_before(all, b, c) {
            goes_before_transitive(all, b, c, a);
        } else {
            goes_before_irreflexive(all, a);
        }
    }
}

/// Dropping repeated records drops no event.
pub proof fn dedup_records_the_same(events: Seq<EventView>, e: EventView)
    ensures
        recorded(dedup(events), e) == recorded(events, e),
    decreases events.len(),
{
    if events.len() > 0 {
        let init = events.drop_last();
        let last = events.last();
        dedup_records_the_same(init, e);
        if recorded(init, e) {
            let j = choose|j: int| 0 <= j < init.len() && same_event(#[trigger] init[j], e);
            assert(events[j] == init[j]);
            let d = dedup(init);
            let k = choose|k: int| 0 <= k < d.len() && same_event(#[trigger] d[k], e);
            if !recorded(init, last) {
                assert(d.push(last)[k] == d[k]);
            }
        } else {
            if recorded(events, e) {
                let j = choose|j: int| 0 <= j < events.len() && same_event(#[trigger] events[j], e);
                if j < init.len() {
                    assert(init[j] == events[j]);
                }
                assert(same_event(last, e));
                if recorded(init, last) {
                    let k = choose|k: int| 0 <= k < init.len() && same_event(#[trigger] init[k], last);
                    assert(same_event(init[k], e));
                }
                let d = dedup(init).push(last);
                assert(d[d.len() - 1] == last);
            }
            if recorded(dedup(events), e) && !recorded(init, last) {
                let d = dedup(init).push(last);
                let k = choose|k: int| 0 <= k < d.len() && same_event(#[trigger] d[k], e);
                if k < d.len() - 1 {
                    assert(dedup(init)[k] == d[k]);
                }
                assert(events[events.len() - 1] == last);
            }
        }
    }
}

/// Whether a table lists the events by sequence number: each event is listed under
/// its own, and only events that there are are listed.
spec fn lists_by_seq(table: Map<u64, Vec<usize>>, events: Seq<EventView>) -> bool {
    &&& forall|q: u64, k: int|
        table.contains_key(q) && 0 <= k < table[q]@.len() ==> #[trigger] table[q]@[k]
            < events.len()
    &&& forall|j: int|
        0 <= j < events.len() ==> table.contains_key((#[trigger] events[j]).seq)
            && table[events[j].seq]@.contains(j as usize)
}

/// Whether the kept events hold a record of `e`.
fn is_recorded(kept: &Vec<AuditEvent>, by_seq: &HashMap<u64, Vec<usize>>, e: &AuditEvent) -> (found:
    bool)
    requires
        lists_by_seq(by_seq@, event::event_views(kept@)),
    ensures
        found == recorded(event::event_views(kept@), e@),
{
    broadcast use vstd::std_specs::hash::group_hash_axioms;

    let ghost views = event::event_views(kept@);
    let n: usize = kept.len();
    let listed = match by_seq.get(&e.seq) {
        Some(listed) => listed,
        None => {
            return false;
        },
    };
    let mut i: usize = 0;
    while i < listed.len()
        invariant
            i <= listed@.len(),
            n == kept@.len(),
            views == event::event_views(kept@),
            forall|k: int| 0 <= k < listed@.len() ==> #[trigger] listed@[k] < n,
            forall|k: int| 0 <= k < i ==> !same_event(views[#[trigger] listed@[k] as int], e@),
        decreases listed@.len() - i,
    {
        let j: usize = listed[i];
        let other = &kept[j];
        if other.seq == e.seq && text_eq(other.run_id.as_str(), e.run_id.as_str()) && text_eq(
            other.session_id.as_str(),
            e.session_id.as_str(),
        ) {
            proof {
                assert(same_event(views[j as int], e@));
            }
            return true;
        }
        i = i + 1;
    }
    proof {
        if recorded(views, e@) {
            let j = choose|j: int| 0 <= j < views.len() && same_event(#[trigger] views[j], e@);
            assert(listed@.contains(j as usize));
            let k = choose|k: int| 0 <= k < listed@.len() && listed@[k] == j as usize;
            assert(!same_event(views[listed@[k] as int], e@));
        }
    }
    false
}

/// Lists a further event under its sequence number.
fn list_event(by_seq: &mut HashMap<u64, Vec<usize>>, seq: u64, j: usize)
    ensures
        final(by_seq)@.dom() == old(by_seq)@.dom().insert(seq),
        final(by_seq)@[seq]@ == (if old(by_seq)@.contains_key(seq) {
            old(by_seq)@[seq]@
        } else {
            Seq::empty()
        }).push(j),
        forall|q: u64|
            q != seq && old(by_seq)@.contains_key(q) ==> #[trigger] final(by_seq)@[q]
                == old(by_seq)@[q],
{
    broadcast use vstd::std_specs::hash::group_hash_axioms;

    let ghost before = by_seq@;
    let mut listed: Vec<usize> = match by_seq.remove(&seq) {
        Some(listed) => listed,
        None => Vec::new(),
    };
    listed.push(j);
    by_seq.insert(seq, listed);
    proof {
        assert(by_seq@.dom() =~= before.dom().insert(seq));
    }
}

/// The table stays right when an event is added and listed.
proof fn lists_by_seq_grows(
    before: Map<u64, Vec<usize>>,
    after: Map<u64, Vec<usize>>,
    events: Seq<EventView>,
    e: EventView,
)
    requires
        lists_by_seq(before, events),
        events.len() <= usize::MAX,
        after.dom() == before.dom().insert(e.seq),
        after[e.seq]@ == (if before.contains_key(e.seq) {
            before[e.seq]@
        } else {
            Seq::empty()
        }).push(events.len() as usize),
        forall|q: u64|
            q != e.seq && before.contains_key(q) ==> #[trigger] after[q] == before[q],
    ensures
        lists_by_seq(after, events.push(e)),
{
    let more = events.push(e);
    let n = events.len() as usize;
    assert forall|q: u64, k: int|
        after.contains_key(q) && 0 <= k < after[q]@.len() implies #[trigger] after[q]@[k]
        < more.len() by {
        if q != e.seq {
            assert(after[q] == before[q]);
            assert(before[q]@[k] < events.len());
        } else if k < after[q]@.len() - 1 {
            assert(before[q]@[k] < events.len());
        }
    }
    assert forall|j: int| 0 <= j < more.len() implies after.contains_key((#[trigger] more[j]).seq)
        && after[more[j].seq]@.contains(j as usize) by {
        if j < events.len() {
            let q = events[j].seq;
            assert(more[j] == events[j]);
            let k = choose|k: int| 0 <= k < before[q]@.len() && before[q]@[k] == j as usize;
            assert(after[q]@[k] == j as usize);
        } else {
            assert(more[j] == e);
            assert(after[e.seq]@.last() == n);
        }
    }
}

/// Drops repeated records.
fn drop_repeats(events: Vec<AuditEvent>) -> (kept: Vec<AuditEvent>)
    ensures
        event::event_views(kept@) == dedup(event::event_views(events@)),
{
    let ghost all = event::event_views(events@);
    let mut kept: Vec<AuditEvent> = Vec::new();
    let mut by_seq: HashMap<u64, Vec<usize>> = HashMap::new();
    proof {
        assert(event::event_views(kept@) =~= dedup(all.take(0)));
    }
    for e in it: events
        invariant
            all == event::event_views(it.seq()),
            event::event_views(kept@) == dedup(all.take(it.index() as int)),
            lists_by_seq(by_seq@, event::event_views(kept@)),
    {
        let ghost i = it.index() as int;
        let ghost before = kept@;
        let ghost listed = by_seq@;
        proof {
            assert(all.take(i + 1).drop_last() =~= all.take(i));
            assert(all.take(i + 1).last() == e@);
            dedup_records_the_same(all.take(i), e@);
        }
        if !is_recorded(&kept, &by_seq, &e) {
            let n: usize = kept.len();
            list_event(&mut by_seq, e.seq, n);
            kept.push(e);
            proof {
                assert(event::event_views(kept@) =~= event::event_views(before).push(e@));
                lists_by_seq_grows(listed, by_seq@, event::event_views(before), e@);
            }
        }
    }
    proof {
        assert(all.take(all.len() as int) =~= all);
    }
    kept
}

/// A run is opened by one event only.
pub proof fn opener_is_unique(events: Seq<EventView>, run: Seq<char>, i: int, j: int)
    requires
        opens_run(events, run, i),
        opens_run(events, run, j),
    ensures
        i == j,
{
    assert(events[i].run_id == run);
    assert(events[j].run_id == run);
}

/// What the table of run starts says of the events read so far.
spec fn starts_table(events: Seq<EventView>, table: Map<Seq<char>, (u64, Timestamp)>) -> bool {
    &&& forall|i: int|
        0 <= i < events.len() ==> table.contains_key((#[trigger] events[i]).run_id)
    &&& forall|run: Seq<char>| #[trigger]
        table.contains_key(run) ==> exists|h: int| #[trigger]
            opens_run(events, run, h) && table[run] == (events[h].seq, events[h].ts)
}

proof fn starts_table_step(
    events: Seq<EventView>,
    e: EventView,
    table: Map<Seq<char>, (u64, Timestamp)>,
    updated: Map<Seq<char>, (u64, Timestamp)>,
)
    requires
        starts_table(events, table),
        updated == if !table.contains_key(e.run_id) || e.seq < table[e.run_id].0 {
            table.insert(e.run_id, (e.seq, e.ts))
        } else {
            table
        },
    ensures
        starts_table(events.push(e), updated),
{
    let longer = events.push(e);
    assert forall|i: int| 0 <= i < longer.len() implies updated.contains_key(
        (#[trigger] longer[i]).run_id,
    ) by {
        if i < events.len() {
            assert(longer[i] == events[i]);
        }
    }
    assert forall|run: Seq<char>| #[trigger] updated.contains_key(run) implies exists|h: int|
        #[trigger] opens_run(longer, run, h) && updated[run] == (longer[h].seq, longer[h].ts) by {
        if run == e.run_id && (!table.contains_key(run) || e.seq < table[run].0) {
            let h = events.len() as int;
            assert(longer[h] == e);
            assert forall|j: int|
                0 <= j < longer.len() && (#[trigger] longer[j]).run_id == run implies longer[h].seq
                < longer[j].seq || (longer[h].seq == longer[j].seq && h <= j) by {
                if j < events.len() {
                    assert(longer[j] == events[j]);
                    assert(table.contains_key(events[j].run_id));
                    let g = choose|g: int| #[trigger]
                        opens_run(events, run, g) && table[run] == (events[g].seq, events[g].ts);
                    assert(opens_run(events, run, g));
                }
            }
            assert(opens_run(longer, run, h));
        } else {
            let g = choose|g: int| #[trigger]
                opens_run(events, run, g) && table[run] == (events[g].seq, events[g].ts);
            assert(opens_run(events, run, g) && table[run] == (events[g].seq, events[g].ts));
            assert(longer[g] == events[g]);
            assert forall|j: int|
                0 <= j < longer.len() && (#[trigger] longer[j]).run_id == run implies longer[g].seq
                < longer[j].seq || (longer[g].seq == longer[j].seq && g <= j) by {
                if j < events.len() {
                    assert(longer[j] == events[j]);
                }
            }
            assert(opens_run(longer, run, g));
        }
    }
}

/// Finds when each run began.
fn find_run_starts(kept: &Vec<AuditEvent>) -> (starts: StringHashMap<(u64, Timestamp)>)
    ensures
        forall|i: int|
            0 <= i < kept@.len() ==> starts@.contains_key((#[trigger] kept@[i]).run_id@)
                && starts@[kept@[i].run_id@].1 == run_start(
                event::event_views(kept@),
                kept@[i].run_id@,
            ),
{
    let ghost views = event::event_views(kept@);
    let mut starts: StringHashMap<(u64, Timestamp)> = StringHashMap::new();
    let mut i: usize = 0;
    while i < kept.len()
        invariant
            i <= kept@.len(),
            views == event::event_views(kept@),
            starts_table(views.take(i as int), starts@),
        decreases kept@.len() - i,
    {
        let e = &kept[i];
        let ghost before = starts@;
        let earlier = match starts.get(e.run_id.as_str()) {
            Some(known) => e.seq < known.0,
            None => true,
        };
        if earlier {
            starts.insert(e.run_id.clone(), (e.seq, e.ts));
        }
        proof {
            assert(views.take(i + 1) =~= views.take(i as int).push(e@));
            starts_table_step(views.take(i as int), e@, before, starts@);
        }
        i = i + 1;
    }
    proof {
        assert(views.take(kept@.len() as int) =~= views);
        assert forall|i: int| 0 <= i < kept@.len() implies starts@.contains_key(
            (#[trigger] kept@[i]).run_id@,
        ) && starts@[kept@[i].run_id@].1 == run_start(views, kept@[i].run_id@) by {
            let run = kept@[i].run_id@;
            assert(views[i].run_id == run);
            assert(starts@.contains_key(run));
            let h = choose|h: int| #[trigger]
                opens_run(views, run, h) && starts@[run] == (views[h].seq, views[h].ts);
            opener_is_unique(views, run, h, choose|k: int| opens_run(views, run, k));
        }
    }
    starts
}

/// Placing an event is inserting it at the end of everything that it does not go
/// before.
proof fn place_inserts(all: Seq<EventView>, ordered: Seq<EventView>, e: EventView, p: int)
    requires
        0 <= p <= ordered.len(),
        p > 0 ==> !goes_before(all, e, ordered[p - 1]),
        forall|k: int| p <= k < ordered.len() ==> goes_before(all, e, #[trigger] ordered[k]),
    ensures
        place(all, ordered, e) == ordered.insert(p, e),
    decreases ordered.len(),
{
    if p == ordered.len() {
        assert(ordered.insert(p, e) =~= ordered.push(e));
    } else {
        let init = ordered.drop_last();
        assert(goes_before(all, e, ordered[ordered.len() - 1]));
        place_inserts(all, init, e, p);
        assert(ordered.insert(p, e) =~= init.insert(p, e).push(ordered.last()));
    }
}

/// Drops repeated records and puts the events in timeline order.
///
/// Within a run the sequence number decides, not the clock: a clock set back
/// must not put a tool's result before its call.
pub fn order_and_dedup(events: Vec<AuditEvent>) -> (out: Vec<AuditEvent>)
    ensures
        event::event_views(out@) == timeline(event::event_views(events@)),
{
    let kept = drop_repeats(events);
    let ghost all = event::event_views(kept@);
    let starts = find_run_starts(&kept);
    let mut out: Vec<AuditEvent> = Vec::new();
    let mut out_starts: Vec<Timestamp> = Vec::new();
    proof {
        assert(event::event_views(out@) =~= arrange(all, all.take(0)));
    }
    for e in it: kept
        invariant
            all == event::event_views(it.seq()),
            event::event_views(out@) == arrange(all, all.take(it.index() as int)),
            out_starts@.len() == out@.len(),
            forall|k: int|
                0 <= k < out@.len() ==> #[trigger] out_starts@[k] == run_start(all, out@[k].run_id@),
            forall|i: int|
                0 <= i < it.seq().len() ==> starts@.contains_key((#[trigger] it.seq()[i]).run_id@)
                    && starts@[it.seq()[i].run_id@].1 == run_start(all, it.seq()[i].run_id@),
    {
        let ghost i = it.index() as int;
        let ghost placed = event::event_views(out@);
        let ghost before = out@;
        let ghost before_starts = out_starts@;
        assert(it.seq()[i] == e);
        let start = match starts.get(e.run_id.as_str()) {
            Some(known) => known.1,
            None => e.ts,
        };
        let mut p: usize = out.len();
        while p > 0
            invariant
                p <= out@.len(),
                placed == event::event_views(out@),
                out_starts@.len() == out@.len(),
                start == run_start(all, e.run_id@),
                forall|k: int|
                    0 <= k < out@.len() ==> #[trigger] out_starts@[k] == run_start(
                        all,
                        out@[k].run_id@,
                    ),
                forall|k: int| p <= k < placed.len() ==> goes_before(all, e@, #[trigger] placed[k]),
            ensures
                p > 0 ==> !goes_before(all, e@, placed[p - 1]),
            decreases p,
        {
            let other = &out[p - 1];
            let other_start = out_starts[p - 1];
            let first = start.is_before(&other_start) || (start == other_start && (text_less(
                e.run_id.as_str(),
                other.run_id.as_str(),
            ) || (text_eq(e.run_id.as_str(), other.run_id.as_str()) && e.seq < other.seq)));
            assert(first == goes_before(all, e@, placed[p - 1]));
            if !first {
                break;
            }
            p = p - 1;
        }
        proof {
            place_inserts(all, placed, e@, p as int);
            assert(all.take(i + 1).drop_last() =~= all.take(i));
        }
        out.insert(p, e);
        out_starts.insert(p, start);
        proof {
            assert(event::event_views(out@) =~= placed.insert(p as int, e@));
        }
    }
    proof {
        assert(all.take(all.len() as int) =~= all);
    }
    out
}

} // verus!
