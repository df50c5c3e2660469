//! What holds of every timeline.
use vstd::prelude::*;

use crate::event::EventView;
use crate::order;
use crate::text;

verus! {

proof fn place_members(all: Seq<EventView>, ordered: Seq<EventView>, e: EventView)
    ensures
        order::place(all, ordered, e).len() == ordered.len() + 1,
        order::place(all, ordered, e).to_multiset() == ordered.to_multiset().insert(e),
        forall|i: int|
            0 <= i < order::place(all, ordered, e).len() ==> (#[trigger] order::place(all, ordered, e)[i]) == e
                || ordered.contains(order::place(all, ordered, e)[i]),
    decreases ordered.len(),
{
    broadcast use vstd::seq_lib::group_to_multiset_ensures;

    if ordered.len() == 0 || !order::goes_before(all, e, ordered.last()) {
        assert forall|i: int| 0 <= i < ordered.push(e).len() implies (#[trigger] ordered.push(e)[i])
            == e || ordered.contains(ordered.push(e)[i]) by {
            if i < ordered.len() {
                assert(ordered[i] == ordered.push(e)[i]);
            }
        }
    } else {
        let init = ordered.drop_last();
        place_members(all, init, e);
        assert(ordered =~= init.push(ordered.last()));
        let placed = order::place(all, init, e);
        assert(placed.push(ordered.last()).to_multiset() =~= ordered.to_multiset().insert(e));
        assert forall|i: int| 0 <= i < placed.push(ordered.last()).len() implies (
        #[trigger] placed.push(ordered.last())[i]) == e || ordered.contains(
            placed.push(ordered.last())[i],
        ) by {
            if i < placed.len() {
                if placed[i] != e {
                    let k = choose|k: int| 0 <= k < init.len() && init[k] == placed[i];
                    assert(ordered[k] == placed[i]);
                }
            } else {
                assert(ordered[ordered.len() - 1] == ordered.last());
            }
        }
    }
}

proof fn place_keeps_order(all: Seq<EventView>, ordered: Seq<EventView>, e: EventView)
    requires
        order::in_order(all, ordered),
    ensures
        order::in_order(all, order::place(all, ordered, e)),
    decreases ordered.len(),
{
    let out = order::place(all, ordered, e);
    if ordered.len() == 0 || !order::goes_before(all, e, ordered.last()) {
        assert forall|i: int, j: int| 0 <= i < j < out.len() implies !order::goes_before(
            all,
            #[trigger] out[j],
            #[trigger] out[i],
        ) by {
            if j == ordered.len() && i < ordered.len() - 1 {
                assert(!order::goes_before(all, ordered[ordered.len() - 1], ordered[i]));
                order::not_after_transitive(all, ordered[i], ordered.last(), e);
            }
        }
    } else {
        let init = ordered.drop_last();
        let last = ordered.last();
        assert(order::in_order(all, init));
        place_keeps_order(all, init, e);
        place_members(all, init, e);
        let placed = order::place(all, init, e);
        assert forall|i: int, j: int| 0 <= i < j < out.len() implies !order::goes_before(
            all,
            #[trigger] out[j],
            #[trigger] out[i],
        ) by {
            if j < placed.len() {
                assert(out[j] == placed[j]);
                assert(out[i] == placed[i]);
            } else {
                assert(out[i] == placed[i]);
                if placed[i] == e {
                    if order::goes_before(all, last, e) {
                        order::goes_before_transitive(all, e, last, e);
                        order::goes_before_irreflexive(all, e);
                    }
                } else {
                    let k = choose|k: int| 0 <= k < init.len() && init[k] == placed[i];
                    assert(ordered[k] == placed[i]);
                    assert(!order::goes_before(all, ordered[ordered.len() - 1], ordered[k]));
                }
            }
        }
    }
}

proof fn arrange_orders(all: Seq<EventView>, events: Seq<EventView>)
    ensures
        order::in_order(all, order::arrange(all, events)),
        order::arrange(all, events).to_multiset() == events.to_multiset(),
        order::arrange(all, events).len() == events.len(),
    decreases events.len(),
{
    broadcast use vstd::seq_lib::group_to_multiset_ensures;

    if events.len() > 0 {
        let init = events.drop_last();
        arrange_orders(all, init);
        place_keeps_order(all, order::arrange(all, init), events.last());
        place_members(all, order::arrange(all, init), events.last());
        assert(events =~= init.push(events.last()));
    }
}

/// A timeline is in order: no event goes before an earlier one.
pub proof fn timeline_is_in_order(events: Seq<EventView>)
    ensures
        order::in_order(order::dedup(events), order::timeline(events)),
{
    arrange_orders(order::dedup(events), order::dedup(events));
}

/// A timeline holds what is left without repeated records, no more and no less.
pub proof fn timeline_keeps_every_event(events: Seq<EventView>)
    ensures
        order::timeline(events).to_multiset() == order::dedup(events).to_multiset(),
        order::timeline(events).len() == order::dedup(events).len(),
{
    arrange_orders(order::dedup(events), order::dedup(events));
}

/// Within a run the events of a timeline go by sequence number.
pub proof fn timeline_orders_a_run_by_seq(events: Seq<EventView>, i: int, j: int)
    requires
        0 <= i < j < order::timeline(events).len(),
        order::timeline(events)[i].run_id == order::timeline(events)[j].run_id,
    ensures
        order::timeline(events)[i].seq <= order::timeline(events)[j].seq,
{
    timeline_is_in_order(events);
    let t = order::timeline(events);
    assert(!order::goes_before(order::dedup(events), t[j], t[i]));
}

/// The runs of a timeline go by when they began.
pub proof fn timeline_orders_runs_by_start(events: Seq<EventView>, i: int, j: int)
    requires
        0 <= i < j < order::timeline(events).len(),
    ensures
        !order::run_start(order::dedup(events), order::timeline(events)[j].run_id).before(
            order::run_start(order::dedup(events), order::timeline(events)[i].run_id),
        ),
{
    timeline_is_in_order(events);
    let t = order::timeline(events);
    assert(!order::goes_before(order::dedup(events), t[j], t[i]));
}

/// The events of a run stand together in a timeline.
pub proof fn timeline_keeps_a_run_together(events: Seq<EventView>, i: int, j: int, k: int)
    requires
        0 <= i < j < k < order::timeline(events).len(),
        order::timeline(events)[i].run_id == order::timeline(events)[k].run_id,
    ensures
        order::timeline(events)[j].run_id == order::timeline(events)[i].run_id,
{
    timeline_is_in_order(events);
    let all = order::dedup(events);
    let t = order::timeline(events);
    assert(!order::goes_before(all, t[j], t[i]));
    assert(!order::goes_before(all, t[k], t[j]));
    text::text_lt_connected(t[i].run_id, t[j].run_id);
}

/// The first record of each event is the one that stays: nothing that stays
/// repeats, and what stays was recorded with no record of the same event before.
pub proof fn dedup_is_without_repeats(events: Seq<EventView>)
    ensures
        forall|i: int, j: int|
            0 <= i < j < order::dedup(events).len() ==> !order::same_event(
                #[trigger] order::dedup(events)[i],
                #[trigger] order::dedup(events)[j],
            ),
        forall|i: int|
            0 <= i < order::dedup(events).len() ==> exists|j: int|
                0 <= j < events.len() && #[trigger] events[j] == (#[trigger] order::dedup(events)[i])
                    && !order::recorded(events.take(j), events[j]),
    decreases events.len(),
{
    if events.len() > 0 {
        let init = events.drop_last();
        let last = events.last();
        let d = order::dedup(events);
        dedup_is_without_repeats(init);
        order::dedup_records_the_same(init, last);
        assert forall|i: int, j: int| 0 <= i < j < d.len() implies !order::same_event(
            #[trigger] d[i],
            #[trigger] d[j],
        ) by {
            if !order::recorded(init, last) {
                assert(d[i] == order::dedup(init)[i]);
                if j < order::dedup(init).len() {
                    assert(d[j] == order::dedup(init)[j]);
                }
            }
        }
        assert forall|i: int| 0 <= i < d.len() implies exists|j: int|
            0 <= j < events.len() && #[trigger] events[j] == (#[trigger] d[i]) && !order::recorded(
                events.take(j),
                events[j],
            ) by {
            if i < order::dedup(init).len() {
                assert(d[i] == order::dedup(init)[i]);
                let j = choose|j: int|
                    0 <= j < init.len() && #[trigger] init[j] == order::dedup(init)[i] && !order::recorded(
                        init.take(j),
                        init[j],
                    );
                assert(init.take(j) =~= events.take(j));
                assert(events[j] == d[i]);
            } else {
                let j = events.len() - 1;
                assert(events.take(j) =~= init);
                assert(events[j] == d[i]);
            }
        }
    }
}

/// No event stands twice in a timeline.
pub proof fn timeline_is_without_repeats(events: Seq<EventView>)
    ensures
        forall|i: int, j: int|
            0 <= i < j < order::timeline(events).len() ==> !order::same_event(
                #[trigger] order::timeline(events)[i],
                #[trigger] order::timeline(events)[j],
            ),
{
    let d = order::dedup(events);
    let t = order::timeline(events);
    dedup_is_without_repeats(events);
    timeline_keeps_every_event(events);
    assert(d.no_duplicates());
    d.lemma_multiset_has_no_duplicates();
    t.lemma_multiset_has_no_duplicates_conv();
    assert forall|i: int, j: int| 0 <= i < j < t.len() implies !order::same_event(
        #[trigger] t[i],
        #[trigger] t[j],
    ) by {
        broadcast use vstd::seq_lib::group_to_multiset_ensures;

        assert(t.contains(t[i]) && t.contains(t[j]));
        assert(d.to_multiset().count(t[i]) > 0 && d.to_multiset().count(t[j]) > 0);
        assert(d.contains(t[i]) && d.contains(t[j]));
        let a = choose|a: int| 0 <= a < d.len() && d[a] == t[i];
        let b = choose|b: int| 0 <= b < d.len() && d[b] == t[j];
        assert(t[i] != t[j]);
        if a < b {
            assert(!order::same_event(d[a], d[b]));
        } else {
            assert(!order::same_event(d[b], d[a]));
        }
    }
}

/// The events at one place of a run: those with the given sequence number.
pub open spec fn standing_at(run: Seq<char>, seq: u64) -> spec_fn(EventView) -> bool {
    |e: EventView| e.run_id == run && e.seq == seq
}

proof fn place_is_stable(
    all: Seq<EventView>,
    ordered: Seq<EventView>,
    e: EventView,
    run: Seq<char>,
    seq: u64,
)
    requires
        order::in_order(all, ordered),
    ensures
        order::place(all, ordered, e).filter(standing_at(run, seq)) == ordered.push(e).filter(
            standing_at(run, seq),
        ),
    decreases ordered.len(),
{
    let p = standing_at(run, seq);
    if ordered.len() > 0 && order::goes_before(all, e, ordered.last()) {
        let init = ordered.drop_last();
        let last = ordered.last();
        place_is_stable(all, init, e, run, seq);
        order::place(all, init, e).lemma_filter_push(last, p);
        ordered.lemma_filter_push(e, p);
        init.lemma_filter_push(e, p);
        init.lemma_filter_push(last, p);
        assert(init.push(last) =~= ordered);
        if p(e) && p(last) {
            text::text_lt_irreflexive(run);
        }
    }
}

proof fn arrange_is_stable(all: Seq<EventView>, events: Seq<EventView>, run: Seq<char>, seq: u64)
    ensures
        order::arrange(all, events).filter(standing_at(run, seq)) == events.filter(
            standing_at(run, seq),
        ),
    decreases events.len(),
{
    if events.len() > 0 {
        let init = events.drop_last();
        let p = standing_at(run, seq);
        arrange_is_stable(all, init, run, seq);
        arrange_orders(all, init);
        place_is_stable(all, order::arrange(all, init), events.last(), run, seq);
        order::arrange(all, init).lemma_filter_push(events.last(), p);
        init.lemma_filter_push(events.last(), p);
        assert(init.push(events.last()) =~= events);
    }
}

/// Events that share a run and a sequence number, recorded under different
/// sessions, keep the order in which they came.
pub proof fn timeline_is_stable(events: Seq<EventView>, run: Seq<char>, seq: u64)
    ensures
        order::timeline(events).filter(standing_at(run, seq)) == order::dedup(events).filter(
            standing_at(run, seq),
        ),
{
    arrange_is_stable(order::dedup(events), order::dedup(events), run, seq);
}

proof fn first_of_filter(events: Seq<EventView>, p: spec_fn(EventView) -> bool, i: int)
    requires
        0 <= i < events.len(),
        p(events[i]),
        forall|j: int| 0 <= j < i ==> !p(#[trigger] events[j]),
    ensures
        events.filter(p).len() > 0,
        events.filter(p)[0] == events[i],
    decreases events.len(),
{
    let init = events.drop_last();
    init.lemma_filter_push(events.last(), p);
    assert(init.push(events.last()) =~= events);
    if i < init.len() {
        first_of_filter(init, p, i);
    } else {
        if init.filter(p).len() > 0 {
            let kept = init.filter(p)[0];
            init.lemma_filter_pred(p, 0);
            assert(init.filter(p).contains(kept));
            init.lemma_filter_contains_rev(p, kept);
            let j = choose|j: int| 0 <= j < init.len() && init[j] == kept;
            assert(!p(events[j]));
        }
        assert(init.filter(p).len() == 0);
    }
}

proof fn first_that_holds(events: Seq<EventView>, p: spec_fn(EventView) -> bool, k: int) -> (i: int)
    requires
        0 <= k < events.len(),
        p(events[k]),
    ensures
        0 <= i <= k,
        p(events[i]),
        forall|j: int| 0 <= j < i ==> !p(#[trigger] events[j]),
    decreases k,
{
    if exists|j: int| 0 <= j < k && p(#[trigger] events[j]) {
        let j = choose|j: int| 0 <= j < k && p(#[trigger] events[j]);
        first_that_holds(events, p, j)
    } else {
        k
    }
}

/// Every run with an event is opened by one.
proof fn run_has_an_opener(events: Seq<EventView>, run: Seq<char>, k: int) -> (h: int)
    requires
        0 <= k < events.len(),
        events[k].run_id == run,
    ensures
        order::opens_run(events, run, h),
    decreases events[k].seq, k,
{
    if exists|j: int|
        0 <= j < events.len() && (#[trigger] events[j]).run_id == run && (events[j].seq
            < events[k].seq || (events[j].seq == events[k].seq && j < k)) {
        let j = choose|j: int|
            0 <= j < events.len() && (#[trigger] events[j]).run_id == run && (events[j].seq
                < events[k].seq || (events[j].seq == events[k].seq && j < k));
        run_has_an_opener(events, run, j)
    } else {
        k
    }
}

/// Lists that agree on what stands at each place agree on when a run began.
proof fn same_places_same_start(a: Seq<EventView>, b: Seq<EventView>, run: Seq<char>, k: int)
    requires
        forall|seq: u64|
            a.filter(#[trigger] standing_at(run, seq)) == b.filter(standing_at(run, seq)),
        0 <= k < a.len(),
        a[k].run_id == run,
    ensures
        order::run_start(a, run) == order::run_start(b, run),
{
    let i = run_has_an_opener(a, run, k);
    let p = standing_at(run, a[i].seq);
    assert forall|j: int| 0 <= j < i implies !p(#[trigger] a[j]) by {}
    first_of_filter(a, p, i);
    assert(b.filter(p).contains(b.filter(p)[0]));
    b.lemma_filter_pred(p, 0);
    b.lemma_filter_contains_rev(p, b.filter(p)[0]);
    let m = choose|m: int| 0 <= m < b.len() && b[m] == b.filter(p)[0];
    let j = first_that_holds(b, p, m);
    first_of_filter(b, p, j);
    assert forall|l: int| 0 <= l < b.len() && (#[trigger] b[l]).run_id == run implies b[j].seq
        < b[l].seq || (b[j].seq == b[l].seq && j <= l) by {
        let q = standing_at(run, b[l].seq);
        b.lemma_filter_contains(q, l);
        a.lemma_filter_contains_rev(q, b[l]);
        let n = choose|n: int| 0 <= n < a.len() && a[n] == b[l];
        assert(a[n].run_id == run);
        if l < j {
            assert(!p(b[l]));
        }
    }
    assert(order::opens_run(b, run, j));
    order::opener_is_unique(a, run, i, choose|x: int| order::opens_run(a, run, x));
    order::opener_is_unique(b, run, j, choose|x: int| order::opens_run(b, run, x));
}

proof fn ordered_stays(all: Seq<EventView>, events: Seq<EventView>)
    requires
        order::in_order(all, events),
    ensures
        order::arrange(all, events) == events,
    decreases events.len(),
{
    if events.len() > 0 {
        let init = events.drop_last();
        ordered_stays(all, init);
        if init.len() > 0 {
            assert(!order::goes_before(all, events[events.len() - 1], events[events.len() - 2]));
        }
        assert(init.push(events.last()) =~= events);
    }
}

proof fn distinct_stays(events: Seq<EventView>)
    requires
        forall|i: int, j: int|
            0 <= i < j < events.len() ==> !order::same_event(
                #[trigger] events[i],
                #[trigger] events[j],
            ),
    ensures
        order::dedup(events) == events,
    decreases events.len(),
{
    if events.len() > 0 {
        let init = events.drop_last();
        distinct_stays(init);
        if order::recorded(init, events.last()) {
            let j = choose|j: int|
                0 <= j < init.len() && order::same_event(#[trigger] init[j], events.last());
            assert(!order::same_event(events[j], events[events.len() - 1]));
        }
        assert(init.push(events.last()) =~= events);
    }
}

/// A timeline is its own timeline.
pub proof fn timeline_of_a_timeline(events: Seq<EventView>)
    ensures
        order::timeline(order::timeline(events)) == order::timeline(events),
{
    let d = order::dedup(events);
    let t = order::timeline(events);
    timeline_is_without_repeats(events);
    distinct_stays(t);
    timeline_is_in_order(events);
    assert forall|i: int, j: int| 0 <= i < j < t.len() implies !order::goes_before(
        t,
        #[trigger] t[j],
        #[trigger] t[i],
    ) by {
        assert(!order::goes_before(d, t[j], t[i]));
        assert forall|seq: u64|
            t.filter(#[trigger] standing_at(t[i].run_id, seq)) == d.filter(
                standing_at(t[i].run_id, seq),
            ) by {
            timeline_is_stable(events, t[i].run_id, seq);
        }
        assert forall|seq: u64|
            t.filter(#[trigger] standing_at(t[j].run_id, seq)) == d.filter(
                standing_at(t[j].run_id, seq),
            ) by {
            timeline_is_stable(events, t[j].run_id, seq);
        }
        same_places_same_start(t, d, t[i].run_id, i);
        same_places_same_start(t, d, t[j].run_id, j);
    }
    ordered_stays(t, t);
}

/// Whether no two different records share a run and a sequence number.
pub open spec fn consistent(events: Seq<EventView>) -> bool {
    forall|i: int, j: int|
        0 <= i < events.len() && 0 <= j < events.len() && (#[trigger] events[i]).run_id == (
        #[trigger] events[j]).run_id && events[i].seq == events[j].seq ==> events[i] == events[j]
}

/// Whether two lists hold the same events.
pub open spec fn same_members(a: Seq<EventView>, b: Seq<EventView>) -> bool {
    forall|e: EventView| #[trigger] a.contains(e) <==> b.contains(e)
}

proof fn dedup_of_consistent(events: Seq<EventView>)
    requires
        consistent(events),
    ensures
        same_members(order::dedup(events), events),
{
    let d = order::dedup(events);
    dedup_is_without_repeats(events);
    assert forall|e: EventView| #[trigger] d.contains(e) <==> events.contains(e) by {
        if d.contains(e) {
            let i = choose|i: int| 0 <= i < d.len() && d[i] == e;
            assert(d[i] == e);
        }
        if events.contains(e) {
            let i = choose|i: int| 0 <= i < events.len() && events[i] == e;
            assert(order::same_event(events[i], e));
            order::dedup_records_the_same(events, e);
            let k = choose|k: int| 0 <= k < d.len() && order::same_event(#[trigger] d[k], e);
            let j = choose|j: int|
                0 <= j < events.len() && #[trigger] events[j] == d[k] && !order::recorded(
                    events.take(j),
                    events[j],
                );
            assert(events[j] == events[i]);
            assert(d[k] == e);
        }
    }
}

proof fn same_members_same_start(
    a: Seq<EventView>,
    b: Seq<EventView>,
    run: Seq<char>,
    k: int,
)
    requires
        consistent(a),
        same_members(a, b),
        0 <= k < a.len(),
        a[k].run_id == run,
    ensures
        order::run_start(a, run) == order::run_start(b, run),
{
    let i = run_has_an_opener(a, run, k);
    assert(a.contains(a[i]));
    let m = choose|m: int| 0 <= m < b.len() && b[m] == a[i];
    let j = run_has_an_opener(b, run, m);
    assert(b.contains(b[j]));
    assert(a.contains(b[j]));
    let n = choose|n: int| 0 <= n < a.len() && a[n] == b[j];
    assert(a[n].run_id == run && b[m].run_id == run);
    assert(a[n].seq == a[i].seq);
    assert(a[n] == a[i]);
    order::opener_is_unique(a, run, i, choose|x: int| order::opens_run(a, run, x));
    order::opener_is_unique(b, run, j, choose|x: int| order::opens_run(b, run, x));
}

/// Two lists in strict order with the same members are the same list.
proof fn strict_order_is_unique(all: Seq<EventView>, a: Seq<EventView>, b: Seq<EventView>)
    requires
        same_members(a, b),
        forall|i: int, j: int|
            0 <= i < j < a.len() ==> order::goes_before(all, #[trigger] a[i], #[trigger] a[j]),
        forall|i: int, j: int|
            0 <= i < j < b.len() ==> order::goes_before(all, #[trigger] b[i], #[trigger] b[j]),
    ensures
        a == b,
    decreases a.len(),
{
    if a.len() == 0 {
        if b.len() > 0 {
            assert(b.contains(b[0]));
            assert(a.contains(b[0]));
        }
        assert(a =~= b);
    } else {
        assert(a.contains(a[0]));
        assert(b.contains(a[0]));
        assert(b.contains(b[0]));
        assert(a.contains(b[0]));
        let m = choose|m: int| 0 <= m < b.len() && b[m] == a[0];
        let n = choose|n: int| 0 <= n < a.len() && a[n] == b[0];
        if m > 0 && n > 0 {
            assert(order::goes_before(all, b[0], b[m]));
            assert(order::goes_before(all, a[0], a[n]));
            order::goes_before_transitive(all, a[0], b[0], a[0]);
            order::goes_before_irreflexive(all, a[0]);
        }
        assert(a[0] == b[0]);
        let ra = a.drop_first();
        let rb = b.drop_first();
        assert forall|e: EventView| #[trigger] ra.contains(e) <==> rb.contains(e) by {
            if ra.contains(e) {
                let i = choose|i: int| 0 <= i < ra.len() && ra[i] == e;
                assert(a[i + 1] == e);
                assert(a.contains(e));
                let j = choose|j: int| 0 <= j < b.len() && b[j] == e;
                if j == 0 {
                    assert(order::goes_before(all, a[0], a[i + 1]));
                    order::goes_before_irreflexive(all, a[0]);
                }
                assert(rb[j - 1] == e);
            }
            if rb.contains(e) {
                let i = choose|i: int| 0 <= i < rb.len() && rb[i] == e;
                assert(b[i + 1] == e);
                assert(b.contains(e));
                assert(a.contains(e));
                let j = choose|j: int| 0 <= j < a.len() && a[j] == e;
                if j == 0 {
                    assert(order::goes_before(all, b[0], b[i + 1]));
                    order::goes_before_irreflexive(all, b[0]);
                }
                assert(ra[j - 1] == e);
            }
        }
        strict_order_is_unique(all, ra, rb);
        assert(a =~= seq![a[0]] + ra);
        assert(b =~= seq![b[0]] + rb);
    }
}

proof fn timeline_of_consistent(events: Seq<EventView>)
    requires
        consistent(events),
    ensures
        same_members(order::timeline(events), events),
        forall|i: int, j: int|
            0 <= i < j < order::timeline(events).len() ==> order::goes_before(
                order::dedup(events),
                #[trigger] order::timeline(events)[i],
                #[trigger] order::timeline(events)[j],
            ),
{
    let d = order::dedup(events);
    let t = order::timeline(events);
    dedup_of_consistent(events);
    timeline_keeps_every_event(events);
    timeline_is_in_order(events);
    timeline_is_without_repeats(events);
    assert forall|e: EventView| #[trigger] t.contains(e) <==> events.contains(e) by {
        broadcast use vstd::seq_lib::group_to_multiset_ensures;

        assert(t.contains(e) <==> t.to_multiset().count(e) > 0);
        assert(d.contains(e) <==> d.to_multiset().count(e) > 0);
    }
    assert forall|i: int, j: int| 0 <= i < j < t.len() implies order::goes_before(
        d,
        #[trigger] t[i],
        #[trigger] t[j],
    ) by {
        assert(!order::goes_before(d, t[j], t[i]));
        assert(!order::same_event(t[i], t[j]));
        order::goes_before_connected(d, t[i], t[j]);
        if t[i].run_id == t[j].run_id && t[i].seq == t[j].seq {
            assert(t.contains(t[i]) && t.contains(t[j]));
            let a = choose|a: int| 0 <= a < events.len() && events[a] == t[i];
            let b = choose|b: int| 0 <= b < events.len() && events[b] == t[j];
            assert(events[a] == events[b]);
        }
    }
}

/// The timeline depends on which events there are, not on the order in which
/// their records arrived nor on how often.
pub proof fn timeline_ignores_arrival(a: Seq<EventView>, b: Seq<EventView>)
    requires
        consistent(a),
        same_members(a, b),
    ensures
        order::timeline(a) == order::timeline(b),
{
    assert forall|i: int, j: int|
        0 <= i < b.len() && 0 <= j < b.len() && (#[trigger] b[i]).run_id == (#[trigger] b[j]).run_id
            && b[i].seq == b[j].seq implies b[i] == b[j] by {
        assert(b.contains(b[i]) && b.contains(b[j]));
        assert(a.contains(b[i]) && a.contains(b[j]));
        let x = choose|x: int| 0 <= x < a.len() && a[x] == b[i];
        let y = choose|y: int| 0 <= y < a.len() && a[y] == b[j];
        assert(a[x] == a[y]);
    }
    let da = order::dedup(a);
    let db = order::dedup(b);
    let ta = order::timeline(a);
    let tb = order::timeline(b);
    timeline_of_consistent(a);
    timeline_of_consistent(b);
    dedup_of_consistent(a);
    dedup_of_consistent(b);
    assert(same_members(da, db)) by {
        assert forall|e: EventView| #[trigger] da.contains(e) <==> db.contains(e) by {
            assert(a.contains(e) <==> b.contains(e));
        }
    }
    assert(consistent(db)) by {
        assert forall|i: int, j: int|
            0 <= i < db.len() && 0 <= j < db.len() && (#[trigger] db[i]).run_id == (
            #[trigger] db[j]).run_id && db[i].seq == db[j].seq implies db[i] == db[j] by {
            assert(db.contains(db[i]) && db.contains(db[j]));
            let x = choose|x: int| 0 <= x < b.len() && b[x] == db[i];
            let y = choose|y: int| 0 <= y < b.len() && b[y] == db[j];
            assert(b[x] == b[y]);
        }
    }
    assert forall|i: int, j: int| 0 <= i < j < tb.len() implies order::goes_before(
        da,
        #[trigger] tb[i],
        #[trigger] tb[j],
    ) by {
        assert(order::goes_before(db, tb[i], tb[j]));
        assert(tb.contains(tb[i]) && tb.contains(tb[j]));
        assert(db.contains(tb[i]) && db.contains(tb[j]));
        let x = choose|x: int| 0 <= x < db.len() && db[x] == tb[i];
        let y = choose|y: int| 0 <= y < db.len() && db[y] == tb[j];
        assert(same_members(db, da));
        same_members_same_start(db, da, tb[i].run_id, x);
        same_members_same_start(db, da, tb[j].run_id, y);
    }
    assert(same_members(ta, tb)) by {
        assert forall|e: EventView| #[trigger] ta.contains(e) <==> tb.contains(e) by {
            assert(a.contains(e) <==> b.contains(e));
        }
    }
    strict_order_is_unique(da, ta, tb);
}

/// Merging new events into a timeline gives the timeline of all of them, as if
/// they had been loaded at once.
pub proof fn timeline_grows_as_if_loaded_at_once(new: Seq<EventView>, known: Seq<EventView>)
    requires
        consistent(new + known),
    ensures
        order::timeline(new + order::timeline(known)) == order::timeline(new + known),
{
    let whole = new + known;
    assert forall|i: int, j: int|
        0 <= i < known.len() && 0 <= j < known.len() && (#[trigger] known[i]).run_id == (
        #[trigger] known[j]).run_id && known[i].seq == known[j].seq implies known[i] == known[j] by {
        assert(whole[new.len() + i] == known[i]);
        assert(whole[new.len() + j] == known[j]);
    }
    timeline_of_consistent(known);
    let merged = new + order::timeline(known);
    assert forall|e: EventView| #[trigger] whole.contains(e) <==> merged.contains(e) by {
        let t = order::timeline(known);
        assert(t.contains(e) <==> known.contains(e));
        if whole.contains(e) {
            let i = choose|i: int| 0 <= i < whole.len() && whole[i] == e;
            if i < new.len() {
                assert(merged[i] == e);
            } else {
                assert(known[i - new.len()] == e);
                let k = choose|k: int| 0 <= k < t.len() && t[k] == e;
                assert(merged[new.len() + k] == e);
            }
        }
        if merged.contains(e) {
            let i = choose|i: int| 0 <= i < merged.len() && merged[i] == e;
            if i < new.len() {
                assert(whole[i] == e);
            } else {
                assert(t[i - new.len()] == e);
                let k = choose|k: int| 0 <= k < known.len() && known[k] == e;
                assert(whole[new.len() + k] == e);
            }
        }
    }
    timeline_ignores_arrival(whole, merged);
}

/// A timeline is in the order of its own runs.
proof fn timeline_is_in_its_own_order(events: Seq<EventView>)
    ensures
        order::in_order(order::timeline(events), order::timeline(events)),
{
    let t = order::timeline(events);
    timeline_of_a_timeline(events);
    timeline_is_without_repeats(events);
    distinct_stays(t);
    timeline_is_in_order(t);
}

/// Whether the entry at position `a` is the one with the lowest sequence number of
/// its run; of several, the first.
pub open spec fn is_lowest_of_run(t: Seq<EventView>, a: int) -> bool {
    &&& 0 <= a < t.len()
    &&& forall|k: int|
        0 <= k < t.len() && (#[trigger] t[k]).run_id == t[a].run_id ==> t[a].seq < t[k].seq || (
        t[a].seq == t[k].seq && a <= k)
}

proof fn lowest_gives_the_start(t: Seq<EventView>, a: int)
    requires
        is_lowest_of_run(t, a),
    ensures
        order::run_start(t, t[a].run_id) == t[a].ts,
{
    let run = t[a].run_id;
    assert(order::opens_run(t, run, a));
    order::opener_is_unique(t, run, a, choose|i: int| order::opens_run(t, run, i));
}

/// Of two runs in a timeline, the one whose event of the lowest sequence number has
/// the earlier instant stands wholly before the other. Instants go by their seconds,
/// then by their nanoseconds.
pub proof fn the_earlier_run_comes_first(events: Seq<EventView>, a: int, b: int, i: int, j: int)
    requires
        is_lowest_of_run(order::timeline(events), a),
        is_lowest_of_run(order::timeline(events), b),
        0 <= i < order::timeline(events).len(),
        0 <= j < order::timeline(events).len(),
        order::timeline(events)[i].run_id == order::timeline(events)[a].run_id,
        order::timeline(events)[j].run_id == order::timeline(events)[b].run_id,
        ({
            let first = order::timeline(events)[a].ts;
            let second = order::timeline(events)[b].ts;
            first.secs < second.secs || (first.secs == second.secs && first.nanos < second.nanos)
        }),
    ensures
        i < j,
{
    let t = order::timeline(events);
    timeline_is_in_its_own_order(events);
    lowest_gives_the_start(t, a);
    lowest_gives_the_start(t, b);
    if j < i {
        assert(!order::goes_before(t, t[i], t[j]));
    }
}

/// Of two runs in a timeline that began at the same instant, the one whose name
/// comes first stands wholly before the other. A name comes first by the first
/// character in which the two differ, or as the beginning of the other.
pub proof fn runs_of_one_instant_go_by_name(
    events: Seq<EventView>,
    a: int,
    b: int,
    i: int,
    j: int,
    k: int,
)
    requires
        is_lowest_of_run(order::timeline(events), a),
        is_lowest_of_run(order::timeline(events), b),
        0 <= i < order::timeline(events).len(),
        0 <= j < order::timeline(events).len(),
        order::timeline(events)[i].run_id == order::timeline(events)[a].run_id,
        order::timeline(events)[j].run_id == order::timeline(events)[b].run_id,
        order::timeline(events)[a].ts == order::timeline(events)[b].ts,
        ({
            let first = order::timeline(events)[a].run_id;
            let second = order::timeline(events)[b].run_id;
            &&& 0 <= k <= first.len()
            &&& k < second.len()
            &&& first.take(k) == second.take(k)
            &&& k < first.len() ==> first[k] < second[k]
        }),
    ensures
        i < j,
{
    let t = order::timeline(events);
    timeline_is_in_its_own_order(events);
    lowest_gives_the_start(t, a);
    lowest_gives_the_start(t, b);
    text::differing_texts_are_ordered(t[a].run_id, t[b].run_id, k);
    text::text_lt_irreflexive(t[a].run_id);
    if j < i {
        assert(!order::goes_before(t, t[i], t[j]));
    }
}

/// Whether the record at position `j` is the first with its session, run and
/// sequence number.
pub open spec fn is_first_record(events: Seq<EventView>, j: int) -> bool {
    &&& 0 <= j < events.len()
    &&& forall|h: int|
        0 <= h < j ==> (#[trigger] events[h]).session_id != events[j].session_id
            || events[h].run_id != events[j].run_id || events[h].seq != events[j].seq
}

proof fn dedup_holds_the_first_records(events: Seq<EventView>, e: EventView)
    ensures
        order::dedup(events).contains(e) <==> exists|j: int|
            #[trigger] is_first_record(events, j) && events[j] == e,
    decreases events.len(),
{
    if events.len() > 0 {
        let init = events.drop_last();
        let last = events.last();
        let n = events.len() - 1;
        dedup_holds_the_first_records(init, e);
        assert(is_first_record(events, n) <==> !order::recorded(init, last)) by {
            if order::recorded(init, last) {
                let h = choose|h: int| 0 <= h < init.len() && order::same_event(#[trigger] init[h], last);
                assert(events[h] == init[h]);
            } else {
                assert forall|h: int| 0 <= h < n implies (#[trigger] events[h]).session_id
                    != last.session_id || events[h].run_id != last.run_id || events[h].seq
                    != last.seq by {
                    assert(!order::same_event(init[h], last));
                }
            }
        }
        assert forall|j: int| 0 <= j < n implies (#[trigger] is_first_record(events, j)
            <==> is_first_record(init, j)) by {
            if is_first_record(events, j) {
                assert forall|h: int| 0 <= h < j implies (#[trigger] init[h]).session_id
                    != init[j].session_id || init[h].run_id != init[j].run_id || init[h].seq
                    != init[j].seq by {
                    assert(events[h] == init[h]);
                }
            }
            if is_first_record(init, j) {
                assert forall|h: int| 0 <= h < j implies (#[trigger] events[h]).session_id
                    != events[j].session_id || events[h].run_id != events[j].run_id
                    || events[h].seq != events[j].seq by {
                    assert(events[h] == init[h]);
                }
            }
        }
        let d = order::dedup(init);
        if order::dedup(events).contains(e) {
            if d.contains(e) {
                let j = choose|j: int| #[trigger] is_first_record(init, j) && init[j] == e;
                assert(is_first_record(events, j) && events[j] == e);
            } else {
                let k = choose|k: int| 0 <= k < d.push(last).len() && d.push(last)[k] == e;
                if k < d.len() {
                    assert(d[k] == e);
                }
                assert(is_first_record(events, n) && events[n] == e);
            }
        }
        if exists|j: int| #[trigger] is_first_record(events, j) && events[j] == e {
            let j = choose|j: int| #[trigger] is_first_record(events, j) && events[j] == e;
            if j < n {
                assert(is_first_record(init, j) && init[j] == e);
                let k = choose|k: int| 0 <= k < d.len() && d[k] == e;
                assert(d.push(last)[k] == e);
            } else {
                assert(d.push(last)[d.len() as int] == e);
            }
        }
    } else {
        assert(!order::dedup(events).contains(e));
    }
}

/// A timeline holds the first record of each session, run and sequence number, and
/// nothing else.
pub proof fn a_timeline_holds_the_first_records(events: Seq<EventView>, e: EventView)
    ensures
        order::timeline(events).contains(e) <==> exists|j: int|
            #[trigger] is_first_record(events, j) && events[j] == e,
{
    broadcast use vstd::seq_lib::group_to_multiset_ensures;

    let t = order::timeline(events);
    let d = order::dedup(events);
    timeline_keeps_every_event(events);
    dedup_holds_the_first_records(events, e);
    assert(t.contains(e) <==> t.to_multiset().count(e) > 0);
    assert(d.contains(e) <==> d.to_multiset().count(e) > 0);
}

/// No two entries of a timeline agree in session, run and sequence number.
pub proof fn entries_of_a_timeline_differ(events: Seq<EventView>, i: int, j: int)
    requires
        0 <= i < j < order::timeline(events).len(),
    ensures
        ({
            let a = order::timeline(events)[i];
            let b = order::timeline(events)[j];
            a.session_id != b.session_id || a.run_id != b.run_id || a.seq != b.seq
        }),
{
    timeline_is_without_repeats(events);
    assert(!order::same_event(order::timeline(events)[i], order::timeline(events)[j]));
}

proof fn filter_keeps_order(s: Seq<EventView>, p: spec_fn(EventView) -> bool, i: int, j: int) -> (at: (
    int,
    int,
))
    requires
        0 <= i < j < s.len(),
        p(s[i]),
        p(s[j]),
    ensures
        0 <= at.0 < at.1 < s.filter(p).len(),
        s.filter(p)[at.0] == s[i],
        s.filter(p)[at.1] == s[j],
    decreases s.len(),
{
    let init = s.drop_last();
    assert(init.push(s.last()) =~= s);
    init.lemma_filter_push(s.last(), p);
    if j < init.len() {
        let at = filter_keeps_order(init, p, i, j);
        (at.0, at.1)
    } else {
        init.lemma_filter_contains(p, i);
        let f = init.filter(p);
        let a = choose|a: int| 0 <= a < f.len() && f[a] == init[i];
        (a, f.len() as int)
    }
}

proof fn filter_is_without_repeats(s: Seq<EventView>, p: spec_fn(EventView) -> bool)
    requires
        s.no_duplicates(),
    ensures
        s.filter(p).no_duplicates(),
    decreases s.len(),
{
    reveal(Seq::filter);
    if s.len() > 0 {
        let init = s.drop_last();
        filter_is_without_repeats(init, p);
        let f = init.filter(p);
        if p(s.last()) {
            assert(!f.contains(s.last())) by {
                if f.contains(s.last()) {
                    init.lemma_filter_contains_rev(p, s.last());
                    let i = choose|i: int| 0 <= i < init.len() && init[i] == s.last();
                    assert(s[i] == s[s.len() - 1]);
                }
            }
            let more = f.push(s.last());
            assert(init.push(s.last()) =~= s);
            init.lemma_filter_push(s.last(), p);
            assert forall|i: int, j: int| 0 <= i < j < more.len() implies more[i] != more[j] by {
                if j == f.len() {
                    assert(f.contains(f[i]));
                }
            }
        }
    }
}

proof fn dedup_keeps_arrival(events: Seq<EventView>, p: int, q: int) -> (at: (int, int))
    requires
        is_first_record(events, p),
        is_first_record(events, q),
        p < q,
    ensures
        0 <= at.0 < at.1 < order::dedup(events).len(),
        order::dedup(events)[at.0] == events[p],
        order::dedup(events)[at.1] == events[q],
    decreases events.len(),
{
    let init = events.drop_last();
    let d = order::dedup(init);
    assert forall|h: int| 0 <= h < p implies (#[trigger] init[h]).session_id != init[p].session_id
        || init[h].run_id != init[p].run_id || init[h].seq != init[p].seq by {
        assert(events[h] == init[h]);
    }
    assert(is_first_record(init, p));
    if q < init.len() {
        assert forall|h: int| 0 <= h < q implies (#[trigger] init[h]).session_id
            != init[q].session_id || init[h].run_id != init[q].run_id || init[h].seq
            != init[q].seq by {
            assert(events[h] == init[h]);
        }
        let at = dedup_keeps_arrival(init, p, q);
        assert(d.push(events.last())[at.0] == d[at.0]);
        assert(d.push(events.last())[at.1] == d[at.1]);
        (at.0, at.1)
    } else {
        if order::recorded(init, events.last()) {
            let h = choose|h: int|
                0 <= h < init.len() && order::same_event(#[trigger] init[h], events.last());
            assert(events[h] == init[h]);
        }
        dedup_holds_the_first_records(init, events[p]);
        assert(is_first_record(init, p) && init[p] == events[p]);
        let a = choose|a: int| 0 <= a < d.len() && d[a] == events[p];
        (a, d.len() as int)
    }
}

/// Events of one run that share a sequence number, as those of two sessions may, stand
/// in the order in which they arrived.
pub proof fn a_shared_number_goes_by_arrival(
    events: Seq<EventView>,
    i: int,
    j: int,
    p: int,
    q: int,
)
    requires
        0 <= i < order::timeline(events).len(),
        0 <= j < order::timeline(events).len(),
        order::timeline(events)[i].run_id == order::timeline(events)[j].run_id,
        order::timeline(events)[i].seq == order::timeline(events)[j].seq,
        is_first_record(events, p),
        is_first_record(events, q),
        order::timeline(events)[i] == events[p],
        order::timeline(events)[j] == events[q],
        p < q,
    ensures
        i < j,
{
    let t = order::timeline(events);
    let d = order::dedup(events);
    let f = standing_at(t[i].run_id, t[i].seq);
    let at = dedup_keeps_arrival(events, p, q);
    timeline_is_stable(events, t[i].run_id, t[i].seq);
    dedup_is_without_repeats(events);
    assert(d.no_duplicates()) by {
        assert forall|x: int, y: int| 0 <= x < d.len() && 0 <= y < d.len() && x != y implies d[x]
            != d[y] by {
            if x < y {
                assert(!order::same_event(d[x], d[y]));
            } else {
                assert(!order::same_event(d[y], d[x]));
            }
        }
    }
    filter_is_without_repeats(d, f);
    let a = filter_keeps_order(d, f, at.0, at.1);
    if j < i {
        let b = filter_keeps_order(t, f, j, i);
        assert(d.filter(f)[b.0] == d.filter(f)[a.1]);
        assert(d.filter(f)[b.1] == d.filter(f)[a.0]);
    } else if i == j {
        assert(d[at.0] == d[at.1]);
    }
}

} // verus!
