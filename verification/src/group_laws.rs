//! What holds of the tool calls of every timeline.
use vstd::prelude::*;

use crate::event::EventView;
use crate::event::Kind;
use crate::group;
use crate::group::GroupView;

verus! {

/// Whether an event belongs to a tool call.
pub open spec fn is_tool_event(e: EventView) -> bool {
    e.call_id is Some && (e.kind is LlmResponse || e.kind is ToolCall || e.kind is ToolResult)
}

/// Whether a group holds the event at position `i`.
pub open spec fn holds(g: GroupView, i: int) -> bool {
    g.response == Some(i) || g.call == Some(i) || g.result == Some(i)
}

/// Whether the event at position `i` is one of a kind, for a call.
pub open spec fn event_fits(events: Seq<EventView>, i: int, kind: Kind, call_id: Seq<char>) -> bool {
    0 <= i < events.len() && events[i].kind == kind && events[i].call_id == Some(call_id)
}

/// Whether each place of a group that is taken holds an event of the kind that
/// the place is for, with the group's call id.
pub open spec fn group_fits(events: Seq<EventView>, g: GroupView) -> bool {
    &&& g.response matches Some(i) ==> event_fits(events, i, Kind::LlmResponse, g.call_id)
    &&& g.call matches Some(i) ==> event_fits(events, i, Kind::ToolCall, g.call_id)
    &&& g.result matches Some(i) ==> event_fits(events, i, Kind::ToolResult, g.call_id)
}

/// Whether a group holds any event.
pub open spec fn is_started(g: GroupView) -> bool {
    g.response is Some || g.call is Some || g.result is Some
}

/// Whether some group holds the event at position `i`.
pub open spec fn is_grouped(groups: Seq<GroupView>, i: int) -> bool {
    exists|g: int| 0 <= g < groups.len() && #[trigger] holds(groups[g], i)
}

/// Whether no event is held twice.
pub open spec fn held_once(groups: Seq<GroupView>) -> bool {
    forall|g: int, h: int, i: int|
        0 <= g < groups.len() && 0 <= h < groups.len() && #[trigger] holds(groups[g], i)
            && #[trigger] holds(groups[h], i) ==> g == h
}

/// Whether each group carries its number among the attempts at its call.
pub open spec fn numbered(groups: Seq<GroupView>) -> bool {
    forall|g: int|
        0 <= g < groups.len() ==> (#[trigger] groups[g]).attempt == group::attempts_at(
            groups.take(g),
            groups[g].call_id,
        ) + 1
}

spec fn sorted_into(events: Seq<EventView>, groups: Seq<GroupView>) -> bool {
    &&& forall|g: int| 0 <= g < groups.len() ==> group_fits(events, #[trigger] groups[g])
    &&& forall|i: int|
        0 <= i < events.len() ==> (is_tool_event(events[i]) <==> #[trigger] is_grouped(groups, i))
    &&& held_once(groups)
    &&& forall|g: int| 0 <= g < groups.len() ==> is_started(#[trigger] groups[g])
}

/// Groups hold no event beyond the end of the timeline.
proof fn beyond_the_end(events: Seq<EventView>, groups: Seq<GroupView>, i: int)
    requires
        sorted_into(events, groups),
        i >= events.len(),
    ensures
        forall|g: int| 0 <= g < groups.len() ==> !holds(#[trigger] groups[g], i),
{
    assert forall|g: int| 0 <= g < groups.len() implies !holds(#[trigger] groups[g], i) by {
        assert(group_fits(events, groups[g]));
    }
}

proof fn sorted_into_unchanged(events: Seq<EventView>, groups: Seq<GroupView>, e: EventView)
    requires
        sorted_into(events, groups),
        !is_tool_event(e),
    ensures
        sorted_into(events.push(e), groups),
{
    let more = events.push(e);
    beyond_the_end(events, groups, events.len() as int);
    assert forall|g: int| 0 <= g < groups.len() implies group_fits(more, #[trigger] groups[g]) by {
        assert(group_fits(events, groups[g]));
    }
    assert forall|i: int| 0 <= i < more.len() implies (is_tool_event(more[i])
        <==> #[trigger] is_grouped(groups, i)) by {
        if i < events.len() {
            assert(more[i] == events[i]);
        } else {
            assert(more[i] == e);
        }
    }
}

proof fn sorted_into_update(
    events: Seq<EventView>,
    groups: Seq<GroupView>,
    e: EventView,
    o: int,
    filled: GroupView,
)
    requires
        sorted_into(events, groups),
        is_tool_event(e),
        0 <= o < groups.len(),
        group_fits(events.push(e), filled),
        holds(filled, events.len() as int),
        forall|i: int|
            i != events.len() ==> (#[trigger] holds(filled, i) <==> holds(groups[o], i)),
    ensures
        sorted_into(events.push(e), groups.update(o, filled)),
{
    let more = events.push(e);
    let after = groups.update(o, filled);
    let n = events.len() as int;
    beyond_the_end(events, groups, n);
    assert forall|g: int| 0 <= g < after.len() implies group_fits(more, #[trigger] after[g]) by {
        if g != o {
            assert(group_fits(events, groups[g]));
        }
    }
    assert forall|i: int| 0 <= i < more.len() implies (is_tool_event(more[i])
        <==> #[trigger] is_grouped(after, i)) by {
        if i < n {
            assert(more[i] == events[i]);
            if is_grouped(groups, i) {
                let g = choose|g: int| 0 <= g < groups.len() && #[trigger] holds(groups[g], i);
                assert(holds(after[g], i));
            }
            if is_grouped(after, i) {
                let g = choose|g: int| 0 <= g < after.len() && #[trigger] holds(after[g], i);
                assert(holds(groups[g], i));
            }
        } else {
            assert(more[i] == e);
            assert(holds(after[o], i));
        }
    }
    assert forall|g: int, h: int, i: int|
        0 <= g < after.len() && 0 <= h < after.len() && #[trigger] holds(after[g], i)
            && #[trigger] holds(after[h], i) implies g == h by {
        if i != n {
            assert(holds(groups[g], i));
            assert(holds(groups[h], i));
        } else {
            if g != o {
                assert(after[g] == groups[g]);
            }
            if h != o {
                assert(after[h] == groups[h]);
            }
        }
    }
    assert forall|g: int| 0 <= g < after.len() implies is_started(#[trigger] after[g]) by {
        if g != o {
            assert(is_started(groups[g]));
        }
    }
}

proof fn sorted_into_push(
    events: Seq<EventView>,
    groups: Seq<GroupView>,
    e: EventView,
    fresh: GroupView,
)
    requires
        sorted_into(events, groups),
        is_tool_event(e),
        group_fits(events.push(e), fresh),
        forall|i: int| #[trigger] holds(fresh, i) <==> i == events.len(),
    ensures
        sorted_into(events.push(e), groups.push(fresh)),
{
    let more = events.push(e);
    let after = groups.push(fresh);
    let n = events.len() as int;
    let o = groups.len() as int;
    beyond_the_end(events, groups, n);
    assert forall|g: int| 0 <= g < after.len() implies group_fits(more, #[trigger] after[g]) by {
        if g != o {
            assert(group_fits(events, groups[g]));
        }
    }
    assert(holds(fresh, n));
    assert forall|i: int| 0 <= i < more.len() implies (is_tool_event(more[i])
        <==> #[trigger] is_grouped(after, i)) by {
        if i < n {
            assert(more[i] == events[i]);
            if is_grouped(groups, i) {
                let g = choose|g: int| 0 <= g < groups.len() && #[trigger] holds(groups[g], i);
                assert(holds(after[g], i));
            }
            if is_grouped(after, i) {
                let g = choose|g: int| 0 <= g < after.len() && #[trigger] holds(after[g], i);
                assert(holds(groups[g], i));
            }
        } else {
            assert(more[i] == e);
            assert(holds(after[o], i));
        }
    }
    assert forall|g: int, h: int, i: int|
        0 <= g < after.len() && 0 <= h < after.len() && #[trigger] holds(after[g], i)
            && #[trigger] holds(after[h], i) implies g == h by {
        if g < o && h < o {
            assert(holds(groups[g], i));
            assert(holds(groups[h], i));
        } else {
            assert(i == n);
        }
    }
    assert forall|g: int| 0 <= g < after.len() implies is_started(#[trigger] after[g]) by {
        if g != o {
            assert(is_started(groups[g]));
        }
    }
}

proof fn sorted_into_grows(events: Seq<EventView>, groups: Seq<GroupView>, e: EventView)
    requires
        sorted_into(events, groups),
    ensures
        sorted_into(events.push(e), group::with_event(groups, e, events.len() as int)),
{
    let n = events.len() as int;
    if !is_tool_event(e) {
        sorted_into_unchanged(events, groups, e);
    } else {
        let call_id = e.call_id->0;
        let open = group::open_attempt(groups, call_id);
        group::open_attempt_is_open(groups, call_id);
        let after = group::with_event(groups, e, n);
        let joins = open is Some && match e.kind {
            Kind::LlmResponse => groups[open->0].response is None,
            Kind::ToolCall => groups[open->0].call is None,
            _ => true,
        };
        if joins {
            let o = open->0;
            assert(group_fits(events, groups[o]));
            sorted_into_update(events, groups, e, o, after[o]);
            assert(after =~= groups.update(o, after[o]));
        } else {
            sorted_into_push(events, groups, e, after.last());
            assert(after =~= groups.push(after.last()));
        }
    }
}

proof fn groups_are_sorted_into(events: Seq<EventView>)
    ensures
        sorted_into(events, group::groups_of(events)),
    decreases events.len(),
{
    if events.len() > 0 {
        groups_are_sorted_into(events.drop_last());
        sorted_into_grows(events.drop_last(), group::groups_of(events.drop_last()), events.last());
        assert(events.drop_last().push(events.last()) =~= events);
    }
}

/// Every group holds only events with its own call id, each in the place for
/// its kind.
pub proof fn groups_hold_their_own_events(events: Seq<EventView>, g: int)
    requires
        0 <= g < group::groups_of(events).len(),
    ensures
        group_fits(events, group::groups_of(events)[g]),
{
    groups_are_sorted_into(events);
}

/// The events that some group holds are the responses, calls and results with a
/// call id.
pub proof fn tool_events_are_grouped(events: Seq<EventView>, i: int)
    requires
        0 <= i < events.len(),
    ensures
        is_grouped(group::groups_of(events), i) <==> is_tool_event(events[i]),
{
    groups_are_sorted_into(events);
}

/// No event is in two groups.
pub proof fn groups_are_disjoint(events: Seq<EventView>)
    ensures
        held_once(group::groups_of(events)),
{
    groups_are_sorted_into(events);
}

/// No group is empty.
pub proof fn groups_are_nonempty(events: Seq<EventView>, g: int)
    requires
        0 <= g < group::groups_of(events).len(),
    ensures
        is_started(group::groups_of(events)[g]),
{
    groups_are_sorted_into(events);
}

proof fn numbered_grows(groups: Seq<GroupView>, e: EventView, i: int)
    requires
        numbered(groups),
    ensures
        numbered(group::with_event(groups, e, i)),
{
    let after = group::with_event(groups, e, i);
    if is_tool_event(e) {
        let call_id = e.call_id->0;
        let open = group::open_attempt(groups, call_id);
        group::open_attempt_is_open(groups, call_id);
        let joins = open is Some && match e.kind {
            Kind::LlmResponse => groups[open->0].response is None,
            Kind::ToolCall => groups[open->0].call is None,
            _ => true,
        };
        assert forall|g: int| 0 <= g < after.len() implies (#[trigger] after[g]).attempt
            == group::attempts_at(after.take(g), after[g].call_id) + 1 by {
            if joins {
                let o = open->0;
                if o < g {
                    assert(after.take(g) =~= groups.take(g).update(o, after[o]));
                    group::attempts_unchanged(groups.take(g), o, after[o], after[g].call_id);
                } else {
                    assert(after.take(g) =~= groups.take(g));
                }
                assert(groups[g].attempt == after[g].attempt);
            } else {
                assert(after.take(g) =~= groups.take(g));
                if g < groups.len() {
                    assert(groups[g] == after[g]);
                } else {
                    assert(groups.take(g) =~= groups);
                }
            }
        }
    } else {
        assert(after =~= groups);
    }
}

/// The attempts at a call are numbered from one, in the order in which they start.
pub proof fn attempts_are_numbered(events: Seq<EventView>)
    ensures
        numbered(group::groups_of(events)),
    decreases events.len(),
{
    if events.len() > 0 {
        attempts_are_numbered(events.drop_last());
        numbered_grows(
            group::groups_of(events.drop_last()),
            events.last(),
            events.len() - 1,
        );
    }
}

/// A call that comes again while its latest attempt already has a call, or once
/// that attempt has its result, starts a new attempt with the next number.
pub proof fn a_repeated_call_starts_an_attempt(events: Seq<EventView>, e: EventView)
    requires
        e.kind == Kind::ToolCall,
        e.call_id is Some,
        group::open_attempt(group::groups_of(events), e.call_id->0) matches Some(g)
            ==> group::groups_of(events)[g].call is Some,
    ensures
        group::groups_of(events.push(e)) == group::groups_of(events).push(
            GroupView {
                call_id: e.call_id->0,
                attempt: group::attempts_at(group::groups_of(events), e.call_id->0) + 1,
                response: None,
                call: Some(events.len() as int),
                result: None,
            },
        ),
{
    assert(events.push(e).drop_last() =~= events);
}

/// A call waits for its result until a result with its call id arrives, and no
/// longer.
pub proof fn a_result_closes_the_open_attempt(events: Seq<EventView>, e: EventView, g: int)
    requires
        e.kind == Kind::ToolResult,
        e.call_id is Some,
        group::open_attempt(group::groups_of(events), e.call_id->0) == Some(g),
    ensures
        group::groups_of(events)[g].result is None,
        group::groups_of(events.push(e)).len() == group::groups_of(events).len(),
        group::groups_of(events.push(e))[g].result == Some(events.len() as int),
{
    assert(events.push(e).drop_last() =~= events);
    group::open_attempt_is_open(group::groups_of(events), e.call_id->0);
}

/// The attempts at a call.
pub open spec fn at_call(call_id: Seq<char>) -> spec_fn(GroupView) -> bool {
    |g: GroupView| g.call_id == call_id
}

/// Filling a place of a group for another call leaves the attempts at a call.
proof fn filling_keeps_others(groups: Seq<GroupView>, o: int, filled: GroupView, call_id: Seq<char>)
    requires
        0 <= o < groups.len(),
        groups[o].call_id != call_id,
        filled.call_id != call_id,
    ensures
        groups.update(o, filled).filter(at_call(call_id)) == groups.filter(at_call(call_id)),
    decreases groups.len(),
{
    let p = at_call(call_id);
    let init = groups.drop_last();
    let last = groups.last();
    assert(groups =~= init.push(last));
    init.lemma_filter_push(last, p);
    if o == groups.len() - 1 {
        assert(groups.update(o, filled) =~= init.push(filled));
        init.lemma_filter_push(filled, p);
    } else {
        filling_keeps_others(init, o, filled, call_id);
        assert(groups.update(o, filled) =~= init.update(o, filled).push(last));
        init.update(o, filled).lemma_filter_push(last, p);
    }
}

/// Calls do not interfere: an event with another call id, or with none, leaves the
/// attempts at a call as they are.
pub proof fn calls_do_not_interfere(events: Seq<EventView>, e: EventView, call_id: Seq<char>)
    requires
        e.call_id != Some(call_id),
    ensures
        group::groups_of(events.push(e)).filter(at_call(call_id)) == group::groups_of(
            events,
        ).filter(at_call(call_id)),
{
    let groups = group::groups_of(events);
    let n = events.len() as int;
    assert(events.push(e).drop_last() =~= events);
    let after = group::with_event(groups, e, n);
    if is_tool_event(e) {
        let other = e.call_id->0;
        let open = group::open_attempt(groups, other);
        group::open_attempt_is_open(groups, other);
        let joins = open is Some && match e.kind {
            Kind::LlmResponse => groups[open->0].response is None,
            Kind::ToolCall => groups[open->0].call is None,
            _ => true,
        };
        if joins {
            let o = open->0;
            assert(after =~= groups.update(o, after[o]));
            filling_keeps_others(groups, o, after[o], call_id);
        } else {
            assert(after =~= groups.push(after.last()));
            groups.lemma_filter_push(after.last(), at_call(call_id));
        }
    } else {
        assert(after =~= groups);
    }
}

/// Whether a group is the latest of those for a call that have no result.
pub open spec fn is_latest_waiting(groups: Seq<GroupView>, call_id: Seq<char>, g: int) -> bool {
    &&& 0 <= g < groups.len()
    &&& groups[g].call_id == call_id
    &&& groups[g].result is None
    &&& forall|h: int|
        g < h < groups.len() ==> (#[trigger] groups[h]).call_id != call_id || groups[h].result is Some
}

/// Whether no group for a call is without a result.
pub open spec fn none_waits(groups: Seq<GroupView>, call_id: Seq<char>) -> bool {
    forall|h: int|
        0 <= h < groups.len() ==> (#[trigger] groups[h]).call_id != call_id || groups[h].result is Some
}

/// The open attempt is the latest group for the call that waits for a result.
pub proof fn the_open_attempt_is_the_latest(groups: Seq<GroupView>, call_id: Seq<char>)
    ensures
        match group::open_attempt(groups, call_id) {
            Some(g) => is_latest_waiting(groups, call_id, g),
            None => none_waits(groups, call_id),
        },
    decreases groups.len(),
{
    if groups.len() > 0 {
        let init = groups.drop_last();
        let last = groups.last();
        the_open_attempt_is_the_latest(init, call_id);
        if !(last.call_id == call_id && last.result is None) {
            assert forall|h: int|
                0 <= h < groups.len() && (group::open_attempt(init, call_id) matches Some(g) ==> g
                    < h) implies (#[trigger] groups[h]).call_id != call_id || groups[h].result is Some by {
                if h < init.len() {
                    assert(init[h] == groups[h]);
                }
            }
        }
    }
}

proof fn latest_is_the_open_attempt(groups: Seq<GroupView>, call_id: Seq<char>, g: int)
    requires
        is_latest_waiting(groups, call_id, g),
    ensures
        group::open_attempt(groups, call_id) == Some(g),
{
    the_open_attempt_is_the_latest(groups, call_id);
    if let Some(o) = group::open_attempt(groups, call_id) {
        if o < g {
            assert(groups[g].call_id != call_id || groups[g].result is Some);
        }
        if g < o {
            assert(groups[o].call_id != call_id || groups[o].result is Some);
        }
    } else {
        assert(groups[g].call_id != call_id || groups[g].result is Some);
    }
}

/// Whether a list of groups is another with one group put in the place of `g`.
pub open spec fn only_differs_at(after: Seq<GroupView>, before: Seq<GroupView>, g: int) -> bool {
    &&& after.len() == before.len()
    &&& forall|h: int| 0 <= h < before.len() && h != g ==> #[trigger] after[h] == before[h]
}

/// Whether a list of groups is another with one group added behind it.
pub open spec fn has_one_more(after: Seq<GroupView>, before: Seq<GroupView>) -> bool {
    &&& after.len() == before.len() + 1
    &&& forall|h: int| 0 <= h < before.len() ==> #[trigger] after[h] == before[h]
}

/// A result goes to the latest group for its call that waits for one, and changes
/// nothing else.
pub proof fn a_result_goes_to_the_latest_waiting(events: Seq<EventView>, e: EventView, g: int)
    requires
        e.kind == Kind::ToolResult,
        e.call_id is Some,
        is_latest_waiting(group::groups_of(events), e.call_id->0, g),
    ensures
        ({
            let before = group::groups_of(events);
            let after = group::groups_of(events.push(e));
            &&& only_differs_at(after, before, g)
            &&& after[g].result == Some(events.len() as int)
            &&& after[g].call_id == before[g].call_id
            &&& after[g].attempt == before[g].attempt
            &&& after[g].response == before[g].response
            &&& after[g].call == before[g].call
        }),
{
    assert(events.push(e).drop_last() =~= events);
    latest_is_the_open_attempt(group::groups_of(events), e.call_id->0, g);
}

/// A call joins the latest group for its id that waits for a result, where that has
/// no call yet.
pub proof fn a_call_joins_the_latest_waiting(events: Seq<EventView>, e: EventView, g: int)
    requires
        e.kind == Kind::ToolCall,
        e.call_id is Some,
        is_latest_waiting(group::groups_of(events), e.call_id->0, g),
        group::groups_of(events)[g].call is None,
    ensures
        ({
            let before = group::groups_of(events);
            let after = group::groups_of(events.push(e));
            &&& only_differs_at(after, before, g)
            &&& after[g].call == Some(events.len() as int)
            &&& after[g].call_id == before[g].call_id
            &&& after[g].attempt == before[g].attempt
            &&& after[g].response == before[g].response
            &&& after[g].result is None
        }),
{
    assert(events.push(e).drop_last() =~= events);
    latest_is_the_open_attempt(group::groups_of(events), e.call_id->0, g);
}

/// A response joins the latest group for its call id that waits for a result, where
/// that has no response yet.
pub proof fn a_response_joins_the_latest_waiting(events: Seq<EventView>, e: EventView, g: int)
    requires
        e.kind == Kind::LlmResponse,
        e.call_id is Some,
        is_latest_waiting(group::groups_of(events), e.call_id->0, g),
        group::groups_of(events)[g].response is None,
    ensures
        ({
            let before = group::groups_of(events);
            let after = group::groups_of(events.push(e));
            &&& only_differs_at(after, before, g)
            &&& after[g].response == Some(events.len() as int)
            &&& after[g].call_id == before[g].call_id
            &&& after[g].attempt == before[g].attempt
            &&& after[g].call == before[g].call
            &&& after[g].result is None
        }),
{
    assert(events.push(e).drop_last() =~= events);
    latest_is_the_open_attempt(group::groups_of(events), e.call_id->0, g);
}

/// A response, call or result that no waiting group can take starts a group of its
/// own behind the others, and holds only its own place there.
pub proof fn what_cannot_join_starts_a_group(events: Seq<EventView>, e: EventView)
    requires
        e.call_id is Some,
        e.kind == Kind::LlmResponse || e.kind == Kind::ToolCall || e.kind == Kind::ToolResult,
        none_waits(group::groups_of(events), e.call_id->0) || exists|g: int|
            is_latest_waiting(group::groups_of(events), e.call_id->0, g) && match e.kind {
                Kind::LlmResponse => group::groups_of(events)[g].response is Some,
                Kind::ToolCall => group::groups_of(events)[g].call is Some,
                _ => false,
            },
    ensures
        ({
            let before = group::groups_of(events);
            let after = group::groups_of(events.push(e));
            let n = events.len() as int;
            &&& has_one_more(after, before)
            &&& after.last().call_id == e.call_id->0
            &&& after.last().response == if e.kind == Kind::LlmResponse { Some(n) } else { None }
            &&& after.last().call == if e.kind == Kind::ToolCall { Some(n) } else { None }
            &&& after.last().result == if e.kind == Kind::ToolResult { Some(n) } else { None }
        }),
{
    let before = group::groups_of(events);
    let call_id = e.call_id->0;
    assert(events.push(e).drop_last() =~= events);
    if none_waits(before, call_id) {
        the_open_attempt_is_the_latest(before, call_id);
        if let Some(o) = group::open_attempt(before, call_id) {
            assert(before[o].call_id != call_id || before[o].result is Some);
        }
    } else {
        let g = choose|g: int|
            is_latest_waiting(before, call_id, g) && match e.kind {
                Kind::LlmResponse => before[g].response is Some,
                Kind::ToolCall => before[g].call is Some,
                _ => false,
            };
        latest_is_the_open_attempt(before, call_id, g);
    }
}

/// Requests, usage and events without a call id leave the groups as they are.
pub proof fn other_events_leave_the_groups(events: Seq<EventView>, e: EventView)
    requires
        e.call_id is None || e.kind == Kind::LlmRequest || e.kind == Kind::Usage,
    ensures
        group::groups_of(events.push(e)) == group::groups_of(events),
{
    assert(events.push(e).drop_last() =~= events);
}

proof fn attempts_between(groups: Seq<GroupView>, call_id: Seq<char>, g: int, h: int)
    requires
        0 <= g <= h <= groups.len(),
        forall|k: int| g <= k < h ==> (#[trigger] groups[k]).call_id != call_id,
    ensures
        group::attempts_at(groups.take(h), call_id) == group::attempts_at(groups.take(g), call_id),
    decreases h - g,
{
    if g < h {
        attempts_between(groups, call_id, g, h - 1);
        assert(groups.take(h).drop_last() =~= groups.take(h - 1));
        assert(groups.take(h).last() == groups[h - 1]);
    }
}

/// The first attempt at a call has the number one.
pub proof fn the_first_attempt_is_number_one(events: Seq<EventView>, h: int)
    requires
        0 <= h < group::groups_of(events).len(),
        forall|k: int|
            0 <= k < h ==> (#[trigger] group::groups_of(events)[k]).call_id != group::groups_of(
                events,
            )[h].call_id,
    ensures
        group::groups_of(events)[h].attempt == 1,
{
    let groups = group::groups_of(events);
    attempts_are_numbered(events);
    attempts_between(groups, groups[h].call_id, 0, h);
    assert(groups.take(0).len() == 0);
}

/// Each further attempt at a call has the number after that of the attempt before
/// it.
pub proof fn the_next_attempt_has_the_next_number(events: Seq<EventView>, g: int, h: int)
    requires
        0 <= g < h < group::groups_of(events).len(),
        group::groups_of(events)[g].call_id == group::groups_of(events)[h].call_id,
        forall|k: int|
            g < k < h ==> (#[trigger] group::groups_of(events)[k]).call_id != group::groups_of(
                events,
            )[h].call_id,
    ensures
        group::groups_of(events)[h].attempt == group::groups_of(events)[g].attempt + 1,
{
    let groups = group::groups_of(events);
    let call_id = groups[h].call_id;
    attempts_are_numbered(events);
    attempts_between(groups, call_id, g + 1, h);
    assert(groups.take(g + 1).drop_last() =~= groups.take(g));
    assert(groups.take(g + 1).last() == groups[g]);
}

/// An empty timeline has no groups.
pub proof fn no_events_no_groups()
    ensures
        group::groups_of(Seq::empty()).len() == 0,
{
}

} // verus!
