//! What holds of the rows of every timeline.
use vstd::prelude::*;

use crate::event::EventView;
use crate::group;
use crate::group::GroupView;
use crate::group_laws;
use crate::rows;
use crate::rows::RowView;

verus! {

/// The position of the first event that a group holds.
pub open spec fn first_event(g: GroupView) -> int {
    choose|i: int| rows::is_first_of(g, i)
}

/// Whether the event at position `i` is shown: no collapsed group holds it.
pub open spec fn is_shown(groups: Seq<GroupView>, collapsed: Set<int>, i: int) -> bool {
    rows::group_holding(groups, i) matches Some(g) ==> !collapsed.contains(g)
}

/// The position in the timeline at which a row stands: that of its event, or of
/// the first event under its heading.
pub open spec fn stands_at(groups: Seq<GroupView>, row: RowView) -> int {
    match row {
        RowView::Event(i) => i,
        RowView::Group { group, .. } => first_event(groups[group]),
    }
}

/// Whether a row stands above another: earlier in the timeline, or as the
/// heading of the other.
pub open spec fn stands_above(groups: Seq<GroupView>, a: RowView, b: RowView) -> bool {
    ||| stands_at(groups, a) < stands_at(groups, b)
    ||| stands_at(groups, a) == stands_at(groups, b) && a is Group && b is Event
}

/// Whether a row is one that the first `n` events call for.
spec fn is_called_for(groups: Seq<GroupView>, collapsed: Set<int>, n: int, row: RowView) -> bool {
    match row {
        RowView::Event(i) => 0 <= i < n && is_shown(groups, collapsed, i),
        RowView::Group { group, collapsed: c } => 0 <= group < groups.len() && c
            == collapsed.contains(group) && 0 <= first_event(groups[group]) < n
            && rows::is_first_of(groups[group], first_event(groups[group])),
    }
}

spec fn is_laid_out(groups: Seq<GroupView>, collapsed: Set<int>, n: int, all: Seq<RowView>) -> bool {
    &&& forall|k: int| 0 <= k < all.len() ==> is_called_for(groups, collapsed, n, #[trigger] all[k])
    &&& forall|row: RowView|
        #[trigger] is_called_for(groups, collapsed, n, row) ==> all.contains(row)
    &&& forall|j: int, k: int|
        0 <= j < k < all.len() ==> stands_above(groups, #[trigger] all[j], #[trigger] all[k])
}

proof fn first_event_is(g: GroupView, i: int)
    requires
        rows::is_first_of(g, i),
    ensures
        first_event(g) == i,
{
    assert(rows::is_first_of(g, first_event(g)));
}

/// A group that holds an event has a first one.
pub proof fn first_event_exists(g: GroupView)
    requires
        group_laws::is_started(g),
    ensures
        rows::is_first_of(g, first_event(g)),
{
    let a = match g.response {
        Some(i) => i,
        None => match g.call {
            Some(i) => i,
            None => g.result->0,
        },
    };
    let b = match g.call {
        Some(i) => if i < a {
            i
        } else {
            a
        },
        None => a,
    };
    let c = match g.result {
        Some(i) => if i < b {
            i
        } else {
            b
        },
        None => b,
    };
    assert(rows::is_first_of(g, c));
}

proof fn pushed_row(
    groups: Seq<GroupView>,
    collapsed: Set<int>,
    n: int,
    all: Seq<RowView>,
    m: int,
    row: RowView,
)
    requires
        forall|k: int|
            0 <= k < all.len() ==> is_called_for(groups, collapsed, n, #[trigger] all[k])
                && stands_above(groups, all[k], row),
        n <= m,
        is_called_for(groups, collapsed, m, row),
        forall|j: int, k: int|
            0 <= j < k < all.len() ==> stands_above(groups, #[trigger] all[j], #[trigger] all[k]),
    ensures
        forall|k: int|
            0 <= k < all.push(row).len() ==> is_called_for(
                groups,
                collapsed,
                m,
                #[trigger] all.push(row)[k],
            ),
        forall|j: int, k: int|
            0 <= j < k < all.push(row).len() ==> stands_above(
                groups,
                #[trigger] all.push(row)[j],
                #[trigger] all.push(row)[k],
            ),
        forall|r: RowView| #[trigger] all.push(row).contains(r) <==> all.contains(r) || r == row,
{
    let more = all.push(row);
    assert forall|k: int| 0 <= k < more.len() implies is_called_for(
        groups,
        collapsed,
        m,
        #[trigger] more[k],
    ) by {
        if k < all.len() {
            assert(is_called_for(groups, collapsed, n, all[k]));
        }
    }
    assert forall|j: int, k: int| 0 <= j < k < more.len() implies stands_above(
        groups,
        #[trigger] more[j],
        #[trigger] more[k],
    ) by {
        assert(more[j] == all[j]);
        if k < all.len() {
            assert(more[k] == all[k]);
        }
    }
    assert forall|r: RowView| #[trigger] more.contains(r) <==> all.contains(r) || r == row by {
        if all.contains(r) {
            let k = choose|k: int| 0 <= k < all.len() && all[k] == r;
            assert(more[k] == r);
        }
        if r == row {
            assert(more[all.len() as int] == r);
        }
        if more.contains(r) {
            let k = choose|k: int| 0 <= k < more.len() && more[k] == r;
            if k < all.len() {
                assert(all[k] == r);
            }
        }
    }
}

proof fn rows_are_laid_out(groups: Seq<GroupView>, collapsed: Set<int>, n: int)
    requires
        group_laws::held_once(groups),
        n >= 0,
    ensures
        is_laid_out(groups, collapsed, n, rows::rows_of(groups, collapsed, n)),
    decreases n,
{
    if n == 0 {
        assert(rows::rows_of(groups, collapsed, 0).len() == 0);
    } else {
        let i = n - 1;
        rows_are_laid_out(groups, collapsed, i);
        let above = rows::rows_of(groups, collapsed, i);
        let all = rows::rows_of(groups, collapsed, n);
        let event = RowView::Event(i);
        match rows::group_holding(groups, i) {
            None => {
                pushed_row(groups, collapsed, i, above, n, event);
                assert forall|row: RowView| #[trigger]
                    is_called_for(groups, collapsed, n, row) implies all.contains(row) by {
                    if !is_called_for(groups, collapsed, i, row) {
                        match row {
                            RowView::Event(_) => {},
                            RowView::Group { group, .. } => {
                                assert(group_laws::holds(groups[group], i));
                            },
                        }
                    } else {
                        assert(above.contains(row));
                    }
                }
            },
            Some(g) => {
                assert(0 <= g < groups.len() && group_laws::holds(groups[g], i));
                let heading = RowView::Group { group: g, collapsed: collapsed.contains(g) };
                let first = rows::is_first_of(groups[g], i);
                if first {
                    first_event_is(groups[g], i);
                    pushed_row(groups, collapsed, i, above, n, heading);
                }
                let headed = if first {
                    above.push(heading)
                } else {
                    above
                };
                assert forall|k: int| 0 <= k < headed.len() implies is_called_for(
                    groups,
                    collapsed,
                    n,
                    #[trigger] headed[k],
                ) && stands_above(groups, headed[k], event) by {
                    if k < above.len() {
                        assert(headed[k] == above[k]);
                        assert(is_called_for(groups, collapsed, i, above[k]));
                    } else {
                        assert(headed[k] == heading);
                    }
                }
                if !collapsed.contains(g) {
                    pushed_row(groups, collapsed, n, headed, n, event);
                }
                assert forall|row: RowView| #[trigger]
                    is_called_for(groups, collapsed, n, row) implies all.contains(row) by {
                    if is_called_for(groups, collapsed, i, row) {
                        assert(above.contains(row));
                        assert(headed.contains(row));
                    } else {
                        match row {
                            RowView::Event(_) => {},
                            RowView::Group { group, .. } => {
                                assert(group_laws::holds(groups[group], i));
                                rows::group_holding_is(groups, group, i);
                                assert(first);
                                assert(headed.contains(heading));
                            },
                        }
                    }
                }
            },
        }
    }
}

/// Rows stand in the order of the timeline, each heading above the events that
/// it is for. So no row occurs twice.
pub proof fn rows_are_in_order(events: Seq<EventView>, collapsed: Set<int>, j: int, k: int)
    requires
        0 <= j < k < rows::rows_of(
            group::groups_of(events),
            collapsed,
            events.len() as int,
        ).len(),
    ensures
        ({
            let groups = group::groups_of(events);
            let all = rows::rows_of(groups, collapsed, events.len() as int);
            stands_above(groups, all[j], all[k]) && all[j] != all[k]
        }),
{
    group_laws::groups_are_disjoint(events);
    rows_are_laid_out(group::groups_of(events), collapsed, events.len() as int);
}

/// An event has a row exactly if no collapsed group holds it.
pub proof fn shown_events_have_a_row(events: Seq<EventView>, collapsed: Set<int>, i: int)
    requires
        0 <= i < events.len(),
    ensures
        rows::rows_of(group::groups_of(events), collapsed, events.len() as int).contains(
            RowView::Event(i),
        ) <==> is_shown(group::groups_of(events), collapsed, i),
{
    let groups = group::groups_of(events);
    let n = events.len() as int;
    let all = rows::rows_of(groups, collapsed, n);
    group_laws::groups_are_disjoint(events);
    rows_are_laid_out(groups, collapsed, n);
    let row = RowView::Event(i);
    assert(is_called_for(groups, collapsed, n, row) <==> is_shown(groups, collapsed, i));
    if all.contains(row) {
        let k = choose|k: int| 0 <= k < all.len() && all[k] == row;
        assert(is_called_for(groups, collapsed, n, all[k]));
    }
}

/// Every group has a heading, and the heading tells whether the group is
/// collapsed.
pub proof fn groups_have_a_heading(events: Seq<EventView>, collapsed: Set<int>, g: int, c: bool)
    requires
        0 <= g < group::groups_of(events).len(),
    ensures
        rows::rows_of(group::groups_of(events), collapsed, events.len() as int).contains(
            RowView::Group { group: g, collapsed: c },
        ) <==> c == collapsed.contains(g),
{
    let groups = group::groups_of(events);
    let n = events.len() as int;
    let all = rows::rows_of(groups, collapsed, n);
    group_laws::groups_are_disjoint(events);
    group_laws::groups_are_nonempty(events, g);
    group_laws::groups_hold_their_own_events(events, g);
    first_event_exists(groups[g]);
    rows_are_laid_out(groups, collapsed, n);
    let row = RowView::Group { group: g, collapsed: c };
    if c == collapsed.contains(g) {
        assert(is_called_for(groups, collapsed, n, row));
    }
    if all.contains(row) {
        let k = choose|k: int| 0 <= k < all.len() && all[k] == row;
        assert(is_called_for(groups, collapsed, n, all[k]));
    }
}

/// Rows refer only to events and groups that there are.
pub proof fn rows_refer_to_what_there_is(events: Seq<EventView>, collapsed: Set<int>, k: int)
    requires
        0 <= k < rows::rows_of(
            group::groups_of(events),
            collapsed,
            events.len() as int,
        ).len(),
    ensures
        match rows::rows_of(group::groups_of(events), collapsed, events.len() as int)[k] {
            RowView::Event(i) => 0 <= i < events.len(),
            RowView::Group { group, collapsed: c } => 0 <= group < group::groups_of(events).len()
                && c == collapsed.contains(group),
        },
{
    let groups = group::groups_of(events);
    let n = events.len() as int;
    group_laws::groups_are_disjoint(events);
    rows_are_laid_out(groups, collapsed, n);
    assert(is_called_for(groups, collapsed, n, rows::rows_of(groups, collapsed, n)[k]));
}

/// Whether a group has an event as its response, its call or its result.
pub open spec fn has_event(g: GroupView, i: int) -> bool {
    g.response == Some(i) || g.call == Some(i) || g.result == Some(i)
}

/// The rows of a timeline.
pub open spec fn all_rows(events: Seq<EventView>, collapsed: Set<int>) -> Seq<RowView> {
    rows::rows_of(group::groups_of(events), collapsed, events.len() as int)
}

/// An event has a row just where no collapsed group has it.
pub proof fn only_collapsed_groups_hide_events(events: Seq<EventView>, collapsed: Set<int>, i: int)
    requires
        0 <= i < events.len(),
    ensures
        all_rows(events, collapsed).contains(RowView::Event(i)) <==> forall|g: int|
            0 <= g < group::groups_of(events).len() && #[trigger] has_event(
                group::groups_of(events)[g],
                i,
            ) ==> !collapsed.contains(g),
{
    let groups = group::groups_of(events);
    shown_events_have_a_row(events, collapsed, i);
    group_laws::groups_are_disjoint(events);
    match rows::group_holding(groups, i) {
        Some(h) => {
            assert(group_laws::holds(groups[h], i));
            assert(has_event(groups[h], i));
            assert forall|g: int|
                0 <= g < groups.len() && #[trigger] has_event(groups[g], i) implies g == h by {
                assert(group_laws::holds(groups[g], i));
            }
        },
        None => {
            assert forall|g: int| 0 <= g < groups.len() implies !#[trigger] has_event(groups[g], i) by {
                assert(!group_laws::holds(groups[g], i));
            }
        },
    }
}

/// Rows of events stand in the order of the events.
pub proof fn events_stand_in_order(
    events: Seq<EventView>,
    collapsed: Set<int>,
    j: int,
    k: int,
    a: int,
    b: int,
)
    requires
        0 <= j < all_rows(events, collapsed).len(),
        0 <= k < all_rows(events, collapsed).len(),
        all_rows(events, collapsed)[j] == RowView::Event(a),
        all_rows(events, collapsed)[k] == RowView::Event(b),
        a < b,
    ensures
        j < k,
{
    if k < j {
        rows_are_in_order(events, collapsed, k, j);
    }
}

/// A heading stands above the row of each event that does not come before all events
/// of its group, and below the rows of those that do.
pub proof fn a_heading_stands_over_its_group(
    events: Seq<EventView>,
    collapsed: Set<int>,
    k: int,
    m: int,
    g: int,
    c: bool,
    i: int,
)
    requires
        0 <= k < all_rows(events, collapsed).len(),
        0 <= m < all_rows(events, collapsed).len(),
        all_rows(events, collapsed)[k] == (RowView::Group { group: g, collapsed: c }),
        all_rows(events, collapsed)[m] == RowView::Event(i),
    ensures
        (exists|h: int| #[trigger] has_event(group::groups_of(events)[g], h) && h <= i) ==> k < m,
        (forall|h: int| #[trigger] has_event(group::groups_of(events)[g], h) ==> i < h) ==> m < k,
{
    let groups = group::groups_of(events);
    rows_refer_to_what_there_is(events, collapsed, k);
    group_laws::groups_are_nonempty(events, g);
    first_event_exists(groups[g]);
    let p = first_event(groups[g]);
    assert(group_laws::holds(groups[g], p));
    assert(has_event(groups[g], p));
    if exists|h: int| #[trigger] has_event(groups[g], h) && h <= i {
        let h = choose|h: int| #[trigger] has_event(groups[g], h) && h <= i;
        assert(group_laws::holds(groups[g], h));
        assert(p <= i);
    }
    if m < k {
        rows_are_in_order(events, collapsed, m, k);
    } else if k < m {
        rows_are_in_order(events, collapsed, k, m);
    }
}

/// Of two headings the one whose group begins earlier stands above the other.
pub proof fn headings_stand_in_order(
    events: Seq<EventView>,
    collapsed: Set<int>,
    k: int,
    m: int,
    g: int,
    h: int,
    i: int,
)
    requires
        0 <= k < all_rows(events, collapsed).len(),
        0 <= m < all_rows(events, collapsed).len(),
        all_rows(events, collapsed)[k] matches RowView::Group { group, .. } && group == g,
        all_rows(events, collapsed)[m] matches RowView::Group { group, .. } && group == h,
        has_event(group::groups_of(events)[g], i),
        forall|x: int| #[trigger] has_event(group::groups_of(events)[h], x) ==> i < x,
    ensures
        k < m,
{
    let groups = group::groups_of(events);
    rows_refer_to_what_there_is(events, collapsed, k);
    rows_refer_to_what_there_is(events, collapsed, m);
    group_laws::groups_are_nonempty(events, g);
    group_laws::groups_are_nonempty(events, h);
    first_event_exists(groups[g]);
    first_event_exists(groups[h]);
    assert(group_laws::holds(groups[g], i));
    assert(has_event(groups[h], first_event(groups[h])));
    if m < k {
        rows_are_in_order(events, collapsed, m, k);
    }
}

/// No row stands twice.
pub proof fn rows_stand_once(events: Seq<EventView>, collapsed: Set<int>)
    ensures
        all_rows(events, collapsed).no_duplicates(),
{
    let all = all_rows(events, collapsed);
    assert forall|j: int, k: int| 0 <= j < all.len() && 0 <= k < all.len() && j != k implies all[j]
        != all[k] by {
        if j < k {
            rows_are_in_order(events, collapsed, j, k);
        } else {
            rows_are_in_order(events, collapsed, k, j);
        }
    }
}

} // verus!
