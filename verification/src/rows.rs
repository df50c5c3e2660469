//! The rows of the timeline pane: events, and a heading for each tool call.
use std::collections::HashSet;
use vstd::prelude::*;

use crate::group;
use crate::group::GroupView;
use crate::group::ToolGroup;
use crate::group_laws;

verus! {

/// A row of the timeline: an event, or the heading of a tool call.
#[derive(Debug, Clone, Copy, PartialEq, Eq, Structural)]
pub enum Row {
    Event(usize),
    Group { group: usize, collapsed: bool },
}

/// What a [`Row`] denotes.
pub enum RowView {
    Event(int),
    Group { group: int, collapsed: bool },
}

impl View for Row {
    type V = RowView;

    open spec fn view(&self) -> RowView {
        match self {
            Row::Event(i) => RowView::Event(*i as int),
            Row::Group { group, collapsed } => RowView::Group {
                group: *group as int,
                collapsed: *collapsed,
            },
        }
    }
}

/// What a list of rows denotes.
pub open spec fn row_views(rows: Seq<Row>) -> Seq<RowView> {
    rows.map_values(|r: Row| r@)
}

/// The groups that a set of indices names.
pub open spec fn index_set(indices: Set<usize>) -> Set<int> {
    Set::new(|g: int| 0 <= g <= usize::MAX && indices.contains(g as usize))
}

/// The group that holds the event at position `i`.
pub open spec fn group_holding(groups: Seq<GroupView>, i: int) -> Option<int> {
    if group_laws::is_grouped(groups, i) {
        Some(choose|g: int| 0 <= g < groups.len() && #[trigger] group_laws::holds(groups[g], i))
    } else {
        None
    }
}

/// Whether the event at position `i` is the first that a group holds.
pub open spec fn is_first_of(g: GroupView, i: int) -> bool {
    group_laws::holds(g, i) && forall|j: int| #[trigger] group_laws::holds(g, j) ==> i <= j
}

/// The rows for the first `n` events. A group's heading stands before its first
/// event; the events of a collapsed group have no row.
pub open spec fn rows_of(groups: Seq<GroupView>, collapsed: Set<int>, n: int) -> Seq<RowView>
    decreases n,
{
    if n <= 0 {
        Seq::empty()
    } else {
        let above = rows_of(groups, collapsed, n - 1);
        match group_holding(groups, n - 1) {
            None => above.push(RowView::Event(n - 1)),
            Some(g) => {
                let headed = if is_first_of(groups[g], n - 1) {
                    above.push(RowView::Group { group: g, collapsed: collapsed.contains(g) })
                } else {
                    above
                };
                if collapsed.contains(g) {
                    headed
                } else {
                    headed.push(RowView::Event(n - 1))
                }
            },
        }
    }
}

/// Whether every group holds only events among the first `n`.
pub open spec fn groups_within(groups: Seq<GroupView>, n: int) -> bool {
    forall|g: int, i: int|
        0 <= g < groups.len() && #[trigger] group_laws::holds(groups[g], i) ==> 0 <= i < n
}

/// Groups of a timeline hold only its events.
pub proof fn groups_of_within(events: Seq<crate::event::EventView>)
    ensures
        groups_within(group::groups_of(events), events.len() as int),
{
    let groups = group::groups_of(events);
    assert forall|g: int, i: int|
        0 <= g < groups.len() && #[trigger] group_laws::holds(groups[g], i) implies 0 <= i
        < events.len() by {
        group_laws::groups_hold_their_own_events(events, g);
    }
}

/// Where two groups never share an event, the group that holds one is found by
/// any that does.
pub proof fn group_holding_is(groups: Seq<GroupView>, g: int, i: int)
    requires
        group_laws::held_once(groups),
        0 <= g < groups.len(),
        group_laws::holds(groups[g], i),
    ensures
        group_holding(groups, i) == Some(g),
{
}

/// Notes the group of one event.
fn note(in_group: &mut Vec<Option<usize>>, slot: Option<usize>, g: usize)
    requires
        slot matches Some(i) ==> i < old(in_group)@.len(),
    ensures
        final(in_group)@ == match slot {
            Some(i) => old(in_group)@.update(i as int, Some(g)),
            None => old(in_group)@,
        },
{
    if let Some(i) = slot {
        in_group.set(i, Some(g));
    }
}

/// What is noted of the group of each event, once the first `done` groups have
/// been gone through.
spec fn noted(in_group: Seq<Option<usize>>, groups: Seq<GroupView>, done: int) -> bool {
    &&& forall|i: int|
        0 <= i < in_group.len() ==> (#[trigger] in_group[i] matches Some(g) ==> g < done
            && group_laws::holds(groups[g as int], i))
    &&& forall|g: int, i: int|
        0 <= g < done && 0 <= i < in_group.len() && #[trigger] group_laws::holds(groups[g], i)
            ==> in_group[i] == Some(g as usize)
}

/// Finds the group of each event.
fn find_groups(groups: &Vec<ToolGroup>, n: usize) -> (in_group: Vec<Option<usize>>)
    requires
        groups_within(group::group_views(groups@), n as int),
        group_laws::held_once(group::group_views(groups@)),
    ensures
        in_group@.len() == n,
        forall|i: int|
            0 <= i < n ==> group::position(#[trigger] in_group@[i]) == group_holding(
                group::group_views(groups@),
                i,
            ),
        forall|i: int|
            0 <= i < n ==> (#[trigger] in_group@[i] matches Some(g) ==> g < groups@.len()),
{
    let ghost views = group::group_views(groups@);
    let mut in_group: Vec<Option<usize>> = vec![None; n];
    let mut g: usize = 0;
    while g < groups.len()
        invariant
            g <= groups@.len(),
            views == group::group_views(groups@),
            groups_within(views, n as int),
            group_laws::held_once(views),
            in_group@.len() == n,
            noted(in_group@, views, g as int),
        decreases groups@.len() - g,
    {
        let ghost before = in_group@;
        let entry = &groups[g];
        proof {
            assert(views[g as int] == entry@);
            assert(entry.response matches Some(i) ==> group_laws::holds(views[g as int], i as int));
            assert(entry.call matches Some(i) ==> group_laws::holds(views[g as int], i as int));
            assert(entry.result matches Some(i) ==> group_laws::holds(views[g as int], i as int));
        }
        note(&mut in_group, entry.response, g);
        note(&mut in_group, entry.call, g);
        note(&mut in_group, entry.result, g);
        proof {
            assert forall|i: int| 0 <= i < in_group@.len() implies (#[trigger] in_group@[i] matches Some(
                h,
            ) ==> h < g + 1 && group_laws::holds(views[h as int], i)) by {
                assert(in_group@[i] == before[i] || in_group@[i] == Some(g));
            }
            assert forall|h: int, i: int|
                0 <= h < g + 1 && 0 <= i < in_group@.len() && #[trigger] group_laws::holds(
                    views[h],
                    i,
                ) implies in_group@[i] == Some(h as usize) by {
                if h < g {
                    assert(before[i] == Some(h as usize));
                    assert(!group_laws::holds(views[g as int], i));
                }
            }
        }
        g = g + 1;
    }
    proof {
        assert forall|i: int| 0 <= i < n implies group::position(#[trigger] in_group@[i])
            == group_holding(views, i) by {
            if let Some(h) = in_group@[i] {
                group_holding_is(views, h as int, i);
            }
        }
    }
    in_group
}

/// Lays out the rows of a timeline of `n` events.
pub fn build_rows(groups: &Vec<ToolGroup>, n: usize, collapsed: &HashSet<usize>) -> (rows: Vec<Row>)
    requires
        groups_within(group::group_views(groups@), n as int),
        group_laws::held_once(group::group_views(groups@)),
    ensures
        row_views(rows@) == rows_of(
            group::group_views(groups@),
            index_set(collapsed@),
            n as int,
        ),
{
    broadcast use vstd::std_specs::hash::group_hash_axioms;

    let ghost views = group::group_views(groups@);
    let ghost hidden = index_set(collapsed@);
    let in_group = find_groups(groups, n);
    let mut rows: Vec<Row> = Vec::new();
    let mut headed: Vec<bool> = vec![false; groups.len()];
    proof {
        assert(row_views(rows@) =~= rows_of(views, hidden, 0));
    }
    let mut i: usize = 0;
    while i < n
        invariant
            i <= n,
            views == group::group_views(groups@),
            hidden == index_set(collapsed@),
            groups_within(views, n as int),
            group_laws::held_once(views),
            in_group@.len() == n,
            forall|j: int|
                0 <= j < n ==> group::position(#[trigger] in_group@[j]) == group_holding(views, j),
            forall|j: int|
                0 <= j < n ==> (#[trigger] in_group@[j] matches Some(g) ==> g < groups@.len()),
            headed@.len() == groups@.len(),
            forall|g: int|
                0 <= g < groups@.len() ==> (#[trigger] headed@[g] <==> exists|j: int|
                    0 <= j < i && group_laws::holds(views[g], j)),
            row_views(rows@) == rows_of(views, hidden, i as int),
        decreases n - i,
    {
        let ghost above = rows@;
        let ghost was = headed@;
        match in_group[i] {
            None => {
                rows.push(Row::Event(i));
                proof {
                    assert(row_views(rows@) =~= row_views(above).push(RowView::Event(i as int)));
                }
            },
            Some(g) => {
                let is_hidden = collapsed.contains(&g);
                proof {
                    assert(group_holding(views, i as int) == Some(g as int));
                    assert(group_laws::holds(views[g as int], i as int));
                    assert(is_hidden == hidden.contains(g as int));
                    assert(!was[g as int] == is_first_of(views[g as int], i as int)) by {
                        if !was[g as int] {
                            assert forall|j: int| #[trigger] group_laws::holds(
                                views[g as int],
                                j,
                            ) implies i <= j by {}
                        }
                    }
                }
                if !headed[g] {
                    headed.set(g, true);
                    rows.push(Row::Group { group: g, collapsed: is_hidden });
                    proof {
                        assert(row_views(rows@) =~= row_views(above).push(
                            RowView::Group { group: g as int, collapsed: is_hidden },
                        ));
                    }
                }
                let ghost with_heading = rows@;
                if !is_hidden {
                    rows.push(Row::Event(i));
                    proof {
                        assert(row_views(rows@) =~= row_views(with_heading).push(
                            RowView::Event(i as int),
                        ));
                    }
                }
            },
        }
        proof {
            assert forall|g: int| 0 <= g < groups@.len() implies (#[trigger] headed@[g] <==> exists|
                j: int,
            |
                0 <= j < i + 1 && group_laws::holds(views[g], j)) by {
                assert(was[g] <==> exists|j: int| 0 <= j < i && group_laws::holds(views[g], j));
                if group_laws::holds(views[g], i as int) {
                    group_holding_is(views, g, i as int);
                }
            }
        }
        i = i + 1;
    }
    rows
}

} // verus!
