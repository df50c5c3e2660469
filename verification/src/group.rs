//! Tool calls: the response that asks for a tool, the call and its result, tied
//! together by their call id.
use vstd::hash_map::StringHashMap;
use vstd::prelude::*;

use crate::event;
use crate::event::AuditEvent;
use crate::event::EventView;
use crate::event::Kind;
use crate::text::text_eq;

verus! {

/// One attempt at a tool call, with the positions of its events in the timeline.
#[derive(Debug, PartialEq, Eq)]
pub struct ToolGroup {
    pub call_id: String,
    pub attempt: usize,
    pub response: Option<usize>,
    pub call: Option<usize>,
    pub result: Option<usize>,
}

/// What a [`ToolGroup`] denotes.
pub struct GroupView {
    pub call_id: Seq<char>,
    pub attempt: int,
    pub response: Option<int>,
    pub call: Option<int>,
    pub result: Option<int>,
}

/// The position that an optional index denotes.
pub open spec fn position(index: Option<usize>) -> Option<int> {
    match index {
        Some(i) => Some(i as int),
        None => None,
    }
}

impl View for ToolGroup {
    type V = GroupView;

    open spec fn view(&self) -> GroupView {
        GroupView {
            call_id: self.call_id@,
            attempt: self.attempt as int,
            response: position(self.response),
            call: position(self.call),
            result: position(self.result),
        }
    }
}

impl Clone for ToolGroup {
    fn clone(&self) -> (copy: Self)
        ensures
            copy@ == self@,
    {
        ToolGroup {
            call_id: self.call_id.clone(),
            attempt: self.attempt,
            response: self.response,
            call: self.call,
            result: self.result,
        }
    }
}

/// What a list of groups denotes.
pub open spec fn group_views(groups: Seq<ToolGroup>) -> Seq<GroupView> {
    groups.map_values(|g: ToolGroup| g@)
}

/// The latest attempt at a call that has no result yet.
pub open spec fn open_attempt(groups: Seq<GroupView>, call_id: Seq<char>) -> Option<int>
    decreases groups.len(),
{
    if groups.len() == 0 {
        None
    } else if groups.last().call_id == call_id && groups.last().result is None {
        Some(groups.len() - 1)
    } else {
        open_attempt(groups.drop_last(), call_id)
    }
}

/// How many attempts at a call there are.
pub open spec fn attempts_at(groups: Seq<GroupView>, call_id: Seq<char>) -> int
    decreases groups.len(),
{
    if groups.len() == 0 {
        0
    } else {
        attempts_at(groups.drop_last(), call_id) + if groups.last().call_id == call_id {
            1int
        } else {
            0int
        }
    }
}

/// A further attempt at a call, with one of its events.
pub open spec fn new_attempt(
    groups: Seq<GroupView>,
    call_id: Seq<char>,
    response: Option<int>,
    call: Option<int>,
    result: Option<int>,
) -> Seq<GroupView> {
    groups.push(
        GroupView { call_id, attempt: attempts_at(groups, call_id) + 1, response, call, result },
    )
}

/// The groups once the event at position `i` is taken in. The event joins the
/// open attempt at its call if its place there is free; otherwise it starts a
/// further attempt.
pub open spec fn with_event(groups: Seq<GroupView>, e: EventView, i: int) -> Seq<GroupView> {
    match e.call_id {
        None => groups,
        Some(call_id) => {
            let open = open_attempt(groups, call_id);
            match e.kind {
                Kind::LlmResponse => if open is Some && groups[open->0].response is None {
                    groups.update(
                        open->0,
                        GroupView { response: Some(i), ..groups[open->0] },
                    )
                } else {
                    new_attempt(groups, call_id, Some(i), None, None)
                },
                Kind::ToolCall => if open is Some && groups[open->0].call is None {
                    groups.update(open->0, GroupView { call: Some(i), ..groups[open->0] })
                } else {
                    new_attempt(groups, call_id, None, Some(i), None)
                },
                Kind::ToolResult => if open is Some {
                    groups.update(open->0, GroupView { result: Some(i), ..groups[open->0] })
                } else {
                    new_attempt(groups, call_id, None, None, Some(i))
                },
                _ => groups,
            }
        },
    }
}

/// The tool calls of a timeline.
pub open spec fn groups_of(events: Seq<EventView>) -> Seq<GroupView>
    decreases events.len(),
{
    if events.len() == 0 {
        Seq::empty()
    } else {
        with_event(groups_of(events.drop_last()), events.last(), events.len() - 1)
    }
}

/// An open attempt is one at that call, without a result.
pub proof fn open_attempt_is_open(groups: Seq<GroupView>, call_id: Seq<char>)
    ensures
        open_attempt(groups, call_id) matches Some(g) ==> 0 <= g < groups.len()
            && groups[g].call_id == call_id && groups[g].result is None,
    decreases groups.len(),
{
    if groups.len() > 0 {
        open_attempt_is_open(groups.drop_last(), call_id);
    }
}

/// There are at most as many attempts at a call as groups.
pub proof fn attempts_bounded(groups: Seq<GroupView>, call_id: Seq<char>)
    ensures
        0 <= attempts_at(groups, call_id) <= groups.len(),
    decreases groups.len(),
{
    if groups.len() > 0 {
        attempts_bounded(groups.drop_last(), call_id);
    }
}

/// Filling a place of a group leaves the number of attempts as it is.
pub proof fn attempts_unchanged(groups: Seq<GroupView>, g: int, filled: GroupView, call_id: Seq<char>)
    requires
        0 <= g < groups.len(),
        filled.call_id == groups[g].call_id,
    ensures
        attempts_at(groups.update(g, filled), call_id) == attempts_at(groups, call_id),
    decreases groups.len(),
{
    if g == groups.len() - 1 {
        assert(groups.update(g, filled).drop_last() =~= groups.drop_last());
    } else {
        attempts_unchanged(groups.drop_last(), g, filled, call_id);
        assert(groups.update(g, filled).drop_last() =~= groups.drop_last().update(g, filled));
    }
}

/// Finds the open attempt at a call.
fn find_open(groups: &Vec<ToolGroup>, call_id: &str) -> (open: Option<usize>)
    ensures
        position(open) == open_attempt(group_views(groups@), call_id@),
        open matches Some(g) ==> g < groups@.len(),
{
    let ghost views = group_views(groups@);
    let mut n: usize = groups.len();
    proof {
        assert(views.take(n as int) =~= views);
    }
    while n > 0
        invariant
            n <= groups@.len(),
            views == group_views(groups@),
            open_attempt(views, call_id@) == open_attempt(views.take(n as int), call_id@),
        decreases n,
    {
        let g = &groups[n - 1];
        proof {
            assert(views.take(n as int).drop_last() =~= views.take(n - 1));
            assert(views.take(n as int).last() == g@);
        }
        if g.result.is_none() && text_eq(g.call_id.as_str(), call_id) {
            return Some(n - 1);
        }
        n = n - 1;
    }
    None
}

/// Counts a further attempt at a call and returns its number.
fn count_attempt(attempts: &mut StringHashMap<usize>, call_id: &String, bound: usize) -> (n: usize)
    requires
        bound < usize::MAX,
        old(attempts)@.contains_key(call_id@) ==> old(attempts)@[call_id@] <= bound,
    ensures
        n == if old(attempts)@.contains_key(call_id@) {
            old(attempts)@[call_id@] + 1
        } else {
            1
        },
        final(attempts)@ == old(attempts)@.insert(call_id@, n),
{
    let n: usize = match attempts.get(call_id.as_str()) {
        Some(known) => *known + 1,
        None => 1,
    };
    attempts.insert(call_id.clone(), n);
    n
}

/// What the table of attempts says of the groups so far.
spec fn attempts_table(groups: Seq<GroupView>, table: Map<Seq<char>, usize>) -> bool {
    forall|call_id: Seq<char>|
        (if #[trigger] table.contains_key(call_id) {
            table[call_id] as int
        } else {
            0
        }) == attempts_at(groups, call_id)
}

proof fn attempts_table_push(
    groups: Seq<GroupView>,
    table: Map<Seq<char>, usize>,
    g: GroupView,
    n: usize,
)
    requires
        attempts_table(groups, table),
        n == attempts_at(groups, g.call_id) + 1,
    ensures
        attempts_table(groups.push(g), table.insert(g.call_id, n)),
{
    let updated = table.insert(g.call_id, n);
    assert forall|call_id: Seq<char>|
        (if #[trigger] updated.contains_key(call_id) {
            updated[call_id] as int
        } else {
            0
        }) == attempts_at(groups.push(g), call_id) by {
        assert(groups.push(g).drop_last() =~= groups);
        assert(table.contains_key(call_id) || !table.contains_key(call_id));
    }
}

proof fn attempts_table_update(
    groups: Seq<GroupView>,
    table: Map<Seq<char>, usize>,
    g: int,
    filled: GroupView,
)
    requires
        attempts_table(groups, table),
        0 <= g < groups.len(),
        filled.call_id == groups[g].call_id,
    ensures
        attempts_table(groups.update(g, filled), table),
{
    assert forall|call_id: Seq<char>|
        (if #[trigger] table.contains_key(call_id) {
            table[call_id] as int
        } else {
            0
        }) == attempts_at(groups.update(g, filled), call_id) by {
        attempts_unchanged(groups, g, filled, call_id);
    }
}

/// Ties the responses, calls and results of a timeline together by call id. A
/// call that comes again starts a new attempt.
pub fn group_tool_calls(events: &Vec<AuditEvent>) -> (groups: Vec<ToolGroup>)
    ensures
        group_views(groups@) == groups_of(event::event_views(events@)),
{
    let ghost views = event::event_views(events@);
    let mut groups: Vec<ToolGroup> = Vec::new();
    let mut attempts: StringHashMap<usize> = StringHashMap::new();
    proof {
        assert(group_views(groups@) =~= groups_of(views.take(0)));
    }
    let mut i: usize = 0;
    while i < events.len()
        invariant
            i <= events@.len(),
            views == event::event_views(events@),
            group_views(groups@) == groups_of(views.take(i as int)),
            groups@.len() <= i,
            attempts_table(group_views(groups@), attempts@),
        decreases events@.len() - i,
    {
        let e = &events[i];
        let ghost before = group_views(groups@);
        proof {
            assert(views.take(i + 1).drop_last() =~= views.take(i as int));
            assert(views.take(i + 1).last() == e@);
        }
        if let Some(call_id) = &e.call_id {
            let open = find_open(&groups, call_id.as_str());
            proof {
                open_attempt_is_open(before, call_id@);
                attempts_bounded(before, call_id@);
                assert(attempts@.contains_key(call_id@) || !attempts@.contains_key(call_id@));
            }
            let tool_event = match e.kind {
                Kind::LlmResponse | Kind::ToolCall | Kind::ToolResult => true,
                _ => false,
            };
            if tool_event {
                let joins: Option<usize> = match open {
                    Some(g) => {
                        let free = match e.kind {
                            Kind::LlmResponse => groups[g].response.is_none(),
                            Kind::ToolCall => groups[g].call.is_none(),
                            _ => true,
                        };
                        if free {
                            Some(g)
                        } else {
                            None
                        }
                    },
                    None => None,
                };
                match joins {
                    Some(g) => {
                        match e.kind {
                            Kind::LlmResponse => {
                                groups[g].response = Some(i);
                            },
                            Kind::ToolCall => {
                                groups[g].call = Some(i);
                            },
                            _ => {
                                groups[g].result = Some(i);
                            },
                        }
                        proof {
                            assert(group_views(groups@) =~= before.update(g as int, groups@[g as int]@));
                            attempts_table_update(before, attempts@, g as int, groups@[g as int]@);
                        }
                    },
                    None => {
                        let ghost table = attempts@;
                        let n: usize = count_attempt(&mut attempts, call_id, i);
                        let group = ToolGroup {
                            call_id: call_id.clone(),
                            attempt: n,
                            response: match e.kind {
                                Kind::LlmResponse => Some(i),
                                _ => None,
                            },
                            call: match e.kind {
                                Kind::ToolCall => Some(i),
                                _ => None,
                            },
                            result: match e.kind {
                                Kind::ToolResult => Some(i),
                                _ => None,
                            },
                        };
                        proof {
                            attempts_table_push(before, table, group@, n);
                        }
                        groups.push(group);
                        proof {
                            assert(group_views(groups@) =~= before.push(group@));
                        }
                    },
                }
            }
        }
        i = i + 1;
    }
    proof {
        assert(views.take(events@.len() as int) =~= views);
    }
    groups
}

} // verus!
