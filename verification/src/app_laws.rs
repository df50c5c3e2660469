//! What holds of the viewer in every state, and across messages and keys.
use vstd::prelude::*;

use crate::app;
use crate::app::AppView;
use crate::app::Focus;
use crate::app::Key;
use crate::app::MsgView;
use crate::event;
use crate::event::EventView;
use crate::group;
use crate::group::GroupView;
use crate::group_laws;
use crate::order;
use crate::order_laws;
use crate::row_laws;
use crate::rows;
use crate::rows::RowView;
use crate::sessions;

verus! {

/// Whether an index selects an item of a list of `len` items, or is zero in an
/// empty one.
pub open spec fn selects(i: int, len: int) -> bool {
    0 <= i && (i < len || i == 0)
}

/// What holds of the viewer at all times: the events stand in timeline order,
/// groups and rows are those of the events, and the selections are within their
/// lists.
pub open spec fn is_settled(app: AppView) -> bool {
    &&& selects(app.selected_session, app.sessions.len() as int)
    &&& app.events == order::timeline(app.events)
    &&& app.groups == group::groups_of(app.events)
    &&& app.rows == rows::rows_of(app.groups, app.collapsed, app.events.len() as int)
    &&& selects(app.selected_row, app.rows.len() as int)
    &&& 0 <= app.detail_scroll <= u16::MAX
}

/// A new viewer is settled.
pub proof fn blank_is_settled()
    ensures
        is_settled(app::blank()),
{
    let none = Seq::<EventView>::empty();
    reveal_with_fuel(order::dedup, 1);
    reveal_with_fuel(order::arrange, 1);
    assert(order::timeline(none) =~= none);
    assert(group::groups_of(none) =~= Seq::empty());
    assert(rows::rows_of(Seq::empty(), Set::empty(), 0) =~= Seq::empty());
}

/// Every message leaves the viewer settled.
pub proof fn messages_keep_settled(app: AppView, msg: MsgView)
    requires
        is_settled(app),
    ensures
        is_settled(app::applied(app, msg)),
{
    match msg {
        MsgView::Sessions(names) => {
            let listed = sessions::listing(names);
            if let Some(name) = app::selected_name(app) {
                listed.index_of_first_ensures(name);
            }
        },
        MsgView::Events { session, raw, next_offset, replace } => {
            let batch = event::events_of_batch(raw);
            if replace {
                order_laws::timeline_of_a_timeline(batch + Seq::<EventView>::empty());
            } else {
                order_laws::timeline_of_a_timeline(batch + app.events);
            }
        },
        _ => {},
    }
}

/// Every key leaves the viewer settled.
pub proof fn keys_keep_settled(app: AppView, key: Key)
    requires
        is_settled(app),
    ensures
        is_settled(app::pressed(app, key)),
{
}

/// What the viewer takes in: a message, or a key that is pressed.
pub enum Input {
    Message(MsgView),
    Press(Key),
}

/// The viewer that a new one becomes by taking in messages and keys, one after
/// another.
pub open spec fn reached(inputs: Seq<Input>) -> AppView
    decreases inputs.len(),
{
    if inputs.len() == 0 {
        app::blank()
    } else {
        let before = reached(inputs.drop_last());
        match inputs.last() {
            Input::Message(msg) => app::applied(before, msg),
            Input::Press(key) => app::pressed(before, key),
        }
    }
}

/// Whatever messages and keys it has taken in, the viewer is settled.
pub proof fn the_viewer_is_always_settled(inputs: Seq<Input>)
    ensures
        is_settled(reached(inputs)),
    decreases inputs.len(),
{
    if inputs.len() == 0 {
        blank_is_settled();
    } else {
        let before = reached(inputs.drop_last());
        the_viewer_is_always_settled(inputs.drop_last());
        match inputs.last() {
            Input::Message(msg) => messages_keep_settled(before, msg),
            Input::Press(key) => keys_keep_settled(before, key),
        }
    }
}

/// Whether every index that the viewer holds leads to something: rows to events
/// and groups, groups to events, and the selections to rows and sessions. There
/// are rows just where there are events.
pub open spec fn indices_hold(app: AppView) -> bool {
    &&& forall|k: int|
        0 <= k < app.rows.len() ==> match #[trigger] app.rows[k] {
            RowView::Event(i) => 0 <= i < app.events.len(),
            RowView::Group { group, .. } => 0 <= group < app.groups.len(),
        }
    &&& rows::groups_within(app.groups, app.events.len() as int)
    &&& selects(app.selected_row, app.rows.len() as int)
    &&& selects(app.selected_session, app.sessions.len() as int)
    &&& app.rows.len() == 0 <==> app.events.len() == 0
}

/// In a settled viewer every index leads to something.
pub proof fn settled_indices_hold(app: AppView)
    requires
        is_settled(app),
    ensures
        indices_hold(app),
{
    rows::groups_of_within(app.events);
    assert forall|k: int| 0 <= k < app.rows.len() implies match #[trigger] app.rows[k] {
        RowView::Event(i) => 0 <= i < app.events.len(),
        RowView::Group { group, .. } => 0 <= group < app.groups.len(),
    } by {
        row_laws::rows_refer_to_what_there_is(app.events, app.collapsed, k);
    }
    if app.events.len() > 0 {
        some_event_is_chosen(app);
    }
}

/// Whatever messages and keys the viewer has taken in, every index that it holds
/// leads to something.
pub proof fn indices_always_hold(inputs: Seq<Input>)
    ensures
        indices_hold(reached(inputs)),
{
    the_viewer_is_always_settled(inputs);
    settled_indices_hold(reached(inputs));
}

/// The selected row of a settled viewer shows an event, if there are events.
pub proof fn some_event_is_chosen(app: AppView)
    requires
        is_settled(app),
        app.events.len() > 0,
    ensures
        app::chosen_event(app) is Some,
{
    let n = app.events.len() as int;
    if app.rows.len() == 0 {
        row_laws::shown_events_have_a_row(app.events, app.collapsed, 0);
        match rows::group_holding(app.groups, 0) {
            None => {
                assert(app.rows.contains(RowView::Event(0)));
            },
            Some(g) => {
                assert(0 <= g < app.groups.len() && group_laws::holds(app.groups[g], 0));
                row_laws::groups_have_a_heading(
                    app.events,
                    app.collapsed,
                    g,
                    app.collapsed.contains(g),
                );
            },
        }
    }
    row_laws::rows_refer_to_what_there_is(app.events, app.collapsed, app.selected_row);
    if let RowView::Group { group, .. } = app.rows[app.selected_row] {
        group_laws::groups_are_nonempty(app.events, group);
        group_laws::groups_hold_their_own_events(app.events, group);
    }
}

/// Events of a session that is not selected change nothing.
pub proof fn stray_events_change_nothing(
    app: AppView,
    session: Seq<char>,
    raw: Seq<Seq<u8>>,
    next_offset: u64,
    replace: bool,
)
    requires
        app::selected_name(app) != Some(session),
    ensures
        app::applied(app, MsgView::Events { session, raw, next_offset, replace }) == app,
{
}

/// A connection that stands clears the banner of an error, and nothing else is
/// changed by the two.
pub proof fn connecting_clears_an_error(app: AppView, text: Seq<char>)
    ensures
        app::applied(app, MsgView::Error(text)).banner == Some(text),
        app::applied(app::applied(app, MsgView::Error(text)), MsgView::Connected) == (AppView {
            banner: None,
            ..app
        }),
{
}

/// A session that is still listed stays selected when the list is renewed.
pub proof fn the_selected_session_stays(app: AppView, names: Seq<Seq<char>>, name: Seq<char>)
    requires
        app::selected_name(app) == Some(name),
        names.contains(name),
    ensures
        app::selected_name(app::applied(app, MsgView::Sessions(names))) == Some(name),
{
    let listed = sessions::listing(names);
    sessions::listing_is_sorted(names);
    names.to_multiset_ensures();
    listed.to_multiset_ensures();
    assert(names.to_multiset().count(name) > 0);
    assert(listed.to_multiset().count(name) > 0);
    listed.index_of_first_ensures(name);
}

/// While the viewer follows a session, new events select the last row.
pub proof fn following_selects_the_last_row(
    app: AppView,
    session: Seq<char>,
    raw: Seq<Seq<u8>>,
    next_offset: u64,
    replace: bool,
)
    requires
        app.follow,
        app::selected_name(app) == Some(session),
        app::applied(app, MsgView::Events { session, raw, next_offset, replace }).rows.len() > 0,
    ensures
        ({
            let after = app::applied(app, MsgView::Events { session, raw, next_offset, replace });
            after.selected_row == after.rows.len() - 1
        }),
{
}

/// A full load forgets what was there: the events and the count of skipped
/// messages are those of the load alone.
pub proof fn a_full_load_starts_over(
    app: AppView,
    session: Seq<char>,
    raw: Seq<Seq<u8>>,
    next_offset: u64,
)
    requires
        app::selected_name(app) == Some(session),
    ensures
        ({
            let after = app::applied(
                app,
                MsgView::Events { session, raw, next_offset, replace: true },
            );
            &&& after.events == order::timeline(event::events_of_batch(raw))
            &&& after.skipped == raw.len() - event::events_of_batch(raw).len()
            &&& after.next_offset == next_offset
        }),
{
    let batch = event::events_of_batch(raw);
    assert(batch + Seq::<EventView>::empty() =~= batch);
}

/// The events of two batches are those of the first followed by those of the
/// second.
pub proof fn batches_join(a: Seq<Seq<u8>>, b: Seq<Seq<u8>>)
    ensures
        event::events_of_batch(a + b) == event::events_of_batch(a) + event::events_of_batch(b),
    decreases b.len(),
{
    if b.len() == 0 {
        assert(a + b =~= a);
        assert(event::events_of_batch(a) + event::events_of_batch(b) =~= event::events_of_batch(a));
    } else {
        batches_join(a, b.drop_last());
        assert((a + b).drop_last() =~= a + b.drop_last());
        assert((a + b).last() == b.last());
        if let Ok(e) = event::event_of_bytes(b.last()) {
            assert(event::events_of_batch(a) + event::events_of_batch(b.drop_last()).push(e)
                =~= (event::events_of_batch(a) + event::events_of_batch(b.drop_last())).push(e));
        }
    }
}

/// A session that is loaded and then followed shows what a full load of all its
/// messages would show. This holds where messages that agree in run and
/// sequence number spell the same event.
pub proof fn following_equals_loading_at_once(
    app: AppView,
    session: Seq<char>,
    first: Seq<Seq<u8>>,
    later: Seq<Seq<u8>>,
    offset: u64,
    next_offset: u64,
)
    requires
        app::selected_name(app) == Some(session),
        order_laws::consistent(event::events_of_batch(first + later)),
    ensures
        ({
            let loaded = app::applied(
                app,
                MsgView::Events { session, raw: first, next_offset: offset, replace: true },
            );
            let followed = app::applied(
                loaded,
                MsgView::Events { session, raw: later, next_offset, replace: false },
            );
            let at_once = app::applied(
                app,
                MsgView::Events { session, raw: first + later, next_offset, replace: true },
            );
            &&& followed.events == at_once.events
            &&& followed.groups == at_once.groups
            &&& followed.rows == at_once.rows
            &&& followed.skipped == at_once.skipped
            &&& followed.next_offset == at_once.next_offset
        }),
{
    let a = event::events_of_batch(first);
    let b = event::events_of_batch(later);
    let all = event::events_of_batch(first + later);
    let none = Seq::<EventView>::empty();
    batches_join(first, later);
    assert(a + none =~= a);
    assert(all + none =~= all);
    let swapped = b + a;
    assert(order_laws::same_members(swapped, all)) by {
        assert forall|e: EventView| #[trigger] swapped.contains(e) <==> all.contains(e) by {
            if swapped.contains(e) {
                let i = choose|i: int| 0 <= i < swapped.len() && swapped[i] == e;
                if i < b.len() {
                    assert(all[a.len() + i] == e);
                } else {
                    assert(all[i - b.len()] == e);
                }
            }
            if all.contains(e) {
                let i = choose|i: int| 0 <= i < all.len() && all[i] == e;
                if i < a.len() {
                    assert(swapped[b.len() + i] == e);
                } else {
                    assert(swapped[i - a.len()] == e);
                }
            }
        }
    }
    assert(order_laws::consistent(swapped)) by {
        assert forall|i: int, j: int|
            0 <= i < swapped.len() && 0 <= j < swapped.len() && (#[trigger] swapped[i]).run_id == (
            #[trigger] swapped[j]).run_id && swapped[i].seq == swapped[j].seq implies swapped[i]
            == swapped[j] by {
            let x = if i < b.len() {
                a.len() + i
            } else {
                i - b.len()
            };
            let y = if j < b.len() {
                a.len() + j
            } else {
                j - b.len()
            };
            assert(all[x] == swapped[i]);
            assert(all[y] == swapped[j]);
        }
    }
    order_laws::timeline_grows_as_if_loaded_at_once(b, a);
    order_laws::timeline_ignores_arrival(swapped, all);
}

/// The focus comes back after three presses of `Tab`.
pub proof fn tab_goes_round(app: AppView)
    ensures
        app::pressed(app::pressed(app::pressed(app, Key::Tab), Key::Tab), Key::Tab) == app,
{
}

/// Only `q` ends the viewer.
pub proof fn only_q_quits(app: AppView, key: Key)
    ensures
        app::pressed(app, key).should_quit == (app.should_quit || key == Key::Char('q')),
{
}

/// No key touches the events, and only `f` turns following on or off.
pub proof fn keys_leave_the_events(app: AppView, key: Key)
    ensures
        app::pressed(app, key).events == app.events,
        app::pressed(app, key).sessions == app.sessions,
        app::pressed(app, key).skipped == app.skipped,
        app::pressed(app, key).next_offset == app.next_offset,
        app::pressed(app, key).banner == app.banner,
        app::pressed(app, key).follow == (app.follow != (key == Key::Char('f'))),
{
}

/// The page keys scroll the details, whatever pane has the focus.
pub proof fn page_keys_scroll_the_details(app: AppView)
    ensures
        app::pressed(app, Key::PageDown) == (AppView {
            detail_scroll: app::scrolled(app.detail_scroll + 10),
            ..app
        }),
        app::pressed(app, Key::PageUp) == (AppView {
            detail_scroll: app::scrolled(app.detail_scroll - 10),
            ..app
        }),
{
}

/// The rows for fewer events are a prefix of those for more.
proof fn rows_are_a_prefix(groups: Seq<GroupView>, collapsed: Set<int>, m: int, n: int)
    requires
        0 <= m <= n,
    ensures
        rows::rows_of(groups, collapsed, m).is_prefix_of(rows::rows_of(groups, collapsed, n)),
    decreases n - m,
{
    if m < n {
        rows_are_a_prefix(groups, collapsed, m, n - 1);
    }
}

/// Collapsing a group leaves the rows before its first event as they are.
proof fn rows_before_a_group(groups: Seq<GroupView>, a: Set<int>, b: Set<int>, g: int, p: int)
    requires
        group_laws::held_once(groups),
        0 <= g < groups.len(),
        forall|i: int| #[trigger] group_laws::holds(groups[g], i) ==> p <= i,
        forall|h: int| h != g ==> (#[trigger] a.contains(h) <==> b.contains(h)),
    ensures
        rows::rows_of(groups, a, p) == rows::rows_of(groups, b, p),
    decreases p,
{
    if p > 0 {
        rows_before_a_group(groups, a, b, g, p - 1);
        if let Some(h) = rows::group_holding(groups, p - 1) {
            assert(group_laws::holds(groups[h], p - 1));
            assert(h != g);
            assert(a.contains(h) <==> b.contains(h));
        }
    }
}

/// Where the heading of a group stands: below the rows for the events before the
/// group's first.
proof fn heading_stands(events: Seq<EventView>, collapsed: Set<int>, g: int)
    requires
        0 <= g < group::groups_of(events).len(),
    ensures
        ({
            let groups = group::groups_of(events);
            let p = row_laws::first_event(groups[g]);
            let k = rows::rows_of(groups, collapsed, p).len() as int;
            let all = rows::rows_of(groups, collapsed, events.len() as int);
            &&& rows::is_first_of(groups[g], p)
            &&& 0 <= p < events.len()
            &&& k < all.len()
            &&& all[k] == RowView::Group { group: g, collapsed: collapsed.contains(g) }
        }),
{
    let groups = group::groups_of(events);
    let n = events.len() as int;
    group_laws::groups_are_disjoint(events);
    group_laws::groups_are_nonempty(events, g);
    group_laws::groups_hold_their_own_events(events, g);
    row_laws::first_event_exists(groups[g]);
    let p = row_laws::first_event(groups[g]);
    rows::group_holding_is(groups, g, p);
    rows_are_a_prefix(groups, collapsed, p + 1, n);
    let above = rows::rows_of(groups, collapsed, p);
    let upto = rows::rows_of(groups, collapsed, p + 1);
    let all = rows::rows_of(groups, collapsed, n);
    assert(upto[above.len() as int] == RowView::Group {
        group: g,
        collapsed: collapsed.contains(g),
    });
    assert(all.subrange(0, upto.len() as int)[above.len() as int] == all[above.len() as int]);
}

/// Pressing `Enter` on a heading turns that heading, and the selection stays on it.
pub proof fn enter_turns_the_heading(app: AppView, g: int, collapsed: bool)
    requires
        is_settled(app),
        app.focus == Focus::Timeline,
        app.rows.len() > 0,
        app.rows[app.selected_row] == (RowView::Group { group: g, collapsed }),
    ensures
        ({
            let after = app::pressed(app, Key::Enter);
            &&& after.selected_row == app.selected_row
            &&& after.selected_row < after.rows.len()
            &&& after.rows[after.selected_row] == (RowView::Group { group: g, collapsed: !collapsed })
        }),
{
    let k = app.selected_row;
    let once = app::pressed(app, Key::Enter);
    row_laws::rows_refer_to_what_there_is(app.events, app.collapsed, k);
    heading_stands(app.events, app.collapsed, g);
    heading_stands(app.events, once.collapsed, g);
    let p = row_laws::first_event(app.groups[g]);
    let at = rows::rows_of(app.groups, app.collapsed, p).len() as int;
    if at < k {
        row_laws::rows_are_in_order(app.events, app.collapsed, at, k);
    }
    if k < at {
        row_laws::rows_are_in_order(app.events, app.collapsed, k, at);
    }
    group_laws::groups_are_disjoint(app.events);
    rows_before_a_group(app.groups, app.collapsed, once.collapsed, g, p);
}

/// Pressing `Enter` twice on a heading leaves the viewer as it was.
pub proof fn enter_twice_changes_nothing(app: AppView)
    requires
        is_settled(app),
        app.focus == Focus::Timeline,
        app.rows.len() > 0,
        app.rows[app.selected_row] is Group,
    ensures
        app::pressed(app::pressed(app, Key::Enter), Key::Enter) == app,
{
    let heading = app.rows[app.selected_row];
    let once = app::pressed(app, Key::Enter);
    enter_turns_the_heading(app, heading->group, heading->collapsed);
    row_laws::rows_refer_to_what_there_is(app.events, app.collapsed, app.selected_row);
    assert(app::pressed(once, Key::Enter).collapsed =~= app.collapsed);
}

/// How many of the first `n` events a group holds.
spec fn held_before(g: GroupView, n: int) -> int
    decreases n,
{
    if n <= 0 {
        0
    } else {
        held_before(g, n - 1) + if group_laws::holds(g, n - 1) {
            1int
        } else {
            0int
        }
    }
}

spec fn slot_before(slot: Option<int>, n: int) -> int {
    match slot {
        Some(i) => if 0 <= i < n {
            1
        } else {
            0
        },
        None => 0,
    }
}

/// How many events a group holds.
pub open spec fn group_size(g: GroupView) -> int {
    (if g.response is Some {
        1int
    } else {
        0
    }) + (if g.call is Some {
        1int
    } else {
        0
    }) + (if g.result is Some {
        1int
    } else {
        0
    })
}

proof fn held_before_counts_slots(g: GroupView, n: int)
    requires
        n >= 0,
        g.response is Some && g.call is Some ==> g.response != g.call,
        g.response is Some && g.result is Some ==> g.response != g.result,
        g.call is Some && g.result is Some ==> g.call != g.result,
    ensures
        held_before(g, n) == slot_before(g.response, n) + slot_before(g.call, n) + slot_before(
            g.result,
            n,
        ),
    decreases n,
{
    if n > 0 {
        held_before_counts_slots(g, n - 1);
    }
}

proof fn collapsing_takes_rows(groups: Seq<GroupView>, collapsed: Set<int>, g: int, n: int)
    requires
        group_laws::held_once(groups),
        0 <= g < groups.len(),
        !collapsed.contains(g),
        n >= 0,
    ensures
        rows::rows_of(groups, collapsed.insert(g), n).len() + held_before(groups[g], n)
            == rows::rows_of(groups, collapsed, n).len(),
    decreases n,
{
    if n > 0 {
        collapsing_takes_rows(groups, collapsed, g, n - 1);
        match rows::group_holding(groups, n - 1) {
            None => {
                assert(!group_laws::holds(groups[g], n - 1));
            },
            Some(h) => {
                assert(group_laws::holds(groups[h], n - 1));
                if h != g {
                    assert(!group_laws::holds(groups[g], n - 1));
                }
            },
        }
    }
}

/// Pressing `Enter` on the heading of an open group hides the events of that
/// group and no other row.
pub proof fn collapsing_hides_the_group(app: AppView, g: int)
    requires
        is_settled(app),
        app.focus == Focus::Timeline,
        app.rows.len() > 0,
        app.rows[app.selected_row] == (RowView::Group { group: g, collapsed: false }),
    ensures
        app::pressed(app, Key::Enter).collapsed == app.collapsed.insert(g),
        app::pressed(app, Key::Enter).rows.len() == app.rows.len() - group_size(app.groups[g]),
        group_size(app.groups[g]) >= 1,
        app::pressed(app, Key::Enter).events == app.events,
{
    let n = app.events.len() as int;
    row_laws::rows_refer_to_what_there_is(app.events, app.collapsed, app.selected_row);
    group_laws::groups_are_disjoint(app.events);
    group_laws::groups_hold_their_own_events(app.events, g);
    group_laws::groups_are_nonempty(app.events, g);
    collapsing_takes_rows(app.groups, app.collapsed, g, n);
    held_before_counts_slots(app.groups[g], n);
}

/// In the timeline, up selects the row above and down the row below, as long as there
/// is one; the details are then shown from their top.
pub proof fn the_timeline_moves_by_one_row(app: AppView, key: Key)
    requires
        app.focus == Focus::Timeline,
        selects(app.selected_row, app.rows.len() as int),
        key == Key::Up || key == Key::Down || key == Key::Char('k') || key == Key::Char('j'),
    ensures
        ({
            let after = app::pressed(app, key);
            let up = key == Key::Up || key == Key::Char('k');
            &&& up && app.selected_row > 0 ==> after.selected_row == app.selected_row - 1
            &&& up && app.selected_row == 0 ==> after.selected_row == 0
            &&& !up && app.selected_row + 1 < app.rows.len() ==> after.selected_row
                == app.selected_row + 1
            &&& !up && app.selected_row + 1 >= app.rows.len() ==> after.selected_row
                == app.selected_row
            &&& after == (AppView { selected_row: after.selected_row, detail_scroll: 0, ..app })
        }),
{
}

/// In the list of sessions, up selects the session above and down the session below,
/// as long as there is one.
pub proof fn the_sessions_move_by_one(app: AppView, key: Key)
    requires
        app.focus == Focus::Sessions,
        selects(app.selected_session, app.sessions.len() as int),
        key == Key::Up || key == Key::Down || key == Key::Char('k') || key == Key::Char('j'),
    ensures
        ({
            let after = app::pressed(app, key);
            let up = key == Key::Up || key == Key::Char('k');
            &&& up && app.selected_session > 0 ==> after.selected_session == app.selected_session
                - 1
            &&& up && app.selected_session == 0 ==> after.selected_session == 0
            &&& !up && app.selected_session + 1 < app.sessions.len() ==> after.selected_session
                == app.selected_session + 1
            &&& !up && app.selected_session + 1 >= app.sessions.len() ==> after.selected_session
                == app.selected_session
            &&& after == (AppView { selected_session: after.selected_session, ..app })
        }),
{
}

/// In the details, up scrolls one line back and down one line on, as far as the
/// position can be counted.
pub proof fn the_details_scroll_by_one_line(app: AppView, key: Key)
    requires
        app.focus == Focus::Detail,
        0 <= app.detail_scroll <= 65535,
        key == Key::Up || key == Key::Down || key == Key::Char('k') || key == Key::Char('j'),
    ensures
        ({
            let after = app::pressed(app, key);
            let up = key == Key::Up || key == Key::Char('k');
            &&& up && app.detail_scroll > 0 ==> after.detail_scroll == app.detail_scroll - 1
            &&& up && app.detail_scroll == 0 ==> after.detail_scroll == 0
            &&& !up && app.detail_scroll < 65535 ==> after.detail_scroll == app.detail_scroll + 1
            &&& !up && app.detail_scroll == 65535 ==> after.detail_scroll == 65535
            &&& after == (AppView { detail_scroll: after.detail_scroll, ..app })
        }),
{
}

/// A page key scrolls the details by ten lines, as far as the position can be
/// counted, and changes nothing else.
pub proof fn a_page_is_ten_lines(app: AppView)
    requires
        0 <= app.detail_scroll <= 65535,
    ensures
        ({
            let on = app::pressed(app, Key::PageDown);
            let back = app::pressed(app, Key::PageUp);
            &&& app.detail_scroll <= 65525 ==> on.detail_scroll == app.detail_scroll + 10
            &&& app.detail_scroll > 65525 ==> on.detail_scroll == 65535
            &&& app.detail_scroll >= 10 ==> back.detail_scroll == app.detail_scroll - 10
            &&& app.detail_scroll < 10 ==> back.detail_scroll == 0
            &&& on == (AppView { detail_scroll: on.detail_scroll, ..app })
            &&& back == (AppView { detail_scroll: back.detail_scroll, ..app })
        }),
{
}

/// Up undoes down, but for the last row, session or line.
pub proof fn up_undoes_down(app: AppView)
    requires
        is_settled(app),
    ensures
        ({
            let back = app::pressed(app::pressed(app, Key::Down), Key::Up);
            &&& app.focus == Focus::Timeline && app.selected_row + 1 < app.rows.len()
                ==> back.selected_row == app.selected_row
            &&& app.focus == Focus::Sessions && app.selected_session + 1 < app.sessions.len()
                ==> back.selected_session == app.selected_session
            &&& app.focus == Focus::Detail && app.detail_scroll < 65535 ==> back.detail_scroll
                == app.detail_scroll
        }),
{
    let once = app::pressed(app, Key::Down);
    keys_keep_settled(app, Key::Down);
    match app.focus {
        Focus::Timeline => {
            the_timeline_moves_by_one_row(app, Key::Down);
            the_timeline_moves_by_one_row(once, Key::Up);
        },
        Focus::Sessions => {
            the_sessions_move_by_one(app, Key::Down);
            the_sessions_move_by_one(once, Key::Up);
        },
        Focus::Detail => {
            the_details_scroll_by_one_line(app, Key::Down);
            the_details_scroll_by_one_line(once, Key::Up);
        },
    }
}

/// `j` and `k` are the arrows down and up.
pub proof fn letters_stand_for_arrows(app: AppView)
    ensures
        app::pressed(app, Key::Char('j')) == app::pressed(app, Key::Down),
        app::pressed(app, Key::Char('k')) == app::pressed(app, Key::Up),
{
}

/// `Tab` takes the focus from the sessions to the timeline, from there to the
/// details, and from there to the sessions, and does nothing else.
pub proof fn tab_takes_the_focus_on(app: AppView)
    ensures
        app.focus == Focus::Sessions ==> app::pressed(app, Key::Tab) == (AppView {
            focus: Focus::Timeline,
            ..app
        }),
        app.focus == Focus::Timeline ==> app::pressed(app, Key::Tab) == (AppView {
            focus: Focus::Detail,
            ..app
        }),
        app.focus == Focus::Detail ==> app::pressed(app, Key::Tab) == (AppView {
            focus: Focus::Sessions,
            ..app
        }),
{
}

/// `q` ends the viewer and `f` turns following on or off; neither does anything else.
pub proof fn q_ends_and_f_follows(app: AppView)
    ensures
        app::pressed(app, Key::Char('q')) == (AppView { should_quit: true, ..app }),
        app::pressed(app, Key::Char('f')) == (AppView { follow: !app.follow, ..app }),
{
}

/// Other keys change nothing, and neither does `Enter` away from the heading of a
/// group in the timeline.
pub proof fn other_keys_change_nothing(app: AppView, c: char)
    requires
        c != 'q' && c != 'f' && c != 'j' && c != 'k',
    ensures
        app::pressed(app, Key::Char(c)) == app,
        app::pressed(app, Key::Other) == app,
        app.focus != Focus::Timeline ==> app::pressed(app, Key::Enter) == app,
        0 <= app.selected_row < app.rows.len() && app.rows[app.selected_row] is Event
            ==> app::pressed(app, Key::Enter) == app,
        app.rows.len() == 0 ==> app::pressed(app, Key::Enter) == app,
{
}

/// A list of sessions without the selected one leaves the same place selected, or the
/// last where there are fewer. Nothing but the list and the selection changes.
pub proof fn a_lost_session_leaves_its_place(app: AppView, names: Seq<Seq<char>>)
    requires
        selects(app.selected_session, app.sessions.len() as int),
        app.sessions.len() > 0 ==> !names.contains(app.sessions[app.selected_session]),
    ensures
        ({
            let after = app::applied(app, MsgView::Sessions(names));
            &&& app.selected_session < names.len() ==> after.selected_session
                == app.selected_session
            &&& names.len() <= app.selected_session && names.len() > 0 ==> after.selected_session
                == names.len() - 1
            &&& names.len() == 0 ==> after.selected_session == 0
            &&& after.sessions.len() == names.len()
            &&& after == (AppView {
                sessions: after.sessions,
                selected_session: after.selected_session,
                ..app
            })
        }),
{
    let listed = sessions::listing(names);
    sessions::listing_is_sorted(names);
    names.to_multiset_ensures();
    listed.to_multiset_ensures();
    if app.sessions.len() > 0 {
        let name = app.sessions[app.selected_session];
        listed.index_of_first_ensures(name);
        if listed.contains(name) {
            assert(listed.to_multiset().count(name) > 0);
            assert(names.to_multiset().count(name) > 0);
        }
    }
}

/// The sessions that are listed are those that were told, each as often.
pub proof fn all_sessions_are_listed(app: AppView, names: Seq<Seq<char>>)
    ensures
        app::applied(app, MsgView::Sessions(names)).sessions.to_multiset() == names.to_multiset(),
{
    sessions::listing_is_sorted(names);
}

/// Of a batch each message that spells an event gives that event, and a message that
/// spells none gives nothing.
pub proof fn a_message_gives_its_event(raw: Seq<u8>)
    ensures
        match event::event_of_bytes(raw) {
            Ok(e) => event::events_of_batch(seq![raw]) == seq![e],
            Err(_) => event::events_of_batch(seq![raw]).len() == 0,
        },
        event::events_of_batch(Seq::empty()).len() == 0,
{
    reveal_with_fuel(event::events_of_batch, 2);
    let one = seq![raw];
    assert(one.drop_last() =~= Seq::empty());
    assert(one.last() == raw);
    if let Ok(e) = event::event_of_bytes(raw) {
        assert(event::events_of_batch(one) =~= seq![e]);
    }
}

/// New events of the selected session are taken in beside those that are there, and
/// the messages that spell none are counted on. Where the viewer does not follow, the
/// selected row stays, or is the last where there are fewer.
pub proof fn new_events_are_added(
    app: AppView,
    session: Seq<char>,
    raw: Seq<Seq<u8>>,
    next_offset: u64,
)
    requires
        is_settled(app),
        app.sessions.len() > 0,
        app.sessions[app.selected_session] == session,
    ensures
        ({
            let after = app::applied(
                app,
                MsgView::Events { session, raw, next_offset, replace: false },
            );
            &&& after.events == order::timeline(event::events_of_batch(raw) + app.events)
            &&& after.skipped == app.skipped + raw.len() - event::events_of_batch(raw).len()
            &&& after.next_offset == next_offset
            &&& after.groups == group::groups_of(after.events)
            &&& !app.follow && app.selected_row < after.rows.len() ==> after.selected_row
                == app.selected_row
            &&& !app.follow && after.rows.len() > 0 && after.rows.len() <= app.selected_row
                ==> after.selected_row == after.rows.len() - 1
            &&& after == (AppView {
                events: after.events,
                groups: after.groups,
                rows: after.rows,
                selected_row: after.selected_row,
                skipped: after.skipped,
                next_offset: after.next_offset,
                ..app
            })
        }),
{
}

/// A full load leaves the selected row, or selects the last where there are fewer,
/// unless the viewer follows; groups that were collapsed stay so.
pub proof fn a_full_load_keeps_the_place(
    app: AppView,
    session: Seq<char>,
    raw: Seq<Seq<u8>>,
    next_offset: u64,
)
    requires
        is_settled(app),
        app.sessions.len() > 0,
        app.sessions[app.selected_session] == session,
    ensures
        ({
            let after = app::applied(
                app,
                MsgView::Events { session, raw, next_offset, replace: true },
            );
            &&& !app.follow && app.selected_row < after.rows.len() ==> after.selected_row
                == app.selected_row
            &&& !app.follow && after.rows.len() > 0 && after.rows.len() <= app.selected_row
                ==> after.selected_row == after.rows.len() - 1
            &&& after.rows.len() == 0 ==> after.selected_row == 0
            &&& after == (AppView {
                events: after.events,
                groups: after.groups,
                rows: after.rows,
                selected_row: after.selected_row,
                skipped: after.skipped,
                next_offset: after.next_offset,
                ..app
            })
        }),
{
}

/// The selected session is the one at the selected place.
pub proof fn the_selected_session_is_at_its_place(app: AppView)
    ensures
        0 <= app.selected_session < app.sessions.len() ==> app::selected_name(app) == Some(
            app.sessions[app.selected_session],
        ),
        app.selected_session >= app.sessions.len() ==> app::selected_name(app) is None,
{
}

/// A new viewer shows nothing, follows nothing and has the focus on the sessions.
pub proof fn a_new_viewer_is_empty()
    ensures
        ({
            let app = reached(Seq::empty());
            &&& app.sessions.len() == 0 && app.events.len() == 0 && app.rows.len() == 0
            &&& app.focus == Focus::Sessions
            &&& !app.follow && !app.should_quit
            &&& app.banner is None
            &&& app.skipped == 0 && app.next_offset == 0
            &&& app.collapsed == Set::<int>::empty()
        }),
{
}

/// Opening a group takes it out of the collapsed ones and brings back the rows of its
/// events; collapsing puts it in. Nothing else of the viewer changes with either.
pub proof fn enter_only_turns_one_group(app: AppView, g: int, collapsed: bool)
    requires
        is_settled(app),
        app.focus == Focus::Timeline,
        app.rows.len() > 0,
        app.rows[app.selected_row] == (RowView::Group { group: g, collapsed }),
    ensures
        ({
            let after = app::pressed(app, Key::Enter);
            &&& collapsed == app.collapsed.contains(g)
            &&& forall|h: int| h != g ==> (#[trigger] after.collapsed.contains(h)
                <==> app.collapsed.contains(h))
            &&& after.collapsed.contains(g) == !collapsed
            &&& collapsed ==> after.rows.len() == app.rows.len() + group_size(app.groups[g])
            &&& !collapsed ==> after.rows.len() == app.rows.len() - group_size(app.groups[g])
            &&& after == (AppView { collapsed: after.collapsed, rows: after.rows, ..app })
        }),
{
    let after = app::pressed(app, Key::Enter);
    row_laws::rows_refer_to_what_there_is(app.events, app.collapsed, app.selected_row);
    enter_turns_the_heading(app, g, collapsed);
    if collapsed {
        keys_keep_settled(app, Key::Enter);
        enter_twice_changes_nothing(app);
        collapsing_hides_the_group(after, g);
    } else {
        collapsing_hides_the_group(app, g);
    }
}

/// An error is shown in the banner and a connection that stands takes it away; neither
/// changes anything else.
pub proof fn news_of_the_connection_only_touch_the_banner(app: AppView, text: Seq<char>)
    ensures
        app::applied(app, MsgView::Error(text)) == (AppView { banner: Some(text), ..app }),
        app::applied(app, MsgView::Connected) == (AppView { banner: None, ..app }),
{
}

/// A list of sessions changes nothing but the list and the selected place.
pub proof fn a_list_of_sessions_only_touches_the_list(app: AppView, names: Seq<Seq<char>>)
    ensures
        ({
            let after = app::applied(app, MsgView::Sessions(names));
            after == (AppView {
                sessions: after.sessions,
                selected_session: after.selected_session,
                ..app
            })
        }),
{
}

/// The chosen event is that of the selected row: the event itself, or of a group its
/// call, else its response, else its result.
pub proof fn the_chosen_event_is_that_of_the_row(app: AppView)
    requires
        is_settled(app),
        app.rows.len() > 0,
    ensures
        match app.rows[app.selected_row] {
            RowView::Event(i) => app::chosen_event(app) == Some(app.events[i]),
            RowView::Group { group, .. } => {
                let g = app.groups[group];
                &&& g.call matches Some(i) ==> app::chosen_event(app) == Some(app.events[i])
                &&& g.call is None ==> (g.response matches Some(i) ==> app::chosen_event(app)
                    == Some(app.events[i]))
                &&& g.call is None && g.response is None ==> (g.result matches Some(i)
                    ==> app::chosen_event(app) == Some(app.events[i]))
            },
        },
{
    row_laws::rows_refer_to_what_there_is(app.events, app.collapsed, app.selected_row);
    if let RowView::Group { group, .. } = app.rows[app.selected_row] {
        group_laws::groups_hold_their_own_events(app.events, group);
    }
}

} // verus!
