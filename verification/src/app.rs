//! The state of the viewer, and what messages and keys do to it.
use std::collections::HashSet;
use vstd::prelude::*;

use crate::app_laws;
use crate::event;
use crate::event::decode_all;
use crate::event::AuditEvent;
use crate::event::EventView;
use crate::group;
use crate::group::group_tool_calls;
use crate::group::GroupView;
use crate::group::ToolGroup;
use crate::group_laws;
use crate::order;
use crate::order::order_and_dedup;
use crate::rows;
use crate::rows::build_rows;
use crate::rows::RowView;
use crate::sessions;
use crate::sessions::find_name;
use crate::sessions::sort_names;
use crate::text::text_eq;

pub use crate::rows::Row;

verus! {

/// The pane that keys act on.
#[derive(Debug, Clone, Copy, PartialEq, Eq, Default, Structural)]
pub enum Focus {
    #[default]
    Sessions,
    Timeline,
    Detail,
}

/// A key of the keyboard, as far as the viewer tells keys apart.
#[derive(Debug, Clone, Copy, PartialEq, Eq, Structural)]
pub enum Key {
    Char(char),
    Tab,
    Enter,
    Down,
    Up,
    PageDown,
    PageUp,
    Other,
}

/// News for the viewer.
#[derive(Debug, PartialEq, Eq)]
pub enum Msg {
    /// The names of the sessions that there are.
    Sessions(Vec<String>),
    /// Messages of a session: all of them, or those that have come since.
    Events { session: String, raw: Vec<Vec<u8>>, next_offset: u64, replace: bool },
    /// Something went wrong; the text says what.
    Error(String),
    /// The connection stands.
    Connected,
}

/// What a [`Msg`] denotes.
pub enum MsgView {
    Sessions(Seq<Seq<char>>),
    Events { session: Seq<char>, raw: Seq<Seq<u8>>, next_offset: u64, replace: bool },
    Error(Seq<char>),
    Connected,
}

impl View for Msg {
    type V = MsgView;

    open spec fn view(&self) -> MsgView {
        match self {
            Msg::Sessions(names) => MsgView::Sessions(sessions::name_views(names@)),
            Msg::Events { session, raw, next_offset, replace } => MsgView::Events {
                session: session@,
                raw: event::byte_views(raw@),
                next_offset: *next_offset,
                replace: *replace,
            },
            Msg::Error(text) => MsgView::Error(text@),
            Msg::Connected => MsgView::Connected,
        }
    }
}

/// The state of the viewer.
pub struct App {
    pub sessions: Vec<String>,
    pub selected_session: usize,
    pub events: Vec<AuditEvent>,
    pub groups: Vec<ToolGroup>,
    pub rows: Vec<Row>,
    pub selected_row: usize,
    pub detail_scroll: u16,
    pub focus: Focus,
    pub follow: bool,
    pub banner: Option<String>,
    pub skipped: usize,
    pub next_offset: u64,
    pub collapsed: HashSet<usize>,
    pub should_quit: bool,
}

/// What an [`App`] denotes.
pub struct AppView {
    pub sessions: Seq<Seq<char>>,
    pub selected_session: int,
    pub events: Seq<EventView>,
    pub groups: Seq<GroupView>,
    pub rows: Seq<RowView>,
    pub selected_row: int,
    pub detail_scroll: int,
    pub focus: Focus,
    pub follow: bool,
    pub banner: Option<Seq<char>>,
    pub skipped: int,
    pub next_offset: u64,
    pub collapsed: Set<int>,
    pub should_quit: bool,
}

impl View for App {
    type V = AppView;

    open spec fn view(&self) -> AppView {
        AppView {
            sessions: sessions::name_views(self.sessions@),
            selected_session: self.selected_session as int,
            events: event::event_views(self.events@),
            groups: group::group_views(self.groups@),
            rows: rows::row_views(self.rows@),
            selected_row: self.selected_row as int,
            detail_scroll: self.detail_scroll as int,
            focus: self.focus,
            follow: self.follow,
            banner: event::opt_text(self.banner),
            skipped: self.skipped as int,
            next_offset: self.next_offset,
            collapsed: rows::index_set(self.collapsed@),
            should_quit: self.should_quit,
        }
    }
}

/// A viewer that has not heard of anything yet.
pub open spec fn blank() -> AppView {
    AppView {
        sessions: Seq::empty(),
        selected_session: 0,
        events: Seq::empty(),
        groups: Seq::empty(),
        rows: Seq::empty(),
        selected_row: 0,
        detail_scroll: 0,
        focus: Focus::Sessions,
        follow: false,
        banner: None,
        skipped: 0,
        next_offset: 0,
        collapsed: Set::empty(),
        should_quit: false,
    }
}

/// The nearest index into a list of `len` items; zero where there are none.
pub open spec fn clamp(i: int, len: int) -> int {
    if len <= 0 {
        0
    } else if i < len {
        i
    } else {
        len - 1
    }
}

/// The number, or zero where it is negative.
pub open spec fn at_least_zero(i: int) -> int {
    if i < 0 {
        0
    } else {
        i
    }
}

/// A scroll position, held to what sixteen bits can count.
pub open spec fn scrolled(lines: int) -> int {
    if lines < 0 {
        0
    } else if lines > u16::MAX {
        u16::MAX as int
    } else {
        lines
    }
}

/// The name of the selected session.
pub open spec fn selected_name(app: AppView) -> Option<Seq<char>> {
    if 0 <= app.selected_session < app.sessions.len() {
        Some(app.sessions[app.selected_session])
    } else {
        None
    }
}

/// The item at a position, if there is one.
pub open spec fn item_at<T>(items: Seq<T>, i: int) -> Option<T> {
    if 0 <= i < items.len() {
        Some(items[i])
    } else {
        None
    }
}

/// The event that stands for a group: its call, else its response, else its
/// result.
pub open spec fn lead_event(g: GroupView) -> Option<int> {
    match g.call {
        Some(i) => Some(i),
        None => match g.response {
            Some(i) => Some(i),
            None => g.result,
        },
    }
}

/// The event of the selected row.
pub open spec fn chosen_event(app: AppView) -> Option<EventView> {
    match item_at(app.rows, app.selected_row) {
        None => None,
        Some(RowView::Event(i)) => item_at(app.events, i),
        Some(RowView::Group { group, .. }) => match item_at(app.groups, group) {
            None => None,
            Some(g) => match lead_event(g) {
                None => None,
                Some(i) => item_at(app.events, i),
            },
        },
    }
}

/// The viewer with its groups and rows laid out anew from its events.
pub open spec fn relaid(app: AppView) -> AppView {
    let groups = group::groups_of(app.events);
    let laid = rows::rows_of(groups, app.collapsed, app.events.len() as int);
    AppView {
        groups,
        rows: laid,
        selected_row: clamp(app.selected_row, laid.len() as int),
        ..app
    }
}

/// The viewer with a new list of sessions. The selected session stays selected
/// while it is still there.
pub open spec fn with_sessions(app: AppView, names: Seq<Seq<char>>) -> AppView {
    let listed = sessions::listing(names);
    let kept = match selected_name(app) {
        Some(name) => match listed.index_of_first(name) {
            Some(i) => i,
            None => app.selected_session,
        },
        None => app.selected_session,
    };
    AppView { sessions: listed, selected_session: clamp(kept, listed.len() as int), ..app }
}

/// The viewer with the messages of a batch taken in: in place of what it holds,
/// or beside it.
pub open spec fn with_batch(
    app: AppView,
    raw: Seq<Seq<u8>>,
    next_offset: u64,
    replace: bool,
) -> AppView {
    let batch = event::events_of_batch(raw);
    let known = if replace {
        Seq::empty()
    } else {
        app.events
    };
    let missed = if replace {
        0
    } else {
        app.skipped
    };
    let laid = relaid(
        AppView {
            events: order::timeline(batch + known),
            skipped: missed + (raw.len() - batch.len()),
            next_offset,
            ..app
        },
    );
    if laid.follow && laid.rows.len() > 0 {
        AppView { selected_row: laid.rows.len() - 1, ..laid }
    } else {
        laid
    }
}

/// The viewer once a message has been taken in. Events of a session other than
/// the selected one are passed over.
pub open spec fn applied(app: AppView, msg: MsgView) -> AppView {
    match msg {
        MsgView::Sessions(names) => with_sessions(app, names),
        MsgView::Events { session, raw, next_offset, replace } => if selected_name(app) == Some(
            session,
        ) {
            with_batch(app, raw, next_offset, replace)
        } else {
            app
        },
        MsgView::Error(text) => AppView { banner: Some(text), ..app },
        MsgView::Connected => AppView { banner: None, ..app },
    }
}

/// Whether the messages that are skipped can still be counted once a message has
/// been taken in.
pub open spec fn can_count(app: AppView, msg: MsgView) -> bool {
    match msg {
        MsgView::Events { session, raw, next_offset: _, replace } => selected_name(app) == Some(
            session,
        ) && !replace ==> app.skipped + raw.len() <= usize::MAX,
        _ => true,
    }
}

/// The pane after another, in the order of the `Tab` key.
pub open spec fn next_focus(focus: Focus) -> Focus {
    match focus {
        Focus::Sessions => Focus::Timeline,
        Focus::Timeline => Focus::Detail,
        Focus::Detail => Focus::Sessions,
    }
}

/// The viewer after a step of `n` down, or up where `n` is negative, in the pane
/// that has the focus.
pub open spec fn moved(app: AppView, n: int) -> AppView {
    match app.focus {
        Focus::Sessions => AppView {
            selected_session: if n < 0 {
                at_least_zero(app.selected_session + n)
            } else {
                clamp(app.selected_session + n, app.sessions.len() as int)
            },
            ..app
        },
        Focus::Timeline => AppView {
            selected_row: if n < 0 {
                at_least_zero(app.selected_row + n)
            } else {
                clamp(app.selected_row + n, app.rows.len() as int)
            },
            detail_scroll: 0,
            ..app
        },
        Focus::Detail => AppView { detail_scroll: scrolled(app.detail_scroll + n), ..app },
    }
}

/// The viewer with a group collapsed if it was open, or open if it was collapsed.
pub open spec fn toggled(app: AppView, g: int) -> AppView {
    relaid(
        AppView {
            collapsed: if app.collapsed.contains(g) {
                app.collapsed.remove(g)
            } else {
                app.collapsed.insert(g)
            },
            ..app
        },
    )
}

/// The viewer once a key has been pressed.
pub open spec fn pressed(app: AppView, key: Key) -> AppView {
    match key {
        Key::Char(c) => if c == 'q' {
            AppView { should_quit: true, ..app }
        } else if c == 'f' {
            AppView { follow: !app.follow, ..app }
        } else if c == 'j' {
            moved(app, 1)
        } else if c == 'k' {
            moved(app, -1)
        } else {
            app
        },
        Key::Tab => AppView { focus: next_focus(app.focus), ..app },
        Key::Down => moved(app, 1),
        Key::Up => moved(app, -1),
        Key::PageDown => AppView { detail_scroll: scrolled(app.detail_scroll + 10), ..app },
        Key::PageUp => AppView { detail_scroll: scrolled(app.detail_scroll - 10), ..app },
        Key::Enter => match item_at(app.rows, app.selected_row) {
            Some(RowView::Group { group, .. }) => if app.focus == Focus::Timeline {
                toggled(app, group)
            } else {
                app
            },
            _ => app,
        },
        Key::Other => app,
    }
}

/// Goes `n` down from index `i` in a list of `len` items.
fn step_down(i: usize, n: usize, len: usize) -> (j: usize)
    ensures
        j == clamp(i + n, len as int),
{
    if len == 0 {
        0
    } else if i >= len || n >= len - i {
        len - 1
    } else {
        i + n
    }
}

impl Default for App {
    fn default() -> (app: Self)
        ensures
            app@ == blank(),
    {
        let app = App {
            sessions: Vec::new(),
            selected_session: 0,
            events: Vec::new(),
            groups: Vec::new(),
            rows: Vec::new(),
            selected_row: 0,
            detail_scroll: 0,
            focus: Focus::Sessions,
            follow: false,
            banner: None,
            skipped: 0,
            next_offset: 0,
            collapsed: HashSet::new(),
            should_quit: false,
        };
        proof {
            assert(app@.sessions =~= blank().sessions);
            assert(app@.events =~= blank().events);
            assert(app@.groups =~= blank().groups);
            assert(app@.rows =~= blank().rows);
            assert(app@.collapsed =~= blank().collapsed);
        }
        app
    }
}

impl App {
    /// A viewer that has not heard of anything yet.
    pub fn new() -> (app: Self)
        ensures
            app@ == blank(),
            app_laws::is_settled(app@),
    {
        proof {
            app_laws::blank_is_settled();
        }
        App::default()
    }

    /// The name of the selected session.
    pub fn session_name(&self) -> (name: Option<&str>)
        ensures
            match name {
                Some(s) => selected_name(self@) == Some(s@),
                None => selected_name(self@) is None,
            },
    {
        if self.selected_session < self.sessions.len() {
            Some(self.sessions[self.selected_session].as_str())
        } else {
            None
        }
    }

    /// The event whose details are shown.
    pub fn selected_event(&self) -> (event: Option<&AuditEvent>)
        ensures
            match event {
                Some(e) => chosen_event(self@) == Some(e@),
                None => chosen_event(self@) is None,
            },
    {
        if self.selected_row >= self.rows.len() {
            return None;
        }
        let index: usize = match &self.rows[self.selected_row] {
            Row::Event(i) => *i,
            Row::Group { group, .. } => {
                if *group >= self.groups.len() {
                    return None;
                }
                let g = &self.groups[*group];
                match (g.call, g.response, g.result) {
                    (Some(i), _, _) => i,
                    (None, Some(i), _) => i,
                    (None, None, Some(i)) => i,
                    (None, None, None) => {
                        return None;
                    },
                }
            },
        };
        if index < self.events.len() {
            Some(&self.events[index])
        } else {
            None
        }
    }

    /// Lays out groups and rows anew.
    fn rebuild_rows(&mut self)
        ensures
            final(self)@ == relaid(old(self)@),
    {
        self.groups = group_tool_calls(&self.events);
        proof {
            rows::groups_of_within(self@.events);
            group_laws::groups_are_disjoint(self@.events);
        }
        self.rows = build_rows(&self.groups, self.events.len(), &self.collapsed);
        self.selected_row = step_down(self.selected_row, 0, self.rows.len());
    }

    /// Takes in a message.
    pub fn apply(&mut self, msg: Msg)
        requires
            can_count(old(self)@, msg@),
        ensures
            final(self)@ == applied(old(self)@, msg@),
            app_laws::is_settled(old(self)@) ==> app_laws::is_settled(final(self)@),
    {
        proof {
            if app_laws::is_settled(self@) {
                app_laws::messages_keep_settled(self@, msg@);
            }
        }
        match msg {
            Msg::Sessions(names) => {
                let listed = sort_names(names);
                if self.selected_session < self.sessions.len() {
                    let current = self.sessions[self.selected_session].as_str();
                    if let Some(i) = find_name(&listed, current) {
                        self.selected_session = i;
                    }
                }
                self.selected_session = step_down(self.selected_session, 0, listed.len());
                self.sessions = listed;
            },
            Msg::Events { session, raw, next_offset, replace } => {
                let ghost before = self@;
                let wanted = match self.session_name() {
                    Some(name) => text_eq(name, session.as_str()),
                    None => false,
                };
                if !wanted {
                    return;
                }
                let (mut events, stats) = decode_all(&raw);
                let ghost batch = events@;
                if replace {
                    self.skipped = stats.skipped;
                    proof {
                        assert(event::event_views(batch) + Seq::<EventView>::empty()
                            =~= event::event_views(batch));
                    }
                } else {
                    self.skipped = self.skipped + stats.skipped;
                    events.append(&mut self.events);
                    proof {
                        assert(event::event_views(events@) =~= event::event_views(batch)
                            + before.events);
                    }
                }
                self.events = order_and_dedup(events);
                self.next_offset = next_offset;
                self.rebuild_rows();
                if self.follow && self.rows.len() > 0 {
                    self.selected_row = self.rows.len() - 1;
                }
            },
            Msg::Error(text) => {
                self.banner = Some(text);
            },
            Msg::Connected => {
                self.banner = None;
            },
        }
    }

    /// Acts on a key.
    pub fn on_key(&mut self, key: Key)
        ensures
            final(self)@ == pressed(old(self)@, key),
            app_laws::is_settled(old(self)@) ==> app_laws::is_settled(final(self)@),
    {
        proof {
            if app_laws::is_settled(self@) {
                app_laws::keys_keep_settled(self@, key);
            }
        }
        match key {
            Key::Char(c) => {
                if c == 'q' {
                    self.should_quit = true;
                } else if c == 'f' {
                    self.follow = !self.follow;
                } else if c == 'j' {
                    self.move_down();
                } else if c == 'k' {
                    self.move_up();
                }
            },
            Key::Tab => {
                self.focus = match self.focus {
                    Focus::Sessions => Focus::Timeline,
                    Focus::Timeline => Focus::Detail,
                    Focus::Detail => Focus::Sessions,
                };
            },
            Key::Down => self.move_down(),
            Key::Up => self.move_up(),
            Key::PageDown => {
                self.detail_scroll = self.detail_scroll.saturating_add(10);
            },
            Key::PageUp => {
                self.detail_scroll = self.detail_scroll.saturating_sub(10);
            },
            Key::Enter => {
                if self.focus == Focus::Timeline && self.selected_row < self.rows.len() {
                    if let Row::Group { group, .. } = self.rows[self.selected_row] {
                        self.toggle(group);
                    }
                }
            },
            Key::Other => {},
        }
    }

    /// Collapses or opens a group.
    fn toggle(&mut self, group: usize)
        ensures
            final(self)@ == toggled(old(self)@, group as int),
    {
        broadcast use vstd::std_specs::hash::group_hash_axioms;

        let ghost before = self@.collapsed;
        if !self.collapsed.remove(&group) {
            self.collapsed.insert(group);
        }
        proof {
            assert(self@.collapsed =~= if before.contains(group as int) {
                before.remove(group as int)
            } else {
                before.insert(group as int)
            });
        }
        self.rebuild_rows();
    }

    /// Goes one down in the pane that has the focus.
    fn move_down(&mut self)
        ensures
            final(self)@ == moved(old(self)@, 1),
    {
        match self.focus {
            Focus::Sessions => {
                self.selected_session = step_down(self.selected_session, 1, self.sessions.len());
            },
            Focus::Timeline => {
                self.selected_row = step_down(self.selected_row, 1, self.rows.len());
                self.detail_scroll = 0;
            },
            Focus::Detail => {
                self.detail_scroll = self.detail_scroll.saturating_add(1);
            },
        }
    }

    /// Goes one up in the pane that has the focus.
    fn move_up(&mut self)
        ensures
            final(self)@ == moved(old(self)@, -1),
    {
        match self.focus {
            Focus::Sessions => {
                self.selected_session = self.selected_session.saturating_sub(1);
            },
            Focus::Timeline => {
                self.selected_row = self.selected_row.saturating_sub(1);
                self.detail_scroll = 0;
            },
            Focus::Detail => {
                self.detail_scroll = self.detail_scroll.saturating_sub(1);
            },
        }
    }
}

} // verus!
