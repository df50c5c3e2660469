//! The turns of the viewer: messages, a key, and what to tell the network side.
use vstd::prelude::*;

use crate::app;
use crate::app::App;
use crate::app::AppView;
use crate::app::Key;
use crate::app::Msg;
use crate::app::MsgView;
use crate::app_laws;
use crate::event;
use crate::text::text_eq;

verus! {

/// What happens to a key.
#[derive(Debug, Clone, Copy, PartialEq, Eq, Structural)]
pub enum KeyKind {
    Press,
    Repeat,
    Release,
}

/// What the terminal reports.
#[derive(Debug, Clone, Copy, PartialEq, Eq, Structural)]
pub enum TermEvent {
    /// Something happens to a key.
    Key { key: Key, kind: KeyKind },
    /// Anything else: a new size, the mouse, the focus.
    Other,
}

/// The key that is pressed, if one is.
pub open spec fn pressed_key(ev: TermEvent) -> Option<Key> {
    match ev {
        TermEvent::Key { key, kind: KeyKind::Press } => Some(key),
        _ => None,
    }
}

/// Picks out the keys that are pressed.
pub fn classify_key(ev: TermEvent) -> (key: Option<Key>)
    ensures
        key == pressed_key(ev),
        key == match ev {
            TermEvent::Key { key, kind: KeyKind::Press } => Some(key),
            _ => None,
        },
{
    match ev {
        TermEvent::Key { key, kind } => if kind == KeyKind::Press {
            Some(key)
        } else {
            None
        },
        TermEvent::Other => None,
    }
}

/// What the network side needs to know: the selected session, and whether to
/// follow it.
#[derive(Debug, PartialEq, Eq)]
pub struct Selection {
    pub session: Option<String>,
    pub follow: bool,
}

/// What a [`Selection`] denotes.
pub struct SelectionView {
    pub session: Option<Seq<char>>,
    pub follow: bool,
}

impl View for Selection {
    type V = SelectionView;

    open spec fn view(&self) -> SelectionView {
        SelectionView { session: event::opt_text(self.session), follow: self.follow }
    }
}

/// The selection of the viewer.
pub open spec fn selection_of(app: AppView) -> SelectionView {
    SelectionView { session: app::selected_name(app), follow: app.follow }
}

/// What a selection that may have to be told denotes.
pub open spec fn news_view(news: Option<Selection>) -> Option<SelectionView> {
    match news {
        Some(selection) => Some(selection@),
        None => None,
    }
}

/// The selection to tell the network side, which was told another or the same before.
pub open spec fn news_of(app: AppView, told: SelectionView) -> Option<SelectionView> {
    if selection_of(app) == told {
        None
    } else {
        Some(selection_of(app))
    }
}

/// The selection to tell the network side: that of the viewer where it is not the
/// one last told.
pub fn changed_selection(app: &App, told: &Selection) -> (news: Option<Selection>)
    ensures
        news_view(news) == news_of(app@, told@),
        news is Some <==> selection_of(app@) != told@,
        news matches Some(s) ==> s@ == selection_of(app@),
{
    let name = app.session_name();
    let same = match (&name, &told.session) {
        (Some(a), Some(b)) => text_eq(a, b.as_str()),
        (None, None) => true,
        _ => false,
    };
    if same && app.follow == told.follow {
        return None;
    }
    let session = match name {
        Some(s) => Some(s.to_string()),
        None => None,
    };
    Some(Selection { session, follow: app.follow })
}

/// The messages that a list denotes.
pub open spec fn msg_views(msgs: Seq<Msg>) -> Seq<MsgView> {
    msgs.map_values(|m: Msg| m@)
}

/// The viewer once messages have been taken in, one after the other.
pub open spec fn all_applied(app: AppView, msgs: Seq<MsgView>) -> AppView
    decreases msgs.len(),
{
    if msgs.len() == 0 {
        app
    } else {
        app::applied(all_applied(app, msgs.drop_last()), msgs.last())
    }
}

/// How many server messages the news carries.
pub open spec fn raw_count(msgs: Seq<MsgView>) -> int
    decreases msgs.len(),
{
    if msgs.len() == 0 {
        0
    } else {
        raw_count(msgs.drop_last()) + match msgs.last() {
            MsgView::Events { session: _, raw, next_offset: _, replace: _ } => raw.len() as int,
            _ => 0,
        }
    }
}

/// The news of a prefix carries no more than the whole.
proof fn raw_count_grows(msgs: Seq<MsgView>, k: int)
    requires
        0 <= k <= msgs.len(),
    ensures
        0 <= raw_count(msgs.take(k)) <= raw_count(msgs),
    decreases msgs.len(),
{
    if k < msgs.len() {
        raw_count_grows(msgs.drop_last(), k);
        assert(msgs.drop_last().take(k) =~= msgs.take(k));
    } else {
        assert(msgs.take(k) =~= msgs);
        if k > 0 {
            raw_count_grows(msgs.drop_last(), k - 1);
        }
    }
}

/// A message adds no more to the count of skipped messages than it carries.
proof fn skipped_grows_slowly(app: AppView, msg: MsgView)
    requires
        app.skipped >= 0,
    ensures
        0 <= app::applied(app, msg).skipped <= app.skipped + raw_count(seq![msg]),
{
    assert(seq![msg].drop_last() =~= Seq::<MsgView>::empty());
    assert(seq![msg].last() == msg);
    reveal_with_fuel(raw_count, 2);
    if let MsgView::Events { raw, .. } = msg {
        event::events_of_batch_len(raw);
    }
}

/// Takes in the messages that have come, one after the other.
pub fn drain_messages(app: &mut App, msgs: Vec<Msg>)
    requires
        old(app).skipped + raw_count(msg_views(msgs@)) <= usize::MAX,
    ensures
        final(app)@ == all_applied(old(app)@, msg_views(msgs@)),
{
    let ghost start = app@;
    let ghost all = msg_views(msgs@);
    proof {
        assert(all.take(0) =~= Seq::empty());
    }
    for msg in it: msgs
        invariant
            all == msg_views(it.seq()),
            app@ == all_applied(start, all.take(it.index() as int)),
            0 <= app@.skipped <= start.skipped + raw_count(all.take(it.index() as int)),
            start.skipped + raw_count(all) <= usize::MAX,
    {
        let ghost i = it.index() as int;
        proof {
            assert(it.seq()[i] == msg);
            assert(all[i] == msg@);
            assert(all.take(i + 1).drop_last() =~= all.take(i));
            assert(all.take(i + 1).last() == msg@);
            raw_count_grows(all, i + 1);
            skipped_grows_slowly(app@, msg@);
            assert(seq![msg@].drop_last() =~= Seq::<MsgView>::empty());
            assert(seq![msg@].last() == msg@);
            reveal_with_fuel(raw_count, 2);
        }
        app.apply(msg);
    }
    proof {
        assert(all.take(all.len() as int) =~= all);
    }
}

/// What comes of a turn: a selection to tell the network side, and whether the
/// viewer is done.
pub struct Turn {
    pub news: Option<Selection>,
    pub quit: bool,
}

/// The viewer once a key has been pressed, if one was.
pub open spec fn maybe_pressed(app: AppView, key: Option<Key>) -> AppView {
    match key {
        Some(key) => app::pressed(app, key),
        None => app,
    }
}

/// The viewer after a turn, what to tell the network side, and whether the viewer is
/// done.
pub open spec fn turn_of(
    app: AppView,
    msgs: Seq<MsgView>,
    key: Option<Key>,
    told: SelectionView,
) -> (AppView, Option<SelectionView>, bool) {
    let after = maybe_pressed(all_applied(app, msgs), key);
    (after, news_of(after, told), after.should_quit)
}

/// Takes a turn: first the messages that have come, then the key, if one was
/// pressed.
pub fn take_turn(app: &mut App, msgs: Vec<Msg>, key: Option<Key>, told: &Selection) -> (turn: Turn)
    requires
        old(app).skipped + raw_count(msg_views(msgs@)) <= usize::MAX,
    ensures
        (final(app)@, news_view(turn.news), turn.quit) == turn_of(
            old(app)@,
            msg_views(msgs@),
            key,
            told@,
        ),
        final(app)@ == maybe_pressed(all_applied(old(app)@, msg_views(msgs@)), key),
        turn.quit == final(app)@.should_quit,
        turn.news is Some <==> selection_of(final(app)@) != told@,
        turn.news matches Some(s) ==> s@ == selection_of(final(app)@),
{
    drain_messages(app, msgs);
    if let Some(key) = key {
        app.on_key(key);
    }
    Turn { news: changed_selection(app, told), quit: app.should_quit }
}

/// Messages and keys leave the viewer settled, however many there are.
pub proof fn turns_keep_settled(app: AppView, msgs: Seq<MsgView>, key: Option<Key>)
    requires
        app_laws::is_settled(app),
    ensures
        app_laws::is_settled(maybe_pressed(all_applied(app, msgs), key)),
    decreases msgs.len(),
{
    if msgs.len() > 0 {
        turns_keep_settled(app, msgs.drop_last(), None);
        app_laws::messages_keep_settled(all_applied(app, msgs.drop_last()), msgs.last());
    }
    if let Some(k) = key {
        app_laws::keys_keep_settled(all_applied(app, msgs), k);
    }
}

/// Messages are taken in one after the other: two lists in turn as one list, a single
/// message by itself, and no messages change nothing.
pub proof fn messages_are_taken_in_turn(app: AppView, a: Seq<MsgView>, b: Seq<MsgView>, msg: MsgView)
    ensures
        all_applied(app, a + b) == all_applied(all_applied(app, a), b),
        all_applied(app, seq![msg]) == app::applied(app, msg),
        all_applied(app, Seq::empty()) == app,
    decreases b.len(),
{
    reveal_with_fuel(all_applied, 2);
    assert(seq![msg].drop_last() =~= Seq::<MsgView>::empty());
    assert(seq![msg].last() == msg);
    if b.len() == 0 {
        assert(a + b =~= a);
    } else {
        messages_are_taken_in_turn(app, a, b.drop_last(), msg);
        assert((a + b).drop_last() =~= a + b.drop_last());
        assert((a + b).last() == b.last());
    }
}

/// The network side is told the session at the selected place, and whether the viewer
/// follows it.
pub proof fn the_selection_is_what_is_selected(app: AppView)
    ensures
        selection_of(app).follow == app.follow,
        0 <= app.selected_session < app.sessions.len() ==> selection_of(app).session == Some(
            app.sessions[app.selected_session],
        ),
        app.selected_session >= app.sessions.len() ==> selection_of(app).session is None,
{
}

/// A key is pressed after the messages have been taken in; without one nothing more
/// happens.
pub proof fn a_key_comes_after_the_messages(app: AppView, key: Key)
    ensures
        maybe_pressed(app, Some(key)) == app::pressed(app, key),
        maybe_pressed(app, None) == app,
{
}

/// Only keys that are pressed count: not those that are held or let go, nor anything
/// else that the terminal reports.
pub proof fn only_pressed_keys_count(key: Key)
    ensures
        pressed_key(TermEvent::Key { key, kind: KeyKind::Press }) == Some(key),
        pressed_key(TermEvent::Key { key, kind: KeyKind::Repeat }) is None,
        pressed_key(TermEvent::Key { key, kind: KeyKind::Release }) is None,
        pressed_key(TermEvent::Other) is None,
{
}

/// The network side is told of a selection just where the session or the following
/// differs from what it was told last, and then of both as they are.
pub proof fn only_a_changed_selection_is_told(app: AppView, told: SelectionView)
    requires
        0 <= app.selected_session < app.sessions.len(),
    ensures
        ({
            let name = app.sessions[app.selected_session];
            let same = told.session == Some(name) && told.follow == app.follow;
            &&& same ==> news_of(app, told) is None
            &&& !same ==> (news_of(app, told) matches Some(news) && news.session == Some(name)
                && news.follow == app.follow)
        }),
{
}

/// A turn takes in the messages before the key, tells the selection as it is after both,
/// and ends the viewer where it was to quit.
pub proof fn a_turn_takes_messages_before_the_key(
    app: AppView,
    msg: MsgView,
    key: Key,
    told: SelectionView,
)
    ensures
        ({
            let after = app::pressed(app::applied(app, msg), key);
            &&& turn_of(app, seq![msg], Some(key), told).0 == after
            &&& turn_of(app, seq![msg], None, told).0 == app::applied(app, msg)
            &&& turn_of(app, Seq::empty(), Some(key), told).0 == app::pressed(app, key)
            &&& turn_of(app, seq![msg], Some(key), told).1 == news_of(after, told)
            &&& turn_of(app, seq![msg], Some(key), told).2 == after.should_quit
        }),
{
    messages_are_taken_in_turn(app, Seq::empty(), Seq::empty(), msg);
}

} // verus!
