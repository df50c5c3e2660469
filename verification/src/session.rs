//! The network side of the viewer, as decisions: what to ask the server next,
//! what to tell the viewer, and when to connect anew.
use vstd::prelude::*;

use crate::app::Msg;
use crate::app::MsgView;
use crate::backoff;
use crate::backoff::next_backoff;
use crate::backoff::Delay;
use crate::cli::Cli;
use crate::event;
use crate::iggy;
use crate::iggy::Fetched;
use crate::sessions;
use crate::text;
use crate::text::decimal_text;
use crate::text::text_eq;

verus! {

/// Seconds between two readings of the list of sessions.
pub const SESSIONS_EVERY_SECS: u64 = 5;

/// Milliseconds between two looks at the selected session.
pub const FOLLOW_EVERY_MILLIS: u64 = 500;

/// Seconds that a single request may take.
pub const CALL_TIMEOUT_SECS: u64 = 3;

/// Why a session with the server ended.
#[derive(Debug, Clone, Copy, PartialEq, Eq, Structural)]
pub enum LoopExit {
    /// Connect anew.
    Reconnect,
    /// The viewer is gone.
    Shutdown,
}

/// What can happen while the viewer is connected.
pub enum Event {
    /// It is time to read the list of sessions.
    SessionsDue,
    /// The server has answered with the list of sessions.
    Listed(Result<Vec<String>, String>),
    /// It is time to look at the selected session, which may have to be followed.
    FollowDue { selected: Option<String>, follow: bool },
    /// The server has answered with all messages of a session.
    Loaded { session: String, fetched: Fetched },
    /// The server has answered with the messages of a session that have come
    /// since.
    Followed { session: String, fetched: Fetched },
    /// The selection may have changed; the viewer may be gone.
    SelectionChanged { open: bool },
}

/// What is to be done next.
#[derive(Debug, PartialEq, Eq)]
pub enum Action {
    /// Wait for what happens next.
    Wait,
    /// Ask for the list of sessions.
    ListSessions,
    /// Ask for all messages of a session.
    LoadAll { session: String },
    /// Ask for the messages of a session from an offset on.
    FetchFrom { session: String, offset: u64 },
    /// Tell the viewer.
    Send(Msg),
    /// Tell the viewer, and end the session with the server.
    SendAndExit(Msg, LoopExit),
    /// End the session with the server.
    Exit(LoopExit),
}

/// What an [`Event`] denotes.
pub enum EventView {
    SessionsDue,
    Listed(Result<Seq<Seq<char>>, Seq<char>>),
    FollowDue { selected: Option<Seq<char>>, follow: bool },
    Loaded { session: Seq<char>, fetched: Result<(Seq<Seq<u8>>, u64), Seq<char>> },
    Followed { session: Seq<char>, fetched: Result<(Seq<Seq<u8>>, u64), Seq<char>> },
    SelectionChanged { open: bool },
}

/// What an [`Action`] denotes.
pub enum ActionView {
    Wait,
    ListSessions,
    LoadAll { session: Seq<char> },
    FetchFrom { session: Seq<char>, offset: u64 },
    Send(MsgView),
    SendAndExit(MsgView, LoopExit),
    Exit(LoopExit),
}

impl View for Event {
    type V = EventView;

    open spec fn view(&self) -> EventView {
        match self {
            Event::SessionsDue => EventView::SessionsDue,
            Event::Listed(Ok(names)) => EventView::Listed(Ok(sessions::name_views(names@))),
            Event::Listed(Err(reason)) => EventView::Listed(Err(reason@)),
            Event::FollowDue { selected, follow } => EventView::FollowDue {
                selected: event::opt_text(*selected),
                follow: *follow,
            },
            Event::Loaded { session, fetched } => EventView::Loaded {
                session: session@,
                fetched: iggy::fetched_view(*fetched),
            },
            Event::Followed { session, fetched } => EventView::Followed {
                session: session@,
                fetched: iggy::fetched_view(*fetched),
            },
            Event::SelectionChanged { open } => EventView::SelectionChanged { open: *open },
        }
    }
}

impl View for Action {
    type V = ActionView;

    open spec fn view(&self) -> ActionView {
        match self {
            Action::Wait => ActionView::Wait,
            Action::ListSessions => ActionView::ListSessions,
            Action::LoadAll { session } => ActionView::LoadAll { session: session@ },
            Action::FetchFrom { session, offset } => ActionView::FetchFrom {
                session: session@,
                offset: *offset,
            },
            Action::Send(msg) => ActionView::Send(msg@),
            Action::SendAndExit(msg, exit) => ActionView::SendAndExit(msg@, *exit),
            Action::Exit(exit) => ActionView::Exit(*exit),
        }
    }
}

/// What is known of the server's sessions while connected: the session that was
/// loaded last, and where to read on.
pub struct Session {
    pub loaded: Option<(String, u64)>,
}

/// What the loaded session denotes.
pub open spec fn loaded_view(loaded: Option<(String, u64)>) -> Option<(Seq<char>, u64)> {
    match loaded {
        Some((session, offset)) => Some((session@, offset)),
        None => None,
    }
}

impl View for Session {
    type V = Option<(Seq<char>, u64)>;

    open spec fn view(&self) -> Option<(Seq<char>, u64)> {
        loaded_view(self.loaded)
    }
}

/// Report a failure and connect anew.
pub open spec fn give_up(what: Seq<char>, reason: Seq<char>) -> ActionView {
    ActionView::SendAndExit(MsgView::Error(what + reason), LoopExit::Reconnect)
}

/// The loaded session after an event, and what is to be done.
pub open spec fn decided(loaded: Option<(Seq<char>, u64)>, happened: EventView) -> (
    Option<(Seq<char>, u64)>,
    ActionView,
) {
    match happened {
        EventView::SessionsDue => (loaded, ActionView::ListSessions),
        EventView::Listed(Ok(names)) => (loaded, ActionView::Send(MsgView::Sessions(names))),
        EventView::Listed(Err(reason)) => (loaded, give_up("一覧取得に失敗: "@, reason)),
        EventView::FollowDue { selected: None, follow: _ } => (loaded, ActionView::Wait),
        EventView::FollowDue { selected: Some(session), follow } => match loaded {
            Some((known, offset)) => if known != session {
                (loaded, ActionView::LoadAll { session })
            } else if follow {
                (loaded, ActionView::FetchFrom { session, offset })
            } else {
                (loaded, ActionView::Wait)
            },
            None => (loaded, ActionView::LoadAll { session }),
        },
        EventView::Loaded { session, fetched: Ok((raw, next)) } => (
            Some((session, next)),
            ActionView::Send(
                MsgView::Events { session, raw, next_offset: next, replace: true },
            ),
        ),
        EventView::Loaded { session: _, fetched: Err(reason) } => (
            loaded,
            give_up("読み込みに失敗: "@, reason),
        ),
        EventView::Followed { session, fetched: Ok((raw, next)) } => if raw.len() == 0 {
            (loaded, ActionView::Wait)
        } else {
            (
                Some((session, next)),
                ActionView::Send(
                    MsgView::Events { session, raw, next_offset: next, replace: false },
                ),
            )
        },
        EventView::Followed { session: _, fetched: Err(reason) } => (
            loaded,
            give_up("追尾に失敗: "@, reason),
        ),
        EventView::SelectionChanged { open } => if open {
            (loaded, ActionView::Wait)
        } else {
            (loaded, ActionView::Exit(LoopExit::Shutdown))
        },
    }
}

fn failure(what: &str, reason: &String) -> (action: Action)
    ensures
        action@ == give_up(what@, reason@),
{
    let mut text = what.to_string();
    text.append(reason.as_str());
    Action::SendAndExit(Msg::Error(text), LoopExit::Reconnect)
}

impl Session {
    /// A connection over which nothing has been read.
    pub fn new() -> (session: Self)
        ensures
            session@ is None,
    {
        Session { loaded: None }
    }

    /// Decides what is to be done about an event.
    pub fn step(&mut self, happened: Event) -> (action: Action)
        ensures
            (final(self)@, action@) == decided(old(self)@, happened@),
    {
        match happened {
            Event::SessionsDue => Action::ListSessions,
            Event::Listed(Ok(names)) => Action::Send(Msg::Sessions(names)),
            Event::Listed(Err(reason)) => failure("一覧取得に失敗: ", &reason),
            Event::FollowDue { selected, follow } => match selected {
                None => Action::Wait,
                Some(session) => self.look(session, follow),
            },
            Event::Loaded { session, fetched } => match fetched {
                Ok((raw, next)) => {
                    self.loaded = Some((session.clone(), next));
                    Action::Send(Msg::Events { session, raw, next_offset: next, replace: true })
                },
                Err(reason) => failure("読み込みに失敗: ", &reason),
            },
            Event::Followed { session, fetched } => match fetched {
                Ok((raw, next)) => if raw.len() == 0 {
                    Action::Wait
                } else {
                    self.loaded = Some((session.clone(), next));
                    Action::Send(Msg::Events { session, raw, next_offset: next, replace: false })
                },
                Err(reason) => failure("追尾に失敗: ", &reason),
            },
            Event::SelectionChanged { open } => if open {
                Action::Wait
            } else {
                Action::Exit(LoopExit::Shutdown)
            },
        }
    }

    /// Decides how to read the selected session: all of it where another was
    /// loaded last, what is new where it is followed.
    fn look(&self, session: String, follow: bool) -> (action: Action)
        ensures
            (self@, action@) == decided(
                self@,
                EventView::FollowDue { selected: Some(session@), follow },
            ),
    {
        match &self.loaded {
            Some((known, offset)) => if !text_eq(known.as_str(), session.as_str()) {
                Action::LoadAll { session }
            } else if follow {
                Action::FetchFrom { session, offset: *offset }
            } else {
                Action::Wait
            },
            None => Action::LoadAll { session },
        }
    }
}

/// What a connection is opened with.
pub struct Target {
    pub addr: String,
    pub stream: String,
    pub pat: String,
    pub tls: bool,
}

impl Target {
    /// The server and the stream of the command line, with an access token.
    pub fn of(cli: Cli, pat: String) -> (target: Self)
        ensures
            target == (Target { addr: cli.iggy_addr, stream: cli.stream, pat, tls: cli.tls }),
    {
        Target { addr: cli.iggy_addr, stream: cli.stream, pat, tls: cli.tls }
    }
}

/// How the attempt to connect, or the session after it, went.
pub enum LinkEvent {
    /// The server cannot be reached; the text says why.
    Failed(String),
    /// The connection stands.
    Established,
    /// The session over the connection ended.
    Ended(LoopExit),
}

/// What is to be done about the connection.
#[derive(Debug, PartialEq, Eq)]
pub enum LinkAction {
    /// Tell the viewer, wait, and connect anew.
    RetryAfter(Msg, Delay),
    /// Tell the viewer, and read sessions over the connection.
    Serve(Msg),
    /// Connect anew.
    Connect,
    /// Be done.
    Stop,
}

/// The wait before the next attempt to connect.
pub struct Link {
    pub backoff: Delay,
}

/// The report of a failure to connect.
pub open spec fn unreachable_line(reason: Seq<char>, secs: u64) -> Seq<char> {
    "Iggyに接続できません: "@ + reason + "（"@ + text::decimal(secs as nat)
        + "秒後に再試行）"@
}

/// What a [`LinkEvent`] denotes.
pub enum LinkEventView {
    Failed(Seq<char>),
    Established,
    Ended(LoopExit),
}

/// What a [`LinkAction`] denotes.
pub enum LinkActionView {
    RetryAfter(MsgView, Delay),
    Serve(MsgView),
    Connect,
    Stop,
}

impl View for LinkEvent {
    type V = LinkEventView;

    open spec fn view(&self) -> LinkEventView {
        match self {
            LinkEvent::Failed(reason) => LinkEventView::Failed(reason@),
            LinkEvent::Established => LinkEventView::Established,
            LinkEvent::Ended(exit) => LinkEventView::Ended(*exit),
        }
    }
}

impl View for LinkAction {
    type V = LinkActionView;

    open spec fn view(&self) -> LinkActionView {
        match self {
            LinkAction::RetryAfter(msg, delay) => LinkActionView::RetryAfter(msg@, *delay),
            LinkAction::Serve(msg) => LinkActionView::Serve(msg@),
            LinkAction::Connect => LinkActionView::Connect,
            LinkAction::Stop => LinkActionView::Stop,
        }
    }
}

/// The length of the next wait after an event of the connection, and what is to be
/// done.
pub open spec fn link_decided(wait: Delay, happened: LinkEventView) -> (int, LinkActionView) {
    match happened {
        LinkEventView::Failed(reason) => (
            backoff::next_length(wait.length()),
            LinkActionView::RetryAfter(
                MsgView::Error(unreachable_line(reason, wait.secs)),
                wait,
            ),
        ),
        LinkEventView::Established => (
            backoff::length_after(0),
            LinkActionView::Serve(MsgView::Connected),
        ),
        LinkEventView::Ended(exit) => (
            wait.length(),
            match exit {
                LoopExit::Reconnect => LinkActionView::Connect,
                LoopExit::Shutdown => LinkActionView::Stop,
            },
        ),
    }
}

impl Link {
    /// Whether the wait is one that failures lead to.
    pub open spec fn is_valid(self) -> bool {
        self.backoff.is_valid() && self.backoff.length() <= backoff::LONGEST_SECS
            * backoff::NANOS_PER_SEC
    }

    /// Nothing has failed yet.
    pub fn new() -> (link: Self)
        ensures
            link.is_valid(),
            link.backoff.length() == backoff::length_after(0),
    {
        Link { backoff: Delay::from_secs(1) }
    }

    /// Decides what is to be done about the connection. Each failure makes the
    /// next wait longer; a connection that stands makes it one second again.
    pub fn step(&mut self, happened: LinkEvent) -> (action: LinkAction)
        requires
            old(self).is_valid(),
        ensures
            final(self).is_valid(),
            (final(self).backoff.length(), action@) == link_decided(old(self).backoff, happened@),
            match happened {
                LinkEvent::Failed(reason) => {
                    &&& action matches LinkAction::RetryAfter(msg, delay)
                    &&& delay == old(self).backoff
                    &&& msg@ == MsgView::Error(unreachable_line(reason@, old(self).backoff.secs))
                    &&& final(self).backoff.length() == backoff::next_length(
                        old(self).backoff.length(),
                    )
                },
                LinkEvent::Established => {
                    &&& action matches LinkAction::Serve(msg)
                    &&& msg@ == MsgView::Connected
                    &&& final(self).backoff.length() == backoff::length_after(0)
                },
                LinkEvent::Ended(LoopExit::Reconnect) => action == LinkAction::Connect
                    && final(self).backoff == old(self).backoff,
                LinkEvent::Ended(LoopExit::Shutdown) => action == LinkAction::Stop
                    && final(self).backoff == old(self).backoff,
            },
    {
        match happened {
            LinkEvent::Failed(reason) => {
                let delay = self.backoff;
                let mut line = "Iggyに接続できません: ".to_string();
                line.append(reason.as_str());
                line.append("（");
                line.append(decimal_text(delay.as_secs()).as_str());
                line.append("秒後に再試行）");
                self.backoff = next_backoff(delay);
                LinkAction::RetryAfter(Msg::Error(line), delay)
            },
            LinkEvent::Established => {
                self.backoff = Delay::from_secs(1);
                LinkAction::Serve(Msg::Connected)
            },
            LinkEvent::Ended(exit) => match exit {
                LoopExit::Reconnect => LinkAction::Connect,
                LoopExit::Shutdown => LinkAction::Stop,
            },
        }
    }
}

} // verus!
