//! What holds of the decisions on the network side.
use vstd::prelude::*;

use crate::app;
use crate::app::AppView;
use crate::app::MsgView;
use crate::app_laws;
use crate::backoff;
use crate::backoff::Delay;
use crate::event;
use crate::order;
use crate::order_laws;
use crate::session;
use crate::session::ActionView;
use crate::session::EventView;
use crate::session::LinkActionView;
use crate::session::LinkEventView;
use crate::session::LoopExit;

verus! {

/// Messages are asked for from the offset at which the reading of that session
/// stopped, and never of a session that was not loaded.
pub proof fn following_reads_on_where_it_stopped(
    loaded: Option<(Seq<char>, u64)>,
    happened: EventView,
    session: Seq<char>,
    offset: u64,
)
    requires
        session::decided(loaded, happened).1 == (ActionView::FetchFrom { session, offset }),
    ensures
        loaded == Some((session, offset)),
{
}

/// The offset that is kept is the one that the viewer is told with the messages,
/// and it changes with nothing else.
pub proof fn the_offset_is_what_the_viewer_was_told(
    loaded: Option<(Seq<char>, u64)>,
    happened: EventView,
)
    ensures
        match session::decided(loaded, happened) {
            (
                after,
                ActionView::Send(MsgView::Events { session, raw: _, next_offset, replace: _ }),
            ) => after == Some((session, next_offset)),
            (after, _) => after == loaded,
        },
{
}

/// A session with the server ends only where a request failed, which is reported
/// and leads to a new connection, or where the viewer is gone.
pub proof fn only_failure_or_departure_ends_a_session(
    loaded: Option<(Seq<char>, u64)>,
    happened: EventView,
)
    ensures
        match session::decided(loaded, happened).1 {
            ActionView::SendAndExit(msg, exit) => {
                &&& msg is Error
                &&& exit == LoopExit::Reconnect
                &&& match happened {
                    EventView::Listed(answer) => answer is Err,
                    EventView::Loaded { session: _, fetched } => fetched is Err,
                    EventView::Followed { session: _, fetched } => fetched is Err,
                    _ => false,
                }
            },
            ActionView::Exit(exit) => exit == LoopExit::Shutdown
                && happened == (EventView::SelectionChanged { open: false }),
            _ => true,
        },
{
}

/// A session that is selected anew is loaded from its beginning before it is
/// followed.
pub proof fn another_session_is_loaded_first(
    loaded: Option<(Seq<char>, u64)>,
    session: Seq<char>,
    follow: bool,
)
    requires
        loaded matches Some((known, _)) ==> known != session,
    ensures
        session::decided(
            loaded,
            EventView::FollowDue { selected: Some(session), follow },
        ).1 == (ActionView::LoadAll { session }),
{
}

/// What the network side sends brings the viewer to the timeline of everything
/// that was read: first all messages of a session, then those that came since.
/// This holds where messages that agree in run and sequence number spell the same
/// event.
pub proof fn the_viewer_shows_what_was_read(
    app: AppView,
    loaded: Option<(Seq<char>, u64)>,
    session: Seq<char>,
    first: Seq<Seq<u8>>,
    offset: u64,
    later: Seq<Seq<u8>>,
    next: u64,
)
    requires
        app::selected_name(app) == Some(session),
        later.len() > 0,
        order_laws::consistent(event::events_of_batch(first + later)),
    ensures
        ({
            let (after_load, told) = session::decided(
                loaded,
                EventView::Loaded { session, fetched: Ok((first, offset)) },
            );
            let (after_follow, told_later) = session::decided(
                after_load,
                EventView::Followed { session, fetched: Ok((later, next)) },
            );
            let shown = app::applied(app::applied(app, told->Send_0), told_later->Send_0);
            &&& told is Send
            &&& told_later is Send
            &&& shown.events == order::timeline(event::events_of_batch(first + later))
            &&& shown.next_offset == next
            &&& after_follow == Some((session, next))
        }),
{
    app_laws::following_equals_loading_at_once(app, session, first, later, offset, next);
    app_laws::a_full_load_starts_over(app, session, first + later, next);
}

/// Where the wait is the one after so many failures, another failure makes it the
/// one after one more.
pub proof fn failures_lengthen_the_wait(length: int, failures: nat)
    requires
        length == backoff::length_after(failures),
    ensures
        backoff::next_length(length) == backoff::length_after(failures + 1),
{
}

/// When the list of sessions is due it is asked for, and the names in the answer are
/// handed on as they are.
pub proof fn sessions_are_asked_for_and_handed_on(
    loaded: Option<(Seq<char>, u64)>,
    names: Seq<Seq<char>>,
)
    ensures
        session::decided(loaded, EventView::SessionsDue) == (loaded, ActionView::ListSessions),
        session::decided(loaded, EventView::Listed(Ok(names))) == (
            loaded,
            ActionView::Send(MsgView::Sessions(names)),
        ),
{
}

/// A session that was loaded is read on from its offset while it is followed, and is
/// left alone otherwise. Without a selection nothing is read.
pub proof fn only_a_followed_session_is_read_on(session: Seq<char>, offset: u64)
    ensures
        session::decided(
            Some((session, offset)),
            EventView::FollowDue { selected: Some(session), follow: true },
        ) == (Some((session, offset)), ActionView::FetchFrom { session, offset }),
        session::decided(
            Some((session, offset)),
            EventView::FollowDue { selected: Some(session), follow: false },
        ) == (Some((session, offset)), ActionView::Wait),
        forall|loaded: Option<(Seq<char>, u64)>, follow: bool| #[trigger]
            session::decided(loaded, EventView::FollowDue { selected: None, follow }) == (
                loaded,
                ActionView::Wait,
            ),
{
}

/// All messages of an answer are handed on with their session and the offset behind
/// them: those of a load in place of what is shown, those that came since beside it.
/// An answer without new messages is not handed on.
pub proof fn answers_are_handed_on_whole(
    loaded: Option<(Seq<char>, u64)>,
    session: Seq<char>,
    raw: Seq<Seq<u8>>,
    next: u64,
)
    ensures
        session::decided(loaded, EventView::Loaded { session, fetched: Ok((raw, next)) }) == (
            Some((session, next)),
            ActionView::Send(
                MsgView::Events { session, raw, next_offset: next, replace: true },
            ),
        ),
        raw.len() > 0 ==> session::decided(
            loaded,
            EventView::Followed { session, fetched: Ok((raw, next)) },
        ) == (
            Some((session, next)),
            ActionView::Send(
                MsgView::Events { session, raw, next_offset: next, replace: false },
            ),
        ),
        raw.len() == 0 ==> session::decided(
            loaded,
            EventView::Followed { session, fetched: Ok((raw, next)) },
        ) == (loaded, ActionView::Wait),
{
}

/// A failure is reported with its reason, by what failed, and leads to a new
/// connection; what was loaded is not forgotten.
pub proof fn failures_are_reported(
    loaded: Option<(Seq<char>, u64)>,
    session: Seq<char>,
    reason: Seq<char>,
)
    ensures
        session::decided(loaded, EventView::Listed(Err(reason))) == (
            loaded,
            ActionView::SendAndExit(
                MsgView::Error("一覧取得に失敗: "@ + reason),
                LoopExit::Reconnect,
            ),
        ),
        session::decided(loaded, EventView::Loaded { session, fetched: Err(reason) }) == (
            loaded,
            ActionView::SendAndExit(
                MsgView::Error("読み込みに失敗: "@ + reason),
                LoopExit::Reconnect,
            ),
        ),
        session::decided(loaded, EventView::Followed { session, fetched: Err(reason) }) == (
            loaded,
            ActionView::SendAndExit(
                MsgView::Error("追尾に失敗: "@ + reason),
                LoopExit::Reconnect,
            ),
        ),
{
}

/// A change of the selection is only noted while the viewer is there; once it is gone
/// the session ends.
pub proof fn a_viewer_that_is_gone_ends_the_session(loaded: Option<(Seq<char>, u64)>)
    ensures
        session::decided(loaded, EventView::SelectionChanged { open: true }) == (
            loaded,
            ActionView::Wait,
        ),
        session::decided(loaded, EventView::SelectionChanged { open: false }) == (
            loaded,
            ActionView::Exit(LoopExit::Shutdown),
        ),
{
}

/// The report of a failure to connect holds the reason and the seconds until the next
/// attempt.
pub proof fn the_report_tells_reason_and_wait(reason: Seq<char>, secs: u64)
    ensures
        session::unreachable_line(reason, secs) == "Iggyに接続できません: "@ + reason + "（"@
            + crate::text::decimal(secs as nat) + "秒後に再試行）"@,
{
}

/// The list of sessions is read every five seconds and the selected session looked at
/// every half second; a request may take three seconds, and asks for a hundred messages.
pub proof fn the_periods_are_kept()
    ensures
        session::SESSIONS_EVERY_SECS == 5,
        session::FOLLOW_EVERY_MILLIS == 500,
        session::CALL_TIMEOUT_SECS == 3,
        crate::iggy::POLL_BATCH == 100,
        backoff::LONGEST_SECS == 30,
{
}

/// A failure to connect is reported with its reason and the wait, and the next attempt
/// comes after just that wait; the wait after it is twice as long, up to thirty seconds.
pub proof fn a_failure_to_connect_waits_and_doubles(wait: Delay, reason: Seq<char>)
    requires
        wait.is_valid(),
    ensures
        ({
            let (next, action) = session::link_decided(wait, LinkEventView::Failed(reason));
            let length = wait.secs * 1_000_000_000 + wait.nanos;
            &&& action == LinkActionView::RetryAfter(
                MsgView::Error(session::unreachable_line(reason, wait.secs)),
                wait,
            )
            &&& length <= 15_000_000_000 ==> next == 2 * length
            &&& length >= 15_000_000_000 ==> next == 30_000_000_000
        }),
{
}

/// A connection that stands is told to the viewer and served, and makes the wait one
/// second again.
pub proof fn a_connection_resets_the_wait(wait: Delay)
    ensures
        session::link_decided(wait, LinkEventView::Established) == (
            1_000_000_000int,
            LinkActionView::Serve(MsgView::Connected),
        ),
{
}

/// After a session with the server the viewer connects anew at once, unless it is gone;
/// the wait is left as it is.
pub proof fn a_session_that_ended_is_followed_by_another(wait: Delay)
    requires
        wait.is_valid(),
    ensures
        session::link_decided(wait, LinkEventView::Ended(LoopExit::Reconnect)) == (
            wait.secs * 1_000_000_000 + wait.nanos,
            LinkActionView::Connect,
        ),
        session::link_decided(wait, LinkEventView::Ended(LoopExit::Shutdown)) == (
            wait.secs * 1_000_000_000 + wait.nanos,
            LinkActionView::Stop,
        ),
{
}

} // verus!
