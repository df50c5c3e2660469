//! What holds of the texts on the screen.
use vstd::prelude::*;

use crate::app::AppView;
use crate::app::Focus;
use crate::area::Rect;
use crate::event;
use crate::event::EventView;
use crate::event::Kind;
use crate::group::GroupView;
use crate::json;
use crate::json::JsonView;
use crate::rows::RowView;
use crate::text;
use crate::timestamp;
use crate::timestamp::Timestamp;
use crate::ui;

verus! {

/// Whether a payload says that it was cut down from `n` bytes.
pub open spec fn is_cut_from(payload: JsonView, n: u64) -> bool {
    &&& payload.member("truncated"@) == Some(JsonView::Bool(true))
    &&& payload.member("bytes"@) matches Some(JsonView::Number { unsigned, .. }) && unsigned == Some(n)
}

/// Whether a payload does not say that it was cut down.
pub open spec fn is_whole(payload: JsonView) -> bool {
    forall|n: u64| !#[trigger] is_cut_from(payload, n)
}

/// The size of a payload that was cut down is the one that it states; one that is
/// whole has none.
pub proof fn a_cut_payload_states_its_size(payload: JsonView)
    ensures
        forall|n: u64| #[trigger] is_cut_from(payload, n) <==> event::truncated_size(payload) == Some(n),
        is_whole(payload) <==> event::truncated_size(payload) is None,
{
    assert forall|n: u64| #[trigger] is_cut_from(payload, n) <==> event::truncated_size(payload)
        == Some(n) by {}
    if let Some(n) = event::truncated_size(payload) {
        assert(is_cut_from(payload, n));
    }
}

/// Where the line of message `i` begins in a conversation, where each line is a role,
/// a colon, a space and a content, and ends in a line break.
pub open spec fn line_start(roles: Seq<Seq<char>>, contents: Seq<Seq<char>>, i: int) -> int
    decreases i,
{
    if i <= 0 {
        0
    } else {
        line_start(roles, contents, i - 1) + roles[i - 1].len() + 2 + contents[i - 1].len() + 1
    }
}

/// Whether a text has a role, a colon, a space and a content at a position.
pub open spec fn says_at(s: Seq<char>, at: int, role: Seq<char>, content: Seq<char>) -> bool {
    let colon = at + role.len();
    let end = colon + 2 + content.len();
    &&& 0 <= at
    &&& end <= s.len()
    &&& s.subrange(at, colon) == role
    &&& s[colon] == ':'
    &&& s[colon + 1] == ' '
    &&& s.subrange(colon + 2, end) == content
}

/// Whether a text is a conversation: each message in its place, a line break between
/// any two, and nothing else.
pub open spec fn is_conversation(s: Seq<char>, roles: Seq<Seq<char>>, contents: Seq<Seq<char>>) -> bool {
    let n = roles.len() as int;
    &&& s.len() == if n == 0 {
        0
    } else {
        line_start(roles, contents, n) - 1
    }
    &&& forall|i: int|
        0 <= i < n ==> #[trigger] says_at(s, line_start(roles, contents, i), roles[i], contents[i])
    &&& forall|i: int| 0 < i < n ==> s[#[trigger] line_start(roles, contents, i) - 1] == '\n'
}

/// Whether messages have these roles and contents.
pub open spec fn are_spoken(
    messages: Seq<JsonView>,
    roles: Seq<Seq<char>>,
    contents: Seq<Seq<char>>,
) -> bool {
    &&& messages.len() == roles.len()
    &&& messages.len() == contents.len()
    &&& forall|i: int|
        0 <= i < messages.len() ==> (#[trigger] messages[i]).member("role"@) == Some(
            JsonView::Text(roles[i]),
        ) && messages[i].member("content"@) == Some(JsonView::Text(contents[i]))
}

proof fn line_start_looks_back(
    a: Seq<Seq<char>>,
    b: Seq<Seq<char>>,
    c: Seq<Seq<char>>,
    d: Seq<Seq<char>>,
    i: int,
)
    requires
        0 <= i <= a.len(),
        i <= b.len(),
        i <= c.len(),
        i <= d.len(),
        forall|k: int| 0 <= k < i ==> a[k] == c[k] && b[k] == d[k],
    ensures
        line_start(a, b, i) == line_start(c, d, i),
        line_start(a, b, i) >= 0,
        i > 0 ==> line_start(a, b, i) >= 3,
    decreases i,
{
    if i > 0 {
        line_start_looks_back(a, b, c, d, i - 1);
    }
}

proof fn lines_go_up(roles: Seq<Seq<char>>, contents: Seq<Seq<char>>, i: int, n: int)
    requires
        0 <= i <= n,
    ensures
        line_start(roles, contents, i) <= line_start(roles, contents, n),
        i < n ==> line_start(roles, contents, i) + roles[i].len() + 2 + contents[i].len() + 1
            <= line_start(roles, contents, n),
    decreases n - i,
{
    if i < n {
        lines_go_up(roles, contents, i, n - 1);
    }
}

proof fn conversation_is_spelled(
    messages: Seq<JsonView>,
    roles: Seq<Seq<char>>,
    contents: Seq<Seq<char>>,
)
    requires
        are_spoken(messages, roles, contents),
    ensures
        ui::conversation(messages) matches Some(s) && is_conversation(s, roles, contents),
    decreases messages.len(),
{
    let n = messages.len() as int;
    if n > 0 {
        let r = roles.drop_last();
        let c = contents.drop_last();
        let m = n - 1;
        assert(are_spoken(messages.drop_last(), r, c)) by {
            assert forall|i: int| 0 <= i < m implies (#[trigger] messages.drop_last()[i]).member(
                "role"@,
            ) == Some(JsonView::Text(r[i])) && messages.drop_last()[i].member("content"@) == Some(
                JsonView::Text(c[i]),
            ) by {
                assert(messages[i] == messages.drop_last()[i]);
            }
        }
        conversation_is_spelled(messages.drop_last(), r, c);
        reveal_strlit(": ");
        reveal_strlit("\n");
        let before = ui::conversation(messages.drop_last())->0;
        assert(messages[m] == messages.last());
        let role = roles[m];
        let content = contents[m];
        let line = role + ": "@ + content;
        assert(ui::spoken(messages.last()) == Some(line));
        let s = if n == 1 {
            line
        } else {
            before + "\n"@ + line
        };
        assert(ui::conversation(messages) == Some(s));
        let at = line_start(roles, contents, m);
        line_start_looks_back(roles, contents, r, c, m);
        assert(n > 1 ==> before.len() + 1 == at);
        assert(s.len() == at + line.len());
        assert(says_at(s, at, role, content)) by {
            assert(s.subrange(at, at + role.len()) =~= role);
            assert(s.subrange(at + role.len() + 2, at + role.len() + 2 + content.len()) =~= content);
        }
        assert forall|i: int| 0 <= i < n implies #[trigger] says_at(
            s,
            line_start(roles, contents, i),
            roles[i],
            contents[i],
        ) by {
            if i < m {
                line_start_looks_back(roles, contents, r, c, i);
                let p = line_start(r, c, i);
                assert(says_at(before, p, r[i], c[i]));
                let colon = p + r[i].len();
                let end = colon + 2 + c[i].len();
                assert(s.subrange(p, colon) =~= before.subrange(p, colon));
                assert(s.subrange(colon + 2, end) =~= before.subrange(colon + 2, end));
            }
        }
        assert forall|i: int| 0 < i < n implies s[#[trigger] line_start(roles, contents, i) - 1]
            == '\n' by {
            line_start_looks_back(roles, contents, r, c, i);
            if i < m {
                lines_go_up(r, c, i, m);
                assert(before[line_start(r, c, i) - 1] == '\n');
            }
        }
    }
}

/// The details of a request are its whole conversation: every message on a line of
/// its own, as role and content.
pub proof fn a_request_shows_every_message(
    e: EventView,
    messages: Seq<JsonView>,
    roles: Seq<Seq<char>>,
    contents: Seq<Seq<char>>,
)
    requires
        e.kind == Kind::LlmRequest,
        is_whole(e.payload),
        e.payload.member("messages"@) == Some(JsonView::Array(messages)),
        are_spoken(messages, roles, contents),
    ensures
        is_conversation(ui::detail(e), roles, contents),
{
    a_cut_payload_states_its_size(e.payload);
    conversation_is_spelled(messages, roles, contents);
}

proof fn conversation_needs_each(messages: Seq<JsonView>, i: int)
    requires
        0 <= i < messages.len(),
        ui::spoken(messages[i]) is None,
    ensures
        ui::conversation(messages) is None,
    decreases messages.len(),
{
    if i < messages.len() - 1 {
        conversation_needs_each(messages.drop_last(), i);
    }
}

/// A request with a message that lacks a role or a content in words is shown as JSON,
/// and so is one without a list of messages.
pub proof fn an_odd_request_is_shown_as_json(e: EventView)
    requires
        e.kind == Kind::LlmRequest,
        is_whole(e.payload),
        match e.payload.member("messages"@) {
            Some(JsonView::Array(messages)) => exists|i: int|
                0 <= i < messages.len() && (!((#[trigger] messages[i]).member("role"@) matches Some(
                    JsonView::Text(_),
                )) || !(messages[i].member("content"@) matches Some(JsonView::Text(_)))),
            _ => true,
        },
    ensures
        ui::detail(e) == json::pretty_json(e.payload),
{
    a_cut_payload_states_its_size(e.payload);
    if let Some(JsonView::Array(messages)) = e.payload.member("messages"@) {
        let i = choose|i: int|
            0 <= i < messages.len() && (!((#[trigger] messages[i]).member("role"@) matches Some(
                JsonView::Text(_),
            )) || !(messages[i].member("content"@) matches Some(JsonView::Text(_))));
        conversation_needs_each(messages, i);
    }
}

/// A response or a result shows its content as it is, where that is a text, and is
/// shown as JSON otherwise.
pub proof fn content_is_shown_as_it_is(e: EventView)
    requires
        e.kind == Kind::LlmResponse || e.kind == Kind::ToolResult,
        is_whole(e.payload),
    ensures
        match e.payload.member("content"@) {
            Some(JsonView::Text(content)) => ui::detail(e) == content,
            _ => ui::detail(e) == json::pretty_json(e.payload),
        },
{
    a_cut_payload_states_its_size(e.payload);
}

/// Calls and usage are shown as JSON.
pub proof fn calls_and_usage_are_shown_as_json(e: EventView)
    requires
        e.kind == Kind::ToolCall || e.kind == Kind::Usage,
        is_whole(e.payload),
    ensures
        ui::detail(e) == json::pretty_json(e.payload),
{
    a_cut_payload_states_its_size(e.payload);
}

/// Of an event of any kind whose payload was cut down, line and details tell the
/// size, and where the whole is.
pub proof fn a_cut_payload_is_told(e: EventView, n: u64)
    requires
        is_cut_from(e.payload, n),
    ensures
        ui::summary(e).skip(25) == " 切り詰め（"@ + text::decimal(n as nat) + "バイト）"@,
        ui::detail(e) == "切り詰め（"@ + text::decimal(n as nat)
            + "バイト）。全文は送信元の WAL に残っています。"@,
{
    a_cut_payload_states_its_size(e.payload);
    head_is_fixed(e);
    let head = timestamp::clock(e.ts) + " "@ + text::padded(e.kind.name(), 12);
    let rest = " 切り詰め（"@ + text::decimal(n as nat) + "バイト）"@;
    assert(ui::summary(e) =~= head + rest);
    assert((head + rest).skip(25) =~= rest);
}

/// The kinds go by these names.
pub proof fn kinds_go_by_their_names()
    ensures
        Kind::LlmRequest.name() == "llm_request"@,
        Kind::LlmResponse.name() == "llm_response"@,
        Kind::ToolCall.name() == "tool_call"@,
        Kind::ToolResult.name() == "tool_result"@,
        Kind::Usage.name() == "usage"@,
{
}

/// The time of day shows hours, minutes, seconds and thousandths in digits. A leap
/// second counts on from the second that it follows.
pub proof fn the_clock_shows_the_time(
    t: Timestamp,
    day: int,
    h: int,
    m: int,
    s: int,
    leap: int,
    ms: int,
    rest: int,
)
    requires
        t.secs == 86400 * day + 3600 * h + 60 * m + s,
        0 <= h < 24,
        0 <= m < 60,
        0 <= s < 60,
        t.nanos == 1000000000 * leap + 1000000 * ms + rest,
        0 <= leap <= 1,
        0 <= ms < 1000,
        0 <= rest < 1000000,
    ensures
        ({
            let c = timestamp::clock(t);
            let zero = '0' as int;
            &&& c.len() == 12
            &&& c[0] as int == zero + h / 10
            &&& c[1] as int == zero + h % 10
            &&& c[2] == ':'
            &&& c[3] as int == zero + m / 10
            &&& c[4] as int == zero + m % 10
            &&& c[5] == ':'
            &&& c[6] as int == zero + (s + leap) / 10
            &&& c[7] as int == zero + (s + leap) % 10
            &&& c[8] == '.'
            &&& c[9] as int == zero + ms / 100
            &&& c[10] as int == zero + ms / 10 % 10
            &&& c[11] as int == zero + ms % 10
        }),
{
    reveal_strlit(":");
    reveal_strlit(".");
    let of_day = 3600 * h + 60 * m + s;
    assert(t.secs as int % 86400 == of_day) by (nonlinear_arith)
        requires
            t.secs == 86400 * day + of_day,
            0 <= of_day < 86400,
    ;
    assert(of_day / 3600 == h);
    assert(of_day / 60 == 60 * h + m);
    assert((60 * h + m) % 60 == m);
    assert(of_day % 60 == s);
    assert(t.nanos as nat / 1000000000 == leap);
    assert(t.nanos as nat / 1000000 == 1000 * leap + ms);
    assert((1000 * leap + ms) % 1000 == ms);
}

proof fn clock_has_twelve(t: Timestamp)
    ensures
        timestamp::clock(t).len() == 12,
{
    reveal_strlit(":");
    reveal_strlit(".");
}

proof fn names_fit(kind: Kind)
    ensures
        kind.name().len() <= 12,
{
    reveal_strlit("llm_request");
    reveal_strlit("llm_response");
    reveal_strlit("tool_call");
    reveal_strlit("tool_result");
    reveal_strlit("usage");
}

proof fn head_is_fixed(e: EventView)
    ensures
        (timestamp::clock(e.ts) + " "@ + text::padded(e.kind.name(), 12)).len() == 25,
{
    clock_has_twelve(e.ts);
    names_fit(e.kind);
    text::padding_fills_with_spaces(e.kind.name(), 12);
    reveal_strlit(" ");
}

/// The line of an event begins with its time of day, a space and the name of its
/// kind, filled up with spaces to the column at which the remark begins.
pub proof fn a_line_begins_with_time_and_kind(e: EventView)
    ensures
        ({
            let line = ui::summary(e);
            let name = e.kind.name();
            &&& line.len() >= 25
            &&& line.take(12) == timestamp::clock(e.ts)
            &&& line[12] == ' '
            &&& name.len() <= 12
            &&& line.subrange(13, 13 + name.len() as int) == name
            &&& forall|i: int| 13 + name.len() <= i < 25 ==> #[trigger] line[i] == ' '
        }),
{
    head_is_fixed(e);
    clock_has_twelve(e.ts);
    names_fit(e.kind);
    text::padding_fills_with_spaces(e.kind.name(), 12);
    reveal_strlit(" ");
    let name = e.kind.name();
    let pad = text::padded(name, 12);
    let head = timestamp::clock(e.ts) + " "@ + pad;
    let line = ui::summary(e);
    assert(line.take(25) =~= head);
    assert(line.take(12) =~= timestamp::clock(e.ts)) by {
        assert(line.take(12) =~= line.take(25).take(12));
        assert(head.take(12) =~= timestamp::clock(e.ts));
    }
    assert(line[12] == line.take(25)[12]);
    assert(line.subrange(13, 13 + name.len() as int) =~= pad.take(name.len() as int)) by {
        assert forall|i: int| 0 <= i < name.len() implies line.subrange(13, 13 + name.len() as int)[i]
            == pad.take(name.len() as int)[i] by {
            assert(line[13 + i] == line.take(25)[13 + i]);
        }
    }
    assert forall|i: int| 13 + name.len() <= i < 25 implies #[trigger] line[i] == ' ' by {
        assert(line[i] == line.take(25)[i]);
        assert(head[i] == pad[i - 13]);
    }
}

/// What the line of a call or a result says of the tool: its name, if there is one.
pub open spec fn name_part(payload: JsonView) -> Seq<char> {
    match payload.member("name"@) {
        Some(JsonView::Text(name)) => seq![' '] + name,
        _ => Seq::empty(),
    }
}

/// The line of a call or a result ends in the name of the tool, if there is one, and
/// then in `[error]` just where it failed, whether there is a name or not.
pub proof fn a_failed_tool_is_marked(e: EventView)
    requires
        e.kind == Kind::ToolCall || e.kind == Kind::ToolResult,
        is_whole(e.payload),
    ensures
        e.payload.member("is_error"@) == Some(JsonView::Bool(true)) ==> ui::summary(e).skip(25)
            == name_part(e.payload) + " [error]"@,
        e.payload.member("is_error"@) != Some(JsonView::Bool(true)) ==> ui::summary(e).skip(25)
            == name_part(e.payload),
{
    a_cut_payload_states_its_size(e.payload);
    head_is_fixed(e);
    reveal_strlit(" ");
    let head = timestamp::clock(e.ts) + " "@ + text::padded(e.kind.name(), 12);
    let remark = ui::tool_remark(e.payload);
    assert((head + remark).skip(25) =~= remark);
    assert(" "@ =~= seq![' ']);
}

/// Failing adds the mark to the line of a call or a result, and changes nothing else
/// in it.
pub proof fn failing_only_adds_the_mark(failed: EventView, fine: EventView)
    requires
        failed.kind == Kind::ToolCall || failed.kind == Kind::ToolResult,
        fine.kind == failed.kind,
        fine.ts == failed.ts,
        is_whole(failed.payload),
        is_whole(fine.payload),
        fine.payload.member("name"@) == failed.payload.member("name"@),
        failed.payload.member("is_error"@) == Some(JsonView::Bool(true)),
        fine.payload.member("is_error"@) != Some(JsonView::Bool(true)),
    ensures
        ui::summary(failed) == ui::summary(fine) + " [error]"@,
{
    a_failed_tool_is_marked(failed);
    a_failed_tool_is_marked(fine);
    a_line_begins_with_time_and_kind(failed);
    a_line_begins_with_time_and_kind(fine);
    head_is_fixed(fine);
    let head = timestamp::clock(fine.ts) + " "@ + text::padded(fine.kind.name(), 12);
    a_cut_payload_states_its_size(failed.payload);
    a_cut_payload_states_its_size(fine.payload);
    let a = ui::summary(failed);
    let b = ui::summary(fine);
    assert(a =~= head + a.skip(25));
    assert(b =~= head + b.skip(25));
    assert(a =~= b + " [error]"@);
}

/// The line of a response ends in the name of the tool that it asks for, if it asks
/// for one by name.
pub proof fn a_response_names_the_tool(e: EventView)
    requires
        e.kind == Kind::LlmResponse,
        is_whole(e.payload),
    ensures
        match e.payload.member("tool_call"@) {
            Some(call) => match call.member("name"@) {
                Some(JsonView::Text(name)) => ui::summary(e).skip(25) == " → "@ + name,
                _ => ui::summary(e).len() == 25,
            },
            None => ui::summary(e).len() == 25,
        },
{
    a_cut_payload_states_its_size(e.payload);
    head_is_fixed(e);
    let head = timestamp::clock(e.ts) + " "@ + text::padded(e.kind.name(), 12);
    let remark = ui::response_remark(e.payload);
    assert((head + remark).skip(25) =~= remark);
}

/// The line of a request or of usage has no remark.
pub proof fn other_lines_have_no_remark(e: EventView)
    requires
        e.kind == Kind::LlmRequest || e.kind == Kind::Usage,
        is_whole(e.payload),
    ensures
        ui::summary(e).len() == 25,
{
    a_cut_payload_states_its_size(e.payload);
    head_is_fixed(e);
}

/// While something is wrong the top line says what, and nothing else.
pub proof fn a_banner_takes_the_top_line(app: AppView, text: Seq<char>)
    requires
        app.banner == Some(text),
    ensures
        ui::banner_line(app).len() == text.len() + 2,
        ui::banner_line(app)[0] == ' ',
        ui::banner_line(app).subrange(1, 1 + text.len() as int) == text,
        ui::banner_line(app).last() == ' ',
{
    reveal_strlit(" ");
    assert(ui::banner_line(app).subrange(1, 1 + text.len() as int) =~= text);
}

/// Otherwise the top line counts the events, the skipped messages where there are
/// any, and tells whether the session is followed.
pub proof fn the_top_line_counts(app: AppView)
    requires
        app.banner is None,
        app.skipped >= 0,
    ensures
        ({
            let events = " "@ + text::decimal(app.events.len()) + "件のイベント"@;
            let skipped = "（スキップ"@ + text::decimal(app.skipped as nat) + "件）"@;
            let line = ui::banner_line(app);
            &&& app.skipped == 0 && !app.follow ==> line == events + " "@
            &&& app.skipped == 0 && app.follow ==> line == events + "  追尾中"@ + " "@
            &&& app.skipped > 0 && !app.follow ==> line == events + skipped + " "@
            &&& app.skipped > 0 && app.follow ==> line == events + skipped + "  追尾中"@ + " "@
        }),
{
    let events = " "@ + text::decimal(app.events.len()) + "件のイベント"@;
    let skipped = "（スキップ"@ + text::decimal(app.skipped as nat) + "件）"@;
    let line = ui::banner_line(app);
    if app.skipped > 0 {
        if app.follow {
            assert(line =~= events + skipped + "  追尾中"@ + " "@);
        } else {
            assert(line =~= events + skipped + " "@);
        }
    }
}

/// A name that begins with `run-` is marked as one without a session, and no other.
pub proof fn only_bare_runs_are_marked(name: Seq<char>)
    ensures
        ui::session_line(name) == if name.len() >= 4 && name[0] == 'r' && name[1] == 'u' && name[2]
            == 'n' && name[3] == '-' {
            name + "（セッション不明）"@
        } else {
            name
        },
{
    reveal_strlit("run-");
    if name.len() >= 4 {
        if name[0] == 'r' && name[1] == 'u' && name[2] == 'n' && name[3] == '-' {
            assert(name.subrange(0, 4) =~= "run-"@);
        } else if "run-"@.is_prefix_of(name) {
            assert(name.subrange(0, 4)[0] == name[0]);
            assert(name.subrange(0, 4)[1] == name[1]);
            assert(name.subrange(0, 4)[2] == name[2]);
            assert(name.subrange(0, 4)[3] == name[3]);
        }
    }
}

/// The heading of a tool call shows by its mark whether the group is open, then the
/// call id, then the number from the second attempt on, then whether the result is
/// still awaited.
pub proof fn a_heading_tells_of_its_group(g: GroupView, collapsed: bool)
    requires
        g.attempt >= 1,
    ensures
        ({
            let mark = if collapsed { '▸' } else { '▾' };
            let called = seq![mark] + " ツール呼出 "@ + g.call_id;
            let number = " 試行"@ + text::decimal(g.attempt as nat);
            let line = ui::heading_line(g, collapsed);
            &&& g.attempt == 1 && g.result is Some ==> line == called
            &&& g.attempt == 1 && g.result is None ==> line == called + "  結果待ち"@
            &&& g.attempt >= 2 && g.result is Some ==> line == called + number
            &&& g.attempt >= 2 && g.result is None ==> line == called + number + "  結果待ち"@
        }),
{
    reveal_strlit("▸");
    reveal_strlit("▾");
    assert("▸"@ =~= seq!['▸']);
    assert("▾"@ =~= seq!['▾']);
    let mark = if collapsed { '▸' } else { '▾' };
    let called = seq![mark] + " ツール呼出 "@ + g.call_id;
    let number = " 試行"@ + text::decimal(g.attempt as nat);
    let line = ui::heading_line(g, collapsed);
    if g.attempt >= 2 {
        if g.result is None {
            assert(line =~= called + number + "  結果待ち"@);
        } else {
            assert(line =~= called + number);
        }
    }
}

/// The row of an event is its line, set in by two spaces; that of a group is its
/// heading.
pub proof fn rows_show_what_they_stand_for(app: AppView, row: RowView)
    ensures
        match row {
            RowView::Event(i) => ui::row_line(app, row).skip(2) == ui::summary(app.events[i])
                && ui::row_line(app, row).take(2) == seq![' ', ' '],
            RowView::Group { group, collapsed } => ui::row_line(app, row) == ui::heading_line(
                app.groups[group],
                collapsed,
            ),
        },
{
    reveal_strlit("  ");
    if let RowView::Event(i) = row {
        assert(ui::row_line(app, row).skip(2) =~= ui::summary(app.events[i]));
        assert(ui::row_line(app, row).take(2) =~= seq![' ', ' ']);
    }
}

/// The detail pane shows the event of the selected row: the event itself, or of a
/// group its call, else its response, else its result. Without rows it is empty.
pub proof fn the_detail_pane_shows_the_selected_event(app: AppView)
    requires
        0 <= app.selected_row < app.rows.len() ==> ui::row_is_sound(app, app.rows[app.selected_row]),
    ensures
        app.rows.len() == 0 ==> ui::detail_body(app).len() == 0,
        0 <= app.selected_row < app.rows.len() ==> match app.rows[app.selected_row] {
            RowView::Event(i) => ui::detail_body(app) == ui::detail(app.events[i]),
            RowView::Group { group, .. } => {
                let g = app.groups[group];
                &&& g.call matches Some(i) ==> 0 <= i < app.events.len() ==> ui::detail_body(app)
                    == ui::detail(app.events[i])
                &&& g.call is None ==> (g.response matches Some(i) ==> 0 <= i < app.events.len()
                    ==> ui::detail_body(app) == ui::detail(app.events[i]))
                &&& g.call is None && g.response is None ==> (g.result matches Some(i) ==> 0 <= i
                    < app.events.len() ==> ui::detail_body(app) == ui::detail(app.events[i]))
            },
        },
{
}

/// The title of the pane that has the focus ends in a star; the others are the bare
/// names.
pub proof fn only_the_focused_pane_is_starred(pane: Focus, focus: Focus)
    ensures
        ({
            let name = match pane {
                Focus::Sessions => "セッション"@,
                Focus::Timeline => "タイムライン"@,
                Focus::Detail => "詳細"@,
            };
            &&& pane == focus ==> ui::title_of(pane, focus) == name + seq![' ', '*']
            &&& pane != focus ==> ui::title_of(pane, focus) == name
        }),
{
    reveal_strlit(" *");
    assert(" *"@ =~= seq![' ', '*']);
}

/// The banner takes one line across the top, and the three panes fill the rest from
/// left to right without gaps. Each edge is within half a cell of a fifth and of three
/// fifths of the width.
pub proof fn panes_fill_the_screen(screen: Rect)
    requires
        screen.x + screen.width <= u16::MAX,
        screen.y + screen.height <= u16::MAX,
        screen.height >= 1,
    ensures
        ({
            let (banner, left, middle, right) = ui::panes_of(screen);
            &&& banner == (Rect { x: screen.x, y: screen.y, width: screen.width, height: 1 })
            &&& left.x == screen.x
            &&& middle.x == left.x + left.width
            &&& right.x == middle.x + middle.width
            &&& right.x + right.width == screen.x + screen.width
            &&& left.y == screen.y + 1 && middle.y == screen.y + 1 && right.y == screen.y + 1
            &&& left.height == screen.height - 1
            &&& middle.height == screen.height - 1
            &&& right.height == screen.height - 1
            &&& -50 < 100 * left.width - 20 * screen.width <= 50
            &&& -50 < 100 * (left.width + middle.width) - 60 * screen.width <= 50
        }),
{
}

} // verus!
