//! What the viewer shows: the division of the screen and the texts of its panes.
use vstd::prelude::*;

use crate::app;
use crate::app::App;
use crate::app::AppView;
use crate::app::Focus;
use crate::app::Row;
use crate::app_laws;
use crate::area;
use crate::area::split_area;
use crate::area::Constraint;
use crate::area::Direction;
use crate::event;
use crate::event::is_truncated;
use crate::event::AuditEvent;
use crate::event::EventView;
use crate::event::Kind;
use crate::group::GroupView;
use crate::group::ToolGroup;
use crate::json;
use crate::json::print_pretty;
use crate::json::Json;
use crate::json::JsonView;
use crate::row_laws;
use crate::rows::RowView;
use crate::sessions;
use crate::text;
use crate::text::decimal_text;
use crate::text::pad_right;
use crate::text::text_starts_with;
use crate::timestamp;
use crate::timestamp::clock_text;

pub use crate::area::Rect;

verus! {

/// The panes of a screen: the banner takes the topmost line, if there is one; the
/// panes for sessions, timeline and detail share what is left from left to right,
/// a fifth and twice two fifths, with edges rounded to the nearest cell.
pub open spec fn panes_of(screen: Rect) -> (Rect, Rect, Rect, Rect) {
    let bottom = screen.end(Direction::Vertical);
    let line = if screen.y < bottom {
        1int
    } else {
        0
    };
    let y = (screen.y + line) as u16;
    let height = (bottom - screen.y - line) as u16;
    let first = area::share_end(screen, Direction::Horizontal, 20);
    let second = area::share_end(screen, Direction::Horizontal, 60);
    let right = screen.end(Direction::Horizontal);
    (
        Rect { x: screen.x, y: screen.y, width: screen.width, height: line as u16 },
        Rect { x: screen.x, y, width: (first - screen.x) as u16, height },
        Rect { x: first as u16, y, width: (second - first) as u16, height },
        Rect { x: second as u16, y, width: (right - second) as u16, height },
    )
}

/// Divides the screen: the banner, then the panes for sessions, timeline and
/// detail.
pub fn layout(screen: Rect) -> (panes: (Rect, Rect, Rect, Rect))
    ensures
        panes == panes_of(screen),
{
    let lines: Vec<Constraint> = vec![Constraint::Length(1), Constraint::Min(0)];
    let v = split_area(screen, Direction::Vertical, &lines);
    let columns: Vec<Constraint> = vec![
        Constraint::Percentage(20),
        Constraint::Percentage(40),
        Constraint::Percentage(40),
    ];
    proof {
        reveal_with_fuel(area::shares, 4);
        assert(area::shares(columns@) == 100);
        assert(area::asks_for_shares(columns@));
        assert(columns@.take(1) =~= seq![columns@[0]]);
        assert(columns@.take(2) =~= seq![columns@[0], columns@[1]]);
        assert(columns@.take(2).drop_last() =~= columns@.take(1));
        assert(area::shares(columns@.take(1)) == 20);
        assert(area::shares(columns@.take(2)) == 60);
        assert(v@[0].is_part_of(screen, Direction::Vertical));
        assert(v@[1].is_part_of(screen, Direction::Vertical));
    }
    let h = split_area(v[1], Direction::Horizontal, &columns);
    proof {
        assert(h@[0].is_part_of(v@[1], Direction::Horizontal));
        assert(h@[1].is_part_of(v@[1], Direction::Horizontal));
        assert(h@[2].is_part_of(v@[1], Direction::Horizontal));
    }
    (v[0], h[0], h[1], h[2])
}

/// The name of a kind on the screen.
pub fn kind_label(k: Kind) -> (label: &'static str)
    ensures
        label@ == k.name(),
{
    k.label()
}

/// The text under a member of an object.
pub open spec fn text_at(value: JsonView, key: Seq<char>) -> Option<Seq<char>> {
    match value.member(key) {
        Some(member) => member.text(),
        None => None,
    }
}

/// What a line says of a tool call or its result: the tool, and whether it
/// failed.
pub open spec fn tool_remark(payload: JsonView) -> Seq<char> {
    let named = match text_at(payload, "name"@) {
        Some(name) => " "@ + name,
        None => Seq::empty(),
    };
    let failed = match payload.member("is_error"@) {
        Some(flag) => flag.boolean() == Some(true),
        None => false,
    };
    if failed {
        named + " [error]"@
    } else {
        named
    }
}

/// What a line says of a response: the tool that it asks for.
pub open spec fn response_remark(payload: JsonView) -> Seq<char> {
    match payload.member("tool_call"@) {
        Some(call) => match text_at(call, "name"@) {
            Some(name) => " → "@ + name,
            None => Seq::empty(),
        },
        None => Seq::empty(),
    }
}

/// The line for an event: its time of day, its kind, and what is worth saying of
/// its payload.
pub open spec fn summary(e: EventView) -> Seq<char> {
    let head = timestamp::clock(e.ts) + " "@ + text::padded(e.kind.name(), 12);
    match event::truncated_size(e.payload) {
        Some(n) => head + " 切り詰め（"@ + text::decimal(n as nat) + "バイト）"@,
        None => head + match e.kind {
            Kind::ToolCall => tool_remark(e.payload),
            Kind::ToolResult => tool_remark(e.payload),
            Kind::LlmResponse => response_remark(e.payload),
            _ => Seq::empty(),
        },
    }
}

/// Looks up the text under a member of an object.
fn read_text_at<'a>(value: &'a Json, key: &str) -> (found: Option<&'a String>)
    ensures
        match found {
            Some(s) => text_at(value@, key@) == Some(s@),
            None => text_at(value@, key@) is None,
        },
{
    match value.get(key) {
        Some(member) => member.as_str(),
        None => None,
    }
}

fn tool_remark_text(payload: &Json) -> (s: String)
    ensures
        s@ == tool_remark(payload@),
{
    let mut s = String::new();
    if let Some(name) = read_text_at(payload, "name") {
        s.append(" ");
        s.append(name.as_str());
        proof {
            assert(s@ =~= " "@ + name@);
        }
    }
    let failed = match payload.get("is_error") {
        Some(flag) => match flag.as_bool() {
            Some(b) => b,
            None => false,
        },
        None => false,
    };
    if failed {
        s.append(" [error]");
    }
    s
}

fn response_remark_text(payload: &Json) -> (s: String)
    ensures
        s@ == response_remark(payload@),
{
    let mut s = String::new();
    if let Some(call) = payload.get("tool_call") {
        if let Some(name) = read_text_at(call, "name") {
            s.append(" → ");
            s.append(name.as_str());
            proof {
                assert(s@ =~= " → "@ + name@);
            }
        }
    }
    s
}

/// The line for an event.
pub fn event_summary(e: &AuditEvent) -> (line: String)
    ensures
        line@ == summary(e@),
{
    let mut s = clock_text(&e.ts);
    s.append(" ");
    s.append(pad_right(kind_label(e.kind), 12).as_str());
    if let Some(n) = is_truncated(&e.payload) {
        s.append(" 切り詰め（");
        s.append(decimal_text(n).as_str());
        s.append("バイト）");
        return s;
    }
    let ghost head = s@;
    match e.kind {
        Kind::ToolCall | Kind::ToolResult => {
            s.append(tool_remark_text(&e.payload).as_str());
        },
        Kind::LlmResponse => {
            s.append(response_remark_text(&e.payload).as_str());
        },
        _ => {
            proof {
                assert(head + Seq::<char>::empty() =~= head);
            }
        },
    }
    s
}

/// One message of a conversation, as `role: content`.
pub open spec fn spoken(message: JsonView) -> Option<Seq<char>> {
    match (text_at(message, "role"@), text_at(message, "content"@)) {
        (Some(role), Some(content)) => Some(role + ": "@ + content),
        _ => None,
    }
}

/// A conversation, a message on each line; nothing where some message has no
/// role or no content.
pub open spec fn conversation(messages: Seq<JsonView>) -> Option<Seq<char>>
    decreases messages.len(),
{
    if messages.len() == 0 {
        Some(Seq::empty())
    } else {
        match (conversation(messages.drop_last()), spoken(messages.last())) {
            (Some(before), Some(line)) => if messages.len() == 1 {
                Some(line)
            } else {
                Some(before + "\n"@ + line)
            },
            _ => None,
        }
    }
}

/// The conversation that a request carries.
pub open spec fn conversation_of(payload: JsonView) -> Option<Seq<char>> {
    match payload.member("messages"@) {
        Some(JsonView::Array(messages)) => conversation(messages),
        _ => None,
    }
}

/// The details of an event: the conversation of a request, the content of a
/// response or a result, and otherwise the payload as JSON.
pub open spec fn detail(e: EventView) -> Seq<char> {
    match event::truncated_size(e.payload) {
        Some(n) => "切り詰め（"@ + text::decimal(n as nat)
            + "バイト）。全文は送信元の WAL に残っています。"@,
        None => {
            let readable = match e.kind {
                Kind::LlmRequest => conversation_of(e.payload),
                Kind::LlmResponse => text_at(e.payload, "content"@),
                Kind::ToolResult => text_at(e.payload, "content"@),
                _ => None,
            };
            match readable {
                Some(s) => s,
                None => json::pretty_json(e.payload),
            }
        },
    }
}

fn spoken_text(message: &Json) -> (line: Option<String>)
    ensures
        event::opt_text(line) == spoken(message@),
{
    match (read_text_at(message, "role"), read_text_at(message, "content")) {
        (Some(role), Some(content)) => {
            let mut line = role.clone();
            line.append(": ");
            line.append(content.as_str());
            Some(line)
        },
        _ => None,
    }
}

/// A conversation with a message that cannot be read cannot be read either.
proof fn conversation_needs_all(messages: Seq<JsonView>, i: int)
    requires
        0 <= i < messages.len(),
        spoken(messages[i]) is None,
    ensures
        conversation(messages) is None,
    decreases messages.len(),
{
    if i < messages.len() - 1 {
        conversation_needs_all(messages.drop_last(), i);
    }
}

fn conversation_text(messages: &Vec<Json>) -> (s: Option<String>)
    ensures
        event::opt_text(s) == conversation(json::item_views(messages@)),
{
    let ghost views = json::item_views(messages@);
    let mut s = String::new();
    proof {
        assert(s@ =~= Seq::<char>::empty());
        assert(views.take(0).len() == 0);
    }
    let mut i: usize = 0;
    while i < messages.len()
        invariant
            i <= messages@.len(),
            views == json::item_views(messages@),
            conversation(views.take(i as int)) == Some(s@),
        decreases messages@.len() - i,
    {
        proof {
            assert(views.take(i + 1).drop_last() =~= views.take(i as int));
            assert(views.take(i + 1).last() == messages@[i as int]@);
        }
        match spoken_text(&messages[i]) {
            Some(line) => {
                if i == 0 {
                    s = line;
                } else {
                    s.append("\n");
                    s.append(line.as_str());
                }
            },
            None => {
                proof {
                    conversation_needs_all(views, i as int);
                }
                return None;
            },
        }
        i = i + 1;
    }
    proof {
        assert(views.take(messages@.len() as int) =~= views);
    }
    Some(s)
}

fn conversation_of_text(payload: &Json) -> (s: Option<String>)
    ensures
        event::opt_text(s) == conversation_of(payload@),
{
    match payload.get("messages") {
        Some(Json::Array(messages)) => {
            proof {
                json::array_view(*messages);
            }
            conversation_text(messages)
        },
        _ => None,
    }
}

/// The details of an event.
pub fn event_detail(e: &AuditEvent) -> (s: String)
    ensures
        s@ == detail(e@),
{
    if let Some(n) = is_truncated(&e.payload) {
        let mut s = "切り詰め（".to_string();
        s.append(decimal_text(n).as_str());
        s.append("バイト）。全文は送信元の WAL に残っています。");
        return s;
    }
    let readable = match e.kind {
        Kind::LlmRequest => conversation_of_text(&e.payload),
        Kind::LlmResponse | Kind::ToolResult => match read_text_at(&e.payload, "content") {
            Some(content) => Some(content.clone()),
            None => None,
        },
        _ => None,
    };
    match readable {
        Some(s) => s,
        None => print_pretty(&e.payload),
    }
}

/// The line at the top: what went wrong, or else how many events there are, how
/// many messages were skipped and whether the session is followed.
pub open spec fn banner_line(app: AppView) -> Seq<char> {
    match app.banner {
        Some(text) => " "@ + text + " "@,
        None => {
            let counted = " "@ + text::decimal(app.events.len()) + "件のイベント"@;
            let with_skipped = if app.skipped > 0 {
                counted + "（スキップ"@ + text::decimal(app.skipped as nat) + "件）"@
            } else {
                counted
            };
            let with_follow = if app.follow {
                with_skipped + "  追尾中"@
            } else {
                with_skipped
            };
            with_follow + " "@
        },
    }
}

/// The line at the top.
pub fn banner_text(app: &App) -> (line: String)
    ensures
        line@ == banner_line(app@),
{
    let mut line = " ".to_string();
    match &app.banner {
        Some(text) => {
            line.append(text.as_str());
        },
        None => {
            line.append(decimal_text(app.events.len() as u64).as_str());
            line.append("件のイベント");
            if app.skipped > 0 {
                line.append("（スキップ");
                line.append(decimal_text(app.skipped as u64).as_str());
                line.append("件）");
            }
            if app.follow {
                line.append("  追尾中");
            }
        },
    }
    line.append(" ");
    line
}

/// The line for a session; runs without a session are marked.
pub open spec fn session_line(name: Seq<char>) -> Seq<char> {
    if sessions::is_unnamed(name) {
        name + "（セッション不明）"@
    } else {
        name
    }
}

/// The line for a session.
pub fn session_text(name: &str) -> (line: String)
    ensures
        line@ == session_line(name@),
{
    let mut line = name.to_string();
    if text_starts_with(name, "run-") {
        line.append("（セッション不明）");
    }
    line
}

/// The heading of a tool call: open or collapsed, the number of a repeated
/// attempt, and whether the result is still awaited.
pub open spec fn heading_line(g: GroupView, collapsed: bool) -> Seq<char> {
    let mark = if collapsed {
        "▸"@
    } else {
        "▾"@
    };
    let called = mark + " ツール呼出 "@ + g.call_id;
    let numbered = if g.attempt > 1 {
        called + " 試行"@ + text::decimal(g.attempt as nat)
    } else {
        called
    };
    if g.result is None {
        numbered + "  結果待ち"@
    } else {
        numbered
    }
}

fn heading_text(g: &ToolGroup, collapsed: bool) -> (line: String)
    ensures
        line@ == heading_line(g@, collapsed),
{
    let mut line = if collapsed {
        "▸".to_string()
    } else {
        "▾".to_string()
    };
    line.append(" ツール呼出 ");
    line.append(g.call_id.as_str());
    if g.attempt > 1 {
        line.append(" 試行");
        line.append(decimal_text(g.attempt as u64).as_str());
    }
    if g.result.is_none() {
        line.append("  結果待ち");
    }
    line
}

/// Whether a row refers to an event or a group that there is.
pub open spec fn row_is_sound(app: AppView, row: RowView) -> bool {
    match row {
        RowView::Event(i) => 0 <= i < app.events.len(),
        RowView::Group { group, .. } => 0 <= group < app.groups.len(),
    }
}

/// The rows of a settled viewer refer to what there is.
pub proof fn settled_rows_are_sound(app: AppView)
    requires
        app_laws::is_settled(app),
    ensures
        forall|k: int| 0 <= k < app.rows.len() ==> row_is_sound(app, #[trigger] app.rows[k]),
{
    assert forall|k: int| 0 <= k < app.rows.len() implies row_is_sound(
        app,
        #[trigger] app.rows[k],
    ) by {
        row_laws::rows_refer_to_what_there_is(app.events, app.collapsed, k);
    }
}

/// The line for a row of the timeline.
pub open spec fn row_line(app: AppView, row: RowView) -> Seq<char> {
    match row {
        RowView::Event(i) => "  "@ + summary(app.events[i]),
        RowView::Group { group, collapsed } => heading_line(app.groups[group], collapsed),
    }
}

/// The line for a row of the timeline.
pub fn row_text(app: &App, row: &Row) -> (line: String)
    requires
        row_is_sound(app@, row@),
    ensures
        line@ == row_line(app@, row@),
{
    match row {
        Row::Event(i) => {
            let mut line = "  ".to_string();
            line.append(event_summary(&app.events[*i]).as_str());
            line
        },
        Row::Group { group, collapsed } => heading_text(&app.groups[*group], *collapsed),
    }
}

/// The lines of the sessions pane.
pub fn session_lines(app: &App) -> (lines: Vec<String>)
    ensures
        sessions::name_views(lines@) == app@.sessions.map_values(
            |name: Seq<char>| session_line(name),
        ),
{
    let mut lines: Vec<String> = Vec::new();
    let mut i: usize = 0;
    while i < app.sessions.len()
        invariant
            i <= app.sessions@.len(),
            lines@.len() == i,
            forall|k: int|
                0 <= k < i ==> (#[trigger] lines@[k])@ == session_line(app.sessions@[k]@),
        decreases app.sessions@.len() - i,
    {
        lines.push(session_text(app.sessions[i].as_str()));
        i = i + 1;
    }
    proof {
        assert(sessions::name_views(lines@) =~= app@.sessions.map_values(
            |name: Seq<char>| session_line(name),
        ));
    }
    lines
}

/// The lines of the timeline pane.
pub fn timeline_lines(app: &App) -> (lines: Vec<String>)
    requires
        forall|k: int| 0 <= k < app@.rows.len() ==> row_is_sound(app@, #[trigger] app@.rows[k]),
    ensures
        sessions::name_views(lines@) == app@.rows.map_values(|row: RowView| row_line(app@, row)),
{
    let mut lines: Vec<String> = Vec::new();
    let mut i: usize = 0;
    while i < app.rows.len()
        invariant
            i <= app.rows@.len(),
            lines@.len() == i,
            forall|k: int| 0 <= k < app@.rows.len() ==> row_is_sound(app@, #[trigger] app@.rows[k]),
            forall|k: int| 0 <= k < i ==> (#[trigger] lines@[k])@ == row_line(app@, app@.rows[k]),
        decreases app.rows@.len() - i,
    {
        proof {
            assert(app@.rows[i as int] == app.rows@[i as int]@);
        }
        lines.push(row_text(app, &app.rows[i]));
        i = i + 1;
    }
    proof {
        assert(sessions::name_views(lines@) =~= app@.rows.map_values(
            |row: RowView| row_line(app@, row),
        ));
    }
    lines
}

/// The text of the detail pane: that of the selected event, if there is one.
pub open spec fn detail_body(app: AppView) -> Seq<char> {
    match app::chosen_event(app) {
        Some(e) => detail(e),
        None => Seq::empty(),
    }
}

/// The text of the detail pane.
pub fn detail_text(app: &App) -> (body: String)
    ensures
        body@ == detail_body(app@),
{
    match app.selected_event() {
        Some(e) => event_detail(e),
        None => {
            let body = String::new();
            proof {
                assert(body@ =~= Seq::<char>::empty());
            }
            body
        },
    }
}

/// The title of a pane; the pane that has the focus is marked.
pub open spec fn title_of(pane: Focus, focus: Focus) -> Seq<char> {
    let name = match pane {
        Focus::Sessions => "セッション"@,
        Focus::Timeline => "タイムライン"@,
        Focus::Detail => "詳細"@,
    };
    if pane == focus {
        name + " *"@
    } else {
        name
    }
}

/// The title of a pane.
pub fn pane_title(pane: Focus, focus: Focus) -> (title: String)
    ensures
        title@ == title_of(pane, focus),
{
    let mut title = match pane {
        Focus::Sessions => "セッション".to_string(),
        Focus::Timeline => "タイムライン".to_string(),
        Focus::Detail => "詳細".to_string(),
    };
    if pane == focus {
        title.append(" *");
    }
    title
}

} // verus!
