use agent_audit::app::{App, Focus, Key, Msg, Row};
use agent_audit::event::{
    decode, decode_all, decode_value, group_tool_calls, is_truncated, order_and_dedup, AuditEvent,
    DecodeError, Fault, Field, Kind,
};
use agent_audit::json::Json;
use agent_audit::members::read_members;
use agent_audit::timestamp::Timestamp;
use agent_audit::tui::{
    changed_selection, classify_key, drain_messages, take_turn, KeyKind, Selection, TermEvent,
};
use agent_audit::ui::{
    banner_text, detail_text, event_detail, event_summary, kind_label, layout, pane_title,
    row_text, session_lines, session_text, timeline_lines, Rect,
};

const BASIC: &str = r#"[
  {"v":1,"id":"e0","session_id":"s1","run_id":"run-a","seq":0,"ts":"2026-08-31T10:00:00Z","kind":"llm_request","provider":"p","model":"m","payload":{"messages":[{"role":"system","content":"be brief"},{"role":"user","content":"what is the weather?"}]}},
  {"v":1,"id":"e1","session_id":"s1","run_id":"run-a","seq":1,"ts":"2026-08-31T10:00:01Z","kind":"llm_response","provider":"p","model":"m","call_id":"c1","payload":{"content":"let me look","tool_call":{"name":"weather","arguments":{"city":"Tokyo"}}}},
  {"v":1,"id":"e2","session_id":"s1","run_id":"run-a","seq":2,"ts":"2026-08-31T10:00:02Z","kind":"usage","provider":"p","model":"m","payload":{"input_tokens":10,"output_tokens":5}},
  {"v":1,"id":"e3","session_id":"s1","run_id":"run-a","seq":3,"ts":"2026-08-31T10:00:03Z","kind":"tool_call","call_id":"c1","payload":{"name":"weather","arguments":{"city":"Tokyo"}}},
  {"v":1,"id":"e4","session_id":"s1","run_id":"run-a","seq":4,"ts":"2026-08-31T10:00:04.250Z","kind":"tool_result","call_id":"c1","payload":{"name":"weather","content":"sunny","is_error":false}},
  {"v":1,"id":"e5","session_id":"s1","run_id":"run-a","seq":5,"ts":"2026-08-31T10:00:05Z","kind":"llm_request","provider":"p","model":"m","payload":{"messages":[{"role":"user","content":"thanks"}]}},
  {"v":1,"id":"e6","session_id":"s1","run_id":"run-a","seq":6,"ts":"2026-08-31T10:00:06Z","kind":"llm_response","provider":"p","model":"m","payload":{"content":"It is sunny."}}
]"#;

const TWO_RUNS: &str = r#"[
  {"v":1,"id":"b0","session_id":"s1","run_id":"run-b","seq":0,"ts":"2026-08-31T11:00:00Z","kind":"llm_request","payload":{"messages":[]}},
  {"v":1,"id":"a1","session_id":"s1","run_id":"run-a","seq":1,"ts":"2026-08-31T10:00:01Z","kind":"llm_response","payload":{"content":"one"}},
  {"v":1,"id":"a0","session_id":"s1","run_id":"run-a","seq":0,"ts":"2026-08-31T10:00:00Z","kind":"llm_request","payload":{"messages":[]}},
  {"v":1,"id":"a1","session_id":"s1","run_id":"run-a","seq":1,"ts":"2026-08-31T10:00:01Z","kind":"llm_response","payload":{"content":"one"}},
  {"v":1,"id":"a2","session_id":"s1","run_id":"run-a","seq":2,"ts":"2026-08-31T09:59:00Z","kind":"usage","payload":{}},
  {"v":1,"id":"b1","session_id":"s1","run_id":"run-b","seq":1,"ts":"2026-08-31T11:00:01Z","kind":"llm_response","payload":{"content":"two"}}
]"#;

const TRUNCATED: &str = r#"[
  {"v":1,"id":"t0","session_id":"s1","run_id":"run-t","seq":0,"ts":"2026-08-31T12:00:00Z","kind":"llm_request","provider":"p","model":"m","payload":{"truncated":true,"bytes":70000000}}
]"#;

fn raw_fixture(text: &str) -> Vec<Vec<u8>> {
    let vals: Vec<serde_json::Value> = serde_json::from_str(text).unwrap();
    vals.iter().map(|v| v.to_string().into_bytes()).collect()
}

fn load(text: &str) -> Vec<AuditEvent> {
    raw_fixture(text)
        .iter()
        .map(|raw| decode(raw).unwrap())
        .collect()
}

fn names(list: &[&str]) -> Vec<String> {
    list.iter().map(|s| s.to_string()).collect()
}

fn events_msg(text: &str, next_offset: u64, replace: bool) -> Msg {
    Msg::Events {
        session: "s1".to_string(),
        raw: raw_fixture(text),
        next_offset,
        replace,
    }
}

fn loaded(text: &str) -> App {
    let mut app = App::new();
    app.apply(Msg::Sessions(names(&["s1"])));
    app.apply(events_msg(text, 7, true));
    app
}

fn heading_row(app: &App) -> usize {
    app.rows
        .iter()
        .position(|r| matches!(r, Row::Group { .. }))
        .unwrap()
}

#[test]
fn sessions_put_run_prefixed_last() {
    let mut app = App::new();
    app.apply(Msg::Sessions(names(&["run-abc", "s2", "s1"])));
    assert_eq!(app.sessions, vec!["s1", "s2", "run-abc"]);
}

#[test]
fn events_build_rows_with_tool_group() {
    let app = loaded(BASIC);
    assert_eq!(app.events.len(), 7);
    assert_eq!(app.groups.len(), 1);
    assert!(app.rows.iter().any(|r| matches!(r, Row::Group { .. })));
    assert_eq!(app.next_offset, 7);
}

#[test]
fn enter_toggles_group_collapse() {
    let mut app = loaded(BASIC);
    app.focus = Focus::Timeline;
    app.selected_row = heading_row(&app);
    let before = app.rows.len();
    app.on_key(Key::Enter);
    assert!(
        app.rows.len() < before,
        "collapsing hides the group's 3 events"
    );
    app.on_key(Key::Enter);
    assert_eq!(app.rows.len(), before);
}

#[test]
fn appended_events_merge_and_reorder() {
    let mut app = App::new();
    app.apply(Msg::Sessions(names(&["s1"])));
    let all = raw_fixture(TWO_RUNS);
    let (first, rest) = all.split_at(2);
    app.apply(Msg::Events {
        session: "s1".into(),
        raw: first.to_vec(),
        next_offset: 2,
        replace: true,
    });
    app.apply(Msg::Events {
        session: "s1".into(),
        raw: rest.to_vec(),
        next_offset: 6,
        replace: false,
    });
    assert_eq!(app.events.len(), 5);
    let seqs: Vec<u64> = app.events.iter().map(|e| e.seq).collect();
    assert_eq!(seqs, vec![0, 1, 2, 0, 1]);
}

#[test]
fn error_sets_banner_and_connected_clears_it() {
    let mut app = App::new();
    app.apply(Msg::Error("down".into()));
    assert_eq!(app.banner.as_deref(), Some("down"));
    app.apply(Msg::Connected);
    assert!(app.banner.is_none());
}

#[test]
fn q_quits_and_f_toggles_follow() {
    let mut app = App::new();
    app.on_key(Key::Char('f'));
    assert!(app.follow);
    app.on_key(Key::Char('q'));
    assert!(app.should_quit);
}

#[test]
fn decodes_basic_fixture() {
    let evs = load(BASIC);
    assert_eq!(evs.len(), 7);
    assert_eq!(evs[0].kind, Kind::LlmRequest);
    assert_eq!(evs[1].call_id.as_deref(), Some("c1"));
}

#[test]
fn rejects_wrong_version_and_missing_fields() {
    assert!(matches!(
        decode(br#"{"v":2}"#),
        Err(DecodeError::Version(2))
    ));
    assert!(decode(br#"{"v":1,"id":"x"}"#).is_err());
    let (ok, stats) = decode_all(&vec![br#"{"v":1}"#.to_vec(), br#"not json"#.to_vec()]);
    assert!(ok.is_empty());
    assert_eq!(stats.skipped, 2);
}

#[test]
fn orders_within_run_by_seq_and_runs_by_first_ts_and_dedups() {
    let evs = order_and_dedup(load(TWO_RUNS));
    assert_eq!(evs.len(), 5, "duplicate (run A, seq 1) must be dropped");
    let run_a = evs[0].run_id.clone();
    assert!(
        evs[..3].iter().all(|e| e.run_id == run_a),
        "run A first (earlier first ts)"
    );
    assert_eq!(
        evs.iter()
            .filter(|e| e.run_id == run_a)
            .map(|e| e.seq)
            .collect::<Vec<_>>(),
        vec![0, 1, 2]
    );
    assert_eq!(
        evs[3..].iter().map(|e| e.seq).collect::<Vec<_>>(),
        vec![0, 1]
    );
}

#[test]
fn detects_truncated_payload() {
    let evs = load(TRUNCATED);
    assert_eq!(is_truncated(&evs[0].payload), Some(70_000_000));
    let whole = Json::Object(vec![("messages".to_string(), Json::Array(vec![]))]);
    assert_eq!(is_truncated(&whole), None);
}

#[test]
fn groups_tool_calls_by_call_id_and_marks_missing_result() {
    let mut evs = order_and_dedup(load(BASIC));
    let groups = group_tool_calls(&evs);
    assert_eq!(groups.len(), 1);
    assert_eq!(groups[0].call_id, "c1");
    assert!(
        groups[0].response.is_some() && groups[0].call.is_some() && groups[0].result.is_some()
    );
    evs.retain(|e| e.kind != Kind::ToolResult);
    let groups = group_tool_calls(&evs);
    assert!(
        groups[0].result.is_none(),
        "missing tool_result must be visible"
    );
}

#[test]
fn repeated_call_id_becomes_separate_attempts() {
    let base = order_and_dedup(load(BASIC));
    let mut evs = base.clone();
    let mut again: Vec<AuditEvent> = base
        .iter()
        .filter(|e| e.call_id.as_deref() == Some("c1"))
        .cloned()
        .collect();
    for (i, e) in again.iter_mut().enumerate() {
        e.seq = 100 + i as u64;
        e.id = format!("dup-{i}");
    }
    evs.extend(again);
    let groups = group_tool_calls(&evs);
    assert_eq!(groups.len(), 2);
    assert_eq!((groups[0].attempt, groups[1].attempt), (1, 2));
}

fn synth(kind: Kind, call_id: Option<&str>) -> AuditEvent {
    AuditEvent {
        v: 1,
        id: "id".to_string(),
        session_id: "s".to_string(),
        run_id: "r".to_string(),
        seq: 0,
        ts: Timestamp::new(0, 0),
        kind,
        provider: None,
        model: None,
        call_id: call_id.map(str::to_string),
        payload: Json::Object(vec![]),
    }
}

#[test]
fn call_id_none_and_non_tool_kinds_are_skipped_tool_call_or_result_first_opens_a_group() {
    let evs = vec![
        synth(Kind::Usage, None),
        synth(Kind::LlmRequest, Some("cx")),
        synth(Kind::ToolCall, Some("cy")),
        synth(Kind::ToolResult, Some("cz")),
    ];
    let groups = group_tool_calls(&evs);
    assert_eq!(
        groups.len(),
        2,
        "cx は無視され、cy と cz のみグループになる"
    );
    assert_eq!(groups[0].call_id, "cy");
    assert!(groups[0].call.is_some() && groups[0].response.is_none());
    assert_eq!(groups[1].call_id, "cz");
    assert!(groups[1].result.is_some() && groups[1].call.is_none());
}

#[test]
fn classify_key_keeps_only_key_press_events() {
    let press = TermEvent::Key {
        key: Key::Char('q'),
        kind: KeyKind::Press,
    };
    assert_eq!(classify_key(press), Some(Key::Char('q')));

    let release = TermEvent::Key {
        key: Key::Char('q'),
        kind: KeyKind::Release,
    };
    assert_eq!(classify_key(release), None);

    assert_eq!(
        classify_key(TermEvent::Other),
        None,
        "non-key events must be ignored"
    );
}

#[test]
fn drain_messages_applies_all_queued_messages() {
    let queued = vec![Msg::Error("boom".to_string()), Msg::Connected];
    let mut app = App::new();
    drain_messages(&mut app, queued);
    assert_eq!(app.banner, None, "Connected clears the banner set by Error");
}

#[test]
fn publish_selection_sends_only_when_changed() {
    let mut app = App::new();
    let told = Selection {
        session: None,
        follow: false,
    };
    assert!(
        changed_selection(&app, &told).is_none(),
        "no send should happen when selection is unchanged"
    );

    app.follow = true;
    assert_eq!(
        changed_selection(&app, &told),
        Some(Selection {
            session: None,
            follow: true
        }),
        "a send should happen when selection differs"
    );
}

#[test]
fn run_ui_applies_messages_dispatches_keys_and_quits_on_q() {
    let mut app = App::new();
    let mut told = Selection {
        session: None,
        follow: false,
    };
    let mut queued = vec![Msg::Sessions(names(&["s1"]))];
    let mut turns = 0;
    for key in [None, Some(Key::Char('f')), Some(Key::Char('q'))] {
        let turn = take_turn(&mut app, std::mem::take(&mut queued), key, &told);
        turns += 1;
        if let Some(news) = turn.news {
            told = news;
        }
        assert_eq!(turn.quit, turns == 3);
    }
    assert_eq!(
        app.sessions,
        vec!["s1".to_string()],
        "queued Msg must be applied"
    );
    assert!(app.follow, "'f' must toggle follow");
    assert!(app.should_quit, "'q' must set should_quit");
    assert_eq!(
        told,
        Selection {
            session: Some("s1".to_string()),
            follow: true
        }
    );
}

#[test]
fn layout_reserves_banner_row() {
    let (banner, sessions, timeline, detail) = layout(Rect::new(0, 0, 120, 40));
    assert_eq!(banner.height, 1);
    assert!(sessions.width > 0 && timeline.width > 0 && detail.width > 0);
    assert_eq!(banner, Rect::new(0, 0, 120, 1));
    assert_eq!(sessions, Rect::new(0, 1, 24, 39));
    assert_eq!(timeline, Rect::new(24, 1, 48, 39));
    assert_eq!(detail, Rect::new(72, 1, 48, 39));
}

#[test]
fn renders_sessions_timeline_and_truncated_marker() {
    let mut app = App::new();
    app.apply(Msg::Sessions(names(&["s1"])));
    app.apply(events_msg(TRUNCATED, 1, true));
    assert!(session_lines(&app).concat().contains("s1"));
    let s = timeline_lines(&app).concat();
    assert!(s.contains("llm_request"));
    assert!(s.contains("切り詰め"), "{s}");
}

#[test]
fn renders_banner_and_waiting_result() {
    let mut app = App::new();
    app.apply(Msg::Sessions(names(&["s1"])));
    let mut raw = raw_fixture(BASIC);
    raw.retain(|r| !String::from_utf8_lossy(r).contains("\"tool_result\""));
    app.apply(Msg::Events {
        session: "s1".into(),
        raw,
        next_offset: 6,
        replace: true,
    });
    app.apply(Msg::Error("Iggyに接続できません".into()));
    assert!(banner_text(&app).contains("Iggyに接続できません"));
    let s = timeline_lines(&app).concat();
    assert!(s.contains("結果待ち"), "{s}");
}

#[test]
fn layout_fills_every_screen() {
    for width in (0..400u16).chain([1999, 20003, 65435]) {
        for (x, y, height) in [(0u16, 0u16, 0u16), (0, 0, 1), (3, 7, 2), (100, 5, 50)] {
            let area = Rect::new(x, y, width, height);
            let (banner, sessions, timeline, detail) = layout(area);
            if height > 0 {
                assert_eq!(banner, Rect::new(x, y, width, 1));
            } else {
                assert_eq!((banner.height, sessions.height), (0, 0));
            }
            let top = if height > 0 { y + 1 } else { y };
            for pane in [sessions, timeline, detail] {
                assert_eq!((pane.y, pane.y + pane.height), (top, y + height));
            }
            assert_eq!(sessions.x, x);
            assert_eq!(timeline.x, sessions.x + sessions.width);
            assert_eq!(detail.x, timeline.x + timeline.width);
            assert_eq!(detail.x + detail.width, x + width);
            for (pane, share) in [(sessions, 20), (timeline, 60), (detail, 100)] {
                let edge = (100 * u32::from(x) + share * u32::from(width) + 50) / 100;
                assert_eq!(u32::from(pane.x) + u32::from(pane.width), edge);
            }
        }
    }
}

#[test]
fn layout_at_the_edge_of_the_coordinates() {
    let (banner, sessions, _, detail) = layout(Rect::new(65500, 65500, 100, 100));
    assert_eq!((banner.y, banner.height), (65500, 1));
    assert_eq!(sessions.x, 65500);
    assert_eq!(u32::from(detail.x) + u32::from(detail.width), 65535);
    assert_eq!(u32::from(detail.y) + u32::from(detail.height), 65535);
}

#[test]
fn decode_reads_every_field() {
    let evs = load(BASIC);
    let e = &evs[4];
    assert_eq!((e.v, e.id.as_str(), e.session_id.as_str()), (1, "e4", "s1"));
    assert_eq!((e.run_id.as_str(), e.seq), ("run-a", 4));
    assert_eq!(e.kind, Kind::ToolResult);
    assert_eq!(e.provider, None);
    assert_eq!(e.model, None);
    assert_eq!(e.call_id.as_deref(), Some("c1"));
    assert_eq!(e.ts, Timestamp::new(1_788_170_404, 250_000_000));
    assert_eq!(evs[0].provider.as_deref(), Some("p"));
    assert_eq!(evs[0].model.as_deref(), Some("m"));
}

fn problem(raw: &[u8]) -> DecodeError {
    decode(raw).unwrap_err()
}

#[test]
fn decode_names_the_field_at_fault() {
    assert_eq!(problem(br#"{"v":2}"#), DecodeError::Version(2));
    assert_eq!(
        problem(br#"{"v":2}"#).message(),
        "unsupported event version 2"
    );
    assert_eq!(
        problem(br#"{"v":4294967295}"#).message(),
        "unsupported event version 4294967295"
    );
    for (raw, text) in [
        ("not json", "invalid event json: not JSON"),
        (r#"{"v":1e999}"#, "invalid event json: unreadable key or value"),
        ("{}", "invalid event json: missing field `v`"),
        (r#"{"v":1,"id":7}"#, "invalid event json: invalid field `id`"),
        (
            r#"{"v":1,"session_id":"s","session_id":"s"}"#,
            "invalid event json: duplicate field `session_id`",
        ),
    ] {
        assert_eq!(problem(raw.as_bytes()).message(), text);
    }
    assert_eq!(problem(b"[]"), DecodeError::Json(Fault::Invalid(Field::Version)));
    assert_eq!(problem(b"{}"), DecodeError::Json(Fault::Missing(Field::Version)));
    assert_eq!(
        problem(br#"{"v":1}"#),
        DecodeError::Json(Fault::Missing(Field::Id))
    );
    assert_eq!(
        problem(br#"{"v":1,"id":7}"#),
        DecodeError::Json(Fault::Invalid(Field::Id))
    );
    assert_eq!(problem(b"not json"), DecodeError::Json(Fault::Form));
    assert_eq!(
        problem(br#"{"v":1e999}"#),
        DecodeError::Json(Fault::Unreadable)
    );
    assert_eq!(
        problem(br#"{"v":1,"id":"\ud800"}"#),
        DecodeError::Json(Fault::Unreadable)
    );
    let start = r#"{"v":1,"id":"i","session_id":"s","run_id":"r""#;
    let at = |rest: &str| problem(format!("{start}{rest}").as_bytes());
    assert_eq!(at("}"), DecodeError::Json(Fault::Missing(Field::SeqNumber)));
    assert_eq!(
        at(r#","seq":-1}"#),
        DecodeError::Json(Fault::Invalid(Field::SeqNumber))
    );
    assert_eq!(at(r#","seq":1}"#), DecodeError::Json(Fault::Missing(Field::Ts)));
    assert_eq!(
        at(r#","seq":1,"ts":"soon"}"#),
        DecodeError::Json(Fault::Invalid(Field::Ts))
    );
    let dated = r#","seq":1,"ts":"2026-08-31T10:00:00Z""#;
    assert_eq!(
        at(&format!("{dated}}}")),
        DecodeError::Json(Fault::Missing(Field::Kind))
    );
    assert_eq!(
        at(&format!(r#"{dated},"kind":"other"}}"#)),
        DecodeError::Json(Fault::Invalid(Field::Kind))
    );
    assert_eq!(
        at(&format!(r#"{dated},"kind":"usage"}}"#)),
        DecodeError::Json(Fault::Missing(Field::Payload))
    );
    assert_eq!(
        at(&format!(r#"{dated},"kind":"usage","model":3}}"#)),
        DecodeError::Json(Fault::Invalid(Field::Model))
    );
}

#[test]
fn decode_takes_null_for_absent_and_passes_over_the_unknown() {
    let raw = br#"{"v":1,"id":"i","session_id":"s","run_id":"r","seq":18446744073709551615,"ts":"2026-08-31T19:00:00+09:00","kind":"usage","provider":null,"extra":[1,2],"payload":null}"#;
    let e = decode(raw).unwrap();
    assert_eq!(e.seq, u64::MAX);
    assert_eq!(e.provider, None);
    assert_eq!(e.ts, Timestamp::new(1_788_170_400, 0));
    assert_eq!(
        event_summary(&e),
        "10:00:00.000 usage       "
    );
    assert_eq!(event_detail(&e), "null");
}

#[test]
fn decode_value_takes_the_instant_as_given() {
    let text = |s: &str| Json::Text(s.to_string());
    let value = Json::Object(vec![
        ("v".to_string(), Json::Number { unsigned: Some(1), text: "1".to_string() }),
        ("id".to_string(), text("i")),
        ("session_id".to_string(), text("s")),
        ("run_id".to_string(), text("r")),
        ("seq".to_string(), Json::Number { unsigned: Some(9), text: "9".to_string() }),
        ("ts".to_string(), text("whenever")),
        ("kind".to_string(), text("tool_call")),
        ("payload".to_string(), Json::Bool(true)),
    ]);
    let e = decode_value(&value, Some(Timestamp::new(5, 6)), None).unwrap();
    assert_eq!((e.seq, e.ts, e.kind), (9, Timestamp::new(5, 6), Kind::ToolCall));
    assert_eq!(
        decode_value(&value, None, None).unwrap_err(),
        DecodeError::Json(Fault::Invalid(Field::Ts))
    );
    assert_eq!(
        decode_value(&value, None, Some(Field::SeqNumber))
            .unwrap_err(),
        DecodeError::Json(Fault::Duplicate(Field::SeqNumber))
    );
}

#[test]
fn fields_go_by_their_names() {
    let fields = [
        (Field::Version, "v"),
        (Field::Id, "id"),
        (Field::SessionId, "session_id"),
        (Field::RunId, "run_id"),
        (Field::SeqNumber, "seq"),
        (Field::Ts, "ts"),
        (Field::Kind, "kind"),
        (Field::Provider, "provider"),
        (Field::Model, "model"),
        (Field::CallId, "call_id"),
        (Field::Payload, "payload"),
    ];
    for (field, name) in fields {
        assert_eq!(field.label(), name);
        let raw = format!(r#"{{"v":1,"{name}":1,"{name}":1}}"#);
        assert_eq!(
            problem(raw.as_bytes()),
            DecodeError::Json(Fault::Duplicate(field))
        );
    }
}

#[test]
fn decode_refuses_a_repeated_field() {
    let tail = r#""session_id":"s","run_id":"r","seq":1,"ts":"2026-08-31T10:00:00Z","kind":"usage","payload":{"id":1,"id":2}}"#;
    let with = |start: &str| decode(format!("{start}{tail}").as_bytes());
    assert!(with(r#"{"v":1,"id":"i","#).is_ok());
    assert!(with(r#"{"v":1,"id":"i","x":1,"x":{"id":"\"{,"},"y":["id",{"v":2}],"#).is_ok());
    assert!(with(r#"{"v":1,"id":"i","x":"\\",  "y" : "v,", "#).is_ok());
    assert_eq!(
        with(r#"{"v":1,"id":"i","id":"j","#).unwrap_err(),
        DecodeError::Json(Fault::Duplicate(Field::Id))
    );
    assert_eq!(
        with(r#"{"v":1,"\u0069d":"i", "id" :"j","#).unwrap_err(),
        DecodeError::Json(Fault::Duplicate(Field::Id))
    );
    assert_eq!(
        with(r#"{"v":1,"v":2,"id":"i","#).unwrap_err(),
        DecodeError::Json(Fault::Duplicate(Field::Version))
    );
    assert!(matches!(
        with(r#"{"v":3,"id":"i","id":"j","#),
        Err(DecodeError::Version(3))
    ));
}

#[test]
fn decode_does_not_look_into_the_unknown() {
    let tail = br#""id":"i","session_id":"s","run_id":"r","seq":1,"ts":"2026-08-31T10:00:00Z","kind":"usage","payload":{}}"#;
    let with = |start: &[u8]| decode(&[start, tail].concat());
    let deep = format!(r#"{{"v":1,"x":{}0{},"#, "[".repeat(500), "]".repeat(500));
    assert!(with(br#"{"v":1,"x":1e999,"#).is_ok());
    assert!(with(br#"{"v":1,"x":"\ud800","#).is_ok());
    assert!(with(b"{\"v\":1,\"x\":\"\xff\",").is_ok());
    assert!(with(deep.as_bytes()).is_ok());
    assert!(with(b"{\"v\":1,\"\xff\":0,").is_err());
    assert!(with(br#"{"v":1,"x":01,"#).is_err());
    assert!(with(br#"{"v":1,"x":[1,],"#).is_err());
    assert!(matches!(
        decode(br#"{"payload":1e999,"v":2,"id":3}"#),
        Err(DecodeError::Version(2))
    ));
    assert!(matches!(decode(b"[7]"), Err(DecodeError::Version(7))));
    assert_eq!(
        problem(b" 5 "),
        DecodeError::Json(Fault::Missing(Field::Version))
    );
    assert_eq!(problem(b"{} x"), DecodeError::Json(Fault::Form));
}

#[test]
fn decode_limits_the_depth_of_a_payload() {
    let nested = |n: usize| {
        format!(
            r#"{{"v":1,"id":"i","session_id":"s","run_id":"r","seq":1,"ts":"2026-08-31T10:00:00Z","kind":"usage","payload":{}{}}}"#,
            "[".repeat(n),
            "]".repeat(n)
        )
    };
    assert!(decode(nested(126).as_bytes()).is_ok());
    let whole: Result<serde_json::Value, _> = serde_json::from_str(&nested(127));
    assert_eq!(decode(nested(127).as_bytes()).is_ok(), whole.is_ok());
    assert!(decode(nested(128).as_bytes()).is_err());
}

#[test]
fn members_are_found_where_the_parser_finds_them() {
    for text in [
        "{}",
        " { } ",
        r#"{"a":1}"#,
        r#" { "a" : "x,y:{}[]\"" , "b":[1,{"c":",:"}],"d\\":{"e":{"f":null}} } "#,
        "{\"\u{3042}\":\"\u{1f600}\",\"\\u0061\":[[],[{}]],\"\":-1.5e3}",
    ] {
        let whole: serde_json::Map<String, serde_json::Value> = serde_json::from_str(text).unwrap();
        let members = read_members(text.as_bytes()).unwrap();
        assert_eq!(members.len(), whole.len(), "{text}");
        for m in members {
            let value: serde_json::Value = serde_json::from_slice(&m.value).unwrap();
            assert_eq!(whole.get(&m.key.unwrap()), Some(&value), "{text}");
        }
    }
    assert!(read_members(br#"["a",{"b":1}]"#).is_none());
    assert!(read_members(br#""{""#).is_none());
    let twice: Vec<Option<String>> = read_members(br#"{"k":1,"k":2}"#)
        .unwrap()
        .into_iter()
        .map(|m| m.key)
        .collect();
    assert_eq!(twice, vec![Some("k".to_string()), Some("k".to_string())]);
}

#[test]
fn decode_takes_a_kind_in_an_object_of_one_member() {
    let with = |kind: &str| {
        decode(
            format!(
                r#"{{"v":1,"id":"i","session_id":"s","run_id":"r","seq":1,"ts":"2026-08-31T10:00:00Z","kind":{kind},"payload":{{}}}}"#
            )
            .as_bytes(),
        )
    };
    assert_eq!(with(r#" "tool_call" "#).unwrap().kind, Kind::ToolCall);
    assert_eq!(with(r#" { "tool_call" : null } "#).unwrap().kind, Kind::ToolCall);
    for kind in [
        r#"{"tool_call":null,"tool_call":null}"#,
        r#"{"tool_call":null,"usage":null}"#,
        r#"{"tool_call":1}"#,
        "{}",
        "null",
    ] {
        assert_eq!(
            with(kind).unwrap_err(),
            DecodeError::Json(Fault::Invalid(Field::Kind)),
            "{kind}"
        );
    }
}

#[test]
fn an_event_written_out_is_read_back() {
    for (v, provider) in [(1, Some("p")), (1, None), (2, Some("p"))] {
        let payload = serde_json::from_str::<serde_json::Value>(
            r#"{"deep":[{"a":[1,-2,18446744073709551615]},"\"\\ \u3042"],"none":null}"#,
        )
        .unwrap();
        let text = |s: &str| serde_json::Value::String(s.to_string());
        let fields = [
            ("v", serde_json::Value::from(v)),
            ("id", text("an \"id\"")),
            ("session_id", text("s, {1}")),
            ("run_id", text("r: [2]")),
            ("seq", serde_json::Value::from(u64::MAX)),
            ("ts", text("2026-08-31T10:00:00.000000001Z")),
            ("kind", text("llm_response")),
            ("provider", provider.map_or(serde_json::Value::Null, text)),
            ("model", text("")),
            ("call_id", serde_json::Value::Null),
            ("payload", payload.clone()),
        ];
        for pretty in [false, true] {
            let object: serde_json::Map<String, serde_json::Value> = fields
                .iter()
                .map(|(k, x)| (k.to_string(), x.clone()))
                .collect();
            let raw = if pretty {
                serde_json::to_vec_pretty(&object).unwrap()
            } else {
                serde_json::to_vec(&object).unwrap()
            };
            if v != 1 {
                assert!(matches!(decode(&raw), Err(DecodeError::Version(2))));
                continue;
            }
            let e = decode(&raw).unwrap();
            assert_eq!((e.v, e.id.as_str()), (1, "an \"id\""));
            assert_eq!((e.session_id.as_str(), e.run_id.as_str()), ("s, {1}", "r: [2]"));
            assert_eq!((e.seq, e.ts), (u64::MAX, Timestamp::new(1_788_170_400, 1)));
            assert_eq!(e.kind, Kind::LlmResponse);
            assert_eq!(e.provider.as_deref(), provider);
            assert_eq!((e.model.as_deref(), e.call_id), (Some(""), None));
            let shown = AuditEvent {
                payload: e.payload,
                ..synth(Kind::Usage, None)
            };
            assert_eq!(
                event_detail(&shown),
                serde_json::to_string_pretty(&payload).unwrap()
            );
        }
    }
}

#[test]
fn interleaved_calls_do_not_interfere() {
    let evs = vec![
        synth(Kind::LlmResponse, Some("a")),
        synth(Kind::LlmResponse, Some("b")),
        synth(Kind::ToolCall, Some("b")),
        synth(Kind::ToolCall, Some("a")),
        synth(Kind::ToolResult, Some("a")),
        synth(Kind::ToolResult, Some("b")),
    ];
    let groups = group_tool_calls(&evs);
    assert_eq!(groups.len(), 2);
    assert_eq!(
        (groups[0].response, groups[0].call, groups[0].result),
        (Some(0), Some(3), Some(4))
    );
    assert_eq!(
        (groups[1].response, groups[1].call, groups[1].result),
        (Some(1), Some(2), Some(5))
    );
}

#[test]
fn decode_all_counts_both_ways() {
    let mut raw = raw_fixture(TWO_RUNS);
    raw.insert(1, b"broken".to_vec());
    let (events, stats) = decode_all(&raw);
    assert_eq!((stats.accepted, stats.skipped), (6, 1));
    let ids: Vec<&str> = events.iter().map(|e| e.id.as_str()).collect();
    assert_eq!(ids, vec!["b0", "a1", "a0", "a1", "a2", "b1"]);
}

#[test]
fn a_timeline_is_left_as_it_is() {
    let once = order_and_dedup(load(TWO_RUNS));
    let ids: Vec<String> = once.iter().map(|e| e.id.clone()).collect();
    let twice = order_and_dedup(once);
    let again: Vec<String> = twice.iter().map(|e| e.id.clone()).collect();
    assert_eq!(ids, vec!["a0", "a1", "a2", "b0", "b1"]);
    assert_eq!(ids, again);
}

#[test]
fn arrival_does_not_matter_to_the_timeline() {
    let mut backwards = load(TWO_RUNS);
    backwards.reverse();
    let ids: Vec<String> = order_and_dedup(backwards)
        .iter()
        .map(|e| e.id.clone())
        .collect();
    assert_eq!(ids, vec!["a0", "a1", "a2", "b0", "b1"]);
}

#[test]
fn summary_lines() {
    let evs = load(BASIC);
    assert_eq!(event_summary(&evs[0]), "10:00:00.000 llm_request ");
    assert_eq!(
        event_summary(&evs[1]),
        "10:00:01.000 llm_response → weather"
    );
    assert_eq!(
        event_summary(&evs[3]),
        "10:00:03.000 tool_call    weather"
    );
    assert_eq!(
        event_summary(&evs[4]),
        "10:00:04.250 tool_result  weather"
    );
    let mut failed = synth(Kind::ToolResult, Some("c"));
    failed.payload = Json::Object(vec![("is_error".to_string(), Json::Bool(true))]);
    failed.ts = Timestamp::new(-1, 999_999_999);
    assert_eq!(event_summary(&failed), "23:59:59.999 tool_result  [error]");
    let cut = load(TRUNCATED);
    assert_eq!(
        event_summary(&cut[0]),
        "12:00:00.000 llm_request  切り詰め（70000000バイト）"
    );
}

#[test]
fn kind_labels() {
    for (kind, label) in [
        (Kind::LlmRequest, "llm_request"),
        (Kind::LlmResponse, "llm_response"),
        (Kind::ToolCall, "tool_call"),
        (Kind::ToolResult, "tool_result"),
        (Kind::Usage, "usage"),
    ] {
        assert_eq!(kind_label(kind), label);
    }
}

#[test]
fn details_are_readable() {
    let evs = load(BASIC);
    assert_eq!(
        event_detail(&evs[0]),
        "system: be brief\nuser: what is the weather?"
    );
    assert_eq!(event_detail(&evs[1]), "let me look");
    assert_eq!(event_detail(&evs[4]), "sunny");
    assert_eq!(
        event_detail(&evs[2]),
        "{\n  \"input_tokens\": 10,\n  \"output_tokens\": 5\n}"
    );
    let cut = load(TRUNCATED);
    assert_eq!(
        event_detail(&cut[0]),
        "切り詰め（70000000バイト）。全文は送信元の WAL に残っています。"
    );
}

#[test]
fn details_fall_back_to_json() {
    let mut e = synth(Kind::LlmRequest, None);
    let message = Json::Object(vec![("role".to_string(), Json::Text("user".to_string()))]);
    e.payload = Json::Object(vec![("messages".to_string(), Json::Array(vec![message]))]);
    assert_eq!(
        event_detail(&e),
        "{\n  \"messages\": [\n    {\n      \"role\": \"user\"\n    }\n  ]\n}"
    );
    e.kind = Kind::LlmResponse;
    e.payload = Json::Object(vec![(
        "error".to_string(),
        Json::Number {
            unsigned: None,
            text: "-1.5".to_string(),
        },
    )]);
    assert_eq!(event_detail(&e), "{\n  \"error\": -1.5\n}");
}

#[test]
fn banner_lines() {
    let mut app = loaded(BASIC);
    assert_eq!(banner_text(&app), " 7件のイベント ");
    app.follow = true;
    app.skipped = 12;
    assert_eq!(banner_text(&app), " 7件のイベント（スキップ12件）  追尾中 ");
    app.apply(Msg::Error("down".to_string()));
    assert_eq!(banner_text(&app), " down ");
}

#[test]
fn session_and_heading_lines() {
    assert_eq!(session_text("s1"), "s1");
    assert_eq!(session_text("run-9"), "run-9（セッション不明）");
    let mut app = loaded(BASIC);
    let heading = heading_row(&app);
    assert_eq!(row_text(&app, &app.rows[heading]), "▾ ツール呼出 c1");
    app.groups[0].attempt = 2;
    app.groups[0].result = None;
    let collapsed = Row::Group {
        group: 0,
        collapsed: true,
    };
    assert_eq!(
        row_text(&app, &collapsed),
        "▸ ツール呼出 c1 試行2  結果待ち"
    );
    assert_eq!(
        row_text(&app, &Row::Event(0)),
        "  10:00:00.000 llm_request "
    );
}

#[test]
fn titles_mark_the_focus() {
    assert_eq!(pane_title(Focus::Sessions, Focus::Sessions), "セッション *");
    assert_eq!(pane_title(Focus::Timeline, Focus::Sessions), "タイムライン");
    assert_eq!(pane_title(Focus::Detail, Focus::Detail), "詳細 *");
}

#[test]
fn the_selected_row_decides_the_details() {
    let mut app = loaded(BASIC);
    assert_eq!(detail_text(&app), "system: be brief\nuser: what is the weather?");
    app.selected_row = heading_row(&app);
    assert_eq!(app.selected_event().unwrap().kind, Kind::ToolCall);
    app.selected_row = 99;
    assert!(app.selected_event().is_none());
    assert_eq!(detail_text(&app), "");
}

#[test]
fn keys_move_within_the_lists() {
    let mut app = App::new();
    app.apply(Msg::Sessions(names(&["a", "b"])));
    app.on_key(Key::Up);
    assert_eq!(app.selected_session, 0);
    app.on_key(Key::Char('j'));
    app.on_key(Key::Down);
    assert_eq!(app.selected_session, 1);
    assert_eq!(app.session_name(), Some("b"));
    app.on_key(Key::Char('k'));
    assert_eq!(app.selected_session, 0);
    app.on_key(Key::Tab);
    app.on_key(Key::Down);
    assert_eq!((app.focus, app.selected_row), (Focus::Timeline, 0));
    app.on_key(Key::Tab);
    app.on_key(Key::Down);
    assert_eq!((app.focus, app.detail_scroll), (Focus::Detail, 1));
    app.on_key(Key::Tab);
    assert_eq!(app.focus, Focus::Sessions);
    app.on_key(Key::Other);
    app.on_key(Key::Enter);
    assert_eq!(app.selected_session, 0);
}

#[test]
fn page_keys_scroll_the_detail_pane() {
    let mut app = App::new();
    for focus in [Focus::Sessions, Focus::Timeline, Focus::Detail] {
        app.focus = focus;
        app.detail_scroll = 0;
        app.on_key(Key::PageDown);
        assert_eq!(app.detail_scroll, 10);
        app.on_key(Key::PageUp);
        app.on_key(Key::PageUp);
        assert_eq!(app.detail_scroll, 0);
    }
    app.detail_scroll = u16::MAX - 3;
    app.on_key(Key::PageDown);
    assert_eq!(app.detail_scroll, u16::MAX);
}

#[test]
fn moving_in_the_timeline_rewinds_the_details() {
    let mut app = loaded(BASIC);
    app.focus = Focus::Timeline;
    app.detail_scroll = 4;
    app.on_key(Key::Down);
    assert_eq!((app.selected_row, app.detail_scroll), (1, 0));
}

#[test]
fn a_renewed_list_keeps_the_selected_session() {
    let mut app = App::new();
    app.apply(Msg::Sessions(names(&["b", "c"])));
    app.on_key(Key::Down);
    app.apply(Msg::Sessions(names(&["c", "run-1", "a", "b"])));
    assert_eq!(app.sessions, vec!["a", "b", "c", "run-1"]);
    assert_eq!(app.session_name(), Some("c"));
    app.apply(Msg::Sessions(names(&["a"])));
    assert_eq!(app.session_name(), Some("a"));
    app.apply(Msg::Sessions(vec![]));
    assert_eq!(app.session_name(), None);
}

#[test]
fn events_of_another_session_are_ignored() {
    let mut app = loaded(BASIC);
    app.apply(Msg::Events {
        session: "s2".to_string(),
        raw: raw_fixture(TWO_RUNS),
        next_offset: 50,
        replace: true,
    });
    assert_eq!((app.events.len(), app.next_offset), (7, 7));
}

#[test]
fn following_selects_the_newest_row() {
    let mut app = loaded(BASIC);
    app.on_key(Key::Char('f'));
    app.apply(events_msg(TWO_RUNS, 13, false));
    assert!(app.events.len() > 7);
    assert_eq!(app.selected_row, app.rows.len() - 1);
}

#[test]
fn loading_in_parts_equals_loading_at_once() {
    let whole = loaded(TWO_RUNS);
    let all = raw_fixture(TWO_RUNS);
    for at in 0..=all.len() {
        let mut app = App::new();
        app.apply(Msg::Sessions(names(&["s1"])));
        app.apply(Msg::Events {
            session: "s1".to_string(),
            raw: all[..at].to_vec(),
            next_offset: at as u64,
            replace: true,
        });
        app.apply(Msg::Events {
            session: "s1".to_string(),
            raw: all[at..].to_vec(),
            next_offset: 7,
            replace: false,
        });
        let ids = |a: &App| a.events.iter().map(|e| e.id.clone()).collect::<Vec<_>>();
        assert_eq!(ids(&app), ids(&whole));
        assert_eq!(app.rows, whole.rows);
        assert_eq!(app.next_offset, whole.next_offset);
    }
}

#[test]
fn skipped_messages_add_up_until_a_full_load() {
    let mut app = loaded(BASIC);
    let junk = || Msg::Events {
        session: "s1".to_string(),
        raw: vec![b"junk".to_vec(), b"{}".to_vec()],
        next_offset: 9,
        replace: false,
    };
    app.apply(junk());
    app.apply(junk());
    assert_eq!(app.skipped, 4);
    app.apply(events_msg(BASIC, 7, true));
    assert_eq!(app.skipped, 0);
}

fn assert_indices_hold(app: &App) {
    for row in &app.rows {
        match row {
            Row::Event(i) => assert!(*i < app.events.len()),
            Row::Group { group, .. } => assert!(*group < app.groups.len()),
        }
    }
    for g in &app.groups {
        for i in [g.response, g.call, g.result].into_iter().flatten() {
            assert!(i < app.events.len());
        }
    }
    assert!(app.selected_row < app.rows.len().max(1));
    assert!(app.selected_session < app.sessions.len().max(1));
    assert_eq!(app.rows.is_empty(), app.events.is_empty());
}

#[test]
fn indices_hold_after_every_message_and_key() {
    let keys = [
        Key::Enter,
        Key::Down,
        Key::Tab,
        Key::Char('f'),
        Key::Down,
        Key::Enter,
        Key::PageDown,
        Key::Up,
    ];
    let mut app = App::new();
    assert_indices_hold(&app);
    for round in 0..4 {
        for msg in [
            Msg::Sessions(names(&["s1", "s2"])),
            events_msg(BASIC, 7, round != 1),
            events_msg(TWO_RUNS, 9, false),
            Msg::Events {
                session: "s1".to_string(),
                raw: vec![],
                next_offset: 0,
                replace: round == 2,
            },
            Msg::Sessions(names(&["s1"])),
        ] {
            app.apply(msg);
            assert_indices_hold(&app);
            for key in keys {
                app.on_key(key);
                assert_indices_hold(&app);
            }
        }
    }
}

#[test]
fn collapsing_hides_only_the_events_of_the_group() {
    let mut app = loaded(BASIC);
    assert_eq!(
        app.rows,
        vec![
            Row::Event(0),
            Row::Group {
                group: 0,
                collapsed: false
            },
            Row::Event(1),
            Row::Event(2),
            Row::Event(3),
            Row::Event(4),
            Row::Event(5),
            Row::Event(6),
        ]
    );
    app.focus = Focus::Timeline;
    app.selected_row = 1;
    app.on_key(Key::Enter);
    assert_eq!(
        app.rows,
        vec![
            Row::Event(0),
            Row::Group {
                group: 0,
                collapsed: true
            },
            Row::Event(2),
            Row::Event(5),
            Row::Event(6),
        ]
    );
    assert_eq!(app.selected_row, 1);
}
