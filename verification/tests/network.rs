use agent_audit::app::Msg;
use agent_audit::backoff::Delay;
use agent_audit::iggy::{read_batch, Fetched, Load, Polled, Progress, POLL_BATCH};
use agent_audit::runtime::{
    next_backoff, validate_transport, Action, Cli, Event, Link, LinkAction, LinkEvent, LoopExit,
    Session, Target,
};
use agent_audit::testsupport::generated_password;

fn args(list: &[&str]) -> Vec<String> {
    list.iter().map(|s| s.to_string()).collect()
}

#[test]
fn transport_requires_tls_unless_loopback() {
    for (addr, tls, ok) in [
        ("127.0.0.1:8090", false, true),
        ("localhost:8090", false, true),
        ("[::1]:8090", false, true),
        ("10.0.0.5:8090", false, false),
        ("iggy.example.com:8090", false, false),
        ("iggy.example.com:8090", true, true),
    ] {
        assert_eq!(
            validate_transport(addr, tls).is_ok(),
            ok,
            "{addr} tls={tls}"
        );
    }
}

#[test]
fn cli_parses_defaults() {
    let cli = Cli::parse_from(&args(&["agent-audit"])).unwrap();
    assert_eq!(cli.iggy_addr, "127.0.0.1:8090");
    assert_eq!(cli.stream, "agent-audit");
}

#[test]
fn cli_parses_overrides() {
    let cli = Cli::parse_from(&args(&[
        "agent-audit",
        "--iggy-addr",
        "10.0.0.1:9000",
        "--stream",
        "other",
    ]))
    .unwrap();
    assert_eq!(cli.iggy_addr, "10.0.0.1:9000");
    assert_eq!(cli.stream, "other");
}

#[test]
fn backoff_doubles_then_caps_at_30s() {
    let mut b = Delay::from_secs(1);
    for expected in [2, 4, 8, 16, 30, 30, 30] {
        b = next_backoff(b);
        assert_eq!(b, Delay::from_secs(expected));
    }
}

#[test]
fn sessions_error_sends_error_and_reconnects() {
    let mut session = Session::new();
    assert_eq!(session.step(Event::SessionsDue), Action::ListSessions);
    assert_eq!(
        session.step(Event::Listed(Ok(vec!["s1".to_string()]))),
        Action::Send(Msg::Sessions(vec!["s1".to_string()]))
    );
    assert_eq!(session.step(Event::SessionsDue), Action::ListSessions);
    match session.step(Event::Listed(Err("boom".to_string()))) {
        Action::SendAndExit(Msg::Error(e), exit) => {
            assert!(e.contains("一覧取得に失敗"), "unexpected message: {e}");
            assert_eq!(e, "一覧取得に失敗: boom");
            assert_eq!(exit, LoopExit::Reconnect);
        }
        other => panic!("expected Msg::Error, got {other:?}"),
    }
}

fn load_all(answers: Vec<Fetched>) -> Fetched {
    let mut load = Load::new();
    for answer in answers {
        match load.step(answer) {
            Progress::More(more) => load = more,
            Progress::Done(fetched) => return fetched,
        }
    }
    panic!("the load did not end");
}

fn follow_due(name: &str, follow: bool) -> Event {
    Event::FollowDue {
        selected: Some(name.to_string()),
        follow,
    }
}

#[test]
fn full_load_success_sends_replace_true() {
    let mut session = Session::new();
    assert_eq!(
        session.step(follow_due("sess-a", false)),
        Action::LoadAll {
            session: "sess-a".to_string()
        }
    );
    let fetched = load_all(vec![Ok((vec![b"a".to_vec()], 1)), Ok((vec![], 1))]);
    assert_eq!(
        session.step(Event::Loaded {
            session: "sess-a".to_string(),
            fetched,
        }),
        Action::Send(Msg::Events {
            session: "sess-a".to_string(),
            raw: vec![b"a".to_vec()],
            next_offset: 1,
            replace: true,
        })
    );
    assert_eq!(session.step(follow_due("sess-a", false)), Action::Wait);
    assert_eq!(
        session.step(Event::SelectionChanged { open: false }),
        Action::Exit(LoopExit::Shutdown)
    );
}

#[test]
fn full_load_error_sends_error_and_reconnects() {
    let mut session = Session::new();
    assert_eq!(
        session.step(follow_due("sess-a", false)),
        Action::LoadAll {
            session: "sess-a".to_string()
        }
    );
    match session.step(Event::Loaded {
        session: "sess-a".to_string(),
        fetched: load_all(vec![Err("boom".to_string())]),
    }) {
        Action::SendAndExit(Msg::Error(e), exit) => {
            assert!(e.contains("読み込みに失敗"), "unexpected message: {e}");
            assert_eq!(exit, LoopExit::Reconnect);
        }
        other => panic!("expected Msg::Error, got {other:?}"),
    }
}

#[test]
fn follow_incremental_sends_replace_false_then_empty_sends_nothing() {
    let mut session = Session::new();
    assert_eq!(
        session.step(follow_due("sess-a", true)),
        Action::LoadAll {
            session: "sess-a".to_string()
        }
    );
    let fetched = load_all(vec![Ok((vec![], 0))]);
    assert_eq!(
        session.step(Event::Loaded {
            session: "sess-a".to_string(),
            fetched,
        }),
        Action::Send(Msg::Events {
            session: "sess-a".to_string(),
            raw: vec![],
            next_offset: 0,
            replace: true,
        })
    );
    assert_eq!(
        session.step(follow_due("sess-a", true)),
        Action::FetchFrom {
            session: "sess-a".to_string(),
            offset: 0
        }
    );
    assert_eq!(
        session.step(Event::Followed {
            session: "sess-a".to_string(),
            fetched: Ok((vec![b"x".to_vec()], 5)),
        }),
        Action::Send(Msg::Events {
            session: "sess-a".to_string(),
            raw: vec![b"x".to_vec()],
            next_offset: 5,
            replace: false,
        })
    );
    assert_eq!(
        session.step(follow_due("sess-a", true)),
        Action::FetchFrom {
            session: "sess-a".to_string(),
            offset: 5
        }
    );
    assert_eq!(
        session.step(Event::Followed {
            session: "sess-a".to_string(),
            fetched: Ok((vec![], 5)),
        }),
        Action::Wait
    );
    assert_eq!(
        session.step(Event::SelectionChanged { open: false }),
        Action::Exit(LoopExit::Shutdown)
    );
}

#[test]
fn outer_loop_backoff_escalates_then_resets_after_success() {
    let mut link = Link::new();
    let fail = |link: &mut Link, why: &str| link.step(LinkEvent::Failed(why.to_string()));
    assert_eq!(
        fail(&mut link, "boom1"),
        LinkAction::RetryAfter(
            Msg::Error("Iggyに接続できません: boom1（1秒後に再試行）".to_string()),
            Delay::from_secs(1)
        )
    );
    assert_eq!(
        fail(&mut link, "boom2"),
        LinkAction::RetryAfter(
            Msg::Error("Iggyに接続できません: boom2（2秒後に再試行）".to_string()),
            Delay::from_secs(2)
        )
    );
    assert_eq!(
        link.step(LinkEvent::Established),
        LinkAction::Serve(Msg::Connected)
    );
    let mut session = Session::new();
    match session.step(Event::Listed(Err("session boom".to_string()))) {
        Action::SendAndExit(Msg::Error(e), LoopExit::Reconnect) => {
            assert!(e.contains("一覧取得に失敗"), "unexpected: {e}")
        }
        other => panic!("expected Msg::Error, got {other:?}"),
    }
    assert_eq!(
        link.step(LinkEvent::Ended(LoopExit::Reconnect)),
        LinkAction::Connect
    );
    assert_eq!(
        fail(&mut link, "boom3"),
        LinkAction::RetryAfter(
            Msg::Error("Iggyに接続できません: boom3（1秒後に再試行）".to_string()),
            Delay::from_secs(1)
        )
    );
    assert_eq!(
        link.step(LinkEvent::Established),
        LinkAction::Serve(Msg::Connected)
    );
    assert_eq!(
        link.step(LinkEvent::Ended(LoopExit::Shutdown)),
        LinkAction::Stop
    );
}

#[test]
fn loopback_addresses_in_every_spelling() {
    for host in [
        "127.0.0.1",
        "127.255.255.255",
        "localhost",
        "[::1]",
        "[[::1]]",
        "[0:0:0:0:0:0:0:1]",
        "[0000:0::0001]",
        "[::0.0.0.1]",
        "[0:0:0:0:0:0:0.0.0.1]",
    ] {
        assert!(validate_transport(&format!("{host}:1"), false).is_ok(), "{host}");
    }
    assert!(validate_transport("127.0.0.1", false).is_ok());
    assert!(validate_transport("localhost", false).is_ok());
}

#[test]
fn other_hosts_are_refused_in_the_clear() {
    for addr in [
        "",
        ":8090",
        "::1",
        "128.0.0.1:1",
        "127.0.0.01:1",
        "127.0.0.256:1",
        "127.0.0:1",
        "127.0.0.1.1:1",
        "127.0.0.1000:1",
        "1270.0.0.1:1",
        "Localhost:1",
        "[::2]:1",
        "[::]:1",
        "[1::1]:1",
        "[::1::]:1",
        "[:::1]:1",
        "[::00001]:1",
        "[0:0:0:0:0:0:1]:1",
        "[0:0:0:0:0:0:0:0:1]:1",
        "[0:0:0:0:0:0:0::1]:1",
        "[::ffff:127.0.0.1]:1",
        "[::1%lo]:1",
        "[::g]:1",
    ] {
        assert!(validate_transport(addr, false).is_err(), "{addr}");
        assert!(validate_transport(addr, true).is_ok());
    }
    assert_eq!(
        validate_transport("10.0.0.5:8090", false)
            .unwrap_err()
            .message(),
        "10.0.0.5:8090 は平文 TCP のリモート宛です。--tls を付けるか 127.0.0.1 を使ってください"
    );
}

#[test]
fn cli_reads_the_flag_and_refuses_the_unknown() {
    let cli = Cli::parse_from(&args(&["agent-audit", "--tls", "--stream=x"])).unwrap();
    assert_eq!((cli.tls, cli.stream.as_str()), (true, "x"));
    assert!(!Cli::parse_from(&args(&["agent-audit"])).unwrap().tls);
    assert!(!Cli::parse_from(&vec![]).unwrap().tls);

    let unknown = Cli::parse_from(&args(&["agent-audit", "--nope"])).unwrap_err();
    assert!(unknown.is_error);
    assert!(unknown.text.contains("--nope"));
    let missing = Cli::parse_from(&args(&["agent-audit", "--stream"])).unwrap_err();
    assert!(missing.is_error);
    let help = Cli::parse_from(&args(&["agent-audit", "--help"])).unwrap_err();
    assert!(!help.is_error);
    assert!(help.text.contains("--iggy-addr <IGGY_ADDR>"));
    let version = Cli::parse_from(&args(&["agent-audit", "--version"])).unwrap_err();
    assert_eq!((version.is_error, version.text.as_str()), (false, "agent-audit 0.1.0\n"));
}

#[test]
fn backoff_keeps_parts_of_a_second() {
    let half = Delay {
        secs: 0,
        nanos: 500_000_000,
    };
    assert_eq!(next_backoff(half), Delay::from_secs(1));
    let odd = Delay {
        secs: 7,
        nanos: 600_000_000,
    };
    assert_eq!(
        next_backoff(odd),
        Delay {
            secs: 15,
            nanos: 200_000_000
        }
    );
    let almost = Delay {
        secs: 14,
        nanos: 999_999_999,
    };
    assert_eq!(
        next_backoff(almost),
        Delay {
            secs: 29,
            nanos: 999_999_998
        }
    );
    assert_eq!(next_backoff(Delay::from_secs(15)).as_secs(), 30);
}

#[test]
fn waits_grow_with_each_failure() {
    let mut link = Link::new();
    let mut waits = Vec::new();
    for _ in 0..7 {
        match link.step(LinkEvent::Failed("down".to_string())) {
            LinkAction::RetryAfter(_, delay) => waits.push(delay.as_secs()),
            other => panic!("expected a wait, got {other:?}"),
        }
    }
    assert_eq!(waits, vec![1, 2, 4, 8, 16, 30, 30]);
}

#[test]
fn a_batch_is_taken_apart() {
    let batch = vec![
        Polled {
            offset: 7,
            payload: b"a".to_vec(),
        },
        Polled {
            offset: 9,
            payload: b"b".to_vec(),
        },
    ];
    assert_eq!(
        read_batch(7, batch),
        (vec![b"a".to_vec(), b"b".to_vec()], 10)
    );
    assert_eq!(read_batch(10, vec![]), (vec![], 10));
    assert_eq!(POLL_BATCH, 100);
}

#[test]
fn a_load_joins_batches_until_an_empty_one() {
    let first = || Ok((vec![b"a".to_vec(), b"b".to_vec()], 2));
    let second = || Ok((vec![b"c".to_vec()], 3));
    assert_eq!(
        load_all(vec![first(), second(), Ok((vec![], 99))]),
        Ok((vec![b"a".to_vec(), b"b".to_vec(), b"c".to_vec()], 3))
    );
    assert_eq!(
        load_all(vec![first(), Err("gone".to_string()), second()]),
        Err("gone".to_string())
    );
}

#[test]
fn a_connection_is_opened_with_the_options() {
    let cli = Cli::parse_from(&args(&["agent-audit", "--tls", "--stream", "x"])).unwrap();
    let target = Target::of(cli, "token".to_string());
    assert_eq!(target.addr, "127.0.0.1:8090");
    assert_eq!(target.stream, "x");
    assert_eq!(target.pat, "token");
    assert!(target.tls);
}

#[test]
fn another_session_is_loaded_from_its_beginning() {
    let mut session = Session::new();
    session.step(Event::Loaded {
        session: "a".to_string(),
        fetched: Ok((vec![], 4)),
    });
    assert_eq!(
        session.step(follow_due("b", true)),
        Action::LoadAll {
            session: "b".to_string()
        }
    );
    assert_eq!(
        session.step(follow_due("a", true)),
        Action::FetchFrom {
            session: "a".to_string(),
            offset: 4
        }
    );
    assert_eq!(
        session.step(Event::FollowDue {
            selected: None,
            follow: true
        }),
        Action::Wait
    );
    assert_eq!(
        session.step(Event::SelectionChanged { open: true }),
        Action::Wait
    );
    assert_eq!(
        session.step(Event::Followed {
            session: "a".to_string(),
            fetched: Err("gone".to_string()),
        }),
        Action::SendAndExit(
            Msg::Error("追尾に失敗: gone".to_string()),
            LoopExit::Reconnect
        )
    );
}

#[test]
fn the_password_is_found_in_either_log() {
    let out = "starting\nGenerated root user password: \u{3000} pw 1 \r\nGenerated root user password: no\n";
    assert_eq!(generated_password(out, ""), Some("pw 1".to_string()));
    assert_eq!(
        generated_password("nothing\n", "x Generated root user password: pw2"),
        Some("pw2".to_string())
    );
    assert_eq!(generated_password("Generated root user", "password: x"), None);
}
