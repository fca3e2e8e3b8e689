use acestream_audio::engine::{
    engine_error, error_from, fetch_stats, getstream_url, open_session, parse_session, send_stop,
    session_from, settle, EngineReply, ReplyFields,
};

use acestream_audio::http::parse_url;
use acestream_audio::route::query_param;

fn text(s: &str) -> Option<String> {
    Some(s.to_string())
}

#[test]
fn parses_the_acestream_handshake() {
    let body = r#"{"response":{
            "playback_url":"http://127.0.0.1:6878/content/abc/0.ts",
            "stat_url":"http://127.0.0.1:6878/ace/stat/abc",
            "command_url":"http://127.0.0.1:6878/ace/cmd/abc",
            "is_live":1},"error":null}"#;
    let s = parse_session(body).unwrap();
    assert_eq!(s.playback_url, "http://127.0.0.1:6878/content/abc/0.ts");
    assert_eq!(s.stat_url.as_deref(), Some("http://127.0.0.1:6878/ace/stat/abc"));
    assert_eq!(s.command_url.as_deref(), Some("http://127.0.0.1:6878/ace/cmd/abc"));
}

#[test]
fn handshake_tolerates_a_missing_stat_url() {
    let body = r#"{"response":{"playback_url":"http://x/y.ts"},"error":null}"#;
    let s = parse_session(body).unwrap();
    assert_eq!(s.stat_url, None);
    assert_eq!(s.command_url, None);
}

#[test]
fn handshake_rejects_responses_without_a_playback_url() {
    assert!(parse_session(r#"{"response":null,"error":"bad id"}"#).is_err());
    assert!(parse_session(r#"{"response":{},"error":null}"#).is_err());
    assert!(parse_session(r#"{"response":{"playback_url":""}}"#).is_err());
    assert!(parse_session("garbage").is_err());
}

#[test]
fn handshake_faults_say_what_is_missing() {
    assert_eq!(parse_session("{}").unwrap_err(), "no response object");
    assert_eq!(parse_session("[1]").unwrap_err(), "no response object");
    assert_eq!(parse_session(r#"{"response":7}"#).unwrap_err(), "no playback_url");
    assert_eq!(parse_session(r#"{"response":{"playback_url":1}}"#).unwrap_err(), "no playback_url");
    let e = parse_session("garbage").unwrap_err();
    assert_eq!(e, "not json: expected value at line 1 column 1");
}

#[test]
fn surfaces_engine_error_messages() {
    let body = r#"{"response":null,"error":"unknown content id"}"#;
    assert_eq!(engine_error(body).as_deref(), Some("engine error: unknown content id"));
    assert_eq!(engine_error(r#"{"error":null}"#), None);
    assert_eq!(engine_error("not json"), None);
}

#[test]
fn empty_errors_are_no_errors() {
    assert_eq!(engine_error(r#"{"error":""}"#), None);
    assert_eq!(engine_error(r#"{"error":{"code":1}}"#), None);
}

#[test]
fn getstream_url_carries_a_distinct_player_id() {
    let u = getstream_url("engine:6878", "abc", "proxy-123", true);
    assert_eq!(u, "http://engine:6878/ace/getstream?id=abc&pid=proxy-123&format=json");
    let u = getstream_url("engine:6878", "abc", "proxy-123", false);
    assert!(!u.contains("format=json"));
}

#[test]
fn replies_are_read_field_by_field() {
    let reply = EngineReply {
        response: Some(ReplyFields {
            playback_url: text("http://x/y"),
            stat_url: text(""),
            command_url: text("http://x/c"),
        }),
        error: text("ignored where there is a session"),
    };
    let s = session_from(&reply).unwrap();
    assert_eq!(s.playback_url, "http://x/y");
    assert_eq!(s.stat_url, None, "an empty url is none");
    assert_eq!(s.command_url.as_deref(), Some("http://x/c"));
    assert_eq!(error_from(&reply).as_deref(), Some("engine error: ignored where there is a session"));
    assert_eq!(settle("direct".to_string(), Some(reply)).unwrap(), s);
}

#[test]
fn an_unusable_handshake_falls_back_to_a_direct_pull() {
    let direct = "http://e:1/ace/getstream?id=abc&pid=p";
    let handshakes = [
        Err("connection refused".to_string()),
        Ok("<html>".to_string()),
        Ok("{}".to_string()),
        Ok(r#"{"response":{},"error":null}"#.to_string()),
    ];
    for handshake in handshakes {
        let s = open_session("e:1", "abc", "p", handshake).unwrap();
        assert_eq!(s.playback_url, direct);
        assert_eq!(s.stat_url, None);
        assert_eq!(s.command_url, None);
    }
    assert_eq!(settle(direct.to_string(), None).unwrap().playback_url, direct);
}

#[test]
fn an_engine_error_is_a_failure() {
    let handshake = Ok(r#"{"response":null,"error":"no such channel"}"#.to_string());
    assert_eq!(
        open_session("e:1", "abc", "p", handshake).unwrap_err(),
        "engine error: no such channel"
    );
    let reply = EngineReply { response: None, error: text("no such channel") };
    assert_eq!(settle("d".to_string(), Some(reply)).unwrap_err(), "engine error: no such channel");
}

#[test]
fn a_granted_session_is_used() {
    let handshake = Ok(r#"{"response":{"playback_url":"http://x/y.ts"}}"#.to_string());
    assert_eq!(open_session("e:1", "abc", "p", handshake).unwrap().playback_url, "http://x/y.ts");
}

#[test]
fn statistics_are_passed_through() {
    let body = r#"{"response":{"peers":12,"status":"dl"},"error":null}"#;
    let v = fetch_stats(Ok(body.to_string())).unwrap();
    assert_eq!(v.get("peers").and_then(|p| p.as_u64()), Some(12));
    assert_eq!(v.get("status").and_then(|p| p.as_str()), Some("dl"));
}

#[test]
fn statistics_that_are_none_say_why() {
    assert_eq!(fetch_stats(Err("http 500".to_string())).unwrap_err(), "http 500");
    assert_eq!(
        fetch_stats(Ok("x".to_string())).unwrap_err(),
        "stat response not json: expected value at line 1 column 1"
    );
    assert_eq!(
        fetch_stats(Ok(r#"{"response":null}"#.to_string())).unwrap_err(),
        "stat response had no data"
    );
    assert_eq!(
        fetch_stats(Ok(r#"{"response":null,"error":"gone"}"#.to_string())).unwrap_err(),
        "engine error: gone"
    );
}

#[test]
fn stopping_extends_the_query() {
    assert_eq!(send_stop("http://x/cmd"), "http://x/cmd?method=stop");
    assert_eq!(send_stop("http://x/cmd?a=b"), "http://x/cmd?a=b&method=stop");
}

#[test]
fn requests_go_to_the_engine_and_carry_the_id() {
    let id = "a".repeat(40);
    for json in [false, true] {
        let u = parse_url(&getstream_url("engine:6878", &id, "proxy-1", json)).unwrap();
        assert_eq!((u.host.as_str(), u.port), ("engine", 6878));
        assert_eq!(query_param(&u.target, "id"), Some(id.clone()));
        assert_eq!(query_param(&u.target, "pid").as_deref(), Some("proxy-1"));
        let format = query_param(&u.target, "format");
        assert_eq!(format.as_deref(), if json { Some("json") } else { None });
    }
    let u = parse_url(&getstream_url("engine", "http://other:1/x", "p", false)).unwrap();
    assert_eq!((u.host.as_str(), u.port), ("engine", 80));
}
