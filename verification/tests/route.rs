use acestream_audio::format::OutputFormat;
use acestream_audio::route::{
    env_or, handle, head_reply, normalise_addr, preflight, query_param, read_config, refusal, reply,
    serve_stream, status_reply, stream_head, valid_content_id, Reply, Route,
};

const ID: &str = "0123456789ABCDEFabcdef0123456789abcdef01";

fn answer(method: &str, url: &str) -> Reply {
    match handle(method, url) {
        Route::Answer(r) => r,
        other => panic!("{method} {url}: {other:?}"),
    }
}

#[test]
fn accepts_only_40_char_hex_ids() {
    assert!(valid_content_id(&"a".repeat(40)));
    assert!(valid_content_id("0123456789ABCDEFabcdef0123456789abcdef01"));
    assert!(!valid_content_id(&"a".repeat(39)));
    assert!(!valid_content_id(&"a".repeat(41)));
    assert!(!valid_content_id(""));
    assert!(!valid_content_id(&"g".repeat(40)));
    // Server-side url construction plus this check is what keeps a caller
    // from steering the engine request somewhere else.
    assert!(!valid_content_id("../../etc/passwd"));
    assert!(!valid_content_id("http://internal/admin"));
}

#[test]
fn reads_query_parameters() {
    let url = "/audio?id=abc&fmt=mp3";
    assert_eq!(query_param(url, "id").as_deref(), Some("abc"));
    assert_eq!(query_param(url, "fmt").as_deref(), Some("mp3"));
    assert_eq!(query_param(url, "missing"), None);
    assert_eq!(query_param("/audio", "id"), None);
    assert_eq!(query_param("/audio?", "id"), None);
}

#[test]
fn query_parameters_do_not_match_by_prefix() {
    let url = "/audio?xid=nope&id=yes";
    assert_eq!(query_param(url, "id").as_deref(), Some("yes"));
}

#[test]
fn normalises_the_go_style_listen_address() {
    assert_eq!(normalise_addr(":8080"), "0.0.0.0:8080");
    assert_eq!(normalise_addr("127.0.0.1:9000"), "127.0.0.1:9000");
    assert_eq!(normalise_addr("0.0.0.0:8080"), "0.0.0.0:8080");
}

#[test]
fn the_first_of_two_equal_parameters_counts() {
    assert_eq!(query_param("/a?x=1&x=2", "x").as_deref(), Some("1"));
    assert_eq!(query_param("/a?x&x=2=3&", "x").as_deref(), Some("2=3"));
    assert_eq!(query_param("/a?b=c?x=1", "x"), None);
    assert_eq!(query_param("/a?=v", "").as_deref(), Some("v"));
}

#[test]
fn unset_and_empty_settings_fall_back() {
    assert_eq!(env_or(None, ":8080"), ":8080");
    assert_eq!(env_or(Some(String::new()), ":8080"), ":8080");
    assert_eq!(env_or(Some("x".to_string()), ":8080"), "x");
    assert_eq!(normalise_addr(""), "");
    assert_eq!(normalise_addr(":"), "0.0.0.0:");
}

#[test]
fn the_configuration_is_read_from_the_environment() {
    let host = || Some("engine:6878".to_string());
    let c = read_config(host(), None).unwrap();
    assert_eq!(c.engine_host, "engine:6878");
    assert_eq!(c.frag_duration_ms, None);
    assert_eq!(read_config(host(), Some(String::new())).unwrap().frag_duration_ms, None);
    assert_eq!(read_config(host(), Some("200".to_string())).unwrap().frag_duration_ms, Some(200));

    assert_eq!(read_config(None, None).unwrap_err(), "ENGINE_HOST must be set");
    assert_eq!(read_config(Some(String::new()), None).unwrap_err(), "ENGINE_HOST must be set");
    for bad in ["0", "-1", "x", "4294967296", "1 "] {
        assert_eq!(
            read_config(host(), Some(bad.to_string())).unwrap_err(),
            format!("FRAG_DURATION_MS must be a positive integer, got {bad:?}")
        );
    }
}

#[test]
fn streams_are_routed_by_path_and_format() {
    let cases = [
        ("/audio", "", OutputFormat::Adts),
        ("/audio", "&fmt=adts", OutputFormat::Adts),
        ("/audio", "&fmt=mp3", OutputFormat::Mp3),
        ("/video", "", OutputFormat::Fmp4),
        ("/video", "&fmt=mp3", OutputFormat::Fmp4),
    ];
    for (path, rest, want) in cases {
        for method in ["GET", "HEAD"] {
            match handle(method, &format!("{path}?id={ID}{rest}")) {
                Route::Stream { content_id, fmt, head_only } => {
                    assert_eq!(content_id, ID);
                    assert_eq!(fmt, want);
                    assert_eq!(head_only, method == "HEAD");
                }
                other => panic!("{path}{rest}: {other:?}"),
            }
        }
    }
}

#[test]
fn bad_stream_requests_are_refused() {
    for url in ["/audio", "/audio?id=", "/video?id=abc", "/audio?fmt=mp3"] {
        let r = answer("GET", url);
        assert_eq!(r.code, 400);
        assert_eq!(r.body, "id must be a 40-char hex content id");
    }
    for fmt in ["fmp4", "", "ADTS"] {
        let r = answer("GET", &format!("/audio?id={ID}&fmt={fmt}"));
        assert_eq!(r.code, 400);
        assert_eq!(r.body, "fmt must be adts or mp3");
    }
    assert!(matches!(serve_stream(&format!("/audio?id={ID}"), true), Route::Stream { head_only: true, .. }));
}

#[test]
fn other_requests_get_short_replies() {
    let r = answer("GET", "/healthz?x");
    assert_eq!((r.code, r.body.as_str()), (200, "ok"));
    let r = answer("POST", "/audio");
    assert_eq!((r.code, r.body.as_str()), (405, "method not allowed"));
    let r = answer("HEAD", "/");
    assert_eq!(r.code, 200);
    assert_eq!(
        r.body,
        "usage:\n  GET /audio?id=<40-hex content id>[&fmt=adts|mp3]\n  \
         GET /video?id=<40-hex content id>\n  GET /status\n"
    );
    assert!(matches!(handle("GET", "/status"), Route::Status));
}

fn header(k: &str, v: &str) -> (String, String) {
    (k.to_string(), v.to_string())
}

#[test]
fn every_reply_may_be_used_by_any_page() {
    let cors = header("Access-Control-Allow-Origin", "*");
    let r = answer("OPTIONS", "/audio");
    assert_eq!(r, preflight());
    assert_eq!(r.code, 204);
    assert_eq!(
        r.headers,
        vec![
            cors.clone(),
            header("Access-Control-Allow-Methods", "GET, OPTIONS"),
            header("Access-Control-Allow-Headers", "*"),
        ]
    );
    assert_eq!(reply(405, "no").headers, vec![cors.clone()]);
    assert_eq!(
        head_reply(OutputFormat::Mp3).headers,
        vec![header("Content-Type", "audio/mpeg"), cors.clone()]
    );
    assert_eq!(
        status_reply("{}").headers,
        vec![header("Content-Type", "application/json"), header("Cache-Control", "no-store"), cors]
    );
    assert_eq!(refusal("why").body, "could not start stream: why");
    assert_eq!(refusal("why").code, 502);
}

#[test]
fn streams_are_delimited_by_the_close() {
    assert_eq!(
        stream_head(OutputFormat::Fmp4),
        "HTTP/1.1 200 OK\r\nContent-Type: video/mp4\r\nCache-Control: no-store\r\n\
         Access-Control-Allow-Origin: *\r\nConnection: close\r\n\r\n"
    );
}
