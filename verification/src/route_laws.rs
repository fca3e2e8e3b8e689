//! What requests ask for, and what they cannot do.

use vstd::prelude::*;

use crate::engine::getstream;
use crate::format::OutputFormat;
use crate::http::{debug_text, url_of, FaultKind, UrlView};
use crate::route::{
    configured, first_value, head_view, is_content_id, listen_addr, param, path_of, plain,
    refusal_view, route_of, setting, status_view, RouteView,
};
use crate::text::{
    digit_value, index_of, law_numerals_read_back, lemma_index_of, lemma_numeral_digits, number,
    numeral, split, split_once,
};

verus! {

/// Only a content id is ever streamed, and only where it is asked for with GET
/// or HEAD.
pub proof fn law_only_content_ids_are_streamed(method: Seq<char>, url: Seq<char>)
    ensures
        route_of(method, url) matches RouteView::Stream { content_id, head_only, .. } ==> {
            &&& is_content_id(content_id)
            &&& param(url, "id"@) == Some(content_id)
            &&& method == if head_only {
                "HEAD"@
            } else {
                "GET"@
            }
        },
{
    reveal_strlit("");
}

/// The target of the request that opens a session.
pub open spec fn session_target(id: Seq<char>, pid: Seq<char>, json: bool) -> Seq<char> {
    "/ace/getstream?id="@ + id + "&pid="@ + pid + if json {
        "&format=json"@
    } else {
        ""@
    }
}

/// The request that opens a session goes to the engine, whatever content id is
/// asked for: its host and port are those of the engine's own URL.
pub proof fn law_requests_go_to_the_engine(
    engine_host: Seq<char>,
    id: Seq<char>,
    pid: Seq<char>,
    json: bool,
)
    requires
        !engine_host.contains('/'),
    ensures
        match url_of("http://"@ + engine_host) {
            Ok(u) => url_of(getstream(engine_host, id, pid, json)) == Ok::<
                UrlView,
                (FaultKind, Seq<char>),
            >(UrlView { target: session_target(id, pid, json), ..u }),
            Err(_) => url_of(getstream(engine_host, id, pid, json)) is Err,
        },
{
    reveal_strlit("http://");
    reveal_strlit("/ace/getstream?id=");
    reveal_strlit("&pid=");
    let target = session_target(id, pid, json);
    let plain = "http://"@ + engine_host;
    let full = getstream(engine_host, id, pid, json);
    assert(full == plain + target);
    assert("http://"@.is_prefix_of(plain)) by {
        assert(plain.subrange(0, 7) == "http://"@);
    }
    assert("http://"@.is_prefix_of(full)) by {
        assert(full.subrange(0, 7) == "http://"@);
    }
    assert(plain.skip(7) == engine_host);
    let rest = full.skip(7);
    assert(rest == engine_host + target);
    let k = engine_host.len() as int;
    lemma_index_of(engine_host, '/');
    lemma_index_of(rest, '/');
    assert(target[0] == '/');
    assert(rest[k] == '/');
    assert forall|j: int| 0 <= j < k implies rest[j] != '/' by {
        assert(engine_host.contains(engine_host[j]));
    }
    assert forall|j: int| 0 <= j < k implies engine_host[j] != '/' by {
        assert(engine_host.contains(engine_host[j]));
    }
    assert(index_of(rest, '/') == Some(k));
    assert(index_of(engine_host, '/') is None);
    assert(rest.take(k) == engine_host);
    assert(rest.skip(k) == target);
}

/// The request that opens a session names the content id and the player as they
/// are, and nothing in a content id can say anything else to the engine.
pub proof fn law_requests_carry_the_id(id: Seq<char>, pid: Seq<char>, json: bool)
    requires
        is_content_id(id),
        !pid.contains('&'),
    ensures
        path_of(session_target(id, pid, json)) == "/ace/getstream"@,
        param(session_target(id, pid, json), "id"@) == Some(id),
        param(session_target(id, pid, json), "pid"@) == Some(pid),
        param(session_target(id, pid, json), "format"@) == if json {
            Some("json"@)
        } else {
            None::<Seq<char>>
        },
{
    reveal_strlit("/ace/getstream?id=");
    reveal_strlit("&pid=");
    reveal_strlit("&format=json");
    reveal_strlit("format=json");
    reveal_strlit("/ace/getstream");
    reveal_strlit("id=");
    reveal_strlit("pid=");
    reveal_strlit("id");
    reveal_strlit("pid");
    reveal_strlit("format");
    reveal_strlit("json");
    reveal_strlit("");
    let target = session_target(id, pid, json);
    let first = "id="@ + id;
    let second = "pid="@ + pid;
    let third = "format=json"@;
    let query = if json {
        first + seq!['&'] + (second + seq!['&'] + third)
    } else {
        first + seq!['&'] + second
    };
    let k: int = 14;
    assert(target == "/ace/getstream"@ + seq!['?'] + query);
    lemma_index_of(target, '?');
    assert(target[k] == '?');
    assert forall|j: int| 0 <= j < k implies target[j] != '?' by {
        assert(target[j] == "/ace/getstream"@[j]);
    }
    assert(index_of(target, '?') == Some(k));
    assert(target.skip(k + 1) == query);
    assert(target.take(k) == "/ace/getstream"@);

    assert forall|j: int| 0 <= j < first.len() implies first[j] != '&' by {
        if j >= 3 {
            assert(digit_value(id[j - 3], 16) is Some);
        }
    }
    assert forall|j: int| 0 <= j < second.len() implies second[j] != '&' by {
        if j >= 4 {
            assert(pid.contains(pid[j - 4]));
        }
    }
    assert forall|j: int| 0 <= j < third.len() implies third[j] != '&' by {}
    if json {
        lemma_split_first(first, second + seq!['&'] + third);
        lemma_split_first(second, third);
        lemma_split_last(third);
        assert(split(query, '&') == seq![first] + (seq![second] + seq![third]));
        assert(split(query, '&').drop_first() == seq![second] + seq![third]);
        assert(split(query, '&').drop_first().drop_first() == seq![third]);
        assert(split(query, '&').drop_first().drop_first().drop_first() == Seq::<Seq<char>>::empty());
    } else {
        lemma_split_first(first, second);
        lemma_split_last(second);
        assert(split(query, '&') == seq![first] + seq![second]);
        assert(split(query, '&').drop_first() == seq![second]);
        assert(split(query, '&').drop_first().drop_first() == Seq::<Seq<char>>::empty());
    }
    lemma_pair("id"@, id);
    lemma_pair("pid"@, pid);
    lemma_pair("format"@, "json"@);
    assert("id"@ + seq!['='] + id == first);
    assert("pid"@ + seq!['='] + pid == second);
    assert("format"@ + seq!['='] + "json"@ == third);
    assert("id"@.len() != "pid"@.len());
    assert("id"@.len() != "format"@.len());
    assert("pid"@.len() != "format"@.len());
    reveal_with_fuel(first_value, 4);
}

/// The first part of a text is what stands before its first separator.
proof fn lemma_split_first(a: Seq<char>, b: Seq<char>)
    requires
        forall|j: int| 0 <= j < a.len() ==> a[j] != '&',
    ensures
        split(a + seq!['&'] + b, '&') == seq![a] + split(b, '&'),
{
    let s = a + seq!['&'] + b;
    let k = a.len() as int;
    lemma_index_of(s, '&');
    assert(s[k] == '&');
    assert forall|j: int| 0 <= j < k implies s[j] != '&' by {
        assert(s[j] == a[j]);
    }
    assert(index_of(s, '&') == Some(k));
    assert(s.take(k) == a);
    assert(s.skip(k + 1) == b);
}

/// A text without a separator is one part.
proof fn lemma_split_last(a: Seq<char>)
    requires
        forall|j: int| 0 <= j < a.len() ==> a[j] != '&',
    ensures
        split(a, '&') == seq![a],
{
    lemma_index_of(a, '&');
}

/// A pair reads as its key and its value.
proof fn lemma_pair(key: Seq<char>, value: Seq<char>)
    requires
        !key.contains('='),
    ensures
        split_once(key + seq!['='] + value, '=') == Some((key, value)),
{
    let s = key + seq!['='] + value;
    let k = key.len() as int;
    lemma_index_of(s, '=');
    assert(s[k] == '=');
    assert forall|j: int| 0 <= j < k implies s[j] != '=' by {
        assert(key.contains(key[j]));
        assert(s[j] == key[j]);
    }
    assert(index_of(s, '=') == Some(k));
    assert(s.take(k) == key);
    assert(s.skip(k + 1) == value);
}

// ---------------------------------------------------------------------------
// Queries
// ---------------------------------------------------------------------------

/// A query as it is sent: pairs of a key and a value.
pub open spec fn query_text(pairs: Seq<(Seq<char>, Seq<char>)>) -> Seq<char>
    decreases pairs.len(),
{
    if pairs.len() == 0 {
        Seq::empty()
    } else if pairs.len() == 1 {
        pairs[0].0 + seq!['='] + pairs[0].1
    } else {
        pairs[0].0 + seq!['='] + pairs[0].1 + seq!['&'] + query_text(pairs.drop_first())
    }
}

/// The value of the first pair with this key.
pub open spec fn value_of(pairs: Seq<(Seq<char>, Seq<char>)>, key: Seq<char>) -> Option<Seq<char>>
    decreases pairs.len(),
{
    if pairs.len() == 0 {
        None
    } else if pairs[0].0 == key {
        Some(pairs[0].1)
    } else {
        value_of(pairs.drop_first(), key)
    }
}

/// A URL has the path and the parameters that it was put together from. Of two
/// with the same key the first counts.
pub proof fn law_parameters_read_back(
    path: Seq<char>,
    pairs: Seq<(Seq<char>, Seq<char>)>,
    key: Seq<char>,
)
    requires
        !path.contains('?'),
        forall|i: int|
            0 <= i < pairs.len() ==> {
                &&& !(#[trigger] pairs[i]).0.contains('&')
                &&& !pairs[i].0.contains('=')
                &&& !pairs[i].1.contains('&')
            },
    ensures
        path_of(path) == path,
        param(path, key) is None,
        path_of(path + seq!['?'] + query_text(pairs)) == path,
        param(path + seq!['?'] + query_text(pairs), key) == value_of(pairs, key),
{
    let query = query_text(pairs);
    let url = path + seq!['?'] + query;
    let k = path.len() as int;
    lemma_index_of(path, '?');
    assert(index_of(path, '?') is None) by {
        if let Some(i) = index_of(path, '?') {
            assert(path.contains(path[i]));
        }
    }
    lemma_index_of(url, '?');
    assert(url[k] == '?');
    assert forall|j: int| 0 <= j < k implies url[j] != '?' by {
        assert(path.contains(path[j]));
        assert(url[j] == path[j]);
    }
    assert(index_of(url, '?') == Some(k));
    assert(url.take(k) == path);
    assert(url.skip(k + 1) == query);
    lemma_pairs_read_back(pairs, key);
}

proof fn lemma_pairs_read_back(pairs: Seq<(Seq<char>, Seq<char>)>, key: Seq<char>)
    requires
        forall|i: int|
            0 <= i < pairs.len() ==> {
                &&& !(#[trigger] pairs[i]).0.contains('&')
                &&& !pairs[i].0.contains('=')
                &&& !pairs[i].1.contains('&')
            },
    ensures
        first_value(split(query_text(pairs), '&'), key) == value_of(pairs, key),
    decreases pairs.len(),
{
    if pairs.len() == 0 {
        let nothing = Seq::<char>::empty();
        lemma_split_last(nothing);
        lemma_index_of(nothing, '=');
        let parts = split(nothing, '&');
        assert(parts == seq![nothing]);
        assert(parts.drop_first().len() == 0);
        assert(split_once(parts[0], '=') is None);
        reveal_with_fuel(first_value, 2);
    } else {
        let (k, v) = pairs[0];
        let pair = k + seq!['='] + v;
        let others = pairs.drop_first();
        assert forall|i: int| 0 <= i < others.len() implies {
            &&& !(#[trigger] others[i]).0.contains('&')
            &&& !others[i].0.contains('=')
            &&& !others[i].1.contains('&')
        } by {
            assert(others[i] == pairs[i + 1]);
        }
        assert forall|j: int| 0 <= j < pair.len() implies pair[j] != '&' by {
            if j < k.len() {
                assert(k.contains(k[j]));
                assert(pair[j] == k[j]);
            } else if j > k.len() {
                assert(v.contains(v[j - k.len() - 1]));
                assert(pair[j] == v[j - k.len() - 1]);
            }
        }
        lemma_pair(k, v);
        let parts = split(query_text(pairs), '&');
        if pairs.len() == 1 {
            lemma_split_last(pair);
            assert(parts == seq![pair]);
            assert(parts.drop_first().len() == 0);
            assert(others.len() == 0);
            reveal_with_fuel(first_value, 2);
            reveal_with_fuel(value_of, 2);
        } else {
            lemma_pairs_read_back(others, key);
            let rest = query_text(others);
            assert(query_text(pairs) == pair + seq!['&'] + rest);
            lemma_split_first(pair, rest);
            assert(parts.drop_first() == split(rest, '&'));
            assert(parts[0] == pair);
        }
    }
}

/// A content id is forty characters long, and each of them is a hexadecimal digit
/// in either case.
pub proof fn law_content_ids(id: Seq<char>)
    ensures
        is_content_id(id) <==> id.len() == 40 && forall|i: int|
            0 <= i < id.len() ==> {
                ||| '0' <= #[trigger] id[i] <= '9'
                ||| 'a' <= id[i] <= 'f'
                ||| 'A' <= id[i] <= 'F'
            },
{
    if is_content_id(id) {
        assert forall|i: int| 0 <= i < id.len() implies {
            ||| '0' <= #[trigger] id[i] <= '9'
            ||| 'a' <= id[i] <= 'f'
            ||| 'A' <= id[i] <= 'F'
        } by {
            assert(digit_value(id[i], 16) is Some);
        }
    }
}

// ---------------------------------------------------------------------------
// Routes
// ---------------------------------------------------------------------------

/// What a stream is asked for by: `/audio` gives AAC unless `fmt` names another
/// format of `/audio`, `/video` gives MP4 whatever `fmt` says, and the id is the
/// one that is asked for. HEAD gets the head alone. An id that is none, and a
/// format that is none, are refused with 400 and the reason.
pub proof fn law_streams_are_asked_for(method: Seq<char>, url: Seq<char>, id: Seq<char>)
    requires
        method == "GET"@ || method == "HEAD"@,
        path_of(url) == "/audio"@ || path_of(url) == "/video"@,
        param(url, "id"@) == Some(id) || (param(url, "id"@) is None && id == ""@),
    ensures
        ({
            let head_only = method == "HEAD"@;
            let route = route_of(method, url);
            let fmt = param(url, "fmt"@);
            let video = path_of(url) == "/video"@;
            &&& !is_content_id(id) ==> answers(route, 400, "id must be a 40-char hex content id"@)
            &&& is_content_id(id) && video ==> route == (RouteView::Stream {
                content_id: id,
                fmt: OutputFormat::Fmp4,
                head_only,
            })
            &&& is_content_id(id) && !video && (fmt is None || fmt == Some("adts"@)) ==> route
                == (RouteView::Stream { content_id: id, fmt: OutputFormat::Adts, head_only })
            &&& is_content_id(id) && !video && fmt == Some("mp3"@) ==> route
                == (RouteView::Stream { content_id: id, fmt: OutputFormat::Mp3, head_only })
            &&& is_content_id(id) && !video && fmt is Some && fmt != Some("adts"@) && fmt != Some(
                "mp3"@,
            ) ==> answers(route, 400, "fmt must be adts or mp3"@)
        }),
{
    reveal_strlit("GET");
    reveal_strlit("HEAD");
    reveal_strlit("OPTIONS");
    reveal_strlit("adts");
    reveal_strlit("mp3");
    reveal_strlit("/audio");
    reveal_strlit("/video");
    assert("/audio"@[1] != "/video"@[1]);
    assert("GET"@.len() == 3 && "HEAD"@.len() == 4 && "OPTIONS"@.len() == 7);
    assert("adts"@.len() == 4 && "mp3"@.len() == 3);
    reveal_strlit("");
}

/// Whether a route is answered at once, with this code and this text, and so that
/// any page may use it.
pub open spec fn answers(route: RouteView, code: u16, body: Seq<char>) -> bool {
    match route {
        RouteView::Answer(r) => {
            &&& r.code == code
            &&& r.body == body
            &&& r.headers == seq![("Access-Control-Allow-Origin"@, "*"@)]
        },
        _ => false,
    }
}

/// Everything that is not a stream: `/healthz` is answered with `ok`, `/status`
/// with the state, and any other path with what can be asked for.
pub proof fn law_other_requests(method: Seq<char>, url: Seq<char>)
    requires
        path_of(url) != "/audio"@,
        path_of(url) != "/video"@,
    ensures
        ({
            let route = route_of(method, url);
            let asks = method == "GET"@ || method == "HEAD"@;
            &&& asks && path_of(url) == "/healthz"@ ==> answers(route, 200, "ok"@)
            &&& asks && path_of(url) == "/status"@ ==> route == RouteView::Status
            &&& asks && path_of(url) != "/healthz"@ && path_of(url) != "/status"@ ==> answers(
                route,
                200,
                "usage:\n  GET /audio?id=<40-hex content id>[&fmt=adts|mp3]\n  GET /video?id=<40-hex content id>\n  GET /status\n"@,
            )
        }),
{
    reveal_strlit("GET");
    reveal_strlit("HEAD");
    reveal_strlit("OPTIONS");
    reveal_strlit("/healthz");
    reveal_strlit("/status");
    assert("GET"@.len() == 3 && "HEAD"@.len() == 4 && "OPTIONS"@.len() == 7);
    assert("/healthz"@.len() == 8 && "/status"@.len() == 7);
}

/// A method other than GET and HEAD is refused with 405, whatever the URL, but for
/// the preflight, which is answered with 204 and what may be asked.
pub proof fn law_methods(method: Seq<char>, url: Seq<char>)
    requires
        method != "GET"@,
        method != "HEAD"@,
    ensures
        method != "OPTIONS"@ ==> answers(route_of(method, url), 405, "method not allowed"@),
        method == "OPTIONS"@ ==> match route_of(method, url) {
            RouteView::Answer(r) => {
                &&& r.code == 204
                &&& r.body.len() == 0
                &&& r.headers == seq![
                    ("Access-Control-Allow-Origin"@, "*"@),
                    ("Access-Control-Allow-Methods"@, "GET, OPTIONS"@),
                    ("Access-Control-Allow-Headers"@, "*"@),
                ]
            },
            _ => false,
        },
{
    reveal_strlit("");
}

/// The reply to `/status` is the state that it is given, as JSON that is not to be
/// kept.
pub proof fn law_status_replies_carry_the_state(snapshot: Seq<char>)
    ensures
        status_view(snapshot).code == 200,
        status_view(snapshot).body == snapshot,
        status_view(snapshot).headers.contains(("Content-Type"@, "application/json"@)),
        status_view(snapshot).headers.contains(("Cache-Control"@, "no-store"@)),
        status_view(snapshot).headers.contains(("Access-Control-Allow-Origin"@, "*"@)),
        status_view(snapshot).headers.len() == 3,
{
    let h = status_view(snapshot).headers;
    assert(h[0] == ("Content-Type"@, "application/json"@));
    assert(h[1] == ("Cache-Control"@, "no-store"@));
    assert(h[2] == ("Access-Control-Allow-Origin"@, "*"@));
}

/// The reply to HEAD succeeds, says what would come, and has no body.
pub proof fn law_head_replies_say_what_would_come(fmt: OutputFormat)
    ensures
        head_view(fmt).code == 200,
        head_view(fmt).body.len() == 0,
        head_view(fmt).headers == seq![
            (
                "Content-Type"@,
                match fmt {
                    OutputFormat::Adts => "audio/aac"@,
                    OutputFormat::Mp3 => "audio/mpeg"@,
                    OutputFormat::Fmp4 => "video/mp4"@,
                },
            ),
            ("Access-Control-Allow-Origin"@, "*"@),
        ],
{
    reveal_strlit("");
}

/// A request that could not be made a listener is told why, as a fault of the
/// gateway; and every short reply has the code and the text that it is given.
pub proof fn law_refusals_give_the_reason(reason: Seq<char>, code: u16)
    ensures
        answers(RouteView::Answer(plain(code, reason)), code, reason),
        answers(
            RouteView::Answer(refusal_view(reason)),
            502,
            "could not start stream: "@ + reason,
        ),
{
}

// ---------------------------------------------------------------------------
// Configuration
// ---------------------------------------------------------------------------

/// A variable that is empty is as good as unset.
pub proof fn law_settings(value: Seq<char>, fallback: Seq<char>)
    ensures
        setting(None, fallback) == fallback,
        setting(Some(value), fallback) == if value.len() == 0 {
            fallback
        } else {
            value
        },
{
}

/// A port alone is listened to on every interface; any other address is taken as
/// it is.
pub proof fn law_listen_addresses(addr: Seq<char>, port: Seq<char>)
    ensures
        listen_addr(":"@ + port) == "0.0.0.0:"@ + port,
        addr.len() == 0 || addr[0] != ':' ==> listen_addr(addr) == addr,
{
    reveal_strlit(":");
    assert((":"@ + port).skip(1) == port);
}

/// The configuration is the host that is given, and the fragment duration that is
/// given in decimal, if one is. Without a host, or with a duration that is no
/// positive number of milliseconds, there is none.
pub proof fn law_configuration(host: Seq<char>, frag: Option<Seq<char>>, ms: u32)
    requires
        host.len() > 0,
        ms > 0,
    ensures
        configured(None, frag) == Err::<(Seq<char>, Option<u32>), Seq<char>>(
            "ENGINE_HOST must be set"@,
        ),
        configured(Some(""@), frag) == Err::<(Seq<char>, Option<u32>), Seq<char>>(
            "ENGINE_HOST must be set"@,
        ),
        configured(Some(host), None) == Ok::<(Seq<char>, Option<u32>), Seq<char>>((host, None)),
        configured(Some(host), Some(""@)) == Ok::<(Seq<char>, Option<u32>), Seq<char>>(
            (host, None),
        ),
        configured(Some(host), Some(numeral(ms as nat, 10))) == Ok::<
            (Seq<char>, Option<u32>),
            Seq<char>,
        >((host, Some(ms))),
        configured(Some(host), Some("0"@)) is Err,
        frag matches Some(t) && t.len() > 0 && number(t, 10, u32::MAX as nat) is None
            ==> configured(Some(host), frag) == Err::<(Seq<char>, Option<u32>), Seq<char>>(
            "FRAG_DURATION_MS must be a positive integer, got "@ + debug_text(frag->0),
        ),
{
    reveal_strlit("");
    reveal_strlit("0");
    lemma_numeral_digits(ms as nat, 10);
    law_numerals_read_back(ms as nat, 10, u32::MAX as nat);
    law_numerals_read_back(0, 10, u32::MAX as nat);
    assert(numeral(0, 10) == "0"@);
}

} // verus!
