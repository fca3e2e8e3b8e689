//! What a request to the service, and its configuration, ask for.

use vstd::prelude::*;
use vstd::slice::slice_subrange;

use crate::format::OutputFormat;
use crate::http::{debug_text, quoted};
use crate::registry::Config;
use crate::text::{
    digit_value, find, number, parse_number, same_chars, same_text, split, split_once, text_of,
    to_chars, to_text,
};

verus! {

// ---------------------------------------------------------------------------
// Configuration
// ---------------------------------------------------------------------------

/// What an environment variable gives: its value, unless it is unset or empty.
pub open spec fn setting(value: Option<Seq<char>>, fallback: Seq<char>) -> Seq<char> {
    match value {
        Some(v) => if v.len() > 0 {
            v
        } else {
            fallback
        },
        None => fallback,
    }
}

/// The value of an environment variable, or what stands for it.
pub fn env_or(value: Option<String>, fallback: &str) -> (r: String)
    ensures
        r@ == setting(text_of(value), fallback@),
{
    match value {
        Some(v) => {
            let chars = to_chars(v.as_str());
            if chars.len() > 0 {
                v
            } else {
                fallback.to_owned()
            }
        },
        None => fallback.to_owned(),
    }
}

/// The address to listen at, where a port alone stands for every interface.
pub open spec fn listen_addr(addr: Seq<char>) -> Seq<char> {
    if addr.len() > 0 && addr[0] == ':' {
        "0.0.0.0:"@ + addr.skip(1)
    } else {
        addr
    }
}

/// Accepts the `:8080` shorthand alongside a full `host:port`.
pub fn normalise_addr(addr: &str) -> (r: String)
    ensures
        r@ == listen_addr(addr@),
{
    let chars = to_chars(addr);
    if chars.len() > 0 && chars[0] == ':' {
        let mut r = "0.0.0.0:".to_owned();
        assert(chars@.subrange(1, chars@.len() as int) == addr@.skip(1));
        let port = to_text(slice_subrange(chars.as_slice(), 1, chars.len()));
        r.append(port.as_str());
        r
    } else {
        addr.to_owned()
    }
}

/// What the environment says of the engine and of fragments.
pub open spec fn configured(host: Option<Seq<char>>, frag: Option<Seq<char>>) -> Result<
    (Seq<char>, Option<u32>),
    Seq<char>,
> {
    if setting(host, ""@).len() == 0 {
        Err("ENGINE_HOST must be set"@)
    } else {
        let ms = setting(frag, ""@);
        if ms.len() == 0 {
            Ok((setting(host, ""@), None))
        } else {
            match number(ms, 10, u32::MAX as nat) {
                Some(n) => if n > 0 {
                    Ok((setting(host, ""@), Some(n as u32)))
                } else {
                    Err("FRAG_DURATION_MS must be a positive integer, got "@ + debug_text(ms))
                },
                None => Err(
                    "FRAG_DURATION_MS must be a positive integer, got "@ + debug_text(ms),
                ),
            }
        }
    }
}

/// Reads the configuration from `ENGINE_HOST` and `FRAG_DURATION_MS`.
pub fn read_config(host: Option<String>, frag: Option<String>) -> (r: Result<Config, String>)
    ensures
        configured(text_of(host), text_of(frag)) == (match r {
            Ok(c) => Ok::<(Seq<char>, Option<u32>), Seq<char>>(
                (c.engine_host@, c.frag_duration_ms),
            ),
            Err(e) => Err(e@),
        }),
{
    proof {
        reveal_strlit("");
    }
    let engine_host = env_or(host, "");
    let host_chars = to_chars(engine_host.as_str());
    if host_chars.len() == 0 {
        return Err("ENGINE_HOST must be set".to_owned());
    }
    let ms = env_or(frag, "");
    let chars = to_chars(ms.as_str());
    if chars.len() == 0 {
        return Ok(Config { engine_host, frag_duration_ms: None });
    }
    match parse_number(chars.as_slice(), 10, u32::MAX as u64) {
        Some(n) if n > 0 => Ok(Config { engine_host, frag_duration_ms: Some(n as u32) }),
        _ => {
            let mut message = "FRAG_DURATION_MS must be a positive integer, got ".to_owned();
            message.append(quoted(ms.as_str()).as_str());
            Err(message)
        },
    }
}

// ---------------------------------------------------------------------------
// Queries
// ---------------------------------------------------------------------------

/// The value of the first pair whose key is `key`.
pub open spec fn first_value(pairs: Seq<Seq<char>>, key: Seq<char>) -> Option<Seq<char>>
    decreases pairs.len(),
{
    if pairs.len() == 0 {
        None
    } else {
        match split_once(pairs[0], '=') {
            Some((k, v)) => if k == key {
                Some(v)
            } else {
                first_value(pairs.drop_first(), key)
            },
            None => first_value(pairs.drop_first(), key),
        }
    }
}

/// The value of a parameter in the query of a URL.
pub open spec fn param(url: Seq<char>, key: Seq<char>) -> Option<Seq<char>> {
    match split_once(url, '?') {
        Some((_, query)) => first_value(split(query, '&'), key),
        None => None,
    }
}

/// Extracts a query parameter. Values here are a hex id and a fixed word list,
/// neither of which can be percent-encoded, so no decoding is needed.
pub fn query_param(url: &str, key: &str) -> (r: Option<String>)
    ensures
        text_of(r) == param(url@, key@),
{
    let chars = to_chars(url);
    let wanted = to_chars(key);
    let mark: usize = match find(chars.as_slice(), '?') {
        Some(i) => i,
        None => return None,
    };
    assert(mark < chars.len());
    let mut from: usize = mark + 1;
    loop
        invariant
            chars@ == url@,
            wanted@ == key@,
            from <= chars@.len(),
            param(url@, key@) == first_value(split(url@.skip(from as int), '&'), key@),
        decreases chars@.len() - from,
    {
        let ghost rest = url@.skip(from as int);
        let tail = slice_subrange(chars.as_slice(), from, chars.len());
        assert(tail@ == rest);
        let end = find(tail, '&');
        let len: usize = match end {
            Some(i) => i,
            None => tail.len(),
        };
        let pair = slice_subrange(tail, 0, len);
        proof {
            assert(pair@ == rest.take(len as int));
            assert(rest.take(rest.len() as int) == rest);
            let pairs = split(rest, '&');
            assert(pairs[0] == pair@);
            match end {
                Some(i) => {
                    assert(pairs.drop_first() == split(rest.skip(i + 1), '&'));
                    assert(rest.skip(i + 1) == url@.skip(from + i + 1));
                },
                None => {
                    assert(pairs.drop_first() == Seq::<Seq<char>>::empty());
                },
            }
        }
        match find(pair, '=') {
            Some(i) => {
                assert(pair@.subrange(0, i as int) == pair@.take(i as int));
                assert(i < pair.len());
                if same_chars(slice_subrange(pair, 0, i), wanted.as_slice()) {
                    assert(pair@.subrange(i + 1, pair@.len() as int) == pair@.skip(i + 1));
                    return Some(to_text(slice_subrange(pair, i + 1, pair.len())));
                }
            },
            None => {},
        }
        match end {
            Some(i) => {
                from = from + i + 1;
            },
            None => return None,
        }
    }
}

/// A content id: forty hexadecimal digits.
pub open spec fn is_content_id(id: Seq<char>) -> bool {
    id.len() == 40 && forall|i: int| 0 <= i < id.len() ==> digit_value(#[trigger] id[i], 16) is Some
}

/// Whether a text is a content id.
pub fn valid_content_id(id: &str) -> (r: bool)
    ensures
        r == is_content_id(id@),
{
    let chars = to_chars(id);
    if chars.len() != 40 {
        return false;
    }
    let mut i: usize = 0;
    while i < chars.len()
        invariant
            chars@ == id@,
            i <= chars@.len(),
            forall|k: int| 0 <= k < i ==> digit_value(#[trigger] id@[k], 16) is Some,
        decreases chars.len() - i,
    {
        let c: char = chars[i];
        let hex: bool = ('0' <= c && c <= '9') || ('a' <= c && c <= 'f') || ('A' <= c && c <= 'F');
        assert(hex == (digit_value(c, 16) is Some));
        if !hex {
            assert(digit_value(id@[i as int], 16) is None);
            return false;
        }
        i += 1;
    }
    true
}

// ---------------------------------------------------------------------------
// Replies
// ---------------------------------------------------------------------------

/// A reply that is complete at once.
#[derive(Debug, Clone, PartialEq, Eq)]
pub struct Reply {
    pub code: u16,
    pub headers: Vec<(String, String)>,
    pub body: String,
}

/// What a `Reply` says.
#[verifier::ext_equal]
pub struct ReplyView {
    pub code: u16,
    pub headers: Seq<(Seq<char>, Seq<char>)>,
    pub body: Seq<char>,
}

/// The texts of a list of pairs.
pub open spec fn header_texts(list: Seq<(String, String)>) -> Seq<(Seq<char>, Seq<char>)> {
    Seq::new(list.len(), |i: int| (list[i].0@, list[i].1@))
}

impl View for Reply {
    type V = ReplyView;

    open spec fn view(&self) -> ReplyView {
        ReplyView { code: self.code, headers: header_texts(self.headers@), body: self.body@ }
    }
}

/// The header that lets any page use a reply.
pub open spec fn any_origin() -> (Seq<char>, Seq<char>) {
    ("Access-Control-Allow-Origin"@, "*"@)
}

/// A short text as a reply.
pub open spec fn plain(code: u16, body: Seq<char>) -> ReplyView {
    ReplyView { code, headers: seq![any_origin()], body }
}

/// The reply to a preflight.
pub open spec fn preflight_view() -> ReplyView {
    ReplyView {
        code: 204,
        headers: seq![
            any_origin(),
            ("Access-Control-Allow-Methods"@, "GET, OPTIONS"@),
            ("Access-Control-Allow-Headers"@, "*"@),
        ],
        body: ""@,
    }
}

/// The reply that describes what the service does at the moment.
pub open spec fn status_view(snapshot: Seq<char>) -> ReplyView {
    ReplyView {
        code: 200,
        headers: seq![
            ("Content-Type"@, "application/json"@),
            ("Cache-Control"@, "no-store"@),
            any_origin(),
        ],
        body: snapshot,
    }
}

/// The reply to a request for the head of a stream.
pub open spec fn head_view(fmt: OutputFormat) -> ReplyView {
    ReplyView {
        code: 200,
        headers: seq![("Content-Type"@, fmt.media_type()), any_origin()],
        body: ""@,
    }
}

/// The reply to a request that could not be made a listener.
pub open spec fn refusal_view(reason: Seq<char>) -> ReplyView {
    plain(502, "could not start stream: "@ + reason)
}

/// Appends a header.
fn add_header(headers: &mut Vec<(String, String)>, name: &str, value: &str)
    ensures
        header_texts(final(headers)@) == header_texts(old(headers)@).push((name@, value@)),
{
    headers.push((name.to_owned(), value.to_owned()));
    assert(header_texts(headers@) == header_texts(old(headers)@).push((name@, value@)));
}

/// A short text as a reply.
pub fn reply(code: u16, body: &str) -> (r: Reply)
    ensures
        r@ == plain(code, body@),
{
    let mut headers: Vec<(String, String)> = Vec::new();
    add_header(&mut headers, "Access-Control-Allow-Origin", "*");
    let r = Reply { code, headers, body: body.to_owned() };
    assert(r@ == plain(code, body@));
    r
}

/// The reply to a preflight. CORS is advertised, so it is answered even though a
/// plain GET of a media URL does not trigger one.
pub fn preflight() -> (r: Reply)
    ensures
        r@ == preflight_view(),
{
    let mut headers: Vec<(String, String)> = Vec::new();
    add_header(&mut headers, "Access-Control-Allow-Origin", "*");
    add_header(&mut headers, "Access-Control-Allow-Methods", "GET, OPTIONS");
    add_header(&mut headers, "Access-Control-Allow-Headers", "*");
    let r = Reply { code: 204, headers, body: "".to_owned() };
    assert(r@ == preflight_view());
    r
}

/// The reply that describes what the service does at the moment.
pub fn status_reply(snapshot: &str) -> (r: Reply)
    ensures
        r@ == status_view(snapshot@),
{
    let mut headers: Vec<(String, String)> = Vec::new();
    add_header(&mut headers, "Content-Type", "application/json");
    add_header(&mut headers, "Cache-Control", "no-store");
    add_header(&mut headers, "Access-Control-Allow-Origin", "*");
    let r = Reply { code: 200, headers, body: snapshot.to_owned() };
    assert(r@ == status_view(snapshot@));
    r
}

/// The reply to a request for the head of a stream.
pub fn head_reply(fmt: OutputFormat) -> (r: Reply)
    ensures
        r@ == head_view(fmt),
{
    let mut headers: Vec<(String, String)> = Vec::new();
    add_header(&mut headers, "Content-Type", fmt.content_type());
    add_header(&mut headers, "Access-Control-Allow-Origin", "*");
    let r = Reply { code: 200, headers, body: "".to_owned() };
    assert(r@ == head_view(fmt));
    r
}

/// The reply to a request that could not be made a listener.
pub fn refusal(reason: &str) -> (r: Reply)
    ensures
        r@ == plain(502, "could not start stream: "@ + reason@),
        r@ == refusal_view(reason@),
{
    let mut body = "could not start stream: ".to_owned();
    body.append(reason);
    reply(502, body.as_str())
}

/// The head of the response that carries a stream.
///
/// It is delimited by the end of the connection, which is valid for both
/// HTTP/1.0 and HTTP/1.1 responses and costs only keep-alive, which is worthless
/// when a connection carries exactly one hours-long stream.
pub open spec fn stream_head_text(fmt: OutputFormat) -> Seq<char> {
    "HTTP/1.1 200 OK\r\nContent-Type: "@ + fmt.media_type()
        + "\r\nCache-Control: no-store\r\nAccess-Control-Allow-Origin: *\r\nConnection: close\r\n\r\n"@
}

/// The head of the response that carries a stream.
pub fn stream_head(fmt: OutputFormat) -> (s: String)
    ensures
        s@ == stream_head_text(fmt),
{
    let mut s = "HTTP/1.1 200 OK\r\nContent-Type: ".to_owned();
    s.append(fmt.content_type());
    s.append(
        "\r\nCache-Control: no-store\r\nAccess-Control-Allow-Origin: *\r\nConnection: close\r\n\r\n",
    );
    s
}

// ---------------------------------------------------------------------------
// Routing
// ---------------------------------------------------------------------------

/// What a request asks for.
#[derive(Debug)]
pub enum Route {
    /// This reply.
    Answer(Reply),
    /// A description of what the service does at the moment.
    Status,
    /// A stream, or only the head of one.
    Stream { content_id: String, fmt: OutputFormat, head_only: bool },
}

/// What a `Route` says.
#[verifier::ext_equal]
pub enum RouteView {
    Answer(ReplyView),
    Status,
    Stream { content_id: Seq<char>, fmt: OutputFormat, head_only: bool },
}

impl View for Route {
    type V = RouteView;

    open spec fn view(&self) -> RouteView {
        match self {
            Route::Answer(r) => RouteView::Answer(r@),
            Route::Status => RouteView::Status,
            Route::Stream { content_id, fmt, head_only } => RouteView::Stream {
                content_id: content_id@,
                fmt: *fmt,
                head_only: *head_only,
            },
        }
    }
}

/// What the service can be asked for.
pub open spec fn usage() -> Seq<char> {
    "usage:\n  GET /audio?id=<40-hex content id>[&fmt=adts|mp3]\n  GET /video?id=<40-hex content id>\n  GET /status\n"@
}

/// The path of a URL: what stands before its query.
pub open spec fn path_of(url: Seq<char>) -> Seq<char> {
    match split_once(url, '?') {
        Some((path, _)) => path,
        None => url,
    }
}

/// A parameter, or what stands for it.
pub open spec fn param_or(url: Seq<char>, key: Seq<char>, fallback: Seq<char>) -> Seq<char> {
    match param(url, key) {
        Some(v) => v,
        None => fallback,
    }
}

/// The format that a request for a stream names.
pub open spec fn wanted_format(url: Seq<char>) -> Option<OutputFormat> {
    if path_of(url) == "/video"@ {
        Some(OutputFormat::Fmp4)
    } else {
        OutputFormat::audio_named(param_or(url, "fmt"@, "adts"@))
    }
}

/// What a request for a stream asks for.
pub open spec fn stream_route(url: Seq<char>, head_only: bool) -> RouteView {
    let id = param_or(url, "id"@, ""@);
    if !is_content_id(id) {
        RouteView::Answer(plain(400, "id must be a 40-char hex content id"@))
    } else {
        match wanted_format(url) {
            Some(fmt) => RouteView::Stream { content_id: id, fmt, head_only },
            None => RouteView::Answer(plain(400, "fmt must be adts or mp3"@)),
        }
    }
}

/// What a request asks for.
pub open spec fn route_of(method: Seq<char>, url: Seq<char>) -> RouteView {
    let path = path_of(url);
    if method == "OPTIONS"@ {
        RouteView::Answer(preflight_view())
    } else if method != "GET"@ && method != "HEAD"@ {
        RouteView::Answer(plain(405, "method not allowed"@))
    } else if path == "/audio"@ || path == "/video"@ {
        stream_route(url, method == "HEAD"@)
    } else if path == "/healthz"@ {
        RouteView::Answer(plain(200, "ok"@))
    } else if path == "/status"@ {
        RouteView::Status
    } else {
        RouteView::Answer(plain(200, usage()))
    }
}

/// The path of a URL.
fn url_path(url: &str) -> (r: String)
    ensures
        r@ == path_of(url@),
{
    let chars = to_chars(url);
    match find(chars.as_slice(), '?') {
        Some(i) => {
            assert(chars@.subrange(0, i as int) == url@.take(i as int));
            to_text(slice_subrange(chars.as_slice(), 0, i))
        },
        None => url.to_owned(),
    }
}

/// Tells what a request for a stream asks for.
pub fn serve_stream(url: &str, head_only: bool) -> (r: Route)
    ensures
        r@ == stream_route(url@, head_only),
{
    let path = url_path(url);
    let id = match query_param(url, "id") {
        Some(v) => v,
        None => "".to_owned(),
    };
    if !valid_content_id(id.as_str()) {
        return Route::Answer(reply(400, "id must be a 40-char hex content id"));
    }
    let fmt: OutputFormat = if same_text(path.as_str(), "/video") {
        OutputFormat::Fmp4
    } else {
        let raw = match query_param(url, "fmt") {
            Some(v) => v,
            None => "adts".to_owned(),
        };
        match OutputFormat::parse_audio(raw.as_str()) {
            Some(f) => f,
            None => return Route::Answer(reply(400, "fmt must be adts or mp3")),
        }
    };
    Route::Stream { content_id: id, fmt, head_only }
}

/// Tells what a request asks for.
pub fn handle(method: &str, url: &str) -> (r: Route)
    ensures
        r@ == route_of(method@, url@),
{
    if same_text(method, "OPTIONS") {
        return Route::Answer(preflight());
    }
    let head_only: bool = same_text(method, "HEAD");
    if !same_text(method, "GET") && !head_only {
        return Route::Answer(reply(405, "method not allowed"));
    }
    let path = url_path(url);
    if same_text(path.as_str(), "/audio") || same_text(path.as_str(), "/video") {
        return serve_stream(url, head_only);
    }
    if same_text(path.as_str(), "/healthz") {
        return Route::Answer(reply(200, "ok"));
    }
    if same_text(path.as_str(), "/status") {
        return Route::Status;
    }
    Route::Answer(
        reply(
            200,
            "usage:\n  GET /audio?id=<40-hex content id>[&fmt=adts|mp3]\n  GET /video?id=<40-hex content id>\n  GET /status\n",
        ),
    )
}

} // verus!
