//! The AceStream engine's session API.
//!
//! The engine is asked over HTTP and answers with small JSON documents. What is
//! to be requested, and what an answer means, is decided here.

use serde_json::Value;
use vstd::prelude::*;

use crate::json::{document, error_text, json_of, member, parse, Json};
use crate::text::{contains_char, text_of, to_chars};

verus! {

/// Matches the `-rw_timeout 30000000` that ffmpeg would be given, in seconds.
pub const STALL_TIMEOUT: u64 = 30;

/// Short timeout for the small JSON control requests, in seconds.
pub const CONTROL_TIMEOUT: u64 = 10;

// ---------------------------------------------------------------------------
// Sessions
// ---------------------------------------------------------------------------

/// An open engine session for one content id.
#[derive(Debug, Clone, PartialEq, Eq)]
pub struct Session {
    pub playback_url: String,
    /// Present only when the engine answered the JSON handshake. Without it
    /// there are no peer statistics and no clean stop.
    pub stat_url: Option<String>,
    pub command_url: Option<String>,
}

/// What a `Session` says.
#[verifier::ext_equal]
pub struct SessionView {
    pub playback_url: Seq<char>,
    pub stat_url: Option<Seq<char>>,
    pub command_url: Option<Seq<char>>,
}

impl View for Session {
    type V = SessionView;

    open spec fn view(&self) -> SessionView {
        SessionView {
            playback_url: self.playback_url@,
            stat_url: text_of(self.stat_url),
            command_url: text_of(self.command_url),
        }
    }
}

/// The URL that opens a session.
pub open spec fn getstream(
    engine_host: Seq<char>,
    content_id: Seq<char>,
    pid: Seq<char>,
    json: bool,
) -> Seq<char> {
    "http://"@ + engine_host + "/ace/getstream?id="@ + content_id + "&pid="@ + pid + if json {
        "&format=json"@
    } else {
        ""@
    }
}

/// The URL that opens a session: with the JSON handshake, or as a direct stream.
pub fn getstream_url(engine_host: &str, content_id: &str, pid: &str, json: bool) -> (url: String)
    ensures
        url@ == getstream(engine_host@, content_id@, pid@, json),
{
    let mut url = "http://".to_owned();
    url.append(engine_host);
    url.append("/ace/getstream?id=");
    url.append(content_id);
    url.append("&pid=");
    url.append(pid);
    url.append(
        if json {
            "&format=json"
        } else {
            ""
        },
    );
    url
}

/// A session that pulls `url` directly, without statistics and clean stop.
pub open spec fn direct_session(url: Seq<char>) -> SessionView {
    SessionView { playback_url: url, stat_url: None, command_url: None }
}

// ---------------------------------------------------------------------------
// Replies
// ---------------------------------------------------------------------------

/// The fields that are read of an engine's answer. A field that is missing, or
/// is not a string, is `None`.
#[derive(Debug, Clone, PartialEq, Eq)]
pub struct ReplyFields {
    pub playback_url: Option<String>,
    pub stat_url: Option<String>,
    pub command_url: Option<String>,
}

/// An engine's answer: what it says in `response`, unless that is missing or
/// null, and in `error`.
#[derive(Debug, Clone, PartialEq, Eq)]
pub struct EngineReply {
    pub response: Option<ReplyFields>,
    pub error: Option<String>,
}

/// What a `ReplyFields` says.
#[verifier::ext_equal]
pub struct FieldsView {
    pub playback_url: Option<Seq<char>>,
    pub stat_url: Option<Seq<char>>,
    pub command_url: Option<Seq<char>>,
}

/// What an `EngineReply` says.
#[verifier::ext_equal]
pub struct ReplyView {
    pub response: Option<FieldsView>,
    pub error: Option<Seq<char>>,
}

impl View for ReplyFields {
    type V = FieldsView;

    open spec fn view(&self) -> FieldsView {
        FieldsView {
            playback_url: text_of(self.playback_url),
            stat_url: text_of(self.stat_url),
            command_url: text_of(self.command_url),
        }
    }
}

impl View for EngineReply {
    type V = ReplyView;

    open spec fn view(&self) -> ReplyView {
        ReplyView {
            response: match self.response {
                Some(f) => Some(f@),
                None => None,
            },
            error: text_of(self.error),
        }
    }
}

/// The member `key` of a document, where it is an object that has one.
pub open spec fn field(doc: Json, key: Seq<char>) -> Option<Json> {
    match doc {
        Json::Object(members) => if members.contains_key(key) {
            Some(members[key])
        } else {
            None
        },
        _ => None,
    }
}

/// The string that stands in member `key` of a document.
pub open spec fn text_field(doc: Json, key: Seq<char>) -> Option<Seq<char>> {
    match field(doc, key) {
        Some(Json::Text(s)) => Some(s),
        _ => None,
    }
}

/// What `response` holds, unless it is missing or null.
pub open spec fn response_of(doc: Json) -> Option<Json> {
    match field(doc, "response"@) {
        Some(r) => if r is Null {
            None
        } else {
            Some(r)
        },
        None => None,
    }
}

/// What a document says as an engine's answer.
pub open spec fn reply_of(doc: Json) -> ReplyView {
    ReplyView {
        response: match response_of(doc) {
            Some(r) => Some(
                FieldsView {
                    playback_url: text_field(r, "playback_url"@),
                    stat_url: text_field(r, "stat_url"@),
                    command_url: text_field(r, "command_url"@),
                },
            ),
            None => None,
        },
        error: text_field(doc, "error"@),
    }
}

/// Reads the string in member `key`.
fn read_text(v: &Value, key: &str) -> (r: Option<String>)
    ensures
        text_of(r) == text_field(json_of(*v), key@),
{
    match member(v, key) {
        None => None,
        Some(x) => match x.as_str() {
            None => None,
            Some(s) => Some(s.to_owned()),
        },
    }
}

/// Finds what `response` holds.
fn find_response(v: &Value) -> (r: Option<&Value>)
    ensures
        match r {
            Some(x) => response_of(json_of(*v)) == Some(json_of(*x)),
            None => response_of(json_of(*v)) is None,
        },
{
    match member(v, "response") {
        None => None,
        Some(x) => if x.is_null() {
            None
        } else {
            Some(x)
        },
    }
}

/// Reads a document as an engine's answer.
pub fn read_reply(v: &Value) -> (r: EngineReply)
    ensures
        r@ == reply_of(json_of(*v)),
{
    let response = match find_response(v) {
        None => None,
        Some(x) => Some(
            ReplyFields {
                playback_url: read_text(x, "playback_url"),
                stat_url: read_text(x, "stat_url"),
                command_url: read_text(x, "command_url"),
            },
        ),
    };
    EngineReply { response, error: read_text(v, "error") }
}

// ---------------------------------------------------------------------------
// What an answer means
// ---------------------------------------------------------------------------

/// A text, unless it is missing or empty.
pub open spec fn filled(s: Option<Seq<char>>) -> Option<Seq<char>> {
    match s {
        Some(t) => if t.len() > 0 {
            Some(t)
        } else {
            None
        },
        None => None,
    }
}

/// The session that an answer grants, or why it grants none.
pub open spec fn session_of(reply: ReplyView) -> Result<SessionView, Seq<char>> {
    match reply.response {
        None => Err("no response object"@),
        Some(r) => match filled(r.playback_url) {
            None => Err("no playback_url"@),
            Some(url) => Ok(
                SessionView {
                    playback_url: url,
                    stat_url: filled(r.stat_url),
                    command_url: filled(r.command_url),
                },
            ),
        },
    }
}

/// The engine's own error message, if the answer carries one.
pub open spec fn error_of(reply: ReplyView) -> Option<Seq<char>> {
    match filled(reply.error) {
        Some(s) => Some("engine error: "@ + s),
        None => None,
    }
}

/// A session result, over views.
pub open spec fn session_result(r: Result<Session, String>) -> Result<SessionView, Seq<char>> {
    match r {
        Ok(s) => Ok(s@),
        Err(e) => Err(e@),
    }
}

/// A text, unless it is missing or empty.
fn keep_filled(s: &Option<String>) -> (r: Option<String>)
    ensures
        text_of(r) == filled(text_of(*s)),
{
    match s {
        None => None,
        Some(t) => {
            let chars = to_chars(t.as_str());
            if chars.len() == 0 {
                None
            } else {
                Some(t.as_str().to_owned())
            }
        },
    }
}

/// The session that an answer grants, or why it grants none.
pub fn session_from(reply: &EngineReply) -> (r: Result<Session, String>)
    ensures
        session_result(r) == session_of(reply@),
{
    match &reply.response {
        None => Err("no response object".to_owned()),
        Some(f) => match keep_filled(&f.playback_url) {
            None => Err("no playback_url".to_owned()),
            Some(playback_url) => Ok(
                Session {
                    playback_url,
                    stat_url: keep_filled(&f.stat_url),
                    command_url: keep_filled(&f.command_url),
                },
            ),
        },
    }
}

/// The engine's own error message, if the answer carries one.
pub fn error_from(reply: &EngineReply) -> (r: Option<String>)
    ensures
        text_of(r) == error_of(reply@),
{
    match keep_filled(&reply.error) {
        None => None,
        Some(s) => {
            let mut message = "engine error: ".to_owned();
            message.append(s.as_str());
            Some(message)
        },
    }
}

/// The session that an answer text grants, or why it grants none.
pub open spec fn parsed_session(body: Seq<char>) -> Result<SessionView, Seq<char>> {
    match document(body) {
        Ok(doc) => session_of(reply_of(doc)),
        Err(e) => Err("not json: "@ + e),
    }
}

/// The engine's own error message, if the answer text carries one.
pub open spec fn reported_error(body: Seq<char>) -> Option<Seq<char>> {
    match document(body) {
        Ok(doc) => error_of(reply_of(doc)),
        Err(_) => None,
    }
}

/// Extracts the engine's own error message, if the response carries one.
pub fn engine_error(body: &str) -> (r: Option<String>)
    ensures
        text_of(r) == reported_error(body@),
{
    match parse(body) {
        Ok(v) => error_from(&read_reply(&v)),
        Err(_) => None,
    }
}

/// Reads the engine's answer to the JSON handshake.
pub fn parse_session(body: &str) -> (r: Result<Session, String>)
    ensures
        session_result(r) == parsed_session(body@),
{
    match parse(body) {
        Ok(v) => session_from(&read_reply(&v)),
        Err(e) => {
            let mut message = "not json: ".to_owned();
            message.append(error_text(&e).as_str());
            Err(message)
        },
    }
}

/// What the handshake comes to, where its answer, if it is one at all, is
/// `reply`: a session, an error of the engine, or a direct pull.
pub open spec fn settled(direct: Seq<char>, reply: Option<ReplyView>) -> Result<
    SessionView,
    Seq<char>,
> {
    match reply {
        None => Ok(direct_session(direct)),
        Some(r) => match session_of(r) {
            Ok(s) => Ok(s),
            Err(_) => match error_of(r) {
                Some(message) => Err(message),
                None => Ok(direct_session(direct)),
            },
        },
    }
}

/// The answer that a handshake gave, where it gave one that can be read.
pub open spec fn handshake_reply(handshake: Result<String, String>) -> Option<ReplyView> {
    match handshake {
        Ok(text) => match document(text@) {
            Ok(doc) => Some(reply_of(doc)),
            Err(_) => None,
        },
        Err(_) => None,
    }
}

/// A structured error from the engine (bad id, no such channel) is a real
/// failure and surfaces, unlike an unsupported handshake.
pub fn settle(direct: String, reply: Option<EngineReply>) -> (r: Result<Session, String>)
    ensures
        session_result(r) == settled(
            direct@,
            match reply {
                Some(x) => Some(x@),
                None => None,
            },
        ),
{
    match reply {
        None => {},
        Some(x) => match session_from(&x) {
            Ok(s) => return Ok(s),
            Err(_) => match error_from(&x) {
                Some(message) => return Err(message),
                None => {},
            },
        },
    }
    Ok(Session { playback_url: direct, stat_url: None, command_url: None })
}

/// Opens a session against the engine, where `handshake` is what came back from
/// the URL that [`getstream_url`] gives for the JSON handshake.
///
/// Prefers the `format=json` handshake, which yields `stat_url` (peer and speed
/// statistics for /status) and `command_url` (a clean stop on teardown, so the
/// engine drops the P2P session rather than waiting for the TCP connection to
/// die). Falls back to a direct stream URL if the engine does not support it,
/// which costs statistics but keeps the service working.
pub fn open_session(
    engine_host: &str,
    content_id: &str,
    pid: &str,
    handshake: Result<String, String>,
) -> (r: Result<Session, String>)
    ensures
        session_result(r) == settled(
            getstream(engine_host@, content_id@, pid@, false),
            handshake_reply(handshake),
        ),
{
    let direct = getstream_url(engine_host, content_id, pid, false);
    let reply = match handshake {
        Err(_) => None,
        Ok(text) => match parse(text.as_str()) {
            Ok(v) => Some(read_reply(&v)),
            Err(_) => None,
        },
    };
    settle(direct, reply)
}

// ---------------------------------------------------------------------------
// Statistics and teardown
// ---------------------------------------------------------------------------

/// What an answer text says of a session's statistics.
pub open spec fn statistics(reply: Result<Seq<char>, Seq<char>>) -> Result<Json, Seq<char>> {
    match reply {
        Err(e) => Err(e),
        Ok(text) => match document(text) {
            Err(e) => Err("stat response not json: "@ + e),
            Ok(doc) => match response_of(doc) {
                Some(r) => Ok(r),
                None => match error_of(reply_of(doc)) {
                    Some(message) => Err(message),
                    None => Err("stat response had no data"@),
                },
            },
        },
    }
}

/// Reads the engine's per-session statistics, where `reply` is what came back
/// from the session's `stat_url`.
///
/// The shape varies between engine versions, so the whole `response` object is
/// passed through to /status rather than being coerced into a fixed struct.
pub fn fetch_stats(reply: Result<String, String>) -> (r: Result<Value, String>)
    ensures
        statistics(
            match reply {
                Ok(text) => Ok(text@),
                Err(e) => Err(e@),
            },
        ) == (match r {
            Ok(v) => Ok::<Json, Seq<char>>(json_of(v)),
            Err(e) => Err(e@),
        }),
{
    let text = match reply {
        Ok(t) => t,
        Err(e) => return Err(e),
    };
    let v = match parse(text.as_str()) {
        Ok(v) => v,
        Err(e) => {
            let mut message = "stat response not json: ".to_owned();
            message.append(error_text(&e).as_str());
            return Err(message);
        },
    };
    match find_response(&v) {
        Some(x) => Ok(x.clone()),
        None => match error_from(&read_reply(&v)) {
            Some(message) => Err(message),
            None => Err("stat response had no data".to_owned()),
        },
    }
}

/// The URL whose request drops the session that `command_url` controls.
pub open spec fn stop_url(command_url: Seq<char>) -> Seq<char> {
    command_url + if command_url.contains('?') {
        "&"@
    } else {
        "?"@
    } + "method=stop"@
}

/// Tells what to request so that the engine drops the session.
pub fn send_stop(command_url: &str) -> (url: String)
    ensures
        url@ == stop_url(command_url@),
{
    let chars = to_chars(command_url);
    let mut url = command_url.to_owned();
    if contains_char(chars.as_slice(), '?') {
        url.append("&");
    } else {
        url.append("?");
    }
    url.append("method=stop");
    url
}

/// A session that is opened can be played: its URLs, as far as it has them, are
/// not empty.
pub proof fn law_sessions_can_be_played(direct: Seq<char>, reply: Option<ReplyView>)
    requires
        direct.len() > 0,
    ensures
        settled(direct, reply) matches Ok(s) ==> {
            &&& s.playback_url.len() > 0
            &&& s.stat_url matches Some(url) ==> url.len() > 0
            &&& s.command_url matches Some(url) ==> url.len() > 0
        },
{
}

/// Opening a session fails only where the engine itself reports an error and
/// grants no session; whatever else goes wrong, the stream is pulled directly.
pub proof fn law_only_the_engine_refuses(direct: Seq<char>, reply: Option<ReplyView>)
    ensures
        settled(direct, reply) matches Err(message) ==> reply matches Some(r) && error_of(r) == Some(
            message,
        ) && session_of(r) is Err,
        reply is None ==> settled(direct, reply) == Ok::<SessionView, Seq<char>>(
            direct_session(direct),
        ),
{
}

} // verus!
