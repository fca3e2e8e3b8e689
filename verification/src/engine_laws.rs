//! What the engine's answers come to.

use vstd::prelude::*;

use crate::engine::{
    parsed_session, reply_of, reported_error, settled, statistics, stop_url, SessionView,
    CONTROL_TIMEOUT, STALL_TIMEOUT,
};
use crate::json::{document, Json};
use crate::pull::STATS_INTERVAL;
use crate::route::{first_value, param, path_of};
use crate::text::{index_of, lemma_index_of, split};

verus! {

/// The text under a key, unless there is none or it is empty.
pub open spec fn text_under(members: Map<Seq<char>, Json>, key: Seq<char>) -> Option<Seq<char>> {
    if members.contains_key(key) && members[key] is Text && members[key]->Text_0.len() > 0 {
        Some(members[key]->Text_0)
    } else {
        None
    }
}

/// An answer with a `playback_url` in its `response` grants a session: with that
/// URL, and with those for statistics and commands as far as they are given.
pub proof fn law_answers_grant_sessions(
    doc: Map<Seq<char>, Json>,
    response: Map<Seq<char>, Json>,
    direct: Seq<char>,
    body: Seq<char>,
)
    requires
        doc.contains_key("response"@),
        doc["response"@] == Json::Object(response),
        text_under(response, "playback_url"@) is Some,
    ensures
        ({
            let session = SessionView {
                playback_url: text_under(response, "playback_url"@)->0,
                stat_url: text_under(response, "stat_url"@),
                command_url: text_under(response, "command_url"@),
            };
            &&& settled(direct, Some(reply_of(Json::Object(doc)))) == Ok::<SessionView, Seq<char>>(
                session,
            )
            &&& document(body) == Ok::<Json, Seq<char>>(Json::Object(doc)) ==> parsed_session(body)
                == Ok::<SessionView, Seq<char>>(session)
        }),
{
}

/// An answer that grants no session is the engine's error, where it reports one,
/// and else is no obstacle: the stream is then pulled directly.
pub proof fn law_answers_without_session(doc: Map<Seq<char>, Json>, direct: Seq<char>, body: Seq<char>)
    requires
        !(doc.contains_key("response"@) && doc["response"@] is Object && text_under(
            doc["response"@]->Object_0,
            "playback_url"@,
        ) is Some),
    ensures
        settled(direct, Some(reply_of(Json::Object(doc)))) == match text_under(doc, "error"@) {
            Some(e) => Err::<SessionView, Seq<char>>("engine error: "@ + e),
            None => Ok(SessionView { playback_url: direct, stat_url: None, command_url: None }),
        },
        settled(direct, None) == Ok::<SessionView, Seq<char>>(
            SessionView { playback_url: direct, stat_url: None, command_url: None },
        ),
        document(body) == Ok::<Json, Seq<char>>(Json::Object(doc)) ==> parsed_session(body) == Err::<
            SessionView,
            Seq<char>,
        >(
            if doc.contains_key("response"@) && !(doc["response"@] is Null) {
                "no playback_url"@
            } else {
                "no response object"@
            },
        ) && reported_error(body) == match text_under(doc, "error"@) {
            Some(e) => Some("engine error: "@ + e),
            None => None,
        },
        document(body) is Err ==> parsed_session(body) == Err::<SessionView, Seq<char>>(
            "not json: "@ + document(body)->Err_0,
        ) && reported_error(body) is None,
{
}

/// Statistics are passed on as the engine gives them in `response`, whatever their
/// shape. Without any there is an error: that of the request, of the text, of the
/// engine, or that there were none.
pub proof fn law_statistics_are_passed_on(
    text: Seq<char>,
    doc: Map<Seq<char>, Json>,
    failure: Seq<char>,
)
    ensures
        statistics(Err(failure)) == Err::<Json, Seq<char>>(failure),
        document(text) is Err ==> statistics(Ok(text)) == Err::<Json, Seq<char>>(
            "stat response not json: "@ + document(text)->Err_0,
        ),
        document(text) == Ok::<Json, Seq<char>>(Json::Object(doc)) ==> statistics(Ok(text)) == (
        if doc.contains_key("response"@) && !(doc["response"@] is Null) {
            Ok::<Json, Seq<char>>(doc["response"@])
        } else {
            match text_under(doc, "error"@) {
                Some(e) => Err("engine error: "@ + e),
                None => Err("stat response had no data"@),
            }
        }),
{
}

proof fn lemma_split_with_last(a: Seq<char>, b: Seq<char>)
    requires
        !b.contains('&'),
    ensures
        split(a + seq!['&'] + b, '&') == split(a, '&') + seq![b],
    decreases a.len(),
{
    let s = a + seq!['&'] + b;
    lemma_index_of(a, '&');
    lemma_index_of(s, '&');
    match index_of(a, '&') {
        Some(i) => {
            assert(s[i] == '&');
            assert forall|j: int| 0 <= j < i implies s[j] != '&' by {
                assert(s[j] == a[j]);
            }
            assert(index_of(s, '&') == Some(i));
            assert(s.take(i) == a.take(i));
            assert(s.skip(i + 1) == a.skip(i + 1) + seq!['&'] + b);
            lemma_split_with_last(a.skip(i + 1), b);
            assert(split(s, '&') == split(a, '&') + seq![b]);
        },
        None => {
            let k = a.len() as int;
            assert(s[k] == '&');
            assert forall|j: int| 0 <= j < k implies s[j] != '&' by {
                assert(s[j] == a[j]);
            }
            assert(index_of(s, '&') == Some(k));
            assert(s.take(k) == a);
            assert(s.skip(k + 1) == b);
            lemma_index_of(b, '&');
            assert(index_of(b, '&') is None) by {
                if let Some(j) = index_of(b, '&') {
                    assert(b.contains(b[j]));
                }
            }
            assert(split(b, '&') == seq![b]);
            assert(split(s, '&') == seq![a] + seq![b]);
        },
    }
}

proof fn lemma_first_value_in_two(a: Seq<Seq<char>>, b: Seq<Seq<char>>, key: Seq<char>)
    ensures
        first_value(a + b, key) == match first_value(a, key) {
            Some(v) => Some(v),
            None => first_value(b, key),
        },
    decreases a.len(),
{
    if a.len() == 0 {
        assert(a + b == b);
    } else {
        assert((a + b).drop_first() == a.drop_first() + b);
        assert((a + b)[0] == a[0]);
        lemma_first_value_in_two(a.drop_first(), b, key);
    }
}

/// The URL that drops a session is the one that controls it, with `method=stop`
/// behind it: it has the same path, and every parameter that was there already
/// keeps its value.
pub proof fn law_stop_urls_stop(command_url: Seq<char>, key: Seq<char>)
    ensures
        command_url.is_prefix_of(stop_url(command_url)),
        path_of(stop_url(command_url)) == path_of(command_url),
        param(stop_url(command_url), key) == match param(command_url, key) {
            Some(v) => Some(v),
            None => if key == "method"@ {
                Some("stop"@)
            } else {
                None
            },
        },
{
    reveal_strlit("&");
    reveal_strlit("?");
    reveal_strlit("method=stop");
    reveal_strlit("method");
    reveal_strlit("stop");
    let c = command_url;
    let s = stop_url(c);
    let last = "method=stop"@;
    assert(s.subrange(0, c.len() as int) == c);
    lemma_index_of(c, '?');
    lemma_index_of(s, '?');
    lemma_index_of(last, '=');
    assert(last[6] == '=');
    assert(index_of(last, '=') == Some(6int));
    assert(last.take(6) == "method"@);
    assert(last.skip(7) == "stop"@);
    assert(seq![last].drop_first().len() == 0);
    reveal_with_fuel(first_value, 2);
    assert(first_value(seq![last], key) == if key == "method"@ {
        Some("stop"@)
    } else {
        None
    });
    assert(!last.contains('&'));
    match index_of(c, '?') {
        Some(i) => {
            assert(c.contains(c[i]));
            assert(s[i] == '?');
            assert forall|j: int| 0 <= j < i implies s[j] != '?' by {
                assert(s[j] == c[j]);
            }
            assert(index_of(s, '?') == Some(i));
            assert(s.take(i) == c.take(i));
            let query = c.skip(i + 1);
            assert(s.skip(i + 1) == query + seq!['&'] + last);
            lemma_split_with_last(query, last);
            lemma_first_value_in_two(split(query, '&'), seq![last], key);
        },
        None => {
            assert(!c.contains('?'));
            let k = c.len() as int;
            assert(s[k] == '?');
            assert forall|j: int| 0 <= j < k implies s[j] != '?' by {
                assert(s[j] == c[j]);
            }
            assert(index_of(s, '?') == Some(k));
            assert(s.take(k) == c);
            assert(s.skip(k + 1) == last);
            lemma_index_of(last, '&');
            assert(split(last, '&') == seq![last]);
        },
    }
}

/// A request that controls a session may take ten seconds, a stream may be silent for
/// three times as long, and each session is asked for its statistics twice in the time
/// that such a request may take.
pub proof fn law_time_limits()
    ensures
        CONTROL_TIMEOUT == 10,
        STALL_TIMEOUT == 3 * CONTROL_TIMEOUT,
        2 * STATS_INTERVAL == 1000 * CONTROL_TIMEOUT,
{
}

} // verus!
