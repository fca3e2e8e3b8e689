//! Who lives how long, and how many there are of what.

use vstd::prelude::*;

use crate::encoder::{lemma_outlet_index, outlet_index, EncoderView};
use crate::format::{FragDurationMs, OutputFormat, TrackMode};
use crate::join::{JoinEventView, JoinView, Stage};
use crate::registry::{
    content_index, lemma_content_index, lemma_stream_index, stream_index, RegistryView,
};
use crate::stream::{
    encoder_index, fed_index, lemma_encoder_index, lemma_fed_index, lemma_unfed, EncodingView,
    StreamView,
};

verus! {

// ---------------------------------------------------------------------------
// One pull, one ffmpeg
// ---------------------------------------------------------------------------

/// A request for a content id that is being pulled joins that pull and starts no
/// other: a second listener, in any format, costs the engine nothing.
pub proof fn law_one_pull_per_content_id(r: RegistryView, content_id: Seq<char>, now: u64)
    requires
        r.sound(),
        content_index(r.streams, content_id) is Some,
        r.streams[content_index(r.streams, content_id)->0].holders < u64::MAX,
    ensures
        ({
            let (after, got) = r.engine_stream(content_id, now);
            let i = content_index(r.streams, content_id)->0;
            &&& got == Some((r.streams[i].serial, false))
            &&& after.streams.len() == r.streams.len()
            &&& after.streams[i] == r.streams[i].held()
        }),
{
    lemma_content_index(r.streams, content_id);
}

/// A request for a content id that nobody pulls starts a pull, under a serial
/// that no stream has or had.
pub proof fn law_cold_request_starts_a_pull(r: RegistryView, content_id: Seq<char>, now: u64)
    requires
        r.sound(),
        r.next_serial < u64::MAX,
        content_index(r.streams, content_id) is None,
    ensures
        ({
            let (after, got) = r.engine_stream(content_id, now);
            &&& got == Some((r.next_serial, true))
            &&& after.sound()
            &&& after.next_serial == r.next_serial + 1
            &&& stream_index(r.streams, r.next_serial) is None
        }),
{
    lemma_content_index(r.streams, content_id);
    lemma_stream_index(r.streams, r.next_serial);
    let after = r.engine_stream(content_id, now).0;
    assert(StreamView::fresh(r.next_serial, content_id, now).sound());
    assert forall|k: int| 0 <= k < r.streams.len() implies #[trigger] after.streams[k]
        == r.streams[k] by {}
}

/// While one request starts an encoder, every other that asks is told to wait:
/// two simultaneous requests cannot both spawn an ffmpeg. That lasts until the
/// request is done with it: an encoder that is registered already is not joined
/// before.
pub proof fn law_one_request_starts_an_encoder(
    s: StreamView,
    first: OutputFormat,
    second: OutputFormat,
    frag_ms: FragDurationMs,
    now: u64,
)
    requires
        s.get_or_start_encoder(first, frag_ms).1 is Start,
    ensures
        s.get_or_start_encoder(first, frag_ms).0.get_or_start_encoder(second, frag_ms) == (
            s.get_or_start_encoder(first, frag_ms).0,
            EncodingView::Busy,
        ),
        ({
            let plan = s.get_or_start_encoder(first, frag_ms).1;
            let started = s.get_or_start_encoder(first, frag_ms).0.started(
                first,
                plan->Start_video,
                plan->Start_audio,
                now,
            );
            started.get_or_start_encoder(second, frag_ms) == (started, EncodingView::Busy)
        }),
{
}

/// A request for a format that is being encoded joins that encoder.
pub proof fn law_running_encoder_is_shared(
    s: StreamView,
    fmt: OutputFormat,
    frag_ms: FragDurationMs,
    i: int,
)
    requires
        s.sound(),
        !s.creating,
        0 <= i < s.encoders.len(),
        s.encoders[i].registered(),
        s.encoders[i].fmt == fmt,
        !s.encoders[i].finished,
        s.encoders[i].joining < u64::MAX,
    ensures
        s.get_or_start_encoder(fmt, frag_ms).1 == EncodingView::Existing(s.encoders[i].id),
        s.get_or_start_encoder(fmt, frag_ms).0.encoders == s.encoders.update(
            i,
            s.encoders[i].held(),
        ),
{
    lemma_fed_index(s.encoders, fmt);
    let j = fed_index(s.encoders, fmt)->0;
    if i < j {
        assert(s.encoders[i].fmt != s.encoders[j].fmt);
    } else if j < i {
        assert(s.encoders[j].fmt != s.encoders[i].fmt);
    }
}

/// An encoder whose ffmpeg has ended is not joined: a replacement is started.
pub proof fn law_finished_encoder_is_replaced(
    s: StreamView,
    fmt: OutputFormat,
    frag_ms: FragDurationMs,
)
    requires
        s.sound(),
        !s.creating,
        s.probe is Some,
        forall|i: int|
            0 <= i < s.encoders.len() && (#[trigger] s.encoders[i]).registered()
                && s.encoders[i].fmt == fmt ==> s.encoders[i].finished,
    ensures
        s.get_or_start_encoder(fmt, frag_ms).1 is Start,
        s.get_or_start_encoder(fmt, frag_ms).0.creating,
{
    lemma_fed_index(s.encoders, fmt);
}

/// An encoder that is started is the one that is fed for its format, and the
/// only one. What was there before keeps its listeners, and those of other
/// formats are fed as before.
pub proof fn law_new_encoder_takes_the_slot(
    s: StreamView,
    fmt: OutputFormat,
    video: TrackMode,
    audio: TrackMode,
    now: u64,
    k: int,
)
    requires
        s.sound(),
        s.next_encoder < u64::MAX,
        0 <= k < s.encoders.len(),
    ensures
        ({
            let after = s.started(fmt, video, audio, now);
            let n = s.encoders.len() as int;
            &&& after.sound()
            &&& after.encoders.len() == n + 1
            &&& fed_index(after.encoders, fmt) == Some(n)
            &&& after.encoders[k].outlets == s.encoders[k].outlets
            &&& after.encoders[k].fmt == fmt ==> !after.encoders[k].registered()
            &&& s.encoders[k].fmt != fmt ==> after.encoders[k] == s.encoders[k]
        }),
{
    let after = s.started(fmt, video, audio, now);
    let fresh = EncoderView::fresh(s.next_encoder, s.content_id, fmt, video, audio, now);
    lemma_fed_index(s.encoders, fmt);
    assert(after.encoders.last() == fresh);
    assert(after.encoders == s.unfed(fmt).encoders.push(fresh));
    assert(fresh.sound());
    assert forall|j: int| 0 <= j < s.encoders.len() implies (#[trigger] after.encoders[j])
        == s.unfed(fmt).encoders[j] && !(after.encoders[j].registered() && after.encoders[j].fmt
        == fmt) && after.encoders[j].sound() && after.encoders[j].holders() > 0
        && after.encoders[j].id == s.encoders[j].id && (after.encoders[j].registered()
        ==> s.encoders[j].registered()) && after.encoders[j].fmt == s.encoders[j].fmt by {
        lemma_unfed(s, fmt, j);
    }
}

// ---------------------------------------------------------------------------
// Teardown
// ---------------------------------------------------------------------------

/// The last listener that leaves an encoder stops it; any other leaves it
/// running for the rest.
pub proof fn law_last_listener_stops_the_encoder(s: StreamView, id: u64, listener: u64)
    requires
        s.sound(),
        encoder_index(s.encoders, id) is Some,
        outlet_index(s.encoders[encoder_index(s.encoders, id)->0].outlets, listener) is Some,
    ensures
        ({
            let i = encoder_index(s.encoders, id)->0;
            let after = s.left(id, listener);
            &&& s.encoders[i].holders() == 1 ==> after.encoders == s.encoders.remove(i)
            &&& s.encoders[i].holders() > 1 ==> after.encoders == s.encoders.update(
                i,
                s.encoders[i].left(listener),
            ) && s.encoders[i].left(listener).holders() == s.encoders[i].holders() - 1
        }),
{
    lemma_encoder_index(s.encoders, id);
    let i = encoder_index(s.encoders, id)->0;
    lemma_outlet_index(s.encoders[i].outlets, listener);
}

/// The last encoder that stops closes its stream, unless that is held by a
/// request, by its puller, which is handing out a chunk, or for its statistics;
/// every other stream stays as it is.
pub proof fn law_last_encoder_closes_the_stream(
    r: RegistryView,
    serial: u64,
    id: u64,
    listener: u64,
)
    requires
        r.sound(),
        stream_index(r.streams, serial) is Some,
    ensures
        ({
            let i = stream_index(r.streams, serial)->0;
            let s = r.streams[i].left(id, listener);
            let after = r.left(serial, id, listener);
            let held = s.encoders.len() > 0 || s.holders > 0 || s.pulling || s.polling;
            &&& !held ==> after.streams == r.streams.remove(i)
            &&& held ==> after.streams == r.streams.update(i, s)
        }),
{
    lemma_stream_index(r.streams, serial);
}

/// A stream that its puller holds, or that is held for its statistics, outlives
/// its last listener: a request that comes meanwhile joins it and starts no
/// other pull.
pub proof fn law_held_stream_is_joined(
    r: RegistryView,
    serial: u64,
    id: u64,
    listener: u64,
    now: u64,
)
    requires
        r.sound(),
        stream_index(r.streams, serial) is Some,
        r.streams[stream_index(r.streams, serial)->0].pulling
            || r.streams[stream_index(r.streams, serial)->0].polling,
        r.streams[stream_index(r.streams, serial)->0].holders < u64::MAX,
    ensures
        ({
            let s = r.streams[stream_index(r.streams, serial)->0];
            let after = r.left(serial, id, listener);
            &&& after.has_stream(serial)
            &&& after.engine_stream(s.content_id, now).1 == Some((serial, false))
        }),
{
    lemma_stream_index(r.streams, serial);
    let i = stream_index(r.streams, serial)->0;
    let s = r.streams[i];
    let t = s.left(id, listener);
    let after = r.left(serial, id, listener);
    assert(after.streams == r.streams.update(i, t));
    assert(after.streams[i] == t);
    lemma_stream_index(after.streams, serial);
    lemma_content_index(after.streams, s.content_id);
    let k = content_index(after.streams, s.content_id)->0;
    if k < i {
        assert(r.streams[k].content_id != r.streams[i].content_id);
    } else if i < k {
        assert(r.streams[i].content_id != r.streams[k].content_id);
    }
}

/// A stream is let go of for good with the last that holds it, be that its puller
/// or whoever asks for statistics; and neither leaves a trace otherwise.
pub proof fn law_last_hold_closes_the_stream(r: RegistryView, serial: u64)
    requires
        r.sound(),
        stream_index(r.streams, serial) is Some,
    ensures
        ({
            let i = stream_index(r.streams, serial)->0;
            let s = r.streams[i];
            let free = s.holders == 0 && s.encoders.len() == 0;
            &&& r.pull_holds(serial, false).streams == if free && !s.polling {
                r.streams.remove(i)
            } else {
                r.streams.update(i, StreamView { pulling: false, ..s })
            }
            &&& r.poll_ended(serial).streams == if free && !s.pulling {
                r.streams.remove(i)
            } else {
                r.streams.update(i, StreamView { polling: false, ..s })
            }
        }),
{
}

/// Asking for statistics begins with every stream there is, and holds each until
/// it was its turn; a stream that is in use anyway is then as it was.
pub proof fn law_poll_leaves_streams_as_they_were(r: RegistryView, i: int)
    requires
        r.sound(),
        0 <= i < r.streams.len(),
        !r.streams[i].polling,
    ensures
        r.serials().contains(r.streams[i].serial),
        r.poll_begun().streams.len() == r.streams.len(),
        r.poll_begun().streams[i].polling,
        r.poll_begun().poll_ended(r.streams[i].serial).streams == r.poll_begun().streams.update(
            i,
            r.streams[i],
        ),
{
    let mid = r.poll_begun();
    let serial = r.streams[i].serial;
    assert(r.serials()[i] == serial);
    lemma_stream_index(mid.streams, serial);
    assert(mid.streams[i].serial == serial);
    let k = stream_index(mid.streams, serial)->0;
    assert(mid.streams[k].serial == r.streams[k].serial);
    if k < i {
        assert(r.streams[k].serial != r.streams[i].serial);
    } else if i < k {
        assert(r.streams[i].serial != r.streams[k].serial);
    }
    assert(StreamView { polling: false, ..mid.streams[i] } == r.streams[i]);
    assert(!r.streams[i].idle());
}

/// An encoder that stops gives up no place but its own: where another has taken
/// its slot, that stays.
pub proof fn law_stopping_keeps_the_replacement(
    s: StreamView,
    id: u64,
    listener: u64,
    fmt: OutputFormat,
    k: int,
)
    requires
        s.sound(),
        0 <= k < s.encoders.len(),
        s.encoders[k].registered(),
        s.encoders[k].fmt == fmt,
        s.encoders[k].id != id,
    ensures
        ({
            let after = s.left(id, listener);
            &&& fed_index(after.encoders, fmt) matches Some(j)
            &&& after.encoders[j] == s.encoders[k]
        }),
{
    lemma_encoder_index(s.encoders, id);
    let after = s.left(id, listener);
    lemma_fed_index(after.encoders, fmt);
    if let Some(i) = encoder_index(s.encoders, id) {
        let e = s.encoders[i].left(listener);
        lemma_outlet_index(s.encoders[i].outlets, listener);
        lemma_left_sound(s.encoders[i], listener);
        crate::stream::lemma_put_sound(s, i, e);
        let place = if e.holders() == 0 && i < k {
            k - 1
        } else {
            k
        };
        assert(after.encoders[place] == s.encoders[k]);
        let j = fed_index(after.encoders, fmt);
        assert(j is Some);
        if j->0 < place {
            assert(after.encoders[j->0].fmt != after.encoders[place].fmt);
        } else if place < j->0 {
            assert(after.encoders[place].fmt != after.encoders[j->0].fmt);
        }
    } else {
        let j = fed_index(s.encoders, fmt);
        assert(j is Some);
        if j->0 < k {
            assert(s.encoders[j->0].fmt != s.encoders[k].fmt);
        } else if k < j->0 {
            assert(s.encoders[k].fmt != s.encoders[j->0].fmt);
        }
    }
}

proof fn lemma_left_sound(e: EncoderView, listener: u64)
    requires
        e.sound(),
    ensures
        e.left(listener).sound(),
{
    lemma_outlet_index(e.outlets, listener);
    let after = e.left(listener);
    if let Some(i) = outlet_index(e.outlets, listener) {
        assert forall|k: int| 0 <= k < after.outlets.len() implies #[trigger] after.outlets[k]
            == e.outlets[if k < i {
            k
        } else {
            k + 1
        }] by {}
    }
}

// ---------------------------------------------------------------------------
// What a request holds
// ---------------------------------------------------------------------------

/// How many requests hold a stream.
pub open spec fn holders_of(r: RegistryView, serial: u64) -> int {
    match stream_index(r.streams, serial) {
        Some(i) => r.streams[i].holders as int,
        None => 0,
    }
}

/// How many requests hold an encoder of a stream.
pub open spec fn joining_in(s: StreamView, id: u64) -> int {
    match encoder_index(s.encoders, id) {
        Some(i) => s.encoders[i].joining as int,
        None => 0,
    }
}

/// How many requests hold an encoder.
pub open spec fn joining_of(r: RegistryView, serial: u64, id: u64) -> int {
    match stream_index(r.streams, serial) {
        Some(i) => joining_in(r.streams[i], id),
        None => 0,
    }
}

/// Whether a request at this stage holds the stream.
pub open spec fn stream_claim(stage: Stage, serial: u64) -> int {
    let held = match stage {
        Stage::Starting { serial: s, .. } => Some(s),
        Stage::Acquiring { serial: s } => Some(s),
        Stage::Spawning { serial: s, .. } => Some(s),
        Stage::Running { serial: s, .. } => Some(s),
        Stage::Joining { serial: s, .. } => Some(s),
        _ => None,
    };
    if held == Some(serial) {
        1
    } else {
        0
    }
}

/// Whether a request at this stage holds the encoder.
pub open spec fn encoder_claim(stage: Stage, serial: u64, id: u64) -> int {
    let held = match stage {
        Stage::Running { serial: s, id: i } => Some((s, i)),
        Stage::Joining { serial: s, id: i, .. } => Some((s, i)),
        _ => None,
    };
    if held == Some((serial, id)) {
        1
    } else {
        0
    }
}

spec fn serials_differ(streams: Seq<StreamView>) -> bool {
    forall|i: int, j: int|
        0 <= i < j < streams.len() ==> (#[trigger] streams[i]).serial != (
        #[trigger] streams[j]).serial
}

pub open spec fn ids_differ(encoders: Seq<EncoderView>) -> bool {
    forall|i: int, j: int|
        0 <= i < j < encoders.len() ==> (#[trigger] encoders[i]).id != (#[trigger] encoders[j]).id
}

proof fn lemma_stream_at(streams: Seq<StreamView>, i: int)
    requires
        serials_differ(streams),
        0 <= i < streams.len(),
    ensures
        stream_index(streams, streams[i].serial) == Some(i),
{
    lemma_stream_index(streams, streams[i].serial);
    let j = stream_index(streams, streams[i].serial)->0;
    if i < j {
        assert(streams[i].serial != streams[j].serial);
    } else if j < i {
        assert(streams[j].serial != streams[i].serial);
    }
}

pub proof fn lemma_encoder_at(encoders: Seq<EncoderView>, i: int)
    requires
        ids_differ(encoders),
        0 <= i < encoders.len(),
    ensures
        encoder_index(encoders, encoders[i].id) == Some(i),
{
    lemma_encoder_index(encoders, encoders[i].id);
    let j = encoder_index(encoders, encoders[i].id)->0;
    if i < j {
        assert(encoders[i].id != encoders[j].id);
    } else if j < i {
        assert(encoders[j].id != encoders[i].id);
    }
}

/// Another state of a stream concerns that stream alone.
proof fn lemma_put_alone(r: RegistryView, i: int, s: StreamView, x: u64, id: u64)
    requires
        serials_differ(r.streams),
        0 <= i < r.streams.len(),
        s.serial == r.streams[i].serial,
    ensures
        serials_differ(r.put(i, s).streams),
        x != s.serial ==> holders_of(r.put(i, s), x) == holders_of(r, x) && joining_of(
            r.put(i, s),
            x,
            id,
        ) == joining_of(r, x, id),
        holders_of(r.put(i, s), s.serial) == s.holders,
        joining_of(r.put(i, s), s.serial, id) == joining_in(s, id),
        stream_index(r.streams, s.serial) == Some(i),
{
    let after = r.put(i, s);
    lemma_stream_at(r.streams, i);
    lemma_stream_index(r.streams, x);
    lemma_stream_index(after.streams, x);
    lemma_stream_index(after.streams, s.serial);
    if s.idle() {
        assert forall|k: int| 0 <= k < after.streams.len() implies #[trigger] after.streams[k]
            == r.streams[if k < i {
            k
        } else {
            k + 1
        }] by {}
        assert(serials_differ(after.streams));
        if let Some(j) = stream_index(r.streams, x) {
            if x != s.serial {
                let place = if j < i {
                    j
                } else {
                    j - 1
                };
                assert(after.streams[place] == r.streams[j]);
                lemma_stream_at(after.streams, place);
            }
        }
        if let Some(j) = stream_index(after.streams, s.serial) {
            let from = if j < i {
                j
            } else {
                j + 1
            };
            assert(after.streams[j] == r.streams[from]);
        }
    } else {
        assert forall|k: int| 0 <= k < after.streams.len() && k != i implies #[trigger] after.streams[k]
            == r.streams[k] by {}
        assert(serials_differ(after.streams));
        assert(after.streams[i] == s);
        lemma_stream_at(after.streams, i);
        if let Some(j) = stream_index(r.streams, x) {
            if x != s.serial {
                assert(after.streams[j] == r.streams[j]);
                lemma_stream_at(after.streams, j);
            }
        }
        if let Some(j) = stream_index(after.streams, x) {
            if x != s.serial {
                assert(after.streams[j] == r.streams[j]);
                lemma_stream_at(r.streams, j);
            }
        }
    }
}

/// Another state of an encoder concerns that encoder alone.
proof fn lemma_encoder_put_alone(s: StreamView, i: int, e: EncoderView, x: u64)
    requires
        ids_differ(s.encoders),
        0 <= i < s.encoders.len(),
        e.id == s.encoders[i].id,
    ensures
        x != e.id ==> joining_in(s.put(i, e), x) == joining_in(s, x),
        joining_in(s.put(i, e), e.id) == e.joining,
        encoder_index(s.encoders, e.id) == Some(i),
{
    let after = s.put(i, e);
    lemma_encoder_at(s.encoders, i);
    lemma_encoder_index(s.encoders, x);
    lemma_encoder_index(after.encoders, x);
    lemma_encoder_index(after.encoders, e.id);
    if e.holders() == 0 {
        assert forall|k: int| 0 <= k < after.encoders.len() implies #[trigger] after.encoders[k]
            == s.encoders[if k < i {
            k
        } else {
            k + 1
        }] by {}
        assert(ids_differ(after.encoders));
        if let Some(j) = encoder_index(s.encoders, x) {
            if x != e.id {
                let place = if j < i {
                    j
                } else {
                    j - 1
                };
                assert(after.encoders[place] == s.encoders[j]);
                lemma_encoder_at(after.encoders, place);
            }
        }
        if let Some(j) = encoder_index(after.encoders, e.id) {
            let from = if j < i {
                j
            } else {
                j + 1
            };
            assert(after.encoders[j] == s.encoders[from]);
        }
    } else {
        assert forall|k: int| 0 <= k < after.encoders.len() && k != i implies #[trigger] after.encoders[k]
            == s.encoders[k] by {}
        assert(ids_differ(after.encoders));
        assert(after.encoders[i] == e);
        lemma_encoder_at(after.encoders, i);
        if let Some(j) = encoder_index(s.encoders, x) {
            if x != e.id {
                assert(after.encoders[j] == s.encoders[j]);
                lemma_encoder_at(after.encoders, j);
            }
        }
        if let Some(j) = encoder_index(after.encoders, x) {
            if x != e.id {
                assert(after.encoders[j] == s.encoders[j]);
                lemma_encoder_at(s.encoders, j);
            }
        }
    }
}

/// A request that lets go of a stream takes one from its holders.
proof fn lemma_released(r: RegistryView, serial: u64, x: u64, id: u64)
    requires
        serials_differ(r.streams),
        holders_of(r, serial) > 0,
    ensures
        holders_of(r.released(serial), x) == holders_of(r, x) - if x == serial {
            1int
        } else {
            0
        },
        joining_of(r.released(serial), x, id) == joining_of(r, x, id),
        serials_differ(r.released(serial).streams),
{
    lemma_stream_index(r.streams, serial);
    let i = stream_index(r.streams, serial)->0;
    let s = r.streams[i].let_go();
    lemma_put_alone(r, i, s, x, id);
}

/// What a step changes of the holders of stream `x` and of encoder `id` on it,
/// the request's own claims aside: nothing.
spec fn balanced(
    r: RegistryView,
    stage: Stage,
    after: RegistryView,
    next: Stage,
    x: u64,
    id: u64,
) -> bool {
    &&& holders_of(after, x) - stream_claim(next, x) == holders_of(r, x) - stream_claim(stage, x)
    &&& joining_of(after, x, id) - encoder_claim(next, x, id) == joining_of(r, x, id)
        - encoder_claim(stage, x, id)
}

proof fn lemma_ask_balanced(r: RegistryView, j: JoinView, now: u64, x: u64, id: u64)
    requires
        r.sound(),
        j.stage == Stage::Asking,
    ensures
        balanced(r, j.stage, j.ask(r, now).0, j.ask(r, now).1.stage, x, id),
{
    lemma_content_index(r.streams, j.content_id);
    if let Some(i) = content_index(r.streams, j.content_id) {
        if r.streams[i].holders < u64::MAX {
            let s = r.streams[i].held();
            lemma_put_alone(r, i, s, x, id);
            assert(holders_of(r, s.serial) == r.streams[i].holders);
            assert(joining_of(r, s.serial, id) == joining_in(r.streams[i], id));
        }
    } else if r.next_serial < u64::MAX {
        let after = r.engine_stream(j.content_id, now).0;
        let n = r.streams.len() as int;
        assert(after.streams.drop_last() == r.streams);
        assert(after.streams.last().serial == r.next_serial);
        lemma_stream_index(r.streams, r.next_serial);
        assert(stream_index(r.streams, r.next_serial) is None);
        if x != r.next_serial {
            assert(stream_index(after.streams, x) == stream_index(r.streams, x));
            lemma_stream_index(r.streams, x);
        } else {
            assert(stream_index(after.streams, x) == Some(n));
        }
    }
}

proof fn lemma_acquire_balanced(
    r: RegistryView,
    j: JoinView,
    serial: u64,
    now: u64,
    x: u64,
    id: u64,
)
    requires
        r.sound(),
        j.stage == (Stage::Acquiring { serial }),
        holders_of(r, serial) > 0,
    ensures
        balanced(r, j.stage, j.acquire(r, serial, now).0, j.acquire(r, serial, now).1.stage, x, id),
{
    lemma_stream_index(r.streams, serial);
    let i = stream_index(r.streams, serial)->0;
    let s = r.streams[i];
    let (r2, got) = r.get_or_start_encoder(serial, j.fmt);
    if s.roomy() {
        let (t, encoding) = s.get_or_start_encoder(j.fmt, r.frag_ms);
        lemma_put_alone(r, i, t, x, id);
        lemma_put_alone(r, i, t, serial, id);
        lemma_fed_index(s.encoders, j.fmt);
        if encoding is Existing {
            let k = fed_index(s.encoders, j.fmt)->0;
            assert(s.encoders[k].roomy());
            lemma_encoder_put_alone(s, k, s.encoders[k].held(), id);
        }
        assert(holders_of(r, serial) == s.holders);
        assert(joining_of(r, serial, id) == joining_in(s, id));
        if encoding is Fail {
            lemma_released(r2, serial, x, id);
        }
    } else {
        lemma_released(r, serial, x, id);
    }
}

proof fn lemma_creation_ended(r: RegistryView, serial: u64, x: u64, id: u64)
    requires
        serials_differ(r.streams),
        holders_of(r, serial) > 0,
    ensures
        serials_differ(r.creation_ended(serial).streams),
        holders_of(r.creation_ended(serial), x) == holders_of(r, x),
        holders_of(r.creation_ended(serial), serial) == holders_of(r, serial),
        joining_of(r.creation_ended(serial), x, id) == joining_of(r, x, id),
{
    lemma_stream_index(r.streams, serial);
    let i = stream_index(r.streams, serial)->0;
    let s = StreamView { creating: false, ..r.streams[i] };
    lemma_put_alone(r, i, s, x, id);
    lemma_put_alone(r, i, s, serial, id);
}

proof fn lemma_started(
    s: StreamView,
    fmt: OutputFormat,
    video: TrackMode,
    audio: TrackMode,
    now: u64,
    id: u64,
)
    requires
        s.sound(),
        s.next_encoder < u64::MAX,
    ensures
        joining_in(s.started(fmt, video, audio, now), id) == joining_in(s, id) + if id
            == s.next_encoder {
            1int
        } else {
            0
        },
{
    let after = s.started(fmt, video, audio, now);
    let before = s.unfed(fmt).encoders;
    lemma_fed_index(s.encoders, fmt);
    assert(after.encoders.drop_last() == before);
    assert(after.encoders.last().id == s.next_encoder);
    lemma_encoder_index(s.encoders, id);
    if let Some(k) = fed_index(s.encoders, fmt) {
        let e = s.encoders[k].deregistered();
        assert(s.put(k, e).encoders == before);
        lemma_encoder_put_alone(s, k, e, id);
    }
    assert(joining_in(s.unfed(fmt), id) == joining_in(s, id));
    lemma_encoder_index(before, id);
    if id == s.next_encoder {
        assert(encoder_index(s.encoders, id) is None);
        assert(encoder_index(after.encoders, id) == Some(before.len() as int));
    } else if let Some(k) = encoder_index(before, id) {
        assert(after.encoders[k] == before[k]);
    }
}

proof fn lemma_spawned_balanced(
    r: RegistryView,
    j: JoinView,
    serial: u64,
    video: TrackMode,
    audio: TrackMode,
    outcome: Result<(), Seq<char>>,
    now: u64,
    x: u64,
    id: u64,
)
    requires
        r.sound(),
        j.stage == (Stage::Spawning { serial, video, audio }),
        holders_of(r, serial) > 0,
    ensures
        ({
            let (after, next, action) = j.spawned(r, serial, video, audio, outcome, now);
            balanced(r, j.stage, after, next.stage, x, id)
        }),
{
    lemma_stream_index(r.streams, serial);
    let i = stream_index(r.streams, serial)->0;
    let s = r.streams[i];
    lemma_creation_ended(r, serial, x, id);
    if outcome is Ok && s.roomy() {
        let t = s.started(j.fmt, video, audio, now);
        lemma_put_alone(r, i, t, x, id);
        lemma_put_alone(r, i, t, serial, id);
        lemma_started(s, j.fmt, video, audio, now, id);
        assert(holders_of(r, serial) == s.holders);
        assert(joining_of(r, serial, id) == joining_in(s, id));
    } else {
        lemma_released(r.creation_ended(serial), serial, x, id);
    }
}

proof fn lemma_encoder_released(r: RegistryView, serial: u64, e: u64, x: u64, id: u64)
    requires
        r.sound(),
        holders_of(r, serial) > 0,
        joining_of(r, serial, e) > 0,
    ensures
        serials_differ(r.encoder_released(serial, e).streams),
        holders_of(r.encoder_released(serial, e), x) == holders_of(r, x),
        holders_of(r.encoder_released(serial, e), serial) == holders_of(r, serial),
        joining_of(r.encoder_released(serial, e), x, id) == joining_of(r, x, id) - if x == serial
            && id == e {
            1int
        } else {
            0
        },
{
    lemma_stream_index(r.streams, serial);
    let i = stream_index(r.streams, serial)->0;
    let s = r.streams[i];
    lemma_encoder_index(s.encoders, e);
    let k = encoder_index(s.encoders, e)->0;
    let t = s.encoder_let_go(e);
    lemma_encoder_put_alone(s, k, s.encoders[k].let_go(), id);
    lemma_put_alone(r, i, t, x, id);
    lemma_put_alone(r, i, t, serial, id);
}

proof fn lemma_starved(r: RegistryView, serial: u64, e: u64, x: u64, id: u64)
    requires
        r.sound(),
        holders_of(r, serial) > 0,
        joining_of(r, serial, e) > 0,
    ensures
        r.starved(serial, e).sound(),
        holders_of(r.starved(serial, e), x) == holders_of(r, x),
        holders_of(r.starved(serial, e), serial) == holders_of(r, serial),
        joining_of(r.starved(serial, e), x, id) == joining_of(r, x, id),
        joining_of(r.starved(serial, e), serial, e) == joining_of(r, serial, e),
{
    lemma_stream_index(r.streams, serial);
    let i = stream_index(r.streams, serial)->0;
    let s = r.streams[i];
    lemma_encoder_index(s.encoders, e);
    let k = encoder_index(s.encoders, e)->0;
    let f = s.encoders[k].starved();
    let t = s.starved(e);
    crate::stream::lemma_put_sound(s, k, f);
    crate::registry::lemma_put_sound(r, i, t);
    lemma_encoder_put_alone(s, k, f, id);
    lemma_encoder_put_alone(s, k, f, e);
    lemma_put_alone(r, i, t, x, id);
    lemma_put_alone(r, i, t, serial, id);
    lemma_put_alone(r, i, t, serial, e);
}

proof fn lemma_give_up_balanced(
    r: RegistryView,
    serial: u64,
    e: u64,
    x: u64,
    id: u64,
)
    requires
        r.sound(),
        holders_of(r, serial) > 0,
        joining_of(r, serial, e) > 0,
    ensures
        ({
            let after = r.encoder_released(serial, e).creation_ended(serial).released(serial);
            balanced(r, Stage::Running { serial, id: e }, after, Stage::Over, x, id)
        }),
{
    lemma_encoder_released(r, serial, e, x, id);
    let mid = r.encoder_released(serial, e);
    lemma_creation_ended(mid, serial, x, id);
    lemma_released(mid.creation_ended(serial), serial, x, id);
}

proof fn lemma_listen_balanced(
    r: RegistryView,
    j: JoinView,
    serial: u64,
    e: u64,
    began: u64,
    now: u64,
    x: u64,
    id: u64,
)
    requires
        r.sound(),
        j.stage == (Stage::Joining { serial, id: e, began }),
        holders_of(r, serial) > 0,
        joining_of(r, serial, e) > 0,
    ensures
        ({
            let (after, next, action) = j.listen(r, serial, e, began, now);
            balanced(r, j.stage, after, next.stage, x, id)
        }),
{
    lemma_stream_index(r.streams, serial);
    let i = stream_index(r.streams, serial)->0;
    let s = r.streams[i];
    lemma_encoder_index(s.encoders, e);
    let k = encoder_index(s.encoders, e)->0;
    if s.roomy() {
        let (r2, got) = r.join(serial, e, j.peer, began, now);
        let (t, joined) = s.subscribe(e, j.peer, began, now);
        let f = s.encoders[k].subscribe(j.peer, began, now).0;
        lemma_encoder_put_alone(s, k, f, id);
        lemma_put_alone(r, i, t, x, id);
        lemma_put_alone(r, i, t, serial, id);
        assert(holders_of(r, serial) == s.holders);
        assert(joining_of(r, serial, id) == joining_in(s, id));
        if !(got->0 is Wait) {
            lemma_released(r2, serial, x, id);
        }
    } else {
        lemma_encoder_released(r, serial, e, x, id);
        lemma_released(r.encoder_released(serial, e), serial, x, id);
    }
}

/// A request holds just what its stage says it does. A step changes nobody
/// else's hold on any stream or encoder, and a request that is over, whether it
/// listens or has failed, holds nothing any more but as a listener.
pub proof fn law_requests_hold_what_they_claim(
    r: RegistryView,
    j: JoinView,
    event: JoinEventView,
    now: u64,
    x: u64,
    id: u64,
)
    requires
        r.sound(),
        forall|serial: u64|
            stream_claim(j.stage, serial) > 0 ==> #[trigger] holders_of(r, serial) > 0,
        forall|serial: u64, e: u64|
            encoder_claim(j.stage, serial, e) > 0 ==> #[trigger] joining_of(r, serial, e) > 0,
    ensures
        ({
            let (after, next, action) = j.step(r, event, now);
            &&& holders_of(after, x) - stream_claim(next.stage, x) == holders_of(r, x)
                - stream_claim(j.stage, x)
            &&& joining_of(after, x, id) - encoder_claim(next.stage, x, id) == joining_of(r, x, id)
                - encoder_claim(j.stage, x, id)
            &&& (action is Done || action is Fail || action is Lost) ==> next.stage == Stage::Over
        }),
{
    match (j.stage, event) {
        (Stage::Asking, JoinEventView::Proceed) => {
            lemma_ask_balanced(r, j, now, x, id);
        },
        (Stage::Starting { serial, began }, _) => {
            assert(stream_claim(j.stage, serial) > 0);
            lemma_released(r, serial, x, id);
        },
        (Stage::Acquiring { serial }, JoinEventView::Proceed) => {
            assert(stream_claim(j.stage, serial) > 0);
            lemma_acquire_balanced(r, j, serial, now, x, id);
        },
        (Stage::Spawning { serial, video, audio }, JoinEventView::Spawned(outcome)) => {
            assert(stream_claim(j.stage, serial) > 0);
            lemma_spawned_balanced(r, j, serial, video, audio, outcome, now, x, id);
        },
        (Stage::Running { serial, id: e }, _) => {
            assert(stream_claim(j.stage, serial) > 0);
            assert(encoder_claim(j.stage, serial, e) > 0);
            lemma_creation_ended(r, serial, x, id);
            lemma_starved(r, serial, e, x, id);
            lemma_give_up_balanced(r, serial, e, x, id);
            lemma_give_up_balanced(r.starved(serial, e), serial, e, x, id);
        },
        (Stage::Joining { serial, id: e, began }, JoinEventView::Proceed) => {
            assert(stream_claim(j.stage, serial) > 0);
            assert(encoder_claim(j.stage, serial, e) > 0);
            lemma_listen_balanced(r, j, serial, e, began, now, x, id);
        },
        _ => {},
    }
}

/// An encoder that is torn down for not keeping up costs nobody but those who
/// listen to it: every encoder of another format stays as it is, and nobody is
/// taken from its listeners.
pub proof fn law_teardown_concerns_one_format(s: StreamView, fmt: OutputFormat, k: int)
    requires
        0 <= k < s.encoders.len(),
    ensures
        s.unfed(fmt).encoders.len() == s.encoders.len(),
        s.encoders[k].fmt != fmt ==> s.unfed(fmt).encoders[k] == s.encoders[k],
        s.unfed(fmt).encoders[k].outlets == s.encoders[k].outlets,
{
    lemma_fed_index(s.encoders, fmt);
}

/// A listener that reads takes nothing from any other.
pub proof fn law_reading_concerns_one_listener(e: EncoderView, id: u64, cap: nat, k: int)
    requires
        0 <= k < e.outlets.len(),
        e.outlets[k].id != id,
    ensures
        e.read(id, cap).0.outlets.len() == e.outlets.len(),
        e.read(id, cap).0.outlets[k] == e.outlets[k],
{
    lemma_outlet_index(e.outlets, id);
}

} // verus!
