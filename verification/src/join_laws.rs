//! What a request gets.

use vstd::prelude::*;

use crate::encoder::{outlet_index, EncoderView};
use crate::feed_laws::{feed_of, lemma_encoder_index_update};
use crate::format::{audio_mode, command_line, video_mode, OutputFormat, TrackMode};
use crate::join::{JoinActionView, JoinEventView, JoinStep, JoinView, Stage};
use crate::life_laws::{lemma_put, serials_in_order, stream_of};
use crate::listener_laws::law_waiting_for_the_start;
use crate::registry::{
    content_index, lemma_content_index, lemma_stream_index, stream_index, RegistryView,
};
use crate::registry_laws::lemma_encoder_at;
use crate::stream::{
    encoder_index, fed_index, lemma_encoder_index, lemma_fed_index, lemma_orphan_index,
    lemma_put_sound, orphan_index, StartView, StreamView,
};

verus! {

/// An encoder, where there is one with this id on that stream.
pub open spec fn encoder_of(r: RegistryView, serial: u64, id: u64) -> Option<EncoderView> {
    match stream_of(r, serial) {
        Some(s) => match encoder_index(s.encoders, id) {
            Some(k) => Some(s.encoders[k]),
            None => None,
        },
        None => None,
    }
}

/// Whether what a request holds is what it asks for: a stream of its content id,
/// and an encoder of its format on that.
pub open spec fn on_its_way(j: JoinView, r: RegistryView) -> bool {
    match j.stage {
        Stage::Asking => true,
        Stage::Starting { serial, .. } => holds_its_stream(j, r, serial),
        Stage::Acquiring { serial } => holds_its_stream(j, r, serial),
        Stage::Spawning { serial, .. } => holds_its_stream(j, r, serial),
        Stage::Running { serial, id } => holds_its_encoder(j, r, serial, id),
        Stage::Joining { serial, id, .. } => holds_its_encoder(j, r, serial, id),
        Stage::Over => true,
    }
}

/// Whether there is the stream of the request's content id.
pub open spec fn holds_its_stream(j: JoinView, r: RegistryView, serial: u64) -> bool {
    stream_of(r, serial) is Some && stream_of(r, serial)->0.content_id == j.content_id
}

/// Whether there is an encoder of the request's format on the stream of its
/// content id.
pub open spec fn holds_its_encoder(j: JoinView, r: RegistryView, serial: u64, id: u64) -> bool {
    &&& holds_its_stream(j, r, serial)
    &&& encoder_of(r, serial, id) is Some
    &&& encoder_of(r, serial, id)->0.fmt == j.fmt
}

proof fn lemma_in_order(r: RegistryView)
    requires
        r.sound(),
    ensures
        serials_in_order(r),
{
}

/// A request that asks gets the stream of its content id.
proof fn lemma_asks(j: JoinView, r: RegistryView, now: u64)
    requires
        r.sound(),
        j.stage == Stage::Asking,
    ensures
        on_its_way(j.ask(r, now).1, j.ask(r, now).0),
{
    lemma_content_index(r.streams, j.content_id);
    match content_index(r.streams, j.content_id) {
        Some(i) => {
            let s = r.streams[i];
            if s.holders < u64::MAX {
                lemma_put(r, i, s.held(), s.serial);
            }
        },
        None => {
            if r.next_serial < u64::MAX {
                let t = r.engine_stream(j.content_id, now).0;
                assert(t.streams.last() == StreamView::fresh(r.next_serial, j.content_id, now));
            }
        },
    }
}

/// A request that asks for an encoder gets one of its format, or the command line
/// for one.
proof fn lemma_acquires(j: JoinView, r: RegistryView, serial: u64, now: u64)
    requires
        r.sound(),
        j.stage == (Stage::Acquiring { serial }),
        on_its_way(j, r),
    ensures
        on_its_way(j.acquire(r, serial, now).1, j.acquire(r, serial, now).0),
{
    lemma_stream_index(r.streams, serial);
    let i = stream_index(r.streams, serial)->0;
    let s = r.streams[i];
    if s.roomy() {
        let (t, encoding) = s.get_or_start_encoder(j.fmt, r.frag_ms);
        lemma_fed_index(s.encoders, j.fmt);
        lemma_put(r, i, t, serial);
        if let Some(k) = fed_index(s.encoders, j.fmt) {
            if !s.creating && !s.encoders[k].finished {
                let e = s.encoders[k].held();
                assert(t == s.put(k, e));
                assert(t.encoders == s.encoders.update(k, e));
                lemma_encoder_at(s.encoders, k);
                lemma_encoder_index_update(s.encoders, k, e, e.id);
                assert(t.encoders[k] == e);
            }
        }
    }
}

/// An encoder that a request has started is of its format.
proof fn lemma_starts(
    j: JoinView,
    r: RegistryView,
    serial: u64,
    video: TrackMode,
    audio: TrackMode,
    outcome: Result<(), Seq<char>>,
    now: u64,
)
    requires
        r.sound(),
        j.stage == (Stage::Spawning { serial, video, audio }),
        on_its_way(j, r),
    ensures
        ({
            let (t, next, action) = j.spawned(r, serial, video, audio, outcome, now);
            &&& on_its_way(next, t)
            &&& action matches JoinActionView::Run { serial: x, id, .. } ==> {
                &&& x == serial
                &&& encoder_of(t, serial, id) matches Some(e) && e.fmt == j.fmt && e.content_id
                    == j.content_id && e.video == video && e.audio == audio && e.started == now
                    && e.registered()
            }
        }),
{
    lemma_stream_index(r.streams, serial);
    let i = stream_index(r.streams, serial)->0;
    let s = r.streams[i];
    if outcome is Ok && s.roomy() {
        let t = s.started(j.fmt, video, audio, now);
        lemma_put(r, i, t, serial);
        assert(t.encoders.last().id == s.next_encoder);
    }
}

/// A request that listens listens to an encoder of its format.
proof fn lemma_listens(j: JoinView, r: RegistryView, serial: u64, id: u64, began: u64, now: u64)
    requires
        r.sound(),
        j.stage == (Stage::Joining { serial, id, began }),
        on_its_way(j, r),
    ensures
        ({
            let (t, next, action) = j.listen(r, serial, id, began, now);
            &&& on_its_way(next, t)
            &&& action matches JoinActionView::Done { serial: x, id: y, listener } ==> {
                &&& x == serial && y == id
                &&& holds_its_encoder(j, t, serial, id)
                &&& listens(encoder_of(t, serial, id)->0, listener, j.peer, now)
            }
        }),
{
    lemma_stream_index(r.streams, serial);
    let i = stream_index(r.streams, serial)->0;
    let s = r.streams[i];
    lemma_encoder_index(s.encoders, id);
    let k = encoder_index(s.encoders, id)->0;
    let (r2, got) = r.join(serial, id, j.peer, began, now);
    if got is Some {
        let (e, joined) = s.encoders[k].subscribe(j.peer, began, now);
        let t = s.put(k, e);
        lemma_put(r, i, t, serial);
        lemma_encoder_index_update(s.encoders, k, e, id);
        if joined is Wait || joined is Done {
            assert(e.holders() > 0);
            assert(t.encoders == s.encoders.update(k, e));
            assert(t.encoders[k] == e);
            assert(stream_of(r2, serial) == Some(t));
        }
        if joined is Done {
            lemma_stream_index(r2.streams, serial);
            let x = stream_index(r2.streams, serial)->0;
            if t.holders > 0 {
                lemma_put(r2, x, t.let_go(), serial);
            }
            assert(e.outlets.last().id == s.encoders[k].next_id);
        }
    }
}

/// Whether an encoder has this listener, for this peer and since then.
pub open spec fn listens(e: EncoderView, listener: u64, peer: Seq<char>, since: u64) -> bool {
    match outlet_index(e.outlets, listener) {
        Some(i) => {
            &&& e.outlets[i].peer == peer
            &&& e.outlets[i].joined == since
            &&& e.outlets[i].listening()
            &&& e.outlets[i].bytes_sent == 0
        },
        None => false,
    }
}

/// Whether this is how ffmpeg is started for the request: by the command line of its
/// format, for the audio that its stream was found to have.
pub open spec fn is_planned(
    j: JoinView,
    r: RegistryView,
    serial: u64,
    args: Seq<Seq<char>>,
    video: TrackMode,
    audio: TrackMode,
) -> bool {
    &&& holds_its_stream(j, r, serial)
    &&& match stream_of(r, serial)->0.probe {
        Some(probe) => {
            &&& args == command_line(j.fmt, probe.audio, r.frag_ms)
            &&& video == video_mode(j.fmt)
            &&& audio == audio_mode(j.fmt, probe.audio)
        },
        None => false,
    }
}

/// A request gets what it asks for, and nothing else: it waits for the stream of
/// its content id, has ffmpeg started by the command line of its format, for the
/// audio that the stream was found to have, and becomes a listener of an encoder
/// of its format on that stream, under its own name.
pub proof fn law_requests_get_what_they_ask_for(
    j: JoinView,
    r: RegistryView,
    event: JoinEventView,
    now: u64,
)
    requires
        r.sound(),
        on_its_way(j, r),
    ensures
        ({
            let (t, next, action) = j.step(r, event, now);
            &&& next.content_id == j.content_id && next.fmt == j.fmt && next.peer == j.peer
            &&& on_its_way(next, t)
            &&& action matches JoinActionView::Spawn { args, video, audio } ==> {
                &&& next.stage matches Stage::Spawning { serial, video: v, audio: a }
                &&& v == video && a == audio
                &&& is_planned(j, t, serial, args, video, audio)
            }
            &&& action matches JoinActionView::Run { serial, id, .. } ==> {
                &&& holds_its_encoder(j, t, serial, id)
                &&& encoder_of(t, serial, id)->0.registered()
            }
            &&& action matches JoinActionView::Done { serial, id, listener } ==> {
                &&& holds_its_encoder(j, t, serial, id)
                &&& listens(encoder_of(t, serial, id)->0, listener, j.peer, now)
            }
        }),
{
    lemma_in_order(r);
    match (j.stage, event) {
        (Stage::Asking, JoinEventView::Proceed) => {
            lemma_asks(j, r, now);
        },
        (Stage::Acquiring { serial }, JoinEventView::Proceed) => {
            lemma_acquires(j, r, serial, now);
            lemma_spawns(j, r, serial, now);
        },
        (Stage::Spawning { serial, video, audio }, JoinEventView::Spawned(outcome)) => {
            lemma_starts(j, r, serial, video, audio, outcome, now);
        },
        (Stage::Running { serial, id }, JoinEventView::Proceed) => {
            lemma_stream_index(r.streams, serial);
            let i = stream_index(r.streams, serial)->0;
            lemma_put(r, i, StreamView { creating: false, ..r.streams[i] }, serial);
            lemma_encoder_index(r.streams[i].encoders, id);
        },
        (Stage::Joining { serial, id, began }, JoinEventView::Proceed) => {
            lemma_listens(j, r, serial, id, began, now);
        },
        _ => {},
    }
}

/// What a request is to start is what its format needs.
proof fn lemma_spawns(j: JoinView, r: RegistryView, serial: u64, now: u64)
    requires
        r.sound(),
        j.stage == (Stage::Acquiring { serial }),
        on_its_way(j, r),
    ensures
        ({
            let (t, next, action) = j.acquire(r, serial, now);
            action matches JoinActionView::Spawn { args, video, audio } ==> {
                &&& next.stage == (Stage::Spawning { serial, video, audio })
                &&& is_planned(j, t, serial, args, video, audio)
            }
        }),
{
    lemma_stream_index(r.streams, serial);
    let i = stream_index(r.streams, serial)->0;
    let s = r.streams[i];
    if s.roomy() {
        let (t, encoding) = s.get_or_start_encoder(j.fmt, r.frag_ms);
        lemma_put(r, i, t, serial);
    }
}

/// A request for a content id that nobody pulls starts the one pull for it, of a
/// stream that is new in every way. A request for one that is pulled joins that
/// pull, and starts none.
pub proof fn law_requests_start_what_is_missing(j: JoinView, r: RegistryView, now: u64, i: int)
    requires
        r.sound(),
        j.stage is Asking,
        r.next_serial < u64::MAX,
    ensures
        ({
            let (after, next, action) = j.step(r, JoinEventView::Proceed, now);
            &&& 0 <= i < r.streams.len() && r.streams[i].content_id == j.content_id
                && r.streams[i].holders < u64::MAX ==> {
                let s = r.streams[i];
                &&& action is Again
                &&& next.stage == (Stage::Starting { serial: s.serial, began: now })
                &&& stream_of(after, s.serial) == Some(
                    StreamView { holders: (s.holders + 1) as u64, ..s },
                )
            }
            &&& (forall|k: int|
                0 <= k < r.streams.len() ==> (#[trigger] r.streams[k]).content_id != j.content_id)
                ==> {
                let serial = r.next_serial;
                &&& action == JoinActionView::StartPuller(serial)
                &&& next.stage == (Stage::Starting { serial, began: now })
                &&& stream_of(r, serial) is None
                &&& stream_of(after, serial) is Some
                &&& is_new(stream_of(after, serial)->0, j.content_id, now)
            }
        }),
{
    lemma_in_order(r);
    lemma_content_index(r.streams, j.content_id);
    match content_index(r.streams, j.content_id) {
        Some(k) => {
            if 0 <= i < r.streams.len() && r.streams[i].content_id == j.content_id {
                if i < k {
                    assert(r.streams[i].content_id != r.streams[k].content_id);
                } else if k < i {
                    assert(r.streams[k].content_id != r.streams[i].content_id);
                }
                lemma_put(r, k, r.streams[k].held(), r.streams[k].serial);
            }
        },
        None => {
            let serial = r.next_serial;
            let after = j.step(r, JoinEventView::Proceed, now).0;
            lemma_stream_index(r.streams, serial);
            assert(after.streams.last().serial == serial);
        },
    }
}

/// Whether a stream is one that has just been asked for, by one request.
pub open spec fn is_new(s: StreamView, content_id: Seq<char>, now: u64) -> bool {
    &&& s.content_id == content_id && s.started == now
    &&& s.start is Pending && s.session is None && s.probe is None && s.stats is None
    &&& s.bytes_in == 0 && s.replay.len() == 0
    &&& s.encoders.len() == 0 && s.orphans.len() == 0 && !s.creating
    &&& s.holders == 1 && !s.pulling && !s.polling
}

/// What keeps a request from being served is told to whoever made it, and ends the
/// request.
pub proof fn law_requests_are_told_what_went_wrong(
    j: JoinView,
    r: RegistryView,
    e: Seq<char>,
    now: u64,
)
    ensures
        j.stage is Starting ==> is_told(
            j.step(r, JoinEventView::PullerFailed(e), now),
            "could not start puller: "@ + e,
        ),
        j.stage is Spawning ==> is_told(
            j.step(r, JoinEventView::Spawned(Err(e)), now),
            "could not start ffmpeg: "@ + e,
        ),
        j.stage is Running ==> is_told(
            j.step(r, JoinEventView::FeederFailed(e), now),
            "could not start feeder: "@ + e,
        ),
        j.stage is Running ==> is_told(
            j.step(r, JoinEventView::DrainerFailed(e), now),
            "could not start drainer: "@ + e,
        ),
        j.stage matches Stage::Starting { serial, .. } ==> (stream_of(r, serial) matches Some(s)
            ==> (s.start matches StartView::Failed(reason) ==> is_told(
            j.step(r, JoinEventView::Proceed, now),
            reason,
        ))),
{
}

/// Whether a request has ended with this reason.
pub open spec fn is_told(step: JoinStep, reason: Seq<char>) -> bool {
    let (after, next, action) = step;
    action == JoinActionView::Fail(reason) && next.stage is Over
}

/// A request that waits for its stream to start goes on as soon as that is up, is
/// told how long it may still wait, of the forty-five seconds that it has, and fails
/// when they are over.
pub proof fn law_requests_wait_for_their_stream(
    j: JoinView,
    r: RegistryView,
    serial: u64,
    began: u64,
    now: u64,
)
    requires
        j.stage == (Stage::Starting { serial, began }),
        stream_of(r, serial) is Some,
        began <= now,
    ensures
        ({
            let s = stream_of(r, serial)->0;
            let (after, next, action) = j.step(r, JoinEventView::Proceed, now);
            &&& s.start is Ready ==> {
                &&& after == r
                &&& next == (JoinView { stage: Stage::Acquiring { serial }, ..j })
                &&& action is Again
            }
            &&& s.start is Pending && now - began < 45000 ==> {
                &&& after == r
                &&& next == j
                &&& action == JoinActionView::Wait((45000 - (now - began)) as u64)
            }
            &&& s.start is Pending && now - began >= 45000 ==> is_told(
                (after, next, action),
                "timed out waiting for the engine stream to start"@,
            )
        }),
{
    law_waiting_for_the_start(stream_of(r, serial)->0, began, now);
}

/// What the request's ffmpeg is given first is what the encoder was started with,
/// and a request whose ffmpeg is fed and drained goes on to listen.
pub proof fn law_requests_prime_their_encoder(
    j: JoinView,
    r: RegistryView,
    serial: u64,
    video: TrackMode,
    audio: TrackMode,
    id: u64,
    now: u64,
)
    ensures
        j.stage == (Stage::Spawning { serial, video, audio }) ==> {
            let (started, primed) = r.start_encoder(serial, j.fmt, video, audio, now);
            let (after, next, action) = j.step(r, JoinEventView::Spawned(Ok(())), now);
            primed matches Some((x, prime)) ==> {
                &&& after == started
                &&& action == (JoinActionView::Run { serial, id: x, prime })
                &&& next.stage == (Stage::Running { serial, id: x })
            }
        },
        j.stage == (Stage::Running { serial, id }) ==> {
            let (after, next, action) = j.step(r, JoinEventView::Proceed, now);
            &&& action is Again
            &&& next.stage == (Stage::Joining { serial, id, began: now })
        },
{
}

/// Whether a request is starting an encoder on this stream.
pub open spec fn is_creating(j: JoinView, serial: u64) -> bool {
    match j.stage {
        Stage::Spawning { serial: x, .. } => x == serial,
        Stage::Running { serial: x, .. } => x == serial,
        _ => false,
    }
}

/// Whether a stream is marked as one on which an encoder is being started.
pub open spec fn is_marked(r: RegistryView, serial: u64) -> bool {
    stream_of(r, serial) is Some && stream_of(r, serial)->0.creating
}

proof fn lemma_unmarked(r: RegistryView, serial: u64)
    requires
        serials_in_order(r),
    ensures
        serials_in_order(r.creation_ended(serial)),
        !is_marked(r.creation_ended(serial), serial),
        serials_in_order(r.released(serial)),
        is_marked(r.released(serial), serial) ==> is_marked(r, serial),
{
    lemma_stream_index(r.streams, serial);
    if let Some(i) = stream_index(r.streams, serial) {
        let s = r.streams[i];
        lemma_put(r, i, StreamView { creating: false, ..s }, serial);
        if s.holders > 0 {
            lemma_put(r, i, s.let_go(), serial);
        }
    }
}

proof fn lemma_released_in_order(r: RegistryView, serial: u64, id: u64)
    requires
        serials_in_order(r),
    ensures
        serials_in_order(r.encoder_released(serial, id)),
        serials_in_order(r.starved(serial, id)),
{
    lemma_stream_index(r.streams, serial);
    if let Some(i) = stream_index(r.streams, serial) {
        lemma_put(r, i, r.streams[i].encoder_let_go(id), serial);
        lemma_put(r, i, r.streams[i].starved(id), serial);
    }
}

/// A stream is marked from when a request is to start an encoder on it until that
/// is done with it, one way or the other, so that no other request starts one in
/// the meantime, and the next one can.
pub proof fn law_streams_are_marked_while_an_encoder_starts(
    j: JoinView,
    r: RegistryView,
    event: JoinEventView,
    now: u64,
    serial: u64,
)
    requires
        r.sound(),
        is_creating(j, serial) || j.stage == (Stage::Acquiring { serial }),
    ensures
        ({
            let (after, next, action) = j.step(r, event, now);
            &&& action is Spawn ==> !is_marked(r, serial) && is_marked(after, serial)
                && is_creating(next, serial)
            &&& action is Run ==> is_marked(after, serial) == is_marked(r, serial) && is_creating(
                next,
                serial,
            )
            &&& is_creating(j, serial) && !is_creating(next, serial) ==> !is_marked(after, serial)
        }),
{
    lemma_in_order(r);
    lemma_stream_index(r.streams, serial);
    match (j.stage, event) {
        (Stage::Acquiring { .. }, JoinEventView::Proceed) => {
            if let Some(i) = stream_index(r.streams, serial) {
                let s = r.streams[i];
                lemma_put(r, i, s.get_or_start_encoder(j.fmt, r.frag_ms).0, serial);
            }
        },
        (Stage::Spawning { video, audio, .. }, JoinEventView::Spawned(outcome)) => {
            lemma_unmarked(r, serial);
            lemma_unmarked(r.creation_ended(serial), serial);
            if let Some(i) = stream_index(r.streams, serial) {
                lemma_put(r, i, r.streams[i].started(j.fmt, video, audio, now), serial);
            }
        },
        (Stage::Running { id, .. }, _) => {
            lemma_unmarked(r, serial);
            lemma_released_in_order(r, serial, id);
            let starved = r.starved(serial, id);
            lemma_released_in_order(starved, serial, id);
            let fed = r.encoder_released(serial, id);
            lemma_unmarked(fed, serial);
            lemma_unmarked(fed.creation_ended(serial), serial);
            let unfed = starved.encoder_released(serial, id);
            lemma_unmarked(unfed, serial);
            lemma_unmarked(unfed.creation_ended(serial), serial);
        },
        _ => {},
    }
}

/// Whether nobody takes from the feed of an encoder, or there is no such feed.
spec fn is_untaken(s: StreamView, id: u64) -> bool {
    match encoder_index(s.encoders, id) {
        Some(k) => !s.encoders[k].feed.receiving,
        None => match orphan_index(s.orphans, id) {
            Some(k) => !s.orphans[k].1.receiving,
            None => true,
        },
    }
}

proof fn lemma_untaken(s: StreamView, id: u64)
    requires
        s.sound(),
    ensures
        is_untaken(s.starved(id), id),
        is_untaken(s.starved(id).encoder_let_go(id), id),
{
    lemma_encoder_index(s.encoders, id);
    lemma_orphan_index(s.orphans, id);
    let t = s.starved(id);
    match encoder_index(s.encoders, id) {
        Some(k) => {
            let e = s.encoders[k].starved();
            lemma_put_sound(s, k, e);
            lemma_encoder_index_update(s.encoders, k, e, id);
            if e.joining > 0 {
                let f = e.let_go();
                let u = t.put(k, f);
                if f.holders() == 0 {
                    assert forall|a: int| 0 <= a < u.encoders.len() implies (
                    #[trigger] u.encoders[a]).id != id by {
                        let b = if a < k {
                            a
                        } else {
                            a + 1
                        };
                        assert(u.encoders[a] == t.encoders[b]);
                        if b < k {
                            assert(t.encoders[b].id != t.encoders[k].id);
                        } else {
                            assert(t.encoders[k].id != t.encoders[b].id);
                        }
                    }
                    lemma_encoder_index(u.encoders, id);
                    lemma_orphan_index(u.orphans, id);
                    if let Some(a) = orphan_index(u.orphans, id) {
                        assert(t.encoders[k].id != t.orphans[a].0);
                    }
                } else {
                    lemma_encoder_index_update(t.encoders, k, f, id);
                }
            }
        },
        None => {
            if let Some(k) = orphan_index(s.orphans, id) {
                lemma_orphan_index(t.orphans, id);
                if let Some(a) = orphan_index(t.orphans, id) {
                    let b = if a < k {
                        a
                    } else {
                        a + 1
                    };
                    assert(t.orphans[a] == s.orphans[b]);
                    if b < k {
                        assert(s.orphans[b].0 != s.orphans[k].0);
                    } else {
                        assert(s.orphans[k].0 != s.orphans[b].0);
                    }
                }
            }
        },
    }
}

/// Where ffmpeg cannot be fed, nothing is kept for it: nobody takes from its feed
/// when the request has ended.
pub proof fn law_nothing_is_kept_for_who_cannot_be_fed(
    j: JoinView,
    r: RegistryView,
    serial: u64,
    id: u64,
    e: Seq<char>,
    now: u64,
)
    requires
        r.sound(),
        j.stage == (Stage::Running { serial, id }),
    ensures
        feed_of(j.step(r, JoinEventView::FeederFailed(e), now).0, serial, id) matches Some(q)
            ==> !q.receiving,
{
    lemma_in_order(r);
    lemma_stream_index(r.streams, serial);
    if let Some(i) = stream_index(r.streams, serial) {
        let s = r.streams[i];
        lemma_untaken(s, id);
        lemma_put(r, i, s.starved(id), serial);
        let a = r.starved(serial, id);
        lemma_stream_index(a.streams, serial);
        if let Some(k) = stream_index(a.streams, serial) {
            lemma_put(a, k, a.streams[k].encoder_let_go(id), serial);
        }
        let b = a.encoder_released(serial, id);
        lemma_stream_index(b.streams, serial);
        if let Some(k) = stream_index(b.streams, serial) {
            lemma_put(b, k, StreamView { creating: false, ..b.streams[k] }, serial);
        }
        let c = b.creation_ended(serial);
        lemma_stream_index(c.streams, serial);
        if let Some(k) = stream_index(c.streams, serial) {
            if c.streams[k].holders > 0 {
                lemma_put(c, k, c.streams[k].let_go(), serial);
            }
        }
    }
}

/// Whether an encoder of this format is fed and has not ended.
pub open spec fn is_running(e: EncoderView, fmt: OutputFormat) -> bool {
    e.registered() && e.fmt == fmt && !e.finished
}

/// A request whose stream is up is told to come again while another one starts an
/// encoder, joins the encoder of its format that is running, and is told to start
/// one where there is none. It cannot where the tracks are not known.
pub proof fn law_requests_share_encoders(
    j: JoinView,
    r: RegistryView,
    serial: u64,
    now: u64,
    k: int,
)
    requires
        r.sound(),
        j.stage == (Stage::Acquiring { serial }),
        stream_of(r, serial) is Some,
        stream_of(r, serial)->0.roomy(),
    ensures
        ({
            let s = stream_of(r, serial)->0;
            let (after, next, action) = j.step(r, JoinEventView::Proceed, now);
            let none = forall|i: int|
                0 <= i < s.encoders.len() ==> !is_running(#[trigger] s.encoders[i], j.fmt);
            &&& s.creating ==> action is Busy && next == j
            &&& !s.creating && 0 <= k < s.encoders.len() && is_running(s.encoders[k], j.fmt) ==> {
                &&& action is Again
                &&& next == (JoinView {
                    stage: Stage::Joining { serial, id: s.encoders[k].id, began: now },
                    ..j
                })
            }
            &&& !s.creating && none && s.probe is None ==> is_told(
                (after, next, action),
                "engine stream has no probe result"@,
            )
            &&& !s.creating && none && s.probe is Some ==> action is Spawn && next.stage is Spawning
        }),
{
    lemma_stream_index(r.streams, serial);
    let s = stream_of(r, serial)->0;
    lemma_fed_index(s.encoders, j.fmt);
    if let Some(a) = fed_index(s.encoders, j.fmt) {
        if 0 <= k < s.encoders.len() && is_running(s.encoders[k], j.fmt) {
            if a < k {
                assert(s.encoders[a].registered() && s.encoders[k].registered());
            } else if k < a {
                assert(s.encoders[k].registered() && s.encoders[a].registered());
            }
        }
    }
}

/// A request that holds an encoder listens at once, where its format can be joined
/// anywhere. Where it cannot, the request waits for the first fragment, for thirty
/// seconds, and is told what came in between.
pub proof fn law_requests_come_to_listen(
    j: JoinView,
    r: RegistryView,
    serial: u64,
    id: u64,
    began: u64,
    now: u64,
)
    requires
        r.sound(),
        j.stage == (Stage::Joining { serial, id, began }),
        stream_of(r, serial) is Some,
        stream_of(r, serial)->0.roomy(),
        encoder_of(r, serial, id) is Some,
        encoder_of(r, serial, id)->0.joining > 0,
        began <= now,
    ensures
        ({
            let e = encoder_of(r, serial, id)->0;
            let (after, next, action) = j.step(r, JoinEventView::Proceed, now);
            let step = (after, next, action);
            let listener = e.next_id;
            if e.fmt != OutputFormat::Fmp4 || !e.unjoinable && e.init is Some {
                action == (JoinActionView::Done { serial, id, listener }) && next.stage is Over
            } else if e.unjoinable {
                is_told(step, "stream is not valid fragmented mp4"@)
            } else if e.finished {
                is_told(step, "encoder stopped before producing a fragment"@)
            } else if now - began >= 30000 {
                is_told(
                    step,
                    "no fragment within 30s; the source keyframe interval may exceed it"@,
                )
            } else {
                action == JoinActionView::Wait((30000 - (now - began)) as u64) && next == j
            }
        }),
{
    lemma_stream_index(r.streams, serial);
}

/// A request whose stream is gone is over, and told so.
pub proof fn law_requests_can_be_lost(
    j: JoinView,
    r: RegistryView,
    serial: u64,
    id: u64,
    began: u64,
    now: u64,
)
    requires
        stream_of(r, serial) is None,
    ensures
        j.stage == (Stage::Starting { serial, began }) || j.stage == (Stage::Acquiring { serial })
            || j.stage == (Stage::Joining { serial, id, began }) ==> {
            let (after, next, action) = j.step(r, JoinEventView::Proceed, now);
            action is Lost && next.stage is Over
        },
{
}

} // verus!
