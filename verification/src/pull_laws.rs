//! How a pull begins and ends.

use vstd::prelude::*;

use crate::encoder::time_left;
use crate::engine::{getstream, handshake_reply, settled, stop_url};
use crate::feed_laws::lemma_fed_alone;
use crate::format::OutputFormat;
use crate::pull::{
    pid_at, unfed_all, CargoView, PhaseView, PullActionView, PullEventView, PullStep, PullView,
    TS_STALL,
};
use crate::queue::SentKind;
use crate::registry::{lemma_stream_index, stream_index, RegistryView};
use crate::stream::{
    encoder_index, fed_index, lemma_encoder_index, lemma_fed_index, ProbeView, StartView,
    StreamView,
};
use crate::text::{law_numerals_read_back, number, numeral};

verus! {

/// What holds of every pull: it has a session from the handshake on.
pub open spec fn has_its_session(p: PullView) -> bool {
    p.phase is Opening || p.phase is Over || p.session is Some
}

/// Whether a pull's stream has not come up yet.
pub open spec fn is_starting(p: PullView) -> bool {
    p.phase is Opening || p.phase is Connecting || p.phase is Prerolling || p.phase is Probing
}

/// How starting a stream has gone, where there is such a stream.
pub open spec fn start_of(r: RegistryView, serial: u64) -> Option<StartView> {
    match stream_index(r.streams, serial) {
        Some(i) => Some(r.streams[i].start),
        None => None,
    }
}

/// Whether a stream is held by its puller.
pub open spec fn is_pulled(r: RegistryView, serial: u64) -> bool {
    match stream_index(r.streams, serial) {
        Some(i) => r.streams[i].pulling,
        None => false,
    }
}

/// A pull has a session from the handshake on, whatever happens.
pub proof fn law_pull_keeps_its_session(
    p: PullView,
    r: RegistryView,
    event: PullEventView,
    now: u64,
)
    requires
        has_its_session(p),
    ensures
        has_its_session(p.step(r, event, now).1),
        p.session is Some ==> p.step(r, event, now).1.session == p.session || p.phase is Opening,
{
}

/// A pull that ends stops its engine session, if the engine has said how: it
/// does not wait for the connection to lapse.
pub proof fn law_pull_stops_its_session(
    p: PullView,
    r: RegistryView,
    event: PullEventView,
    now: u64,
)
    requires
        !(p.phase is Over),
        p.step(r, event, now).1.phase is Over,
    ensures
        p.step(r, event, now).2 == PullActionView::Stop(
            match p.session {
                Some(s) => match s.command_url {
                    Some(url) => Some(stop_url(url)),
                    None => None,
                },
                None => None,
            },
        ),
{
}

/// A pull that is over does nothing.
pub proof fn law_pull_ends_once(p: PullView, r: RegistryView, event: PullEventView, now: u64)
    requires
        p.phase is Over,
    ensures
        p.step(r, event, now) == (r, p, PullActionView::Ignore),
{
}

/// A pull that ends before its stream has come up tells why, so that nobody
/// waits for it in vain; and a stream is called ready only when the pull goes on
/// to read it.
pub proof fn law_pull_tells_how_it_started(
    p: PullView,
    r: RegistryView,
    event: PullEventView,
    now: u64,
)
    requires
        r.sound(),
        has_its_session(p),
        is_starting(p),
        r.has_stream(p.serial),
    ensures
        ({
            let (after, next, action) = p.step(r, event, now);
            let start = start_of(after, p.serial);
            &&& next.phase is Over ==> (start is Some && start->0 is Failed)
            &&& next.phase is Reading ==> start == Some(StartView::Ready)
            &&& !(next.phase is Over) && !(next.phase is Reading) ==> start == start_of(r, p.serial)
        }),
{
    lemma_stream_index(r.streams, p.serial);
    let i = stream_index(r.streams, p.serial)->0;
    let (after, next, action) = p.step(r, event, now);
    assert(!r.streams[i].idle());
    if next.phase is Over || next.phase is Reading {
        let s = after.streams[i];
        assert(after.streams == r.streams.update(i, s));
        lemma_same_place(r.streams, i, s);
    }
}

proof fn lemma_same_place(streams: Seq<StreamView>, i: int, s: StreamView)
    requires
        0 <= i < streams.len(),
        stream_index(streams, s.serial) == Some(i),
        s.serial == streams[i].serial,
    ensures
        stream_index(streams.update(i, s), s.serial) == Some(i),
    decreases streams.len(),
{
    if i < streams.len() - 1 {
        assert(streams.update(i, s).drop_last() == streams.drop_last().update(i, s));
        lemma_same_place(streams.drop_last(), i, s);
    }
}

/// Another state of a stream that somebody holds, in its place.
proof fn lemma_put_in_place(r: RegistryView, i: int, s: StreamView)
    requires
        r.sound(),
        0 <= i < r.streams.len(),
        stream_index(r.streams, s.serial) == Some(i),
        s.sound(),
        s.serial == r.streams[i].serial,
        s.content_id == r.streams[i].content_id,
    ensures
        r.put(i, s).sound(),
        !s.idle() ==> stream_index(r.put(i, s).streams, s.serial) == Some(i)
            && r.put(i, s).streams[i] == s,
        s.idle() ==> stream_index(r.put(i, s).streams, s.serial) is None,
{
    let after = r.put(i, s);
    crate::registry::lemma_put_sound(r, i, s);
    lemma_stream_index(after.streams, s.serial);
    if s.idle() {
        assert forall|k: int| 0 <= k < after.streams.len() implies (
        #[trigger] after.streams[k]).serial != s.serial by {
            let j = if k < i {
                k
            } else {
                k + 1
            };
            assert(after.streams[k] == r.streams[j]);
        }
    } else {
        lemma_same_place(r.streams, i, s);
    }
}

/// Whether a stream stays, started and held by its puller as it was.
pub open spec fn stays(r: RegistryView, after: RegistryView, serial: u64) -> bool {
    &&& after.sound()
    &&& after.has_stream(serial) == r.has_stream(serial)
    &&& start_of(after, serial) == start_of(r, serial)
    &&& is_pulled(after, serial) == is_pulled(r, serial)
    &&& taken_in(after, serial) == taken_in(r, serial)
}

/// What a stream remembers of what it has taken in, and how much that was.
pub open spec fn taken_in(r: RegistryView, serial: u64) -> Option<(Seq<u8>, u64)> {
    match stream_index(r.streams, serial) {
        Some(i) => Some((r.streams[i].replay, r.streams[i].bytes_in)),
        None => None,
    }
}

proof fn lemma_fed_stays(r: RegistryView, serial: u64, id: u64, chunk: Seq<u8>)
    requires
        r.sound(),
    ensures
        stays(r, r.fed(serial, id, chunk).0, serial),
{
    lemma_fed_alone(r, serial, id, chunk, id);
    lemma_stream_index(r.streams, serial);
    if let Some(i) = stream_index(r.streams, serial) {
        let s = r.streams[i];
        let t = s.fed(id, chunk).0;
        lemma_encoder_index(s.encoders, id);
        if let Some(j) = encoder_index(s.encoders, id) {
            assert(s.encoders[j].fed(chunk).0.holders() == s.encoders[j].holders());
        }
        assert(!t.idle());
        assert(r.put(i, t).streams == r.streams.update(i, t));
        lemma_same_place(r.streams, i, t);
    }
}

pub proof fn lemma_unfed_stays(r: RegistryView, serial: u64, fmt: OutputFormat)
    requires
        r.sound(),
    ensures
        stays(r, r.unfed(serial, fmt), serial),
{
    lemma_stream_index(r.streams, serial);
    if let Some(i) = stream_index(r.streams, serial) {
        let s = r.streams[i];
        lemma_fed_index(s.encoders, fmt);
        if let Some(k) = fed_index(s.encoders, fmt) {
            let e = s.encoders[k].deregistered();
            crate::stream::lemma_put_sound(s, k, e);
            assert(s.put(k, e) == s.unfed(fmt));
        }
        lemma_put_in_place(r, i, s.unfed(fmt));
    }
}

proof fn lemma_unfed_all_stays(r: RegistryView, serial: u64, formats: Seq<OutputFormat>)
    requires
        r.sound(),
    ensures
        stays(r, unfed_all(r, serial, formats), serial),
    decreases formats.len(),
{
    if formats.len() > 0 {
        lemma_unfed_stays(r, serial, formats[0]);
        lemma_unfed_all_stays(r.unfed(serial, formats[0]), serial, formats.drop_first());
    }
}

proof fn lemma_deliver_stays(cargo: CargoView, r: RegistryView, serial: u64, now: u64)
    requires
        r.sound(),
    ensures
        stays(r, cargo.deliver(r, serial, now).0, serial),
    decreases cargo.targets.len(),
{
    if cargo.targets.len() > 0 {
        let (r2, sent) = r.fed(serial, cargo.targets[0].1, cargo.chunk);
        lemma_fed_stays(r, serial, cargo.targets[0].1, cargo.chunk);
        if !(sent == SentKind::Full && time_left(TS_STALL, cargo.since, now) > 0) {
            let next = if sent == SentKind::Done {
                cargo.next(now)
            } else {
                cargo.refused(now)
            };
            lemma_deliver_stays(next, r2, serial, now);
        }
    }
}

/// A pull holds its stream while it waits with a chunk, and lets go of it when
/// the chunk is handed out.
proof fn lemma_send(p: PullView, r: RegistryView, cargo: CargoView, now: u64)
    requires
        r.sound(),
        r.has_stream(p.serial),
    ensures
        ({
            let (after, next, action) = p.send(r, cargo, now);
            &&& after.sound()
            &&& next.phase is Sending <==> is_pulled(after, p.serial)
            &&& after.has_stream(p.serial) ==> start_of(after, p.serial) == start_of(r, p.serial)
                && taken_in(after, p.serial) == taken_in(r, p.serial)
        }),
{
    let (r2, rest) = cargo.deliver(r, p.serial, now);
    lemma_deliver_stays(cargo, r, p.serial, now);
    lemma_unfed_all_stays(r2, p.serial, rest.wedged);
    let (r3, pulling) = if rest.targets.len() > 0 {
        (r2, true)
    } else {
        (unfed_all(r2, p.serial, rest.wedged), false)
    };
    lemma_stream_index(r3.streams, p.serial);
    let i = stream_index(r3.streams, p.serial)->0;
    lemma_put_in_place(r3, i, StreamView { pulling, ..r3.streams[i] });
}

pub proof fn lemma_received_stays(r: RegistryView, serial: u64, data: Seq<u8>)
    requires
        r.sound(),
    ensures
        ({
            let after = r.received(serial, data);
            &&& after.sound()
            &&& after.has_stream(serial) == r.has_stream(serial)
            &&& start_of(after, serial) == start_of(r, serial)
            &&& is_pulled(after, serial) == is_pulled(r, serial)
            &&& match stream_index(r.streams, serial) {
                Some(i) => taken_in(after, serial) == Some(
                    (
                        r.streams[i].received(data).replay,
                        r.streams[i].received(data).bytes_in,
                    ),
                ),
                None => true,
            }
        }),
{
    lemma_stream_index(r.streams, serial);
    if let Some(i) = stream_index(r.streams, serial) {
        lemma_put_in_place(r, i, r.streams[i].received(data));
    }
}

/// A pull holds its stream just while it hands out a chunk: that cannot be closed
/// meanwhile, however many leave it, and is not kept any longer.
pub proof fn law_pull_holds_its_stream_while_it_sends(
    p: PullView,
    r: RegistryView,
    event: PullEventView,
    now: u64,
)
    requires
        r.sound(),
        p.phase is Sending <==> is_pulled(r, p.serial),
    ensures
        ({
            let (after, next, action) = p.step(r, event, now);
            &&& after.sound()
            &&& next.phase is Sending <==> is_pulled(after, p.serial)
            &&& next.phase is Sending ==> after.has_stream(p.serial)
        }),
{
    lemma_stream_index(r.streams, p.serial);
    match (p.phase, event) {
        (PhaseView::Reading, PullEventView::Data(d)) => {
            if r.has_stream(p.serial) {
                let r2 = r.received(p.serial, d);
                lemma_received_stays(r, p.serial, d);
                let cargo = CargoView {
                    chunk: d,
                    targets: r2.targets(p.serial),
                    since: now,
                    wedged: Seq::empty(),
                };
                lemma_send(p, r2, cargo, now);
            }
        },
        (PhaseView::Sending(cargo), PullEventView::Tick) => {
            lemma_send(p, r, cargo, now);
        },
        _ => {
            if let Some(i) = stream_index(r.streams, p.serial) {
                let after = p.step(r, event, now).0;
                if after != r {
                    let s = match (p.phase, event) {
                        (PhaseView::Probing, PullEventView::Probed(Ok(probe))) => {
                            r.streams[i].came_up(p.session->0, probe)
                        },
                        _ => StreamView { start: after.streams[i].start, ..r.streams[i] },
                    };
                    lemma_put_in_place(r, i, s);
                    assert(after == r.put(i, s));
                }
            }
        },
    }
}

/// A pull tells but once how its stream has started: from then on what was told
/// stands for as long as there is the stream.
pub proof fn law_pull_tells_once(p: PullView, r: RegistryView, event: PullEventView, now: u64)
    requires
        r.sound(),
        !is_starting(p),
    ensures
        ({
            let after = p.step(r, event, now).0;
            after.has_stream(p.serial) ==> start_of(after, p.serial) == start_of(r, p.serial)
        }),
{
    match (p.phase, event) {
        (PhaseView::Reading, PullEventView::Data(d)) => {
            if r.has_stream(p.serial) {
                let r2 = r.received(p.serial, d);
                lemma_received_stays(r, p.serial, d);
                let cargo = CargoView {
                    chunk: d,
                    targets: r2.targets(p.serial),
                    since: now,
                    wedged: Seq::empty(),
                };
                lemma_send(p, r2, cargo, now);
            }
        },
        (PhaseView::Sending(cargo), PullEventView::Tick) => {
            if r.has_stream(p.serial) {
                lemma_send(p, r, cargo, now);
            } else {
                lemma_deliver_stays(cargo, r, p.serial, now);
                let (r2, rest) = cargo.deliver(r, p.serial, now);
                lemma_unfed_all_stays(r2, p.serial, rest.wedged);
            }
        },
        _ => {},
    }
}

/// What is probed is what the stream began with: the pieces that were read
/// before, one behind the other, up to the end of the stream or until there are
/// enough of them.
pub proof fn law_preroll_is_what_came_first(
    p: PullView,
    r: RegistryView,
    got: Seq<u8>,
    more: Seq<u8>,
    now: u64,
)
    requires
        p.phase == PhaseView::Prerolling(got),
    ensures
        ({
            let (after, next, action) = p.step(r, PullEventView::Data(more), now);
            &&& after == r
            &&& (got + more).len() < 262144 ==> next.phase == PhaseView::Prerolling(got + more)
                && action == PullActionView::Read((262144 - (got + more).len()) as nat)
            &&& (got + more).len() >= 262144 ==> next.phase is Probing && action
                == PullActionView::Probe(got + more)
        }),
        p.step(r, PullEventView::End, now).2 == PullActionView::Probe(got),
        p.step(r, PullEventView::End, now).1.phase is Probing,
{
}

/// A stream is probed once: a pull that reads its stream never opens or probes
/// it again.
pub proof fn law_a_stream_is_probed_once(p: PullView, r: RegistryView, event: PullEventView, now: u64)
    requires
        !is_starting(p),
    ensures
        !is_starting(p.step(r, event, now).1),
        !(p.step(r, event, now).2 is Open),
        !(p.step(r, event, now).2 is Probe),
{
}

/// A pull whose stream is gone ends with the next thing that it learns.
pub proof fn law_pull_of_a_closed_stream_ends(
    p: PullView,
    r: RegistryView,
    event: PullEventView,
    now: u64,
)
    requires
        !r.has_stream(p.serial),
        p.phase is Reading,
        event is Data || event is End || event is Broken,
    ensures
        p.step(r, event, now).0 == r,
        p.step(r, event, now).1.phase is Over,
        p.step(r, event, now).2 == PullActionView::Stop(p.farewell()),
{
}

/// A pull opens what the engine grants it, or the stream directly where that grants
/// nothing; where the engine refuses, the pull ends, and whoever waits is told why.
pub proof fn law_pull_opens_what_is_granted(
    p: PullView,
    r: RegistryView,
    handshake: Result<String, String>,
    now: u64,
)
    requires
        r.sound(),
        p.phase is Opening,
        p.session is None,
    ensures
        ({
            let direct = getstream(p.engine_host, p.content_id, p.pid, false);
            let (after, next, action) = p.step(r, PullEventView::Handshake(handshake), now);
            match settled(direct, handshake_reply(handshake)) {
                Ok(s) => {
                    &&& action == PullActionView::Open(s.playback_url)
                    &&& next.session == Some(s)
                    &&& next.phase is Connecting
                    &&& after == r
                },
                Err(e) => {
                    &&& action == PullActionView::Stop(None)
                    &&& r.has_stream(p.serial) ==> start_of(after, p.serial) == Some(
                        StartView::Failed(e),
                    )
                },
            }
        }),
{
    lemma_told(p, r);
}

proof fn lemma_told(p: PullView, r: RegistryView)
    requires
        r.sound(),
    ensures
        forall|e: Seq<char>|
            r.has_stream(p.serial) ==> #[trigger] start_of(r.published(p.serial, Err(e)), p.serial)
                == Some(StartView::Failed(e)),
{
    lemma_stream_index(r.streams, p.serial);
    if let Some(i) = stream_index(r.streams, p.serial) {
        assert forall|e: Seq<char>| #[trigger]
            start_of(r.published(p.serial, Err(e)), p.serial) == Some(StartView::Failed(e)) by {
            lemma_put_in_place(r, i, r.streams[i].published(Err(e)));
        }
    }
}

/// A stream is read only where it opens with 200, and somebody still wants it. It
/// is probed by what it begins with, and read on once its tracks are known, which
/// are then those of the stream. Whatever goes wrong before that is told to whoever
/// waits, and ends the pull.
pub proof fn law_pull_brings_its_stream_up(
    p: PullView,
    r: RegistryView,
    status: u16,
    e: Seq<char>,
    got: Seq<u8>,
    probe: ProbeView,
    now: u64,
)
    requires
        r.sound(),
        p.session is Some,
        r.has_stream(p.serial),
    ensures
        p.phase is Connecting && status == 200 ==> p.step(
            r,
            PullEventView::Opened(Ok(status)),
            now,
        ) == (
            r,
            p.at(PhaseView::Prerolling(Seq::empty())),
            PullActionView::Read(262144),
        ),
        p.phase is Connecting && status != 200 ==> fails(
            p,
            p.step(r, PullEventView::Opened(Ok(status)), now),
            "engine returned http "@ + numeral(status as nat, 10),
        ),
        p.phase is Connecting ==> fails(
            p,
            p.step(r, PullEventView::Opened(Err(e)), now),
            "could not open engine stream: "@ + e,
        ),
        p.phase == PhaseView::Prerolling(got) ==> fails(
            p,
            p.step(r, PullEventView::Broken(e), now),
            "engine stream failed during preroll: "@ + e,
        ),
        p.phase is Probing ==> fails(
            p,
            p.step(r, PullEventView::Probed(Err(e)), now),
            "could not probe stream: "@ + e,
        ),
        p.phase is Probing ==> p.step(r, PullEventView::Probed(Ok(probe)), now) == (
            r.came_up(p.serial, p.session->0, probe),
            p.at(PhaseView::Reading),
            PullActionView::Read(65536),
        ),
{
    lemma_told(p, r);
}

/// Whether a pull has ended, and told why.
pub open spec fn fails(p: PullView, step: PullStep, reason: Seq<char>) -> bool {
    let (after, next, action) = step;
    &&& start_of(after, p.serial) == Some(StartView::Failed(reason))
    &&& next.phase is Over
    &&& action == PullActionView::Stop(p.farewell())
}

/// A pull ends where the engine closes the stream or reading it fails, and what was
/// told of its start stands.
pub proof fn law_pull_ends_with_its_stream(p: PullView, r: RegistryView, e: Seq<char>, now: u64)
    requires
        p.phase is Reading,
    ensures
        p.step(r, PullEventView::End, now) == (
            r,
            p.at(PhaseView::Over),
            PullActionView::Stop(p.farewell()),
        ),
        p.step(r, PullEventView::Broken(e), now) == (
            r,
            p.at(PhaseView::Over),
            PullActionView::Stop(p.farewell()),
        ),
{
}

/// Every chunk that comes is taken in by the stream, before anything else: it is
/// counted, and is what the stream remembers last. The pull then hands it out, and
/// reads on when that is done.
pub proof fn law_pull_takes_in_every_chunk(p: PullView, r: RegistryView, data: Seq<u8>, now: u64)
    requires
        r.sound(),
        p.phase is Reading,
        r.has_stream(p.serial),
    ensures
        ({
            let s = r.streams[stream_index(r.streams, p.serial)->0];
            let (after, next, action) = p.step(r, PullEventView::Data(data), now);
            &&& match stream_index(after.streams, p.serial) {
                Some(k) => {
                    let all = s.replay + data;
                    let t = after.streams[k];
                    &&& t.replay.is_suffix_of(all)
                    &&& t.replay.len() == if all.len() < 4194304 {
                        all.len()
                    } else {
                        4194304
                    }
                    &&& s.bytes_in + data.len() <= u64::MAX ==> t.bytes_in == s.bytes_in
                        + data.len()
                },
                None => true,
            }
            &&& next.phase is Reading && action == PullActionView::Read(65536)
                || next.phase is Sending && action == PullActionView::Sleep(5)
        }),
{
    let r2 = r.received(p.serial, data);
    lemma_received_stays(r, p.serial, data);
    let cargo = CargoView {
        chunk: data,
        targets: r2.targets(p.serial),
        since: now,
        wedged: Seq::empty(),
    };
    lemma_send(p, r2, cargo, now);
    lemma_stream_index(r.streams, p.serial);
    let i = stream_index(r.streams, p.serial)->0;
    let s = r.streams[i];
    let all = s.replay + data;
    let n = all.len() - s.received(data).replay.len();
    assert(s.received(data).replay == all.subrange(n, all.len() as int));
}

/// A pull begins by asking the engine for a session of its content id, by a player
/// id, and wants to be answered in JSON.
pub proof fn law_pull_begins_with_a_handshake(
    serial: u64,
    engine_host: Seq<char>,
    content_id: Seq<char>,
    pid: Seq<char>,
)
    ensures
        ({
            let (p, url) = PullView::begun(serial, engine_host, content_id, pid);
            &&& url == "http://"@ + engine_host + "/ace/getstream?id="@ + content_id + "&pid="@
                + pid + "&format=json"@
            &&& p.phase is Opening && p.session is None
            &&& p.serial == serial && p.engine_host == engine_host
            &&& p.content_id == content_id && p.pid == pid
        }),
{
}

/// Pulls that begin at different times have different player ids. An id is `proxy-`
/// and the time in hexadecimal.
pub proof fn law_player_ids_differ(a: nat, b: nat)
    ensures
        a != b ==> pid_at(a) != pid_at(b),
        pid_at(a).take(6) == "proxy-"@,
        number(pid_at(a).skip(6), 16, a) == Some(a),
{
    reveal_strlit("proxy-");
    let max = if a < b {
        b
    } else {
        a
    };
    law_numerals_read_back(a, 16, a);
    law_numerals_read_back(a, 16, max);
    law_numerals_read_back(b, 16, max);
    assert(pid_at(a).take(6) == "proxy-"@);
    assert(pid_at(a).skip(6) == numeral(a, 16));
    assert(pid_at(b).skip(6) == numeral(b, 16));
}

} // verus!
