//! What becomes of a stream over its whole life, whatever happens in between.

use vstd::prelude::*;

use crate::engine::SessionView;
use crate::feed_laws::law_live_data_continues_the_prime;
use crate::format::{OutputFormat, TrackMode};
use crate::json::Json;
use crate::registry::{
    content_index, lemma_content_index, lemma_stream_index, stream_index, RegistryView,
};
use crate::replay::{
    last_bytes, law_window_is_a_suffix, law_window_keeps_the_latest, packet_start, window_of,
    REPLAY_BYTES,
};
use crate::stream::{ProbeView, StreamView};

verus! {

/// Anything that can happen to a registry.
pub enum Deed {
    Ask { content_id: Seq<char>, now: u64 },
    Release { serial: u64 },
    AskEncoder { serial: u64, fmt: OutputFormat },
    Start { serial: u64, fmt: OutputFormat, video: TrackMode, audio: TrackMode, now: u64 },
    EndCreation { serial: u64 },
    Join { serial: u64, id: u64, peer: Seq<char>, began: u64, now: u64 },
    ReleaseEncoder { serial: u64, id: u64 },
    Leave { serial: u64, id: u64, listener: u64 },
    Read { serial: u64, id: u64, listener: u64, cap: nat },
    Write { serial: u64, id: u64, chunk: Seq<u8> },
    End { serial: u64, id: u64 },
    Receive { serial: u64, chunk: Seq<u8> },
    Feed { serial: u64, id: u64, chunk: Seq<u8> },
    Fetch { serial: u64, id: u64 },
    Starve { serial: u64, id: u64 },
    Unfeed { serial: u64, fmt: OutputFormat },
    Publish { serial: u64, outcome: Result<(), Seq<char>> },
    ComeUp { serial: u64, session: SessionView, probe: ProbeView },
    Measure { serial: u64, now: u64, stats: Json },
    PullHolds { serial: u64, pulling: bool },
    BeginPoll,
    EndPoll { serial: u64 },
}

/// The registry after a deed.
pub open spec fn after(r: RegistryView, deed: Deed) -> RegistryView {
    match deed {
        Deed::Ask { content_id, now } => r.engine_stream(content_id, now).0,
        Deed::Release { serial } => r.released(serial),
        Deed::AskEncoder { serial, fmt } => r.get_or_start_encoder(serial, fmt).0,
        Deed::Start { serial, fmt, video, audio, now } => r.start_encoder(
            serial,
            fmt,
            video,
            audio,
            now,
        ).0,
        Deed::EndCreation { serial } => r.creation_ended(serial),
        Deed::Join { serial, id, peer, began, now } => r.join(serial, id, peer, began, now).0,
        Deed::ReleaseEncoder { serial, id } => r.encoder_released(serial, id),
        Deed::Leave { serial, id, listener } => r.left(serial, id, listener),
        Deed::Read { serial, id, listener, cap } => r.read(serial, id, listener, cap).0,
        Deed::Write { serial, id, chunk } => r.wrote(serial, id, chunk),
        Deed::End { serial, id } => r.ended(serial, id),
        Deed::Receive { serial, chunk } => r.received(serial, chunk),
        Deed::Feed { serial, id, chunk } => r.fed(serial, id, chunk).0,
        Deed::Fetch { serial, id } => r.fetched(serial, id).0,
        Deed::Starve { serial, id } => r.starved(serial, id),
        Deed::Unfeed { serial, fmt } => r.unfed(serial, fmt),
        Deed::Publish { serial, outcome } => r.published(serial, outcome),
        Deed::ComeUp { serial, session, probe } => r.came_up(serial, session, probe),
        Deed::Measure { serial, now, stats } => r.measured(serial, now, stats),
        Deed::PullHolds { serial, pulling } => r.pull_holds(serial, pulling),
        Deed::BeginPoll => r.poll_begun(),
        Deed::EndPoll { serial } => r.poll_ended(serial),
    }
}

/// The registry after one deed behind the other.
pub open spec fn after_all(r: RegistryView, deeds: Seq<Deed>) -> RegistryView
    decreases deeds.len(),
{
    if deeds.len() == 0 {
        r
    } else {
        after(after_all(r, deeds.drop_last()), deeds.last())
    }
}

/// A stream, where there is one with this serial.
pub open spec fn stream_of(r: RegistryView, serial: u64) -> Option<StreamView> {
    match stream_index(r.streams, serial) {
        Some(i) => Some(r.streams[i]),
        None => None,
    }
}

/// All that has come from the engine for a stream.
pub open spec fn pulled(r: RegistryView, deeds: Seq<Deed>, serial: u64) -> Seq<u8>
    decreases deeds.len(),
{
    if deeds.len() == 0 {
        Seq::empty()
    } else {
        let before = pulled(r, deeds.drop_last(), serial);
        match deeds.last() {
            Deed::Receive { serial: x, chunk } => if x == serial && after_all(
                r,
                deeds.drop_last(),
            ).has_stream(serial) {
                before + chunk
            } else {
                before
            },
            _ => before,
        }
    }
}

/// Whether no two streams have the same serial, and none has one that is still to
/// be given out.
pub open spec fn serials_in_order(r: RegistryView) -> bool {
    &&& forall|i: int|
        0 <= i < r.streams.len() ==> (#[trigger] r.streams[i]).serial < r.next_serial
    &&& forall|i: int, j: int|
        0 <= i < j < r.streams.len() ==> (#[trigger] r.streams[i]).serial != (
        #[trigger] r.streams[j]).serial
}

/// What a stream is known by, and what it has taken in.
spec fn record(s: StreamView) -> (u64, Seq<char>, u64, Seq<u8>, u64) {
    (s.serial, s.content_id, s.started, s.replay, s.bytes_in)
}

proof fn lemma_place(streams: Seq<StreamView>, i: int)
    requires
        0 <= i < streams.len(),
        forall|a: int, b: int|
            0 <= a < b < streams.len() ==> (#[trigger] streams[a]).serial != (
            #[trigger] streams[b]).serial,
    ensures
        stream_index(streams, streams[i].serial) == Some(i),
{
    lemma_stream_index(streams, streams[i].serial);
    let j = stream_index(streams, streams[i].serial)->0;
    if i < j {
        assert(streams[i].serial != streams[j].serial);
    } else if j < i {
        assert(streams[j].serial != streams[i].serial);
    }
}

/// Another state of one stream.
pub proof fn lemma_put(r: RegistryView, i: int, s: StreamView, x: u64)
    requires
        serials_in_order(r),
        0 <= i < r.streams.len(),
        s.serial == r.streams[i].serial,
    ensures
        serials_in_order(r.put(i, s)),
        r.put(i, s).next_serial == r.next_serial,
        stream_of(r.put(i, s), x) == if x != s.serial {
            stream_of(r, x)
        } else if s.idle() {
            None
        } else {
            Some(s)
        },
{
    let t = r.put(i, s);
    lemma_place(r.streams, i);
    if s.idle() {
        assert forall|k: int| 0 <= k < t.streams.len() implies #[trigger] t.streams[k]
            == r.streams[if k < i {
            k
        } else {
            k + 1
        }] by {}
    } else {
        assert forall|k: int| 0 <= k < t.streams.len() && k != i implies #[trigger] t.streams[k]
            == r.streams[k] by {}
    }
    lemma_stream_index(r.streams, x);
    lemma_stream_index(t.streams, x);
    if x != s.serial {
        if let Some(j) = stream_index(r.streams, x) {
            let k = if s.idle() && j > i {
                j - 1
            } else {
                j
            };
            assert(t.streams[k] == r.streams[j]);
            lemma_place(t.streams, k);
        } else if let Some(k) = stream_index(t.streams, x) {
            let j = if s.idle() && k >= i {
                k + 1
            } else {
                k
            };
            assert(r.streams[j] == t.streams[k]);
        }
    } else if s.idle() {
        if let Some(k) = stream_index(t.streams, x) {
            let j = if k < i {
                k
            } else {
                k + 1
            };
            assert(r.streams[j] == t.streams[k]);
            if j < i {
                assert(r.streams[j].serial != r.streams[i].serial);
            } else {
                assert(r.streams[i].serial != r.streams[j].serial);
            }
        }
    } else {
        assert(t.streams[i] == s);
        lemma_place(t.streams, i);
    }
}

/// A deed on a registry that is one on a stream.
proof fn lemma_on_a_stream(r: RegistryView, serial: u64, s: StreamView, x: u64)
    requires
        serials_in_order(r),
        stream_of(r, serial) is Some,
        s.serial == serial,
    ensures
        ({
            let t = r.put(stream_index(r.streams, serial)->0, s);
            &&& serials_in_order(t)
            &&& t.next_serial == r.next_serial
            &&& stream_of(t, x) is Some ==> stream_of(r, x) is Some
            &&& x != serial ==> stream_of(t, x) == stream_of(r, x)
            &&& x == serial && stream_of(t, x) is Some ==> stream_of(t, x) == Some(s)
        }),
{
    lemma_stream_index(r.streams, serial);
    lemma_put(r, stream_index(r.streams, serial)->0, s, x);
}

/// What a deed does to a stream that is there before and after it: it takes in a
/// chunk, or leaves alone what was taken in. A stream that is there only after it
/// has just been opened.
spec fn keeps_the_record(r: RegistryView, deed: Deed, x: u64) -> bool {
    let t = after(r, deed);
    &&& serials_in_order(t)
    &&& t.next_serial >= r.next_serial
    &&& match (stream_of(r, x), stream_of(t, x)) {
        (_, None) => true,
        (Some(a), Some(b)) => match deed {
            Deed::Receive { serial, chunk } => if serial == x {
                record(b) == record(a.received(chunk))
            } else {
                record(b) == record(a)
            },
            _ => record(b) == record(a),
        },
        (None, Some(b)) => match deed {
            Deed::Ask { content_id, now } => {
                &&& x == r.next_serial
                &&& x < t.next_serial
                &&& b.replay.len() == 0
                &&& b.bytes_in == 0
                &&& b.content_id == content_id
                &&& b.started == now
            },
            _ => false,
        },
    }
}

#[verifier::spinoff_prover]
#[verifier::rlimit(40)]
proof fn lemma_asking(r: RegistryView, deed: Deed, x: u64)
    requires
        serials_in_order(r),
        deed is Ask || deed is BeginPoll,
    ensures
        keeps_the_record(r, deed, x),
{
    match deed {
        Deed::Ask { content_id, now } => {
            lemma_content_index(r.streams, content_id);
            match content_index(r.streams, content_id) {
                Some(i) => {
                    lemma_put(r, i, r.streams[i].held(), x);
                    lemma_place(r.streams, i);
                },
                None => {
                    let t = after(r, deed);
                    if r.next_serial < u64::MAX {
                        let n = r.streams.len() as int;
                        assert(t.streams.drop_last() == r.streams);
                        assert(t.streams[n].serial == r.next_serial);
                        assert forall|k: int| 0 <= k < n implies #[trigger] t.streams[k]
                            == r.streams[k] by {}
                        lemma_stream_index(r.streams, x);
                        lemma_stream_index(t.streams, x);
                        if let Some(j) = stream_index(r.streams, x) {
                            assert(t.streams[j] == r.streams[j]);
                        }
                    }
                },
            }
        },
        Deed::BeginPoll => {
            let t = after(r, deed);
            assert forall|k: int| 0 <= k < t.streams.len() implies (#[trigger] t.streams[k])
                == (StreamView { polling: true, ..r.streams[k] }) by {}
            lemma_stream_index(r.streams, x);
            lemma_stream_index(t.streams, x);
            if let Some(k) = stream_index(t.streams, x) {
                assert(r.streams[k].serial == x);
                lemma_place(r.streams, k);
            }
        },
        _ => {},
    }
}

proof fn lemma_requests(r: RegistryView, deed: Deed, x: u64)
    requires
        serials_in_order(r),
        deed is Release || deed is AskEncoder || deed is Start || deed is EndCreation,
    ensures
        keeps_the_record(r, deed, x),
{
    match deed {
        Deed::Release { serial } => {
            if let Some(s) = stream_of(r, serial) {
                lemma_stream_index(r.streams, serial);
                if s.holders > 0 {
                    lemma_on_a_stream(r, serial, s.let_go(), x);
                }
            }
        },
        Deed::AskEncoder { serial, fmt } => {
            if let Some(s) = stream_of(r, serial) {
                lemma_stream_index(r.streams, serial);
                lemma_on_a_stream(r, serial, s.get_or_start_encoder(fmt, r.frag_ms).0, x);
            }
        },
        Deed::Start { serial, fmt, video, audio, now } => {
            if let Some(s) = stream_of(r, serial) {
                lemma_stream_index(r.streams, serial);
                lemma_on_a_stream(r, serial, s.started(fmt, video, audio, now), x);
            }
        },
        Deed::EndCreation { serial } => {
            if let Some(s) = stream_of(r, serial) {
                lemma_stream_index(r.streams, serial);
                lemma_on_a_stream(r, serial, StreamView { creating: false, ..s }, x);
            }
        },
        _ => {},
    }
}

proof fn lemma_listeners(r: RegistryView, deed: Deed, x: u64)
    requires
        serials_in_order(r),
        deed is Join || deed is ReleaseEncoder || deed is Leave || deed is Read,
    ensures
        keeps_the_record(r, deed, x),
{
    match deed {
        Deed::Join { serial, id, peer, began, now } => {
            if let Some(s) = stream_of(r, serial) {
                lemma_stream_index(r.streams, serial);
                lemma_on_a_stream(r, serial, s.subscribe(id, peer, began, now).0, x);
            }
        },
        Deed::ReleaseEncoder { serial, id } => {
            if let Some(s) = stream_of(r, serial) {
                lemma_stream_index(r.streams, serial);
                lemma_on_a_stream(r, serial, s.encoder_let_go(id), x);
            }
        },
        Deed::Leave { serial, id, listener } => {
            if let Some(s) = stream_of(r, serial) {
                lemma_stream_index(r.streams, serial);
                lemma_on_a_stream(r, serial, s.left(id, listener), x);
            }
        },
        Deed::Read { serial, id, listener, cap } => {
            if let Some(s) = stream_of(r, serial) {
                lemma_stream_index(r.streams, serial);
                lemma_on_a_stream(r, serial, s.read(id, listener, cap).0, x);
            }
        },
        _ => {},
    }
}

proof fn lemma_output(r: RegistryView, deed: Deed, x: u64)
    requires
        serials_in_order(r),
        deed is Write || deed is End || deed is Receive || deed is Unfeed,
    ensures
        keeps_the_record(r, deed, x),
{
    match deed {
        Deed::Write { serial, id, chunk } => {
            if let Some(s) = stream_of(r, serial) {
                lemma_stream_index(r.streams, serial);
                lemma_on_a_stream(r, serial, s.wrote(id, chunk), x);
            }
        },
        Deed::End { serial, id } => {
            if let Some(s) = stream_of(r, serial) {
                lemma_stream_index(r.streams, serial);
                lemma_on_a_stream(r, serial, s.ended(id), x);
            }
        },
        Deed::Receive { serial, chunk } => {
            if let Some(s) = stream_of(r, serial) {
                lemma_stream_index(r.streams, serial);
                lemma_on_a_stream(r, serial, s.received(chunk), x);
            }
        },
        Deed::Unfeed { serial, fmt } => {
            if let Some(s) = stream_of(r, serial) {
                lemma_stream_index(r.streams, serial);
                lemma_on_a_stream(r, serial, s.unfed(fmt), x);
            }
        },
        _ => {},
    }
}

proof fn lemma_feeding(r: RegistryView, deed: Deed, x: u64)
    requires
        serials_in_order(r),
        deed is Feed || deed is Fetch || deed is Starve,
    ensures
        keeps_the_record(r, deed, x),
{
    match deed {
        Deed::Feed { serial, id, chunk } => {
            if let Some(s) = stream_of(r, serial) {
                lemma_stream_index(r.streams, serial);
                lemma_on_a_stream(r, serial, s.fed(id, chunk).0, x);
            }
        },
        Deed::Fetch { serial, id } => {
            if let Some(s) = stream_of(r, serial) {
                lemma_stream_index(r.streams, serial);
                lemma_on_a_stream(r, serial, s.fetched(id).0, x);
            }
        },
        Deed::Starve { serial, id } => {
            if let Some(s) = stream_of(r, serial) {
                lemma_stream_index(r.streams, serial);
                lemma_on_a_stream(r, serial, s.starved(id), x);
            }
        },
        _ => {},
    }
}

proof fn lemma_pulling(r: RegistryView, deed: Deed, x: u64)
    requires
        serials_in_order(r),
        deed is Publish || deed is ComeUp || deed is Measure || deed is PullHolds || deed is EndPoll,
    ensures
        keeps_the_record(r, deed, x),
{
    match deed {
        Deed::Publish { serial, outcome } => {
            if let Some(s) = stream_of(r, serial) {
                lemma_stream_index(r.streams, serial);
                lemma_on_a_stream(r, serial, s.published(outcome), x);
            }
        },
        Deed::ComeUp { serial, session, probe } => {
            if let Some(s) = stream_of(r, serial) {
                lemma_stream_index(r.streams, serial);
                lemma_on_a_stream(r, serial, s.came_up(session, probe), x);
            }
        },
        Deed::Measure { serial, now, stats } => {
            if let Some(s) = stream_of(r, serial) {
                lemma_stream_index(r.streams, serial);
                lemma_on_a_stream(r, serial, StreamView { stats: Some((now, stats)), ..s }, x);
            }
        },
        Deed::PullHolds { serial, pulling } => {
            if let Some(s) = stream_of(r, serial) {
                lemma_stream_index(r.streams, serial);
                lemma_on_a_stream(r, serial, StreamView { pulling, ..s }, x);
            }
        },
        Deed::EndPoll { serial } => {
            if let Some(s) = stream_of(r, serial) {
                lemma_stream_index(r.streams, serial);
                lemma_on_a_stream(r, serial, StreamView { polling: false, ..s }, x);
            }
        },
        _ => {},
    }
}

#[verifier::spinoff_prover]
#[verifier::rlimit(40)]
proof fn lemma_deed(r: RegistryView, deed: Deed, x: u64)
    requires
        serials_in_order(r),
    ensures
        keeps_the_record(r, deed, x),
{
    if deed is Ask || deed is BeginPoll {
        lemma_asking(r, deed, x);
    } else if deed is Release || deed is AskEncoder || deed is Start || deed is EndCreation {
        lemma_requests(r, deed, x);
    } else if deed is Join || deed is ReleaseEncoder || deed is Leave || deed is Read {
        lemma_listeners(r, deed, x);
    } else if deed is Write || deed is End || deed is Receive || deed is Unfeed {
        lemma_output(r, deed, x);
    } else if deed is Feed || deed is Fetch || deed is Starve {
        lemma_feeding(r, deed, x);
    } else {
        lemma_pulling(r, deed, x);
    }
}

/// What is true of a stream at every moment: it remembers the end of all that has
/// come for it, and counts that.
spec fn remembers(r: RegistryView, deeds: Seq<Deed>, serial: u64) -> bool {
    let t = after_all(r, deeds);
    let all = pulled(r, deeds, serial);
    &&& serials_in_order(t)
    &&& serial >= t.next_serial ==> all.len() == 0
    &&& match stream_of(t, serial) {
        Some(s) => {
            &&& serial < t.next_serial
            &&& s.replay == last_bytes(all, REPLAY_BYTES as nat)
            &&& all.len() <= u64::MAX ==> s.bytes_in == all.len()
        },
        None => true,
    }
}

#[verifier::spinoff_prover]
#[verifier::rlimit(40)]
proof fn lemma_remembers(r: RegistryView, deeds: Seq<Deed>, serial: u64)
    requires
        serials_in_order(r),
        serial >= r.next_serial,
    ensures
        remembers(r, deeds, serial),
    decreases deeds.len(),
{
    if deeds.len() == 0 {
        lemma_stream_index(r.streams, serial);
    } else {
        let before = deeds.drop_last();
        let deed = deeds.last();
        lemma_remembers(r, before, serial);
        let mid = after_all(r, before);
        let all = pulled(r, before, serial);
        lemma_deed(mid, deed, serial);
        lemma_stream_index(mid.streams, serial);
        if let Deed::Receive { serial: x, chunk } = deed {
            if x == serial && mid.has_stream(serial) {
                law_window_keeps_the_latest(all, chunk);
            }
        }
        let t = after_all(r, deeds);
        lemma_stream_index(t.streams, serial);
        let nothing = Seq::<u8>::empty();
        if stream_of(mid, serial) is None && stream_of(t, serial) is Some {
            assert(all == nothing);
            assert(stream_of(t, serial)->0.replay == nothing);
        }
    }
}

/// A stream holds the last four megabytes of all that has come from the engine
/// for it since it was opened, or all of it where that is less, and counts it all:
/// whoever asks, listens, leaves, starts encoders or stops them in between.
pub proof fn law_streams_remember_the_latest(r: RegistryView, deeds: Seq<Deed>, serial: u64)
    requires
        serials_in_order(r),
        serial >= r.next_serial,
    ensures
        stream_of(after_all(r, deeds), serial) matches Some(s) ==> {
            let all = pulled(r, deeds, serial);
            &&& s.replay.is_suffix_of(all)
            &&& s.replay.len() == if all.len() < 4194304 {
                all.len()
            } else {
                4194304
            }
            &&& all.len() <= u64::MAX ==> s.bytes_in == all.len()
        },
{
    lemma_remembers(r, deeds, serial);
    let all = pulled(r, deeds, serial);
    let n = all.len() - last_bytes(all, REPLAY_BYTES as nat).len();
    assert(last_bytes(all, REPLAY_BYTES as nat) == all.subrange(n, all.len() as int));
}

#[verifier::spinoff_prover]
#[verifier::rlimit(40)]
proof fn lemma_pulled_in_two(r: RegistryView, first: Seq<Deed>, later: Seq<Deed>, serial: u64)
    ensures
        after_all(r, first + later) == after_all(after_all(r, first), later),
        pulled(r, first + later, serial) == pulled(r, first, serial) + pulled(
            after_all(r, first),
            later,
            serial,
        ),
    decreases later.len(),
{
    let deeds = first + later;
    if later.len() == 0 {
        assert(deeds == first);
        assert(pulled(r, first, serial) + Seq::<u8>::empty() == pulled(r, first, serial));
    } else {
        assert(deeds.drop_last() == first + later.drop_last());
        assert(deeds.last() == later.last());
        lemma_pulled_in_two(r, first, later.drop_last(), serial);
        assert(after_all(r, deeds) == after(after_all(r, deeds.drop_last()), deeds.last()));
        if let Deed::Receive { serial: x, chunk } = later.last() {
            let a = pulled(r, first, serial);
            let b = pulled(after_all(r, first), later.drop_last(), serial);
            assert((a + b) + chunk == a + (b + chunk));
        }
    }
}

/// Every encoder, whenever it is started and whatever runs already, is primed with
/// the end of all that has come for its stream, and what comes from then on
/// continues that: together they are the end of all that has come in the end, with
/// nothing missing in between and nothing twice. The prime leaves out less than
/// one packet of what the stream remembers.
#[verifier::spinoff_prover]
#[verifier::rlimit(40)]
pub proof fn law_encoders_are_primed_with_the_latest(
    r: RegistryView,
    before: Seq<Deed>,
    serial: u64,
    fmt: OutputFormat,
    video: TrackMode,
    audio: TrackMode,
    now: u64,
    later: Seq<Deed>,
)
    requires
        serials_in_order(r),
        serial >= r.next_serial,
        after_all(r, before).start_encoder(serial, fmt, video, audio, now).1 is Some,
    ensures
        ({
            let (started, primed) = after_all(r, before).start_encoder(
                serial,
                fmt,
                video,
                audio,
                now,
            );
            let (id, prime) = primed->0;
            let so_far = pulled(r, before, serial);
            let live = pulled(started, later, serial);
            let whole = before + seq![Deed::Start { serial, fmt, video, audio, now }] + later;
            &&& prime.is_suffix_of(so_far)
            &&& prime.len() + 188 > if so_far.len() < 4194304 {
                so_far.len()
            } else {
                4194304
            }
            &&& pulled(r, whole, serial) == so_far + live
            &&& (prime + live).is_suffix_of(pulled(r, whole, serial))
        }),
{
    let mid = after_all(r, before);
    let deed = Deed::Start { serial, fmt, video, audio, now };
    let (started, primed) = mid.start_encoder(serial, fmt, video, audio, now);
    let (id, prime) = primed->0;
    let so_far = pulled(r, before, serial);
    let live = pulled(started, later, serial);
    lemma_remembers(r, before, serial);
    lemma_stream_index(mid.streams, serial);
    let kept = last_bytes(so_far, REPLAY_BYTES as nat);
    assert(prime == window_of(kept));
    law_window_is_a_suffix(kept);
    law_live_data_continues_the_prime(so_far, live);
    law_live_data_continues_the_prime(so_far, Seq::empty());
    assert(prime + Seq::<u8>::empty() == prime);
    assert(so_far + Seq::<u8>::empty() == so_far);
    let one = seq![deed];
    lemma_pulled_in_two(r, before, one, serial);
    assert(one.drop_last() == Seq::<Deed>::empty());
    reveal_with_fuel(after_all, 2);
    reveal_with_fuel(pulled, 2);
    assert(after_all(mid, one) == started);
    assert(pulled(mid, one, serial) == Seq::<u8>::empty());
    lemma_pulled_in_two(r, before + one, later, serial);
    assert(before + one + later == (before + one) + later);
}

/// What is replayed begins with the first packet that begins within the length of
/// one: where a sync byte stands that has another 188 bytes on, if there are as
/// many. Where there is none, everything is replayed.
pub proof fn law_windows_begin_with_a_packet(s: Seq<u8>, p: int)
    requires
        0 <= p < 188,
        p <= s.len(),
        forall|q: int|
            0 <= q < p ==> #[trigger] s[q] != 0x47 || (q + 188 < s.len() && s[q + 188] != 0x47),
    ensures
        p < s.len() && s[p] == 0x47 && (p + 188 < s.len() ==> s[p + 188] == 0x47) ==> window_of(s)
            == s.skip(p),
        p == s.len() ==> window_of(s) == s,
        p == 187 && p < s.len() && !(s[p] == 0x47 && (p + 188 < s.len() ==> s[p + 188] == 0x47))
            ==> window_of(s) == s,
{
    lemma_no_packet_before(s, 0, p);
    reveal_with_fuel(packet_start, 3);
}

proof fn lemma_no_packet_before(s: Seq<u8>, from: int, p: int)
    requires
        0 <= from <= p <= 188,
        p <= s.len(),
        forall|q: int|
            0 <= q < p ==> #[trigger] s[q] != 0x47 || (q + 188 < s.len() && s[q + 188] != 0x47),
    ensures
        packet_start(s, from) == packet_start(s, p),
    decreases p - from,
{
    if from < p {
        lemma_no_packet_before(s, from + 1, p);
        assert(s[from] != 0x47 || (from + 188 < s.len() && s[from + 188] != 0x47));
    }
}

/// A stream is what it was opened for, and since when, for as long as there is it.
#[verifier::spinoff_prover]
#[verifier::rlimit(40)]
pub proof fn law_streams_stay_what_they_are(r: RegistryView, deeds: Seq<Deed>, serial: u64)
    requires
        serials_in_order(r),
    ensures
        serials_in_order(after_all(r, deeds)),
        stream_of(r, serial) is Some && stream_of(after_all(r, deeds), serial) is Some ==> {
            let a = stream_of(r, serial)->0;
            let b = stream_of(after_all(r, deeds), serial)->0;
            a.content_id == b.content_id && a.started == b.started
        },
        serial < r.next_serial && stream_of(r, serial) is None ==> stream_of(
            after_all(r, deeds),
            serial,
        ) is None,
    decreases deeds.len(),
{
    if deeds.len() > 0 {
        law_streams_stay_what_they_are(r, deeds.drop_last(), serial);
        lemma_deed(after_all(r, deeds.drop_last()), deeds.last(), serial);
        lemma_next_serial(r, deeds.drop_last());
        lemma_stream_index(r.streams, serial);
    }
}

#[verifier::spinoff_prover]
#[verifier::rlimit(40)]
proof fn lemma_next_serial(r: RegistryView, deeds: Seq<Deed>)
    requires
        serials_in_order(r),
    ensures
        serials_in_order(after_all(r, deeds)),
        after_all(r, deeds).next_serial >= r.next_serial,
    decreases deeds.len(),
{
    if deeds.len() > 0 {
        lemma_next_serial(r, deeds.drop_last());
        lemma_deed(after_all(r, deeds.drop_last()), deeds.last(), 0);
    }
}

} // verus!
