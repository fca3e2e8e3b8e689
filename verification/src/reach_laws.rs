//! Whom an event reaches: the encoder or the listener that it is about, and nobody
//! else.

use vstd::prelude::*;

use crate::encoder::{
    lemma_outlet_index, offered, offered_all, outlet_index, EncoderView, OutletView,
};
use crate::engine::SessionView;
use crate::format::OutputFormat;
use crate::join_laws::encoder_of;
use crate::json::Json;
use crate::life_laws::{lemma_put, stream_of};
use crate::mp4::{coalesce, PieceView};
use crate::queue::{QueueView, ReceivedView};
use crate::registry::{lemma_stream_index, stream_index, RegistryView};
use crate::stream::{
    encoder_index, fed_index, lemma_encoder_index, lemma_fed_index, ProbeView, StartView, StreamView,
};

verus! {

/// The encoder with an id, where no two have the same.
proof fn lemma_encoder_place(encoders: Seq<EncoderView>, k: int)
    requires
        0 <= k < encoders.len(),
        forall|a: int, b: int|
            0 <= a < b < encoders.len() ==> (#[trigger] encoders[a]).id != (
            #[trigger] encoders[b]).id,
    ensures
        encoder_index(encoders, encoders[k].id) == Some(k),
{
    lemma_encoder_index(encoders, encoders[k].id);
    let j = encoder_index(encoders, encoders[k].id)->0;
    if k < j {
        assert(encoders[k].id != encoders[j].id);
    } else if j < k {
        assert(encoders[j].id != encoders[k].id);
    }
}

spec fn encoder_in(s: StreamView, id: u64) -> Option<EncoderView> {
    match encoder_index(s.encoders, id) {
        Some(k) => Some(s.encoders[k]),
        None => None,
    }
}

/// Another state of one encoder of a stream.
proof fn lemma_encoder_put(s: StreamView, k: int, e: EncoderView, y: u64)
    requires
        s.sound(),
        0 <= k < s.encoders.len(),
        e.id == s.encoders[k].id,
    ensures
        encoder_in(s.put(k, e), y) == if y != e.id {
            encoder_in(s, y)
        } else if e.holders() == 0 {
            None
        } else {
            Some(e)
        },
{
    let t = s.put(k, e);
    let gone = e.holders() == 0;
    if gone {
        assert forall|a: int| 0 <= a < t.encoders.len() implies #[trigger] t.encoders[a]
            == s.encoders[if a < k {
            a
        } else {
            a + 1
        }] by {}
    } else {
        assert forall|a: int| 0 <= a < t.encoders.len() && a != k implies #[trigger] t.encoders[a]
            == s.encoders[a] by {}
    }
    lemma_encoder_index(s.encoders, y);
    lemma_encoder_index(t.encoders, y);
    if y != e.id {
        if let Some(a) = encoder_index(s.encoders, y) {
            let b = if gone && a > k {
                a - 1
            } else {
                a
            };
            assert(t.encoders[b] == s.encoders[a]);
            lemma_encoder_place(t.encoders, b);
        } else if let Some(b) = encoder_index(t.encoders, y) {
            let a = if gone && b >= k {
                b + 1
            } else {
                b
            };
            assert(s.encoders[a] == t.encoders[b]);
        }
    } else if gone {
        if let Some(b) = encoder_index(t.encoders, y) {
            let a = if b < k {
                b
            } else {
                b + 1
            };
            assert(s.encoders[a] == t.encoders[b]);
            if a < k {
                assert(s.encoders[a].id != s.encoders[k].id);
            } else {
                assert(s.encoders[k].id != s.encoders[a].id);
            }
        }
    } else {
        assert(t.encoders[k] == e);
        lemma_encoder_place(t.encoders, k);
    }
}

/// Whether only one encoder is another than before, and is `e`, if anybody holds
/// that.
pub open spec fn only_one_changes(
    r: RegistryView,
    t: RegistryView,
    serial: u64,
    id: u64,
    e: EncoderView,
    x: u64,
    y: u64,
) -> bool {
    encoder_of(t, x, y) == if x == serial && y == id {
        if e.holders() == 0 {
            None
        } else {
            Some(e)
        }
    } else {
        encoder_of(r, x, y)
    }
}

pub proof fn lemma_reach(r: RegistryView, serial: u64, id: u64, e: EncoderView, x: u64, y: u64)
    requires
        r.sound(),
        encoder_of(r, serial, id) is Some,
        e.id == id,
    ensures
        ({
            let i = stream_index(r.streams, serial)->0;
            let s = r.streams[i];
            let k = encoder_index(s.encoders, id)->0;
            only_one_changes(r, r.put(i, s.put(k, e)), serial, id, e, x, y)
        }),
{
    lemma_stream_index(r.streams, serial);
    let i = stream_index(r.streams, serial)->0;
    let s = r.streams[i];
    lemma_encoder_index(s.encoders, id);
    let k = encoder_index(s.encoders, id)->0;
    let t = s.put(k, e);
    lemma_put(r, i, t, x);
    lemma_encoder_put(s, k, e, y);
    if x == serial && t.idle() {
        lemma_encoder_index(t.encoders, y);
    }
}

/// What ffmpeg writes reaches its encoder, and is counted there.
pub proof fn law_output_reaches_its_encoder(
    r: RegistryView,
    serial: u64,
    id: u64,
    chunk: Seq<u8>,
    x: u64,
    y: u64,
)
    requires
        r.sound(),
        encoder_of(r, serial, id) is Some,
    ensures
        ({
            let e = encoder_of(r, serial, id)->0;
            &&& only_one_changes(
                r,
                r.wrote(serial, id, chunk),
                serial,
                id,
                e.wrote(chunk),
                x,
                y,
            )
            &&& e.bytes_out + chunk.len() <= u64::MAX ==> e.wrote(chunk).bytes_out == e.bytes_out
                + chunk.len()
            &&& e.wrote(chunk).outlets.len() == e.outlets.len()
            &&& e.wrote(chunk).finished == e.finished
            &&& e.wrote(chunk).feed == e.feed
        }),
{
    let e = encoder_of(r, serial, id)->0;
    lemma_stream_index(r.streams, serial);
    lemma_encoder_index(r.streams[stream_index(r.streams, serial)->0].encoders, id);
    lemma_reach(r, serial, id, e.wrote(chunk), x, y);
    if e.scan is Some {
        lemma_offered_len(e.outlets, coalesce(e.scan->0.push(chunk).1));
    }
}

proof fn lemma_offered_len(outlets: Seq<OutletView>, pieces: Seq<PieceView>)
    ensures
        offered_all(outlets, pieces).len() == outlets.len(),
    decreases pieces.len(),
{
    if pieces.len() > 0 {
        lemma_offered_len(offered(outlets, pieces[0]), pieces.drop_first());
    }
}

/// That the output of an ffmpeg has ended is noted of its encoder, which changes in
/// nothing else.
pub proof fn law_ends_reach_their_encoder(r: RegistryView, serial: u64, id: u64, x: u64, y: u64)
    requires
        r.sound(),
        encoder_of(r, serial, id) is Some,
    ensures
        ({
            let e = encoder_of(r, serial, id)->0;
            only_one_changes(
                r,
                r.ended(serial, id),
                serial,
                id,
                EncoderView { finished: true, ..e },
                x,
                y,
            )
        }),
{
    let e = encoder_of(r, serial, id)->0;
    lemma_stream_index(r.streams, serial);
    lemma_encoder_index(r.streams[stream_index(r.streams, serial)->0].encoders, id);
    lemma_reach(r, serial, id, e.ended(), x, y);
}

/// A listener reads what waits for it, and for nobody else, and reading changes
/// nothing but that.
pub proof fn law_listeners_read_their_own(
    r: RegistryView,
    serial: u64,
    id: u64,
    listener: u64,
    cap: nat,
    x: u64,
    y: u64,
)
    requires
        r.sound(),
        encoder_of(r, serial, id) is Some,
        outlet_index(encoder_of(r, serial, id)->0.outlets, listener) is Some,
    ensures
        ({
            let e = encoder_of(r, serial, id)->0;
            let i = outlet_index(e.outlets, listener)->0;
            let (o, delivery) = e.outlets[i].read(cap);
            let (t, got) = r.read(serial, id, listener, cap);
            &&& e.outlets[i].id == listener
            &&& got == delivery
            &&& only_one_changes(
                r,
                t,
                serial,
                id,
                EncoderView { outlets: e.outlets.update(i, o), ..e },
                x,
                y,
            )
            &&& r.sent_to(serial, id, listener) == e.outlets[i].bytes_sent
        }),
{
    let e = encoder_of(r, serial, id)->0;
    lemma_stream_index(r.streams, serial);
    lemma_encoder_index(r.streams[stream_index(r.streams, serial)->0].encoders, id);
    lemma_outlet_index(e.outlets, listener);
    lemma_reach(r, serial, id, e.read(listener, cap).0, x, y);
}

/// A listener that leaves takes nobody along: every other stays as it is, in its
/// place in the row, and the encoder goes only where nobody is left.
pub proof fn law_leaving_reaches_one_listener(
    r: RegistryView,
    serial: u64,
    id: u64,
    listener: u64,
    x: u64,
    y: u64,
)
    requires
        r.sound(),
        encoder_of(r, serial, id) is Some,
        outlet_index(encoder_of(r, serial, id)->0.outlets, listener) is Some,
    ensures
        ({
            let e = encoder_of(r, serial, id)->0;
            let i = outlet_index(e.outlets, listener)->0;
            &&& e.outlets[i].id == listener
            &&& only_one_changes(
                r,
                r.left(serial, id, listener),
                serial,
                id,
                EncoderView { outlets: e.outlets.remove(i), ..e },
                x,
                y,
            )
        }),
{
    let e = encoder_of(r, serial, id)->0;
    lemma_stream_index(r.streams, serial);
    lemma_encoder_index(r.streams[stream_index(r.streams, serial)->0].encoders, id);
    lemma_outlet_index(e.outlets, listener);
    lemma_reach(r, serial, id, e.left(listener), x, y);
}

/// What is taken for ffmpeg is the oldest chunk that waits for it, and taking it
/// leaves the rest. While the encoder is fed, an empty queue is waited for; once it
/// is not, that is the end.
pub proof fn law_feeds_are_taken_in_order(r: RegistryView, serial: u64, id: u64, x: u64, y: u64)
    requires
        r.sound(),
        encoder_of(r, serial, id) is Some,
    ensures
        ({
            let e = encoder_of(r, serial, id)->0;
            let (t, got) = r.fetched(serial, id);
            let items = e.feed.items;
            &&& items.len() > 0 ==> got == ReceivedView::Chunk(items[0]) && only_one_changes(
                r,
                t,
                serial,
                id,
                EncoderView {
                    feed: QueueView { items: items.drop_first(), ..e.feed },
                    ..e
                },
                x,
                y,
            )
            &&& items.len() == 0 ==> got == (if e.registered() {
                ReceivedView::Empty
            } else {
                ReceivedView::Closed
            }) && only_one_changes(r, t, serial, id, e, x, y)
        }),
{
    let e = encoder_of(r, serial, id)->0;
    lemma_stream_index(r.streams, serial);
    lemma_encoder_index(r.streams[stream_index(r.streams, serial)->0].encoders, id);
    lemma_reach(r, serial, id, e.fetched().0, x, y);
}

/// That nobody takes for ffmpeg any more is noted of that feed alone.
pub proof fn law_starving_reaches_one_encoder(
    r: RegistryView,
    serial: u64,
    id: u64,
    x: u64,
    y: u64,
)
    requires
        r.sound(),
        encoder_of(r, serial, id) is Some,
    ensures
        ({
            let e = encoder_of(r, serial, id)->0;
            only_one_changes(
                r,
                r.starved(serial, id),
                serial,
                id,
                EncoderView {
                    feed: QueueView { receiving: false, ..e.feed },
                    ..e
                },
                x,
                y,
            )
        }),
{
    let e = encoder_of(r, serial, id)->0;
    lemma_stream_index(r.streams, serial);
    lemma_encoder_index(r.streams[stream_index(r.streams, serial)->0].encoders, id);
    lemma_reach(r, serial, id, e.starved(), x, y);
}

/// A request that lets go of an encoder is one less that holds it, and no listener.
pub proof fn law_letting_go_reaches_one_encoder(
    r: RegistryView,
    serial: u64,
    id: u64,
    x: u64,
    y: u64,
)
    requires
        r.sound(),
        encoder_of(r, serial, id) is Some,
        encoder_of(r, serial, id)->0.joining > 0,
    ensures
        ({
            let e = encoder_of(r, serial, id)->0;
            only_one_changes(
                r,
                r.encoder_released(serial, id),
                serial,
                id,
                EncoderView { joining: (e.joining - 1) as u64, ..e },
                x,
                y,
            )
        }),
{
    let e = encoder_of(r, serial, id)->0;
    lemma_stream_index(r.streams, serial);
    lemma_encoder_index(r.streams[stream_index(r.streams, serial)->0].encoders, id);
    lemma_reach(r, serial, id, e.let_go(), x, y);
}

/// A format that is given up is fed no more: the encoder that was fed for it gets
/// nothing after what waits for it already, and every other stays as it is.
pub proof fn law_giving_up_reaches_one_format(
    r: RegistryView,
    serial: u64,
    fmt: OutputFormat,
    x: u64,
    y: u64,
)
    requires
        r.sound(),
        encoder_of(r, x, y) is Some,
    ensures
        ({
            let e = encoder_of(r, x, y)->0;
            encoder_of(r.unfed(serial, fmt), x, y) == Some(
                if x == serial && e.registered() && e.fmt == fmt {
                    EncoderView {
                        feed: QueueView { sending: false, ..e.feed },
                        ..e
                    }
                } else {
                    e
                },
            )
        }),
{
    lemma_stream_index(r.streams, serial);
    lemma_stream_index(r.streams, x);
    if let Some(i) = stream_index(r.streams, serial) {
        let s = r.streams[i];
        lemma_fed_index(s.encoders, fmt);
        lemma_encoder_index(s.encoders, y);
        match fed_index(s.encoders, fmt) {
            Some(k) => {
                let e = s.encoders[k].deregistered();
                assert(s.unfed(fmt) == s.put(k, e));
                lemma_encoder_place(s.encoders, k);
                lemma_reach(r, serial, s.encoders[k].id, e, x, y);
                if x == serial {
                    let a = encoder_index(s.encoders, y)->0;
                    if a < k {
                        assert(s.encoders[a].registered() ==> s.encoders[a].fmt
                            != s.encoders[k].fmt);
                    } else if k < a {
                        assert(s.encoders[a].registered() ==> s.encoders[k].fmt
                            != s.encoders[a].fmt);
                    }
                }
            },
            None => {
                lemma_put(r, i, s, x);
            },
        }
    }
}

/// What a stream is told reaches it and no other: how it started, and the engine's
/// statistics. The first session and the first probe stay.
pub proof fn law_news_reach_their_stream(
    r: RegistryView,
    serial: u64,
    session: SessionView,
    probe: ProbeView,
    reason: Seq<char>,
    now: u64,
    stats: Json,
    x: u64,
)
    requires
        r.sound(),
        stream_of(r, serial) is Some,
    ensures
        ({
            let s = stream_of(r, serial)->0;
            &&& stream_of(r.came_up(serial, session, probe), x) == if x == serial {
                Some(
                    StreamView {
                        start: StartView::Ready,
                        session: if s.session is Some {
                            s.session
                        } else {
                            Some(session)
                        },
                        probe: if s.probe is Some {
                            s.probe
                        } else {
                            Some(probe)
                        },
                        ..s
                    },
                )
            } else {
                stream_of(r, x)
            }
            &&& stream_of(r.published(serial, Err(reason)), x) == if x == serial {
                Some(StreamView { start: StartView::Failed(reason), ..s })
            } else {
                stream_of(r, x)
            }
            &&& stream_of(r.measured(serial, now, stats), x) == if x == serial {
                Some(StreamView { stats: Some((now, stats)), ..s })
            } else {
                stream_of(r, x)
            }
        }),
{
    lemma_stream_index(r.streams, serial);
    let i = stream_index(r.streams, serial)->0;
    let s = r.streams[i];
    lemma_put(r, i, s.came_up(session, probe), x);
    lemma_put(r, i, s.published(Err(reason)), x);
    lemma_put(r, i, StreamView { stats: Some((now, stats)), ..s }, x);
}

/// The engine is asked for the statistics of a stream where its session says, and
/// not at all where the stream has no session, or the session says nothing.
pub proof fn law_statistics_are_to_be_had_from_the_session(r: RegistryView, serial: u64)
    ensures
        match stream_of(r, serial) {
            Some(s) => {
                &&& s.session matches Some(session) ==> r.stat_url(serial) == session.stat_url
                &&& s.session is None ==> r.stat_url(serial) is None
            },
            None => r.stat_url(serial) is None,
        },
{
}

} // verus!
