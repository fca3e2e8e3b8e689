//! What ffmpeg gets of what comes from the engine.

use vstd::prelude::*;

use crate::encoder::{time_left, EncoderView};
use crate::format::OutputFormat;
use crate::life_laws::lemma_put;
use crate::pull::{CargoView, TS_STALL};
use crate::queue::{QueueView, ReceivedView, SentKind};
use crate::registry::{lemma_stream_index, stream_index, RegistryView};
use crate::replay::{last_bytes, law_window_is_a_suffix, window_of, REPLAY_BYTES};
use crate::stream::{
    encoder_index, fed_encoders, lemma_encoder_index, lemma_orphan_index, orphan_index, StreamView,
};

verus! {

// ---------------------------------------------------------------------------
// Priming and live data
// ---------------------------------------------------------------------------

/// An encoder is primed with the end of what has come so far, and what comes
/// from then on continues it: together they are the end of all that came, with
/// nothing missing in between and nothing twice.
pub proof fn law_live_data_continues_the_prime(history: Seq<u8>, later: Seq<u8>)
    ensures
        (window_of(last_bytes(history, REPLAY_BYTES as nat)) + later).is_suffix_of(history + later),
{
    let kept = last_bytes(history, REPLAY_BYTES as nat);
    let prime = window_of(kept);
    law_window_is_a_suffix(kept);
    let all = history + later;
    let n = (prime + later).len();
    assert(all.subrange(all.len() - n, all.len() as int) == prime + later) by {
        assert forall|k: int| 0 <= k < n implies all[all.len() - n + k] == (prime + later)[k] by {
            if k < prime.len() {
                assert(prime[k] == kept[kept.len() - prime.len() + k]);
                assert(kept[kept.len() - prime.len() + k] == history[history.len() - prime.len()
                    + k]);
            }
        }
    }
}

/// A step in the life of a feed.
pub enum FeedStep {
    /// A chunk is offered.
    Offer(Seq<u8>),
    /// A chunk is taken.
    Take,
}

/// The feed after the steps, with the chunks that it took in and those that were
/// taken from it.
pub open spec fn fed_through(q: QueueView, steps: Seq<FeedStep>) -> (
    QueueView,
    Seq<Seq<u8>>,
    Seq<Seq<u8>>,
)
    decreases steps.len(),
{
    if steps.len() == 0 {
        (q, Seq::empty(), Seq::empty())
    } else {
        let (mid, taken_in, taken_out) = fed_through(q, steps.drop_last());
        match steps.last() {
            FeedStep::Offer(chunk) => {
                let (end, sent) = mid.send(chunk);
                (
                    end,
                    if sent == SentKind::Done {
                        taken_in.push(chunk)
                    } else {
                        taken_in
                    },
                    taken_out,
                )
            },
            FeedStep::Take => match mid.receive() {
                (end, ReceivedView::Chunk(chunk)) => (end, taken_in, taken_out.push(chunk)),
                (end, _) => (end, taken_in, taken_out),
            },
        }
    }
}

/// A queue hands out what it took in, in order, once, and nothing else.
pub proof fn law_queue_keeps_order(q: QueueView, steps: Seq<FeedStep>)
    ensures
        ({
            let (end, taken_in, taken_out) = fed_through(q, steps);
            taken_out + end.items == q.items + taken_in
        }),
    decreases steps.len(),
{
    if steps.len() == 0 {
        assert(Seq::<Seq<u8>>::empty() + q.items == q.items + Seq::<Seq<u8>>::empty());
    } else {
        law_queue_keeps_order(q, steps.drop_last());
        let (mid, taken_in, taken_out) = fed_through(q, steps.drop_last());
        match steps.last() {
            FeedStep::Offer(chunk) => {
                if mid.send(chunk).1 == SentKind::Done {
                    assert(taken_out + mid.items.push(chunk) == (taken_out + mid.items).push(
                        chunk,
                    ));
                    assert(q.items + taken_in.push(chunk) == (q.items + taken_in).push(chunk));
                }
            },
            FeedStep::Take => {
                if mid.items.len() > 0 {
                    assert(taken_out.push(mid.items[0]) + mid.items.drop_first() == taken_out
                        + mid.items);
                }
            },
        }
    }
}

// ---------------------------------------------------------------------------
// Every encoder gets every chunk
// ---------------------------------------------------------------------------

/// What comes from the engine is meant for every encoder that is fed, and for no
/// other.
pub proof fn law_fed_encoders_are_the_targets(s: StreamView, fmt: OutputFormat, id: u64)
    ensures
        s.targets().contains((fmt, id)) <==> exists|i: int|
            0 <= i < s.encoders.len() && (#[trigger] s.encoders[i]).registered()
                && s.encoders[i].fmt == fmt && s.encoders[i].id == id,
{
    lemma_fed_encoders(s.encoders, fmt, id);
    let fed = fed_encoders(s.encoders);
    if s.targets().contains((fmt, id)) {
        let k = choose|k: int| 0 <= k < s.targets().len() && s.targets()[k] == (fmt, id);
        assert(fed[k].fmt == fmt && fed[k].id == id);
    }
    if exists|k: int| 0 <= k < fed.len() && (#[trigger] fed[k]).fmt == fmt && fed[k].id == id {
        let k = choose|k: int|
            0 <= k < fed.len() && (#[trigger] fed[k]).fmt == fmt && fed[k].id == id;
        assert(s.targets()[k] == (fmt, id));
    }
}

proof fn lemma_fed_encoders(encoders: Seq<EncoderView>, fmt: OutputFormat, id: u64)
    ensures
        (exists|k: int|
            0 <= k < fed_encoders(encoders).len() && (#[trigger] fed_encoders(encoders)[k]).fmt
                == fmt && fed_encoders(encoders)[k].id == id) <==> (exists|i: int|
            0 <= i < encoders.len() && (#[trigger] encoders[i]).registered() && encoders[i].fmt
                == fmt && encoders[i].id == id),
    decreases encoders.len(),
{
    if encoders.len() > 0 {
        let rest = encoders.drop_last();
        let e = encoders.last();
        lemma_fed_encoders(rest, fmt, id);
        let fed = fed_encoders(encoders);
        let less = fed_encoders(rest);
        if exists|k: int| 0 <= k < fed.len() && (#[trigger] fed[k]).fmt == fmt && fed[k].id == id {
            let k = choose|k: int|
                0 <= k < fed.len() && (#[trigger] fed[k]).fmt == fmt && fed[k].id == id;
            if k < less.len() {
                assert(less[k] == fed[k]);
                let i = choose|i: int|
                    0 <= i < rest.len() && (#[trigger] rest[i]).registered() && rest[i].fmt == fmt
                        && rest[i].id == id;
                assert(encoders[i] == rest[i]);
            } else {
                assert(encoders[encoders.len() - 1] == e);
            }
        }
        if exists|i: int|
            0 <= i < encoders.len() && (#[trigger] encoders[i]).registered() && encoders[i].fmt
                == fmt && encoders[i].id == id {
            let i = choose|i: int|
                0 <= i < encoders.len() && (#[trigger] encoders[i]).registered()
                    && encoders[i].fmt == fmt && encoders[i].id == id;
            if i < rest.len() {
                assert(rest[i] == encoders[i]);
                let k = choose|k: int|
                    0 <= k < less.len() && (#[trigger] less[k]).fmt == fmt && less[k].id == id;
                assert(fed[k] == less[k]);
            } else {
                assert(fed[fed.len() - 1] == e);
            }
        }
    }
}

/// What waits for the ffmpeg of an encoder, where there is such an encoder or
/// somebody still takes from the feed of one that is gone.
pub open spec fn feed_of(r: RegistryView, serial: u64, id: u64) -> Option<QueueView> {
    match stream_index(r.streams, serial) {
        Some(i) => match encoder_index(r.streams[i].encoders, id) {
            Some(j) => Some(r.streams[i].encoders[j].feed),
            None => match orphan_index(r.streams[i].orphans, id) {
                Some(k) => Some(r.streams[i].orphans[k].1),
                None => None,
            },
        },
        None => None,
    }
}

proof fn lemma_orphan_index_update(
    orphans: Seq<(u64, QueueView)>,
    k: int,
    q: (u64, QueueView),
    x: u64,
)
    requires
        0 <= k < orphans.len(),
        q.0 == orphans[k].0,
    ensures
        orphan_index(orphans.update(k, q), x) == orphan_index(orphans, x),
    decreases orphans.len(),
{
    let after = orphans.update(k, q);
    if orphans.last().0 != x {
        if k < orphans.len() - 1 {
            assert(after.drop_last() == orphans.drop_last().update(k, q));
            lemma_orphan_index_update(orphans.drop_last(), k, q, x);
        } else {
            assert(after.drop_last() == orphans.drop_last());
        }
    }
}

pub proof fn lemma_encoder_index_update(encoders: Seq<EncoderView>, j: int, e: EncoderView, x: u64)
    requires
        0 <= j < encoders.len(),
        e.id == encoders[j].id,
    ensures
        encoder_index(encoders.update(j, e), x) == encoder_index(encoders, x),
    decreases encoders.len(),
{
    let after = encoders.update(j, e);
    if encoders.last().id != x {
        if j < encoders.len() - 1 {
            assert(after.drop_last() == encoders.drop_last().update(j, e));
            lemma_encoder_index_update(encoders.drop_last(), j, e, x);
        } else {
            assert(after.drop_last() == encoders.drop_last());
        }
    }
}

proof fn lemma_stream_index_update(streams: Seq<StreamView>, i: int, s: StreamView, x: u64)
    requires
        0 <= i < streams.len(),
        s.serial == streams[i].serial,
    ensures
        stream_index(streams.update(i, s), x) == stream_index(streams, x),
    decreases streams.len(),
{
    let after = streams.update(i, s);
    if streams.last().serial != x {
        if i < streams.len() - 1 {
            assert(after.drop_last() == streams.drop_last().update(i, s));
            lemma_stream_index_update(streams.drop_last(), i, s, x);
        } else {
            assert(after.drop_last() == streams.drop_last());
        }
    }
}

/// Offering a chunk to one encoder concerns that encoder alone.
pub proof fn lemma_fed_alone(r: RegistryView, serial: u64, id: u64, chunk: Seq<u8>, x: u64)
    requires
        r.sound(),
    ensures
        r.fed(serial, id, chunk).0.sound(),
        feed_of(r.fed(serial, id, chunk).0, serial, x) == (match feed_of(r, serial, x) {
            Some(q) => Some(
                if x == id {
                    q.send(chunk).0
                } else {
                    q
                },
            ),
            None => None,
        }),
        r.fed(serial, id, chunk).1 == (match feed_of(r, serial, id) {
            Some(q) => q.send(chunk).1,
            None => SentKind::Gone,
        }),
{
    lemma_stream_index(r.streams, serial);
    if let Some(i) = stream_index(r.streams, serial) {
        let s = r.streams[i];
        lemma_encoder_index(s.encoders, id);
        lemma_encoder_index(s.encoders, x);
        let (t, sent) = s.fed(id, chunk);
        if let Some(j) = encoder_index(s.encoders, id) {
            let e = s.encoders[j].fed(chunk).0;
            assert(e.sound());
            crate::stream::lemma_put_sound(s, j, e);
            assert(t == s.put(j, e));
            assert(t.encoders == s.encoders.update(j, e));
            lemma_encoder_index_update(s.encoders, j, e, x);
        } else {
            lemma_orphan_index(s.orphans, id);
            lemma_orphan_index(s.orphans, x);
            if let Some(k) = orphan_index(s.orphans, id) {
                lemma_orphan_index_update(s.orphans, k, t.orphans[k], x);
            }
        }
        crate::registry::lemma_put_sound(r, i, t);
        assert(!t.idle());
        lemma_stream_index_update(r.streams, i, t, serial);
    }
}

/// A chunk is refused for good just where nobody takes raw TS for the encoder's
/// ffmpeg any more, whether the encoder is still there or not.
pub proof fn law_refused_where_nobody_takes(r: RegistryView, serial: u64, id: u64, chunk: Seq<u8>)
    requires
        r.sound(),
    ensures
        r.fed(serial, id, chunk).1 == SentKind::Gone <==> match feed_of(r, serial, id) {
            Some(q) => !q.receiving,
            None => true,
        },
{
    lemma_fed_alone(r, serial, id, chunk, id);
}

/// An encoder that goes leaves what waits for its ffmpeg to whoever takes it:
/// that comes out as it would have, and then no more. Where nobody takes it,
/// nothing is left.
pub proof fn law_feed_outlives_its_encoder(s: StreamView, i: int, e: EncoderView, chunk: Seq<u8>)
    requires
        s.sound(),
        0 <= i < s.encoders.len(),
        e.id == s.encoders[i].id,
        e.holders() == 0,
    ensures
        e.feed.receiving ==> s.put(i, e).fetched(e.id).1 == e.feed.unsent().receive().1,
        e.feed.receiving ==> s.put(i, e).fed(e.id, chunk).1 == e.feed.send(chunk).1,
        !e.feed.receiving ==> s.put(i, e).fetched(e.id).1 == ReceivedView::Closed,
        !e.feed.receiving ==> s.put(i, e).fed(e.id, chunk).1 == SentKind::Gone,
{
    let t = s.put(i, e);
    assert forall|k: int| 0 <= k < t.encoders.len() implies (#[trigger] t.encoders[k]).id
        != e.id by {
        let j = if k < i {
            k
        } else {
            k + 1
        };
        assert(t.encoders[k] == s.encoders[j]);
    }
    lemma_encoder_index(t.encoders, e.id);
    lemma_orphan_index(s.orphans, e.id);
}

/// Whether an encoder is among the targets.
pub open spec fn names(targets: Seq<(OutputFormat, u64)>, id: u64) -> bool {
    exists|k: int| 0 <= k < targets.len() && (#[trigger] targets[k]).1 == id
}

/// Whether an encoder is among the targets, and its format among those that were
/// given up.
pub open spec fn given_up(
    targets: Seq<(OutputFormat, u64)>,
    wedged: Seq<OutputFormat>,
    id: u64,
) -> bool {
    exists|k: int|
        0 <= k < targets.len() && (#[trigger] targets[k]).1 == id && wedged.contains(targets[k].0)
}

/// Handing out a chunk gives it to an encoder at most once, and to nobody who is
/// not a target. A target has it at the end of its queue, or is still to get it,
/// or has been given up because nobody takes from that queue, or not in time.
pub proof fn law_chunks_are_handed_out_once(
    cargo: CargoView,
    r: RegistryView,
    serial: u64,
    now: u64,
    x: u64,
)
    requires
        r.sound(),
        forall|a: int, b: int|
            0 <= a < b < cargo.targets.len() ==> (#[trigger] cargo.targets[a]).1 != (
            #[trigger] cargo.targets[b]).1,
    ensures
        ({
            let (end, rest) = cargo.deliver(r, serial, now);
            &&& feed_of(r, serial, x) is None ==> feed_of(end, serial, x) is None
            &&& feed_of(r, serial, x) matches Some(q) ==> {
                ||| {
                    &&& feed_of(end, serial, x) == Some(
                        QueueView { items: q.items.push(cargo.chunk), ..q },
                    )
                    &&& names(cargo.targets, x)
                    &&& !names(rest.targets, x)
                }
                ||| {
                    &&& feed_of(end, serial, x) == Some(q)
                    &&& names(cargo.targets, x) ==> names(rest.targets, x) || given_up(
                        cargo.targets,
                        rest.wedged,
                        x,
                    )
                }
            }
        }),
    decreases cargo.targets.len(),
{
    let (end, rest) = cargo.deliver(r, serial, now);
    if cargo.targets.len() > 0 {
        let (fmt, id) = cargo.targets[0];
        let (r2, sent) = r.fed(serial, id, cargo.chunk);
        lemma_fed_alone(r, serial, id, cargo.chunk, x);
        if !(sent == SentKind::Full && time_left(TS_STALL, cargo.since, now) > 0) {
            let next = if sent == SentKind::Done {
                cargo.next(now)
            } else {
                cargo.refused(now)
            };
            assert forall|a: int, b: int| 0 <= a < b < next.targets.len() implies (
            #[trigger] next.targets[a]).1 != (#[trigger] next.targets[b]).1 by {
                assert(next.targets[a] == cargo.targets[a + 1]);
                assert(next.targets[b] == cargo.targets[b + 1]);
            }
            law_chunks_are_handed_out_once(next, r2, serial, now, x);
            lemma_rest(next, r2, serial, now);
            if x == id {
                assert(!names(next.targets, x)) by {
                    assert forall|k: int| 0 <= k < next.targets.len() implies (
                    #[trigger] next.targets[k]).1 != x by {
                        assert(next.targets[k] == cargo.targets[k + 1]);
                    }
                }
                assert(!names(rest.targets, x)) by {
                    assert forall|k: int| 0 <= k < rest.targets.len() implies (
                    #[trigger] rest.targets[k]).1 != x by {
                        assert(rest.targets[k] == next.targets[next.targets.len()
                            - rest.targets.len() + k]);
                    }
                }
                if sent != SentKind::Done {
                    let n = cargo.wedged.len() as int;
                    assert(next.wedged[n] == fmt);
                    assert(rest.wedged[n] == fmt);
                    assert(given_up(cargo.targets, rest.wedged, x));
                }
            } else {
                if names(cargo.targets, x) {
                    let k = choose|k: int|
                        0 <= k < cargo.targets.len() && (#[trigger] cargo.targets[k]).1 == x;
                    assert(next.targets[k - 1] == cargo.targets[k]);
                }
                if names(next.targets, x) {
                    let k = choose|k: int|
                        0 <= k < next.targets.len() && (#[trigger] next.targets[k]).1 == x;
                    assert(cargo.targets[k + 1] == next.targets[k]);
                }
                if given_up(next.targets, rest.wedged, x) {
                    let k = choose|k: int|
                        0 <= k < next.targets.len() && (#[trigger] next.targets[k]).1 == x
                            && rest.wedged.contains(next.targets[k].0);
                    assert(cargo.targets[k + 1] == next.targets[k]);
                }
            }
        }
    }
}

/// What waits for the ffmpeg of an encoder that is gone is still taken in order, and
/// then nothing comes any more. When nobody takes it, it is forgotten. Nothing of
/// that concerns any other feed.
pub proof fn law_feeds_of_the_gone_are_taken_to_their_end(
    r: RegistryView,
    serial: u64,
    id: u64,
    q: QueueView,
    x: u64,
)
    requires
        r.sound(),
        stream_index(r.streams, serial) matches Some(i) && encoder_index(
            r.streams[i].encoders,
            id,
        ) is None,
        feed_of(r, serial, id) == Some(q),
    ensures
        ({
            let (after, got) = r.fetched(serial, id);
            let rest = if q.items.len() > 0 {
                QueueView { items: q.items.drop_first(), ..q }
            } else {
                q
            };
            &&& got == if q.items.len() > 0 {
                ReceivedView::Chunk(q.items[0])
            } else {
                ReceivedView::Closed
            }
            &&& feed_of(after, serial, x) == if x == id {
                Some(rest)
            } else {
                feed_of(r, serial, x)
            }
        }),
        feed_of(r.starved(serial, id), serial, x) == if x == id {
            None
        } else {
            feed_of(r, serial, x)
        },
{
    lemma_stream_index(r.streams, serial);
    let i = stream_index(r.streams, serial)->0;
    let s = r.streams[i];
    lemma_orphan_index(s.orphans, id);
    let k = orphan_index(s.orphans, id)->0;
    lemma_put(r, i, s.fetched(id).0, serial);
    lemma_put(r, i, s.starved(id), serial);
    lemma_orphan_index_update(s.orphans, k, (id, s.orphans[k].1.receive().0), x);
    lemma_orphan_index(s.orphans, x);
    let fewer = s.orphans.remove(k);
    lemma_orphan_index(fewer, x);
    match (orphan_index(s.orphans, x), orphan_index(fewer, x)) {
        (Some(a), Some(b)) => {
            let c = if b < k {
                b
            } else {
                b + 1
            };
            assert(fewer[b] == s.orphans[c]);
            if a < c {
                assert(s.orphans[a].0 != s.orphans[c].0);
            } else if c < a {
                assert(s.orphans[c].0 != s.orphans[a].0);
            }
            assert(a == c);
        },
        (Some(a), None) => {
            if a < k {
                assert(fewer[a] == s.orphans[a]);
            } else if k < a {
                assert(fewer[a - 1] == s.orphans[a]);
            }
        },
        (None, Some(b)) => {
            assert(fewer[b] == s.orphans[if b < k {
                b
            } else {
                b + 1
            }]);
        },
        (None, None) => {},
    }
}

/// What is left of a chunk's way is the end of it, and who was given up stays so.
pub proof fn lemma_rest(cargo: CargoView, r: RegistryView, serial: u64, now: u64)
    ensures
        ({
            let rest = cargo.deliver(r, serial, now).1;
            &&& rest.targets.len() <= cargo.targets.len()
            &&& forall|k: int|
                0 <= k < rest.targets.len() ==> #[trigger] rest.targets[k]
                    == cargo.targets[cargo.targets.len() - rest.targets.len() + k]
            &&& cargo.wedged.len() <= rest.wedged.len()
            &&& forall|k: int|
                0 <= k < cargo.wedged.len() ==> #[trigger] rest.wedged[k] == cargo.wedged[k]
        }),
    decreases cargo.targets.len(),
{
    if cargo.targets.len() > 0 {
        let (r2, sent) = r.fed(serial, cargo.targets[0].1, cargo.chunk);
        if !(sent == SentKind::Full && time_left(TS_STALL, cargo.since, now) > 0) {
            let next = if sent == SentKind::Done {
                cargo.next(now)
            } else {
                cargo.refused(now)
            };
            lemma_rest(next, r2, serial, now);
            let rest = cargo.deliver(r, serial, now).1;
            assert forall|k: int| 0 <= k < rest.targets.len() implies #[trigger] rest.targets[k]
                == cargo.targets[cargo.targets.len() - rest.targets.len() + k] by {
                assert(rest.targets[k] == next.targets[next.targets.len() - rest.targets.len()
                    + k]);
            }
            assert forall|k: int| 0 <= k < cargo.wedged.len() implies #[trigger] rest.wedged[k]
                == cargo.wedged[k] by {
                assert(next.wedged[k] == cargo.wedged[k]);
            }
        }
    }
}

} // verus!
