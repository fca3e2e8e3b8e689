//! What becomes of a chunk that is handed to the encoders.

use vstd::prelude::*;

use crate::encoder::{time_left, EncoderView};
use crate::feed_laws::{law_fed_encoders_are_the_targets, lemma_fed_alone, lemma_rest, names};
use crate::format::OutputFormat;
use crate::join_laws::encoder_of;
use crate::life_laws::lemma_put;
use crate::pull::{unfed_all, CargoView, PhaseView, PullEventView, PullView};
use crate::pull_laws::{lemma_received_stays, lemma_unfed_stays};
use crate::queue::{QueueView, SentKind};
use crate::reach_laws::{law_giving_up_reaches_one_format, lemma_reach};
use crate::registry::{lemma_stream_index, stream_index, RegistryView};
use crate::stream::{encoder_index, fed_encoders, lemma_encoder_index, StreamView};

verus! {

/// Whether an encoder's feed takes another chunk now.
pub open spec fn has_room(e: EncoderView) -> bool {
    e.feed.receiving && e.feed.items.len() < e.feed.limit
}

/// The encoder with one more chunk at the end of its feed.
pub open spec fn with_chunk(e: EncoderView, chunk: Seq<u8>) -> EncoderView {
    EncoderView { feed: QueueView { items: e.feed.items.push(chunk), ..e.feed }, ..e }
}

/// Whether no two targets have the same id or the same format.
pub open spec fn told_apart(targets: Seq<(OutputFormat, u64)>) -> bool {
    forall|a: int, b: int|
        0 <= a < b < targets.len() ==> (#[trigger] targets[a]).0 != (#[trigger] targets[b]).0
            && targets[a].1 != targets[b].1
}

/// A chunk that is offered to one encoder reaches that one alone.
proof fn lemma_fed_one(r: RegistryView, serial: u64, id: u64, chunk: Seq<u8>, x: u64)
    requires
        r.sound(),
        encoder_of(r, serial, x) is Some,
    ensures
        r.fed(serial, id, chunk).0.sound(),
        encoder_of(r.fed(serial, id, chunk).0, serial, x) == Some(
            if x == id {
                encoder_of(r, serial, x)->0.fed(chunk).0
            } else {
                encoder_of(r, serial, x)->0
            },
        ),
        x == id ==> r.fed(serial, id, chunk).1 == encoder_of(r, serial, x)->0.fed(chunk).1,
{
    lemma_fed_alone(r, serial, id, chunk, x);
    lemma_stream_index(r.streams, serial);
    let i = stream_index(r.streams, serial)->0;
    let s = r.streams[i];
    lemma_encoder_index(s.encoders, id);
    lemma_encoder_index(s.encoders, x);
    match encoder_index(s.encoders, id) {
        Some(k) => {
            lemma_reach(r, serial, id, s.encoders[k].fed(chunk).0, serial, x);
        },
        None => {
            lemma_put(r, i, s.fed(id, chunk).0, serial);
        },
    }
}

/// Who is no target gets nothing, and whose format is no target's is not given up.
proof fn lemma_others(
    cargo: CargoView,
    r: RegistryView,
    serial: u64,
    now: u64,
    x: u64,
    fmt: OutputFormat,
)
    requires
        r.sound(),
        encoder_of(r, serial, x) is Some,
        forall|k: int| 0 <= k < cargo.targets.len() ==> (#[trigger] cargo.targets[k]).1 != x,
        forall|k: int| 0 <= k < cargo.targets.len() ==> (#[trigger] cargo.targets[k]).0 != fmt,
    ensures
        ({
            let (end, rest) = cargo.deliver(r, serial, now);
            &&& end.sound()
            &&& encoder_of(end, serial, x) == encoder_of(r, serial, x)
            &&& rest.wedged.contains(fmt) == cargo.wedged.contains(fmt)
            &&& rest.chunk == cargo.chunk
        }),
    decreases cargo.targets.len(),
{
    if cargo.targets.len() > 0 {
        let (r2, sent) = r.fed(serial, cargo.targets[0].1, cargo.chunk);
        lemma_fed_one(r, serial, cargo.targets[0].1, cargo.chunk, x);
        let next = if sent == SentKind::Done {
            cargo.next(now)
        } else {
            cargo.refused(now)
        };
        assert forall|k: int| 0 <= k < next.targets.len() implies (#[trigger] next.targets[k]).1
            != x && next.targets[k].0 != fmt by {
            assert(next.targets[k] == cargo.targets[k + 1]);
        }
        lemma_pushed(cargo.wedged, cargo.targets[0].0, fmt);
        lemma_others(next, r2, serial, now, x, fmt);
    }
}

proof fn lemma_pushed(formats: Seq<OutputFormat>, fmt: OutputFormat, other: OutputFormat)
    ensures
        formats.push(fmt).contains(other) <==> formats.contains(other) || fmt == other,
{
    let more = formats.push(fmt);
    assert(more[formats.len() as int] == fmt);
    if formats.contains(other) {
        let k = choose|k: int| 0 <= k < formats.len() && formats[k] == other;
        assert(more[k] == other);
    }
    if more.contains(other) && fmt != other {
        let k = choose|k: int| 0 <= k < more.len() && more[k] == other;
        assert(formats[k] == other);
    }
}

/// A chunk that is handed out is put at the end of the feed of each of its targets
/// that has room, unless it still waits for one before. Who has no room is waited
/// for, for twenty seconds. Only who has not made any in that time, or whose feed
/// nobody reads any more, is given up. Who gets the chunk, or is to get it, is not.
pub proof fn law_chunks_reach_their_targets(
    cargo: CargoView,
    r: RegistryView,
    serial: u64,
    now: u64,
    k: int,
)
    requires
        r.sound(),
        told_apart(cargo.targets),
        0 <= k < cargo.targets.len(),
        encoder_of(r, serial, cargo.targets[k].1) is Some,
    ensures
        ({
            let (fmt, x) = cargo.targets[k];
            let e = encoder_of(r, serial, x)->0;
            let (end, rest) = cargo.deliver(r, serial, now);
            let stalled = k == 0 && e.feed.items.len() >= e.feed.limit && cargo.since <= now && now
                - cargo.since >= 20000;
            &&& end.sound()
            &&& rest.chunk == cargo.chunk
            &&& {
                ||| {
                    &&& has_room(e)
                    &&& encoder_of(end, serial, x) == Some(with_chunk(e, cargo.chunk))
                    &&& !names(rest.targets, x)
                    &&& rest.wedged.contains(fmt) == cargo.wedged.contains(fmt)
                }
                ||| {
                    &&& k > 0 || e.feed.receiving && e.feed.items.len() >= e.feed.limit && !stalled
                    &&& encoder_of(end, serial, x) == Some(e)
                    &&& names(rest.targets, x)
                    &&& rest.wedged.contains(fmt) == cargo.wedged.contains(fmt)
                }
                ||| {
                    &&& !e.feed.receiving || stalled
                    &&& encoder_of(end, serial, x) == Some(e)
                    &&& !names(rest.targets, x)
                    &&& rest.wedged.contains(fmt)
                }
            }
        }),
    decreases cargo.targets.len(),
{
    let (fmt, x) = cargo.targets[k];
    let e = encoder_of(r, serial, x)->0;
    let (end, rest) = cargo.deliver(r, serial, now);
    let (r2, sent) = r.fed(serial, cargo.targets[0].1, cargo.chunk);
    lemma_fed_one(r, serial, cargo.targets[0].1, cargo.chunk, x);
    let next = if sent == SentKind::Done {
        cargo.next(now)
    } else {
        cargo.refused(now)
    };
    assert forall|a: int| 0 <= a < next.targets.len() implies #[trigger] next.targets[a]
        == cargo.targets[a + 1] by {}
    assert(told_apart(next.targets));
    lemma_pushed(cargo.wedged, cargo.targets[0].0, fmt);
    lemma_rest(next, r2, serial, now);
    if sent == SentKind::Full && time_left(20000, cargo.since, now) > 0 {
        assert(rest.targets[k].1 == x);
    } else if k == 0 {
        lemma_others(next, r2, serial, now, x, fmt);
        assert forall|a: int| 0 <= a < rest.targets.len() implies (#[trigger] rest.targets[a]).1
            != x by {
            assert(rest.targets[a] == next.targets[next.targets.len() - rest.targets.len() + a]);
        }
    } else {
        assert(next.targets[k - 1] == cargo.targets[k]);
        law_chunks_reach_their_targets(next, r2, serial, now, k - 1);
    }
}

proof fn lemma_fed_apart(encoders: Seq<EncoderView>)
    requires
        forall|i: int, j: int|
            0 <= i < j < encoders.len() ==> (#[trigger] encoders[i]).id != (
            #[trigger] encoders[j]).id,
        forall|i: int, j: int|
            0 <= i < j < encoders.len() && (#[trigger] encoders[i]).registered() && (
            #[trigger] encoders[j]).registered() ==> encoders[i].fmt != encoders[j].fmt,
    ensures
        forall|a: int, b: int|
            0 <= a < b < fed_encoders(encoders).len() ==> (
            #[trigger] fed_encoders(encoders)[a]).id != (#[trigger] fed_encoders(encoders)[b]).id
                && fed_encoders(encoders)[a].fmt != fed_encoders(encoders)[b].fmt,
        forall|a: int|
            0 <= a < fed_encoders(encoders).len() ==> encoders.contains(
                #[trigger] fed_encoders(encoders)[a],
            ) && fed_encoders(encoders)[a].registered(),
    decreases encoders.len(),
{
    if encoders.len() > 0 {
        let rest = encoders.drop_last();
        assert forall|i: int| 0 <= i < rest.len() implies #[trigger] rest[i] == encoders[i] by {}
        lemma_fed_apart(rest);
        let last = encoders.len() - 1;
        assert(encoders[last] == encoders.last());
        assert forall|a: int| 0 <= a < fed_encoders(rest).len() implies {
            let e = #[trigger] fed_encoders(rest)[a];
            encoders.contains(e) && e.id != encoders.last().id && (encoders.last().registered()
                ==> e.fmt != encoders.last().fmt)
        } by {
            let e = fed_encoders(rest)[a];
            let i = choose|i: int| 0 <= i < rest.len() && rest[i] == e;
            assert(encoders[i] == e);
            assert(encoders[i].id != encoders[last].id);
        }
        assert(encoders.contains(encoders.last()));
    }
}

/// Where formats are given up, their encoders are fed no more, and the others as
/// before. What is in the feeds stays there.
pub proof fn law_given_up_formats_are_fed_no_more(
    r: RegistryView,
    serial: u64,
    formats: Seq<OutputFormat>,
    x: u64,
)
    requires
        r.sound(),
        encoder_of(r, serial, x) is Some,
    ensures
        unfed_all(r, serial, formats).sound(),
        ({
            let e = encoder_of(r, serial, x)->0;
            encoder_of(unfed_all(r, serial, formats), serial, x) == Some(
                EncoderView {
                    feed: QueueView {
                        sending: e.feed.sending && !formats.contains(e.fmt),
                        ..e.feed
                    },
                    ..e
                },
            )
        }),
    decreases formats.len(),
{
    let e = encoder_of(r, serial, x)->0;
    if formats.len() > 0 {
        let rest = formats.drop_first();
        law_giving_up_reaches_one_format(r, serial, formats[0], serial, x);
        lemma_unfed_stays(r, serial, formats[0]);
        law_given_up_formats_are_fed_no_more(r.unfed(serial, formats[0]), serial, rest, x);
        assert(formats.contains(e.fmt) <==> formats[0] == e.fmt || rest.contains(e.fmt)) by {
            assert forall|k: int| 0 <= k < rest.len() implies #[trigger] rest[k] == formats[k
                + 1] by {}
            if formats.contains(e.fmt) && formats[0] != e.fmt {
                let k = choose|k: int| 0 <= k < formats.len() && formats[k] == e.fmt;
                assert(rest[k - 1] == e.fmt);
            }
            if rest.contains(e.fmt) {
                let k = choose|k: int| 0 <= k < rest.len() && rest[k] == e.fmt;
                assert(formats[k + 1] == e.fmt);
            }
        }
    }
}

/// Whether a pull is still to hand a chunk to an encoder.
pub open spec fn is_to_get(p: PullView, x: u64, chunk: Seq<u8>) -> bool {
    match p.phase {
        PhaseView::Sending(cargo) => cargo.chunk == chunk && names(cargo.targets, x),
        _ => false,
    }
}

/// Every encoder that is fed gets every chunk that its stream takes in, at the end
/// of its feed: at once, or, where it or one before it has no room, when the pull
/// has waited for that. Only an encoder that reads no more does not, and is fed no
/// more.
pub proof fn law_encoders_get_every_chunk(
    p: PullView,
    r: RegistryView,
    chunk: Seq<u8>,
    now: u64,
    x: u64,
)
    requires
        r.sound(),
        p.phase is Reading,
        encoder_of(r, p.serial, x) is Some,
        encoder_of(r, p.serial, x)->0.registered(),
    ensures
        ({
            let e = encoder_of(r, p.serial, x)->0;
            let (after, next, action) = p.step(r, PullEventView::Data(chunk), now);
            ||| {
                &&& has_room(e)
                &&& encoder_of(after, p.serial, x) == Some(with_chunk(e, chunk))
                &&& !is_to_get(next, x, chunk)
            }
            ||| {
                &&& e.feed.receiving
                &&& encoder_of(after, p.serial, x) == Some(e)
                &&& is_to_get(next, x, chunk)
            }
            ||| {
                &&& !e.feed.receiving
                &&& next.phase is Reading ==> encoder_of(after, p.serial, x) == Some(
                    EncoderView { feed: QueueView { sending: false, ..e.feed }, ..e },
                )
            }
        }),
{
    let e = encoder_of(r, p.serial, x)->0;
    let r2 = r.received(p.serial, chunk);
    lemma_received_stays(r, p.serial, chunk);
    lemma_stream_index(r.streams, p.serial);
    let i = stream_index(r.streams, p.serial)->0;
    let s = r.streams[i];
    lemma_put(r, i, s.received(chunk), p.serial);
    lemma_encoder_index(s.encoders, x);
    let cargo = CargoView {
        chunk,
        targets: r2.targets(p.serial),
        since: now,
        wedged: Seq::empty(),
    };
    lemma_stream_index(r2.streams, p.serial);
    let t = r2.streams[stream_index(r2.streams, p.serial)->0];
    assert(t.encoders == s.encoders);
    lemma_fed_apart(t.encoders);
    law_fed_encoders_are_the_targets(t, e.fmt, x);
    assert(t.encoders[encoder_index(t.encoders, x)->0] == e);
    let k = choose|k: int| 0 <= k < cargo.targets.len() && cargo.targets[k] == (e.fmt, x);
    assert(told_apart(cargo.targets));
    law_chunks_reach_their_targets(cargo, r2, p.serial, now, k);
    let (r3, rest) = cargo.deliver(r2, p.serial, now);
    if rest.targets.len() > 0 {
        lemma_pull_holds(r3, p.serial, true, x);
    } else {
        law_given_up_formats_are_fed_no_more(r3, p.serial, rest.wedged, x);
        lemma_pull_holds(unfed_all(r3, p.serial, rest.wedged), p.serial, false, x);
    }
}

/// That a stream is held by its puller or not does nothing to its encoders.
proof fn lemma_pull_holds(r: RegistryView, serial: u64, pulling: bool, x: u64)
    requires
        r.sound(),
        encoder_of(r, serial, x) is Some,
    ensures
        encoder_of(r.pull_holds(serial, pulling), serial, x) == encoder_of(r, serial, x),
{
    lemma_stream_index(r.streams, serial);
    let i = stream_index(r.streams, serial)->0;
    lemma_encoder_index(r.streams[i].encoders, x);
    lemma_put(r, i, StreamView { pulling, ..r.streams[i] }, serial);
}

/// A pull that waits for an encoder goes on where it stopped, as soon as it is told
/// that time has passed: the encoder gets the chunk that it was to get, is still to
/// get it, or is given up where it reads no more, or has made no room for twenty
/// seconds.
pub proof fn law_waiting_pulls_go_on(
    p: PullView,
    r: RegistryView,
    cargo: CargoView,
    now: u64,
    k: int,
)
    requires
        r.sound(),
        p.phase == PhaseView::Sending(cargo),
        told_apart(cargo.targets),
        0 <= k < cargo.targets.len(),
        encoder_of(r, p.serial, cargo.targets[k].1) is Some,
        encoder_of(r, p.serial, cargo.targets[k].1)->0.fmt == cargo.targets[k].0,
        !cargo.wedged.contains(cargo.targets[k].0),
    ensures
        ({
            let x = cargo.targets[k].1;
            let e = encoder_of(r, p.serial, x)->0;
            let (after, next, action) = p.step(r, PullEventView::Tick, now);
            ||| {
                &&& has_room(e)
                &&& encoder_of(after, p.serial, x) == Some(with_chunk(e, cargo.chunk))
                &&& !is_to_get(next, x, cargo.chunk)
            }
            ||| {
                &&& encoder_of(after, p.serial, x) == Some(e)
                &&& is_to_get(next, x, cargo.chunk)
                &&& k == 0 ==> e.feed.items.len() >= e.feed.limit && now - cargo.since < 20000
            }
            ||| {
                &&& !e.feed.receiving || k == 0 && e.feed.items.len() >= e.feed.limit && now
                    - cargo.since >= 20000
                &&& next.phase is Reading ==> encoder_of(after, p.serial, x) == Some(
                    EncoderView { feed: QueueView { sending: false, ..e.feed }, ..e },
                )
                &&& !is_to_get(next, x, cargo.chunk)
            }
        }),
{
    let x = cargo.targets[k].1;
    law_chunks_reach_their_targets(cargo, r, p.serial, now, k);
    let (r3, rest) = cargo.deliver(r, p.serial, now);
    if rest.targets.len() > 0 {
        lemma_pull_holds(r3, p.serial, true, x);
    } else {
        law_given_up_formats_are_fed_no_more(r3, p.serial, rest.wedged, x);
        lemma_pull_holds(unfed_all(r3, p.serial, rest.wedged), p.serial, false, x);
    }
}

} // verus!
