//! What holds of a listener from the moment it asks to listen.

use vstd::prelude::*;

use crate::encoder::{listening, time_left, told, EncoderView, JoinedView, OutletView};
use crate::format::{OutputFormat, TrackMode};
use crate::mp4::{PieceView, Scan};
use crate::queue::QueueView;
use crate::stream::{StartView, StreamView, WaitedView};

verus! {

/// Time runs down from the limit to nothing, by as much as has passed.
pub proof fn law_time_runs_down(limit: u64, began: u64, now: u64)
    ensures
        now >= began && now - began <= limit ==> time_left(limit, began, now) == limit - (now
            - began),
        now >= began && now - began > limit ==> time_left(limit, began, now) == 0,
        now < began ==> time_left(limit, began, now) == limit,
{
}

/// A request waits up to 45 seconds for its stream to start, and no longer than
/// until it has, or cannot.
pub proof fn law_waiting_for_the_start(s: StreamView, began: u64, now: u64)
    requires
        began <= now,
    ensures
        s.start is Ready ==> s.wait_ready(began, now) == WaitedView::Ready,
        s.start matches StartView::Failed(e) ==> s.wait_ready(began, now) == WaitedView::Fail(e),
        s.start is Pending && now - began < 45000 ==> s.wait_ready(began, now) == WaitedView::Wait(
            (45000 - (now - began)) as u64,
        ),
        s.start is Pending && now - began >= 45000 ==> s.wait_ready(began, now)
            == WaitedView::Fail("timed out waiting for the engine stream to start"@),
{
}

/// A request for MP4 waits up to 30 seconds for the first fragment. It is refused
/// where the output does not parse, whatever there was before that, or has ended
/// before there was a fragment.
pub proof fn law_waiting_for_the_first_fragment(
    e: EncoderView,
    peer: Seq<char>,
    began: u64,
    now: u64,
)
    requires
        began <= now,
        e.fmt == OutputFormat::Fmp4,
        e.joining > 0,
    ensures
        ({
            let (after, joined) = e.subscribe(peer, began, now);
            let held = EncoderView { joining: (e.joining - 1) as u64, ..e };
            &&& e.unjoinable ==> joined == JoinedView::Fail("stream is not valid fragmented mp4"@)
                && after == held
            &&& !e.unjoinable && e.init is Some ==> joined == JoinedView::Done(e.next_id)
            &&& !e.unjoinable && e.init is None && e.finished ==> joined == JoinedView::Fail(
                "encoder stopped before producing a fragment"@,
            ) && after == held
            &&& !e.unjoinable && e.init is None && !e.finished && now - began < 30000 ==> joined
                == JoinedView::Wait((30000 - (now - began)) as u64) && after == e
            &&& !e.unjoinable && e.init is None && !e.finished && now - began >= 30000 ==> joined
                == JoinedView::Fail(
                "no fragment within 30s; the source keyframe interval may exceed it"@,
            ) && after == held
        }),
{
}

/// A request that becomes a listener is the last in the row, under an id that no
/// other has had, since now and for its peer, with nothing sent yet and room for 64
/// chunks. Audio is joined at once. A listener of MP4 has the init segment before
/// it, and is held until a fragment begins.
pub proof fn law_joining(e: EncoderView, peer: Seq<char>, began: u64, now: u64)
    requires
        e.joining > 0,
        e.next_id < u64::MAX,
    ensures
        ({
            let (after, joined) = e.subscribe(peer, began, now);
            &&& e.fmt != OutputFormat::Fmp4 ==> joined is Done
            &&& joined matches JoinedView::Done(id) ==> {
                let o = after.outlets[e.outlets.len() as int];
                &&& id == e.next_id
                &&& after.next_id == e.next_id + 1
                &&& after.joining == e.joining - 1
                &&& after.outlets == e.outlets.push(o)
                &&& o.id == id && o.peer == peer && o.joined == now
                &&& o.bytes_sent == 0 && o.leftover.len() == 0
                &&& o.queue.limit == 64 && o.queue.sending && o.queue.receiving
                &&& e.fmt != OutputFormat::Fmp4 ==> o.queue.items.len() == 0
                    && !o.awaiting_fragment
                &&& e.fmt == OutputFormat::Fmp4 ==> o.awaiting_fragment && e.init is Some
                    && o.queue.items == seq![e.init->0]
                &&& after == (EncoderView {
                    outlets: after.outlets,
                    next_id: after.next_id,
                    joining: after.joining,
                    ..e
                })
            }
        }),
{
}

/// What happens to a listener when something goes out. One that waits for a
/// fragment gets nothing until one begins; one that has room gets it behind the
/// rest, and it is counted; one that has none is evicted, and nobody waits for it.
pub proof fn law_offers(o: OutletView, piece: PieceView)
    requires
        o.listening(),
        o.queue.receiving,
    ensures
        ({
            let after = o.offer(piece);
            let n = piece.content().len();
            &&& o.awaiting_fragment && !piece.starts() ==> after == o
            &&& (!o.awaiting_fragment || piece.starts()) && o.queue.items.len() < o.queue.limit ==> {
                &&& after.queue.items == o.queue.items.push(piece.content())
                &&& after.listening()
                &&& !after.awaiting_fragment
                &&& o.bytes_sent + n <= u64::MAX ==> after.bytes_sent == o.bytes_sent + n
            }
            &&& (!o.awaiting_fragment || piece.starts()) && o.queue.items.len() >= o.queue.limit
                ==> {
                &&& after.queue.items == o.queue.items
                &&& !after.listening()
                &&& after.bytes_sent == o.bytes_sent
            }
            &&& after.id == o.id && after.peer == o.peer && after.joined == o.joined
            &&& after.leftover == o.leftover
        }),
{
}

/// A listener that was evicted, or for whom nobody takes any more, gets nothing.
pub proof fn law_nothing_goes_to_the_evicted(o: OutletView, piece: PieceView)
    requires
        !o.listening() || !o.queue.receiving,
    ensures
        o.offer(piece).queue.items == o.queue.items,
        o.offer(piece).bytes_sent == o.bytes_sent,
        !o.listening() ==> o.offer(piece) == o,
{
}

/// What is told of a listener is its peer, for how many whole seconds it has
/// listened, and how many bytes it was sent.
pub proof fn law_listeners_are_told_of(o: OutletView, now: u64)
    ensures
        ({
            let (peer, seconds, sent) = told(o, now);
            &&& peer == o.peer
            &&& sent == o.bytes_sent
            &&& o.joined <= now ==> seconds * 1000 <= now - o.joined < seconds * 1000 + 1000
            &&& now < o.joined ==> seconds == 0
        }),
{
}

/// Of the outlets just those count as listeners that were not evicted, each once
/// and in order: one more outlet is one more listener at the end, or none.
pub proof fn law_listeners_are_those_not_evicted(outlets: Seq<OutletView>, o: OutletView, i: int)
    requires
        0 <= i < outlets.len(),
    ensures
        listening(Seq::empty()).len() == 0,
        listening(outlets.push(o)) == if o.queue.sending {
            listening(outlets).push(o)
        } else {
            listening(outlets)
        },
        outlets[i].queue.sending ==> listening(outlets).contains(outlets[i]),
        forall|k: int|
            0 <= k < listening(outlets).len() ==> (#[trigger] listening(outlets)[k]).queue.sending
                && outlets.contains(listening(outlets)[k]),
{
    assert(outlets.push(o).drop_last() == outlets);
    lemma_listening(outlets);
    lemma_listening_has(outlets, i);
}

proof fn lemma_listening(outlets: Seq<OutletView>)
    ensures
        listening(outlets).len() <= outlets.len(),
        forall|k: int|
            0 <= k < listening(outlets).len() ==> (#[trigger] listening(outlets)[k]).listening()
                && outlets.contains(listening(outlets)[k]),
    decreases outlets.len(),
{
    if outlets.len() > 0 {
        let rest = outlets.drop_last();
        lemma_listening(rest);
        assert forall|k: int| 0 <= k < listening(outlets).len() implies (
        #[trigger] listening(outlets)[k]).listening() && outlets.contains(
            listening(outlets)[k],
        ) by {
            if k < listening(rest).len() {
                let o = listening(rest)[k];
                assert(rest.contains(o));
                let j = choose|j: int| 0 <= j < rest.len() && rest[j] == o;
                assert(outlets[j] == o);
            } else {
                assert(outlets[outlets.len() - 1] == outlets.last());
            }
        }
    }
}

proof fn lemma_listening_has(outlets: Seq<OutletView>, i: int)
    requires
        0 <= i < outlets.len(),
    ensures
        outlets[i].listening() ==> listening(outlets).contains(outlets[i]),
    decreases outlets.len(),
{
    if outlets[i].listening() {
        let rest = outlets.drop_last();
        if i < outlets.len() - 1 {
            lemma_listening_has(rest, i);
            let k = choose|k: int| 0 <= k < listening(rest).len() && listening(rest)[k] == rest[i];
            assert(listening(outlets)[k] == outlets[i]);
        } else {
            assert(listening(outlets)[listening(outlets).len() - 1] == outlets[i]);
        }
    }
}

/// An encoder that was just started is of the format that it was started for, has
/// written nothing and has no listener yet, is held by the request that started
/// it, and is fed from now on, with room for 64 chunks.
pub proof fn law_new_encoders(
    id: u64,
    content_id: Seq<char>,
    fmt: OutputFormat,
    video: TrackMode,
    audio: TrackMode,
    now: u64,
)
    ensures
        ({
            let e = EncoderView::fresh(id, content_id, fmt, video, audio, now);
            &&& e.id == id && e.content_id == content_id && e.fmt == fmt
            &&& e.video == video && e.audio == audio && e.started == now
            &&& e.bytes_out == 0 && e.outlets.len() == 0 && e.joining == 1
            &&& !e.finished && !e.unjoinable && e.init is None
            &&& e.feed == (QueueView {
                items: Seq::empty(),
                limit: 64,
                sending: true,
                receiving: true,
            })
            &&& e.scan == if fmt == OutputFormat::Fmp4 {
                Some(Scan::fresh())
            } else {
                None
            }
        }),
{
}

} // verus!
