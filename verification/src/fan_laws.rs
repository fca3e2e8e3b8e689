//! What a listener gets of what an encoder writes.

use vstd::prelude::*;

use crate::encoder::{offered, offered_all, DeliveryView, EncoderView, OutletView};
use crate::format::OutputFormat;
use crate::mp4::{coalesce, head, may_open, moof_at, Head, PieceView, Scan, MOOF};
use crate::scan_laws::{
    feed, law_any_chunks, law_fragments, law_init_segment, lemma_marks_concat, lemma_starts_filled,
    marks, moof_before, piece_marks, stream, Mark,
};

verus! {

// ---------------------------------------------------------------------------
// One listener
// ---------------------------------------------------------------------------

/// Chunks, one behind the other.
pub open spec fn end_to_end(chunks: Seq<Seq<u8>>) -> Seq<u8>
    decreases chunks.len(),
{
    if chunks.len() == 0 {
        Seq::empty()
    } else {
        chunks[0] + end_to_end(chunks.drop_first())
    }
}

/// What waits for a listener, first to last.
pub open spec fn backlog(o: OutletView) -> Seq<u8> {
    o.leftover + end_to_end(o.queue.items)
}

/// An outlet after the pieces were offered to it, in order.
pub open spec fn offered_each(o: OutletView, pieces: Seq<PieceView>) -> OutletView
    decreases pieces.len(),
{
    if pieces.len() == 0 {
        o
    } else {
        offered_each(o.offer(pieces[0]), pieces.drop_first())
    }
}

/// What a listener is due of the pieces: all of it, or, while it waits for a
/// fragment, what comes from the first piece on that starts one.
pub open spec fn due(awaiting: bool, pieces: Seq<PieceView>) -> Seq<u8>
    decreases pieces.len(),
{
    if pieces.len() == 0 {
        Seq::empty()
    } else if awaiting && !pieces[0].starts() {
        due(true, pieces.drop_first())
    } else {
        pieces[0].content() + due(false, pieces.drop_first())
    }
}

/// A listener reads what waits for it from the front, and nothing is lost or
/// read twice. It waits only where nothing is left to read, and is at its end
/// only where, besides, nothing more can come.
pub proof fn law_reads_come_in_order(o: OutletView, cap: nat)
    ensures
        match o.read(cap) {
            (after, DeliveryView::Data(d)) => backlog(o) == d + backlog(after) && d.len() <= cap,
            (after, DeliveryView::Wait) => after == o && backlog(o).len() == 0 && o.listening(),
            (after, DeliveryView::End) => after == o && backlog(o).len() == 0 && !o.listening(),
        },
{
    let mid = if o.leftover.len() > 0 || o.queue.items.len() == 0 {
        o
    } else {
        OutletView { queue: o.queue.receive().0, leftover: o.queue.items[0], ..o }
    };
    assert(backlog(mid) == backlog(o));
    if let (after, DeliveryView::Data(d)) = o.read(cap) {
        assert(mid.leftover == d + after.leftover);
        assert(backlog(o) == d + backlog(after));
    }
}

proof fn lemma_end_to_end_push(chunks: Seq<Seq<u8>>, chunk: Seq<u8>)
    ensures
        end_to_end(chunks.push(chunk)) == end_to_end(chunks) + chunk,
    decreases chunks.len(),
{
    if chunks.len() == 0 {
        reveal_with_fuel(end_to_end, 2);
        assert(chunks.push(chunk).drop_first() == Seq::<Seq<u8>>::empty());
        assert(chunk + Seq::<u8>::empty() == chunk);
        assert(Seq::<u8>::empty() + chunk == chunk);
    } else {
        lemma_end_to_end_push(chunks.drop_first(), chunk);
        assert(chunks.push(chunk).drop_first() == chunks.drop_first().push(chunk));
        assert(chunks[0] + (end_to_end(chunks.drop_first()) + chunk) == (chunks[0] + end_to_end(
            chunks.drop_first(),
        )) + chunk);
    }
}

/// A listener that was evicted, or has left, gets nothing more.
proof fn lemma_evicted(o: OutletView, pieces: Seq<PieceView>)
    requires
        !o.listening(),
    ensures
        offered_each(o, pieces) == o,
    decreases pieces.len(),
{
    if pieces.len() > 0 {
        lemma_evicted(o, pieces.drop_first());
    }
}

/// While it keeps up, a listener gets everything it is due, in order and without
/// a gap. One that was evicted for falling behind has what it was due up to then.
pub proof fn law_listener_gets_what_it_is_due(o: OutletView, pieces: Seq<PieceView>)
    requires
        o.listening(),
    ensures
        offered_each(o, pieces).listening() ==> backlog(offered_each(o, pieces)) == backlog(o)
            + due(o.awaiting_fragment, pieces),
        backlog(offered_each(o, pieces)).is_prefix_of(
            backlog(o) + due(o.awaiting_fragment, pieces),
        ),
    decreases pieces.len(),
{
    let all = due(o.awaiting_fragment, pieces);
    if pieces.len() == 0 {
        assert(backlog(o) + all == backlog(o));
    } else {
        let p = pieces[0];
        let rest = pieces.drop_first();
        let next = o.offer(p);
        if o.awaiting_fragment && !p.starts() {
            law_listener_gets_what_it_is_due(o, rest);
        } else if next.listening() {
            law_listener_gets_what_it_is_due(next, rest);
            lemma_end_to_end_push(o.queue.items, p.content());
            assert(backlog(next) == backlog(o) + p.content());
            assert(backlog(next) + due(false, rest) == backlog(o) + all);
        } else {
            lemma_evicted(next, rest);
            assert(backlog(next) == backlog(o));
            assert(backlog(o) == (backlog(o) + all).take(backlog(o).len() as int));
        }
    }
}

/// A listener is evicted only where its queue is full when something is due to
/// it, and then it is, so that nobody else waits for it.
pub proof fn law_eviction(o: OutletView, piece: PieceView)
    requires
        o.listening(),
        o.queue.sound(),
        o.queue.receiving,
    ensures
        o.offer(piece).listening() <==> (o.queue.items.len() < o.queue.limit || (
        o.awaiting_fragment && !piece.starts())),
{
}

/// What goes out to one listener does not depend on any other.
pub proof fn law_listeners_are_independent(
    outlets: Seq<OutletView>,
    pieces: Seq<PieceView>,
    i: int,
)
    requires
        0 <= i < outlets.len(),
    ensures
        offered_all(outlets, pieces).len() == outlets.len(),
        offered_all(outlets, pieces)[i] == offered_each(outlets[i], pieces),
    decreases pieces.len(),
{
    if pieces.len() > 0 {
        law_listeners_are_independent(offered(outlets, pieces[0]), pieces.drop_first(), i);
    }
}

// ---------------------------------------------------------------------------
// Pieces and marks
// ---------------------------------------------------------------------------

/// Whether no piece at which a fragment starts is empty.
spec fn starts_full(pieces: Seq<PieceView>) -> bool {
    forall|i: int|
        0 <= i < pieces.len() && (#[trigger] pieces[i]).starts() ==> pieces[i].content().len() > 0
}

/// What is due of marked bytes.
spec fn due_marks(awaiting: bool, m: Seq<Mark>) -> Seq<u8>
    decreases m.len(),
{
    if m.len() == 0 {
        Seq::empty()
    } else if awaiting && !m[0].starts {
        due_marks(true, m.drop_first())
    } else {
        seq![m[0].byte] + due_marks(false, m.drop_first())
    }
}

proof fn lemma_due_all(m: Seq<Mark>)
    ensures
        due_marks(false, m) == Seq::new(m.len(), |i: int| m[i].byte),
    decreases m.len(),
{
    let whole = Seq::new(m.len(), |i: int| m[i].byte);
    if m.len() > 0 {
        lemma_due_all(m.drop_first());
        assert(seq![m[0].byte] + Seq::new(m.drop_first().len(), |i: int| m.drop_first()[i].byte)
            == whole);
    } else {
        assert(whole == Seq::<u8>::empty());
    }
}

proof fn lemma_due_none(m: Seq<Mark>, rest: Seq<Mark>)
    requires
        forall|i: int| 0 <= i < m.len() ==> !(#[trigger] m[i]).starts,
    ensures
        due_marks(true, m + rest) == due_marks(true, rest),
    decreases m.len(),
{
    if m.len() == 0 {
        assert(m + rest == rest);
    } else {
        assert((m + rest).drop_first() == m.drop_first() + rest);
        assert(!m[0].starts);
        assert forall|i: int| 0 <= i < m.drop_first().len() implies !(
        #[trigger] m.drop_first()[i]).starts by {
            assert(m.drop_first()[i] == m[i + 1]);
        }
        lemma_due_none(m.drop_first(), rest);
    }
}

/// What is due of pieces is what is due of their bytes, one by one.
proof fn lemma_due(awaiting: bool, pieces: Seq<PieceView>)
    requires
        starts_full(pieces),
    ensures
        due(awaiting, pieces) == due_marks(awaiting, marks(pieces)),
    decreases pieces.len(),
{
    if pieces.len() > 0 {
        let p = pieces[0];
        let rest = pieces.drop_first();
        let first = seq![p];
        assert(pieces == first + rest);
        lemma_marks_concat(first, rest);
        assert(first.drop_last() == Seq::<PieceView>::empty());
        assert(marks(first) == piece_marks(p)) by {
            reveal_with_fuel(marks, 2);
            assert(Seq::<Mark>::empty() + piece_marks(p) == piece_marks(p));
        }
        let pm = piece_marks(p);
        let rm = marks(rest);
        assert(marks(pieces) == pm + rm);
        assert forall|i: int|
            0 <= i < rest.len() && (#[trigger] rest[i]).starts() implies rest[i].content().len()
            > 0 by {
            assert(rest[i] == pieces[i + 1]);
        }
        if awaiting && !p.starts() {
            lemma_due(true, rest);
            lemma_due_none(pm, rm);
        } else {
            lemma_due(false, rest);
            lemma_due_all(rm);
            lemma_due_all(pm + rm);
            let bytes = Seq::new((pm + rm).len(), |i: int| (pm + rm)[i].byte);
            assert(p.content() + Seq::new(rm.len(), |i: int| rm[i].byte) == bytes);
            if awaiting {
                assert(p.content().len() > 0);
                assert((pm + rm)[0].starts);
                assert(due_marks(true, pm + rm) == due_marks(false, pm + rm));
            }
        }
    }
}

// ---------------------------------------------------------------------------
// A listener on a whole stream
// ---------------------------------------------------------------------------

/// An encoder after ffmpeg wrote the chunks, one after the other.
pub open spec fn written(e: EncoderView, chunks: Seq<Seq<u8>>) -> EncoderView
    decreases chunks.len(),
{
    if chunks.len() == 0 {
        e
    } else {
        written(e, chunks.drop_last()).wrote(chunks.last())
    }
}

/// Whether an fMP4 encoder is in the state that the chunks leave it in that
/// ffmpeg has written so far, its listeners aside.
pub open spec fn follows(e: EncoderView, chunks: Seq<Seq<u8>>) -> bool {
    let scan = feed(Scan::fresh(), chunks).0;
    &&& e.fmt == OutputFormat::Fmp4
    &&& e.scan == Some(scan)
    &&& e.unjoinable == scan.failed
    &&& !scan.failed ==> e.init == scan.segment()
}

/// How many bytes have come out of the scanner.
pub open spec fn emitted(chunks: Seq<Seq<u8>>) -> int {
    marks(feed(Scan::fresh(), chunks).1).len() as int
}

/// The first place from `from` on, and before `to`, at which a `moof` begins.
pub open spec fn next_moof(s: Seq<u8>, from: int, to: int) -> Option<int>
    decreases to - from,
{
    if from >= to {
        None
    } else if moof_at(s, 0, from) {
        Some(from)
    } else {
        next_moof(s, from + 1, to)
    }
}

/// Once the init segment is complete it stays what it is.
proof fn lemma_init_stays(st: Scan, buf: Seq<u8>)
    requires
        !st.in_init,
    ensures
        !st.scan(buf).0.failed ==> st.scan(buf).0.init == st.init && !st.scan(buf).0.in_init,
        st.failed ==> st.scan(buf).0.failed,
    decreases buf.len(),
{
    if st.failed || buf.len() == 0 {
    } else if st.body_left > 0 {
        let n: int = if st.body_left <= buf.len() {
            st.body_left as int
        } else {
            buf.len() as int
        };
        let next = Scan { body_left: (st.body_left - n) as nat, ..st.past(buf.take(n)) };
        lemma_init_stays(next, buf.skip(n));
    } else {
        match head(buf) {
            Head::Opens { len, total, kind } => {
                let seen = Scan { started: true, ..st };
                if st.started || may_open(kind) {
                    let at = Scan { in_init: st.in_init && kind != MOOF, ..seen };
                    let next = Scan { body_left: (total - len) as nat, ..at.past(buf.take(len)) };
                    lemma_init_stays(next, buf.skip(len));
                }
            },
            _ => {},
        }
    }
}

/// A chunk that ffmpeg writes is a chunk more to follow.
proof fn lemma_follows_step(e: EncoderView, chunks: Seq<Seq<u8>>, chunk: Seq<u8>)
    requires
        follows(e, chunks),
    ensures
        follows(e.wrote(chunk), chunks.push(chunk)),
{
    let st = feed(Scan::fresh(), chunks).0;
    let end = st.push(chunk).0;
    law_any_chunks(chunks);
    assert(chunks.push(chunk).drop_last() == chunks);
    assert(feed(Scan::fresh(), chunks.push(chunk)).0 == end);
    let here = Scan { header: Seq::empty(), ..st };
    if st.failed {
        assert(here.scan(st.header + chunk).0.failed);
    } else if !st.in_init {
        lemma_init_stays(here, st.header + chunk);
    }
}

/// An encoder follows what its ffmpeg writes, from the start on, whoever listens
/// in between.
pub proof fn law_encoder_follows_its_output(
    e: EncoderView,
    before: Seq<Seq<u8>>,
    after: Seq<Seq<u8>>,
)
    requires
        follows(e, before),
    ensures
        follows(written(e, after), before + after),
    decreases after.len(),
{
    if after.len() == 0 {
        assert(before + after == before);
    } else {
        law_encoder_follows_its_output(e, before, after.drop_last());
        lemma_follows_step(
            written(e, after.drop_last()),
            before + after.drop_last(),
            after.last(),
        );
        assert((before + after.drop_last()).push(after.last()) == before + after);
    }
}

proof fn lemma_feed_concat(st: Scan, a: Seq<Seq<u8>>, b: Seq<Seq<u8>>)
    ensures
        feed(st, a + b).0 == feed(feed(st, a).0, b).0,
        feed(st, a + b).1 == feed(st, a).1 + feed(feed(st, a).0, b).1,
    decreases b.len(),
{
    let first = feed(st, a);
    if b.len() == 0 {
        assert(a + b == a);
        assert(first.1 + Seq::<PieceView>::empty() == first.1);
    } else {
        lemma_feed_concat(st, a, b.drop_last());
        assert((a + b).drop_last() == a + b.drop_last());
        assert((a + b).last() == b.last());
        let mid = feed(first.0, b.drop_last());
        let more = coalesce(mid.0.push(b.last()).1);
        assert(first.1 + (mid.1 + more) == (first.1 + mid.1) + more);
    }
}

proof fn lemma_offered_each_concat(o: OutletView, a: Seq<PieceView>, b: Seq<PieceView>)
    ensures
        offered_each(o, a + b) == offered_each(offered_each(o, a), b),
    decreases a.len(),
{
    if a.len() == 0 {
        assert(a + b == b);
    } else {
        assert((a + b).drop_first() == a.drop_first() + b);
        lemma_offered_each_concat(o.offer(a[0]), a.drop_first(), b);
    }
}

/// The pieces of everything that ffmpeg writes go to each outlet.
proof fn lemma_written_outlet(e: EncoderView, chunks: Seq<Seq<u8>>, i: int)
    requires
        e.scan is Some,
        0 <= i < e.outlets.len(),
    ensures
        written(e, chunks).outlets.len() == e.outlets.len(),
        written(e, chunks).scan == Some(feed(e.scan->0, chunks).0),
        written(e, chunks).outlets[i] == offered_each(
            e.outlets[i],
            feed(e.scan->0, chunks).1,
        ),
    decreases chunks.len(),
{
    if chunks.len() > 0 {
        let before = chunks.drop_last();
        lemma_written_outlet(e, before, i);
        let mid = written(e, before);
        let st = feed(e.scan->0, before).0;
        let more = coalesce(st.push(chunks.last()).1);
        law_listeners_are_independent(mid.outlets, more, i);
        lemma_offered_each_concat(e.outlets[i], feed(e.scan->0, before).1, more);
    }
}

proof fn lemma_feed_starts_full(st: Scan, chunks: Seq<Seq<u8>>)
    ensures
        starts_full(feed(st, chunks).1),
    decreases chunks.len(),
{
    if chunks.len() > 0 {
        let (mid, pieces) = feed(st, chunks.drop_last());
        let more = coalesce(mid.push(chunks.last()).1);
        lemma_feed_starts_full(st, chunks.drop_last());
        lemma_starts_filled(mid, chunks.last());
        assert forall|i: int|
            0 <= i < (pieces + more).len() && (#[trigger] (pieces + more)[i]).starts() implies (
        pieces + more)[i].content().len() > 0 by {
            if i < pieces.len() {
                assert((pieces + more)[i] == pieces[i]);
            } else {
                assert((pieces + more)[i] == more[i - pieces.len()]);
            }
        }
    }
}

/// What is due of marked bytes to one that waits, where the marks say where a
/// `moof` begins.
proof fn lemma_due_from_moof(all: Seq<u8>, m: Seq<Mark>, from: int)
    requires
        0 <= from <= m.len() <= all.len(),
        forall|k: int| 0 <= k < m.len() ==> (#[trigger] m[k]).byte == all[k],
        forall|k: int| 0 <= k < m.len() ==> (#[trigger] m[k]).starts == moof_at(all, 0, k),
    ensures
        due_marks(true, m.skip(from)) == (match next_moof(all, from, m.len() as int) {
            Some(p) => all.subrange(p, m.len() as int),
            None => Seq::empty(),
        }),
    decreases m.len() - from,
{
    let rest = m.skip(from);
    if from < m.len() {
        assert(rest[0] == m[from]);
        assert(rest.drop_first() == m.skip(from + 1));
        if moof_at(all, 0, from) {
            lemma_due_all(rest);
            assert(due_marks(true, rest) == due_marks(false, rest));
            assert(Seq::new(rest.len(), |i: int| rest[i].byte) == all.subrange(
                from,
                m.len() as int,
            ));
        } else {
            lemma_due_from_moof(all, m, from + 1);
        }
    }
}

/// A late joiner gets the init segment, and then the stream from the next
/// fragment on: everything before the first `moof`, and what comes out from the
/// first `moof` on that begins after it has joined. That holds wherever in the
/// output it joins and however that is cut into chunks, as long as the output
/// parses and the listener keeps up.
pub proof fn law_late_joiner(
    e: EncoderView,
    before: Seq<Seq<u8>>,
    after: Seq<Seq<u8>>,
    peer: Seq<char>,
    began: u64,
    now: u64,
)
    requires
        follows(e, before),
        e.subscribe(peer, began, now).1 is Done,
        !feed(Scan::fresh(), before + after).0.failed,
    ensures
        ({
            let all = stream(before + after);
            let o = written(e.subscribe(peer, began, now).0, after).outlets[e.outlets.len() as int];
            &&& e.init matches Some(init)
            &&& init.len() > 0
            &&& init.len() <= all.len()
            &&& init == all.take(init.len() as int)
            &&& moof_at(all, 0, init.len() as int)
            &&& !moof_before(all, 0, init.len() as int)
            &&& o.listening() ==> backlog(o) == init + (match next_moof(
                all,
                emitted(before),
                emitted(before + after),
            ) {
                Some(p) => all.subrange(p, emitted(before + after)),
                None => Seq::empty(),
            })
        }),
{
    let fresh = Scan::fresh();
    let all = stream(before + after);
    let st = feed(fresh, before).0;
    let joined = e.subscribe(peer, began, now).0;
    let i = e.outlets.len() as int;
    assert(!st.failed) by {
        lemma_feed_concat(fresh, before, after);
        if st.failed {
            lemma_failed_stays(st, after);
        }
    }
    assert(e.await_init_segment(began, now) is Ready);
    let init = e.init->0;
    let opened = joined.outlets[i];
    assert(opened == e.opened(peer, now, Some(init)));

    law_encoder_follows_its_output(joined, before, after);
    lemma_written_init(joined, after);
    law_init_segment(before + after);

    let later = feed(st, after).1;
    lemma_written_outlet(joined, after, i);
    law_listener_gets_what_it_is_due(opened, later);
    lemma_feed_starts_full(st, after);
    lemma_due(true, later);

    let m = marks(feed(fresh, before + after).1);
    let early = marks(feed(fresh, before).1);
    lemma_feed_concat(fresh, before, after);
    lemma_marks_concat(feed(fresh, before).1, later);
    assert(m == early + marks(later));
    assert(m.skip(early.len() as int) == marks(later));
    law_fragments(before + after);
    lemma_due_from_moof(all, m, early.len() as int);

    assert(backlog(opened) == init) by {
        reveal_with_fuel(end_to_end, 2);
        assert(seq![init].drop_first() == Seq::<Seq<u8>>::empty());
        assert(init + Seq::<u8>::empty() == init);
        assert(Seq::<u8>::empty() + init == init);
    }
}

proof fn lemma_failed_stays(st: Scan, chunks: Seq<Seq<u8>>)
    requires
        st.failed,
    ensures
        feed(st, chunks).0.failed,
    decreases chunks.len(),
{
    if chunks.len() > 0 {
        lemma_failed_stays(st, chunks.drop_last());
    }
}

/// A cached init segment stays cached.
proof fn lemma_written_init(e: EncoderView, chunks: Seq<Seq<u8>>)
    requires
        e.init is Some,
        e.scan is Some,
    ensures
        written(e, chunks).init == e.init,
        written(e, chunks).scan is Some,
    decreases chunks.len(),
{
    if chunks.len() > 0 {
        lemma_written_init(e, chunks.drop_last());
    }
}

/// An audio listener gets everything that ffmpeg writes from the moment it
/// joins: ADTS and MP3 resynchronise on any byte offset.
pub proof fn law_audio_joiner(
    e: EncoderView,
    after: Seq<Seq<u8>>,
    peer: Seq<char>,
    began: u64,
    now: u64,
)
    requires
        e.fmt != OutputFormat::Fmp4,
        e.scan is None,
    ensures
        e.subscribe(peer, began, now).1 is Done,
        ({
            let o = written(e.subscribe(peer, began, now).0, after).outlets[e.outlets.len() as int];
            o.listening() ==> backlog(o) == stream(after)
        }),
    decreases after.len(),
{
    let joined = e.subscribe(peer, began, now).0;
    let i = e.outlets.len() as int;
    lemma_audio_written(joined, after, i);
    assert(backlog(joined.outlets[i]) == Seq::<u8>::empty());
    assert(Seq::<u8>::empty() + stream(after) == stream(after));
}

proof fn lemma_audio_written(e: EncoderView, chunks: Seq<Seq<u8>>, i: int)
    requires
        e.scan is None,
        0 <= i < e.outlets.len(),
        e.outlets[i].listening(),
        !e.outlets[i].awaiting_fragment,
    ensures
        written(e, chunks).scan is None,
        written(e, chunks).outlets.len() == e.outlets.len(),
        !written(e, chunks).outlets[i].awaiting_fragment,
        written(e, chunks).outlets[i].listening() ==> backlog(written(e, chunks).outlets[i])
            == backlog(e.outlets[i]) + stream(chunks),
    decreases chunks.len(),
{
    if chunks.len() == 0 {
        assert(backlog(e.outlets[i]) + Seq::<u8>::empty() == backlog(e.outlets[i]));
    } else {
        let before = chunks.drop_last();
        lemma_audio_written(e, before, i);
        let o = written(e, before).outlets[i];
        let data = chunks.last();
        lemma_end_to_end_push(o.queue.items, data);
        let next = o.offer(PieceView::Media { data, fragment_start: true });
        if next.listening() {
            assert(o.leftover + (end_to_end(o.queue.items) + data) == backlog(o) + data);
            assert((backlog(e.outlets[i]) + stream(before)) + data == backlog(e.outlets[i]) + (
            stream(before) + data));
        }
    }
}

/// An encoder that was just started follows what its ffmpeg has written, which
/// is nothing, and nothing that listeners and the engine stream do to it changes
/// what it follows.
pub proof fn law_only_output_is_followed(e: EncoderView, chunks: Seq<Seq<u8>>)
    ensures
        e.fmt == OutputFormat::Fmp4 && e == EncoderView::fresh(
            e.id,
            e.content_id,
            e.fmt,
            e.video,
            e.audio,
            e.started,
        ) ==> follows(e, Seq::empty()),
        follows(e, chunks) ==> {
            &&& follows(e.held(), chunks)
            &&& follows(e.let_go(), chunks)
            &&& follows(e.ended(), chunks)
            &&& follows(e.starved(), chunks)
            &&& follows(e.deregistered(), chunks)
            &&& follows(e.fetched().0, chunks)
            &&& forall|peer: Seq<char>, began: u64, now: u64|
                follows((#[trigger] e.subscribe(peer, began, now)).0, chunks)
            &&& forall|id: u64| follows(#[trigger] e.left(id), chunks)
            &&& forall|id: u64, cap: nat| follows((#[trigger] e.read(id, cap)).0, chunks)
            &&& forall|chunk: Seq<u8>| follows((#[trigger] e.fed(chunk)).0, chunks)
        },
{
}

} // verus!
