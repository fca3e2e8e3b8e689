//! The rolling window of raw transport stream that every new encoder is primed
//! with.

use std::collections::VecDeque;

use vstd::prelude::*;

verus! {

/// Rolling window of raw TS replayed into each newly started encoder.
///
/// An encoder otherwise attaches at an arbitrary mid-GOP point, where ffmpeg
/// has to wait for the next keyframe to recover H.264 SPS/PPS. Replaying a
/// window wider than one GOP puts a keyframe in ffmpeg's first bytes instead, so
/// startup stops depending on where we happened to join.
///
/// Sized by bytes rather than time because we cannot know the bitrate up front:
/// 4MB is ~6s at 5 Mbps and ~2s even at 16 Mbps, comfortably over a broadcast
/// GOP either way. Deliberately not parsed for TS random-access flags: ffmpeg
/// sets those far more often than it emits keyframes, so they would not mean
/// what the name suggests.
///
/// The cost is freshness: a viewer starts up to one window behind live.
pub const REPLAY_BYTES: usize = 4194304;

/// The length of a transport stream packet.
pub const TS_PACKET: usize = 188;

/// The byte that a transport stream packet begins with.
pub const SYNC: u8 = 0x47;

/// The last bytes of `s`, up to `n` of them.
pub open spec fn last_bytes(s: Seq<u8>, n: nat) -> Seq<u8> {
    if s.len() > n {
        s.skip(s.len() - n)
    } else {
        s
    }
}

/// Whether a packet may begin at `i`. A sync byte is only convincing if the next
/// packet has one too.
pub open spec fn packet_at(s: Seq<u8>, i: int) -> bool {
    s[i] == SYNC && (i + TS_PACKET < s.len() ==> s[i + TS_PACKET] == SYNC)
}

/// The first place from `from` on, within the length of a packet, at which a
/// packet may begin.
pub open spec fn packet_start(s: Seq<u8>, from: int) -> Option<int>
    decreases TS_PACKET - from,
{
    if from >= s.len() || from >= TS_PACKET {
        None
    } else if packet_at(s, from) {
        Some(from)
    } else {
        packet_start(s, from + 1)
    }
}

/// What is replayed of `s`: all of it from the first packet on.
pub open spec fn window_of(s: Seq<u8>) -> Seq<u8> {
    match packet_start(s, 0) {
        Some(i) => s.skip(i),
        None => s,
    }
}

/// The trailing raw TS.
#[derive(Debug)]
pub struct Replay {
    held: VecDeque<u8>,
}

impl View for Replay {
    type V = Seq<u8>;

    closed spec fn view(&self) -> Seq<u8> {
        self.held@
    }
}

impl Replay {
    /// The window never exceeds its size.
    pub open spec fn wf(&self) -> bool {
        self@.len() <= REPLAY_BYTES
    }

    pub fn new() -> (r: Self)
        ensures
            r.wf(),
            r@ == Seq::<u8>::empty(),
    {
        Replay { held: VecDeque::new() }
    }

    /// Takes in a chunk, and lets go of what is too old.
    pub fn remember(&mut self, chunk: &[u8])
        requires
            old(self).wf(),
        ensures
            final(self).wf(),
            final(self)@ == last_bytes(old(self)@ + chunk@, REPLAY_BYTES as nat),
    {
        let ghost all = self@ + chunk@;
        let ghost start = self@;
        let mut i: usize = 0;
        assert(start + chunk@.take(0) == start);
        while i < chunk.len()
            invariant
                i <= chunk.len(),
                self.wf(),
                self@ == last_bytes(start + chunk@.take(i as int), REPLAY_BYTES as nat),
            decreases chunk.len() - i,
        {
            let ghost before = self@;
            let ghost sofar = start + chunk@.take(i as int);
            self.held.push_back(chunk[i]);
            if self.held.len() > REPLAY_BYTES {
                let dropped = self.held.pop_front();
            }
            i += 1;
            proof {
                let now = start + chunk@.take(i as int);
                assert(chunk@.take(i as int) == chunk@.take(i - 1).push(chunk@[i - 1]));
                assert(now == sofar.push(chunk@[i - 1]));
                assert(self@ == last_bytes(now, REPLAY_BYTES as nat));
            }
        }
        assert(chunk@.take(chunk@.len() as int) == chunk@);
    }

    /// The replay window, trimmed to start on a TS packet boundary.
    ///
    /// Handing ffmpeg a partial packet only costs it a resync, but starting
    /// clean keeps the "could not find codec parameters" failure mode off the
    /// table for the sake of a few bytes.
    pub fn window(&self) -> (r: Vec<u8>)
        requires
            self.wf(),
        ensures
            r@ == window_of(self@),
    {
        let len: usize = self.held.len();
        let mut from: usize = 0;
        let mut found: bool = false;
        while !found && from < len && from < TS_PACKET
            invariant
                len == self@.len(),
                len <= REPLAY_BYTES,
                from <= len,
                from <= TS_PACKET,
                found ==> from < len && packet_start(self@, 0) == Some(from as int),
                !found ==> packet_start(self@, 0) == packet_start(self@, from as int),
            decreases
                    TS_PACKET - from,
                    if found {
                        0int
                    } else {
                        1int
                    },
        {
            if self.held[from] == SYNC && (from + TS_PACKET >= len || self.held[from + TS_PACKET]
                == SYNC) {
                found = true;
            } else {
                from += 1;
            }
        }
        let begin: usize = if found {
            from
        } else {
            0
        };
        let mut out: Vec<u8> = Vec::new();
        let mut i: usize = begin;
        assert(self@.subrange(begin as int, begin as int) == Seq::<u8>::empty());
        while i < len
            invariant
                len == self@.len(),
                begin <= i <= len,
                out@ == self@.subrange(begin as int, i as int),
            decreases len - i,
        {
            out.push(self.held[i]);
            assert(self@.subrange(begin as int, i + 1) == self@.subrange(
                begin as int,
                i as int,
            ).push(self@[i as int]));
            i += 1;
        }
        assert(self@.subrange(begin as int, len as int) == self@.skip(begin as int));
        assert(self@.skip(0) == self@);
        out
    }
}

/// The window holds the last bytes of all that was taken in, whatever the chunks
/// they came in.
pub proof fn law_window_keeps_the_latest(before: Seq<u8>, chunk: Seq<u8>)
    ensures
        last_bytes(last_bytes(before, REPLAY_BYTES as nat) + chunk, REPLAY_BYTES as nat)
            == last_bytes(before + chunk, REPLAY_BYTES as nat),
{
    let n = REPLAY_BYTES as nat;
    let kept = last_bytes(before, n);
    assert(last_bytes(kept + chunk, n) == last_bytes(before + chunk, n));
}

/// What is replayed ends where the stream is now, and leaves out less than one
/// packet of what there is to replay.
pub proof fn law_window_is_a_suffix(s: Seq<u8>)
    ensures
        window_of(s).is_suffix_of(s),
        s.len() - window_of(s).len() < TS_PACKET,
{
    lemma_packet_start(s, 0);
    assert(s.skip(0) == s);
}

/// Wherever packets begin, as long as one does within the length of a packet,
/// what is replayed begins with a sync byte and has the next one in its place.
pub proof fn law_window_starts_on_a_packet(s: Seq<u8>, phase: int)
    requires
        0 <= phase < TS_PACKET,
        phase < s.len(),
        packet_at(s, phase),
    ensures
        window_of(s).len() > 0,
        packet_at(window_of(s), 0),
{
    lemma_packet_start(s, 0);
    lemma_packet_found(s, 0, phase);
}

proof fn lemma_packet_start(s: Seq<u8>, from: int)
    requires
        from >= 0,
    ensures
        packet_start(s, from) matches Some(i) ==> from <= i < s.len() && i < TS_PACKET && packet_at(
            s,
            i,
        ),
    decreases TS_PACKET - from,
{
    if from < s.len() && from < TS_PACKET && !packet_at(s, from) {
        lemma_packet_start(s, from + 1);
    }
}

proof fn lemma_packet_found(s: Seq<u8>, from: int, at: int)
    requires
        0 <= from <= at < TS_PACKET,
        at < s.len(),
        packet_at(s, at),
    ensures
        packet_start(s, from) is Some,
    decreases at - from,
{
    if from < at {
        lemma_packet_found(s, from + 1, at);
    }
}

} // verus!
