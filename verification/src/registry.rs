//! Two-tier fan-out.
//!
//! ```text
//!   engine  --1 pull per content id-->  EngineStream
//!                                          |  raw MPEG-TS
//!                    +---------------------+---------------------+
//!                    v                                           v
//!            Encoder (adts)   <-- 1 ffmpeg per format -->  Encoder (fmp4)
//!                    |                                           |
//!            +-------+-------+                           +-------+
//!            v               v                           v
//!        listener        listener                     listener
//! ```
//!
//! Lifetime is counted downward: a listener holds its encoder, and an encoder
//! its engine stream. So the last listener leaving an encoder tears down its
//! ffmpeg, and the last encoder leaving a content id closes the engine
//! connection. A request holds a stream, and then an encoder, while it is on its
//! way to becoming a listener. A stream is also held by its puller while that
//! hands out a chunk, and while the engine is asked for its statistics.
//!
//! The registry performs no I/O. Whoever owns the sockets and the processes
//! calls it when something has happened, and asks it what is still there.

use bytes::Bytes;
use serde_json::Value;
use vstd::prelude::*;

use crate::encoder::{Delivery, DeliveryView, Encoder, Joined, JoinedView, Subscription};
use crate::engine::{Session, SessionView};
use crate::format::{FragDurationMs, OutputFormat, TrackMode};
use crate::json::{json_of, Json};
use crate::octets::octets;
use crate::queue::{Received, ReceivedView, Sent, SentKind};
use crate::replay::window_of;
use crate::stream::{
    encoder_index, fed_index, Encoding, EncodingView, EngineStream, Probe, ProbeView, StreamView,
    Waited, WaitedView,
};
use crate::text::{same_text, text_of};

verus! {

/// Where to pull from, and how to fragment.
#[derive(Debug, Clone, PartialEq, Eq)]
pub struct Config {
    pub engine_host: String,
    pub frag_duration_ms: FragDurationMs,
}

/// Every engine pull there is.
#[derive(Debug)]
pub struct Registry {
    streams: Vec<EngineStream>,
    next_serial: u64,
    config: Config,
}

/// What a `Registry` holds.
#[verifier::ext_equal]
pub struct RegistryView {
    pub streams: Seq<StreamView>,
    /// The serial that the next stream gets.
    pub next_serial: u64,
    pub engine_host: Seq<char>,
    pub frag_ms: FragDurationMs,
}

/// The place of the stream with this serial.
pub open spec fn stream_index(streams: Seq<StreamView>, serial: u64) -> Option<int>
    decreases streams.len(),
{
    if streams.len() == 0 {
        None
    } else if streams.last().serial == serial {
        Some(streams.len() - 1)
    } else {
        stream_index(streams.drop_last(), serial)
    }
}

/// The place of the stream for this content id.
pub open spec fn content_index(streams: Seq<StreamView>, content_id: Seq<char>) -> Option<int>
    decreases streams.len(),
{
    if streams.len() == 0 {
        None
    } else if streams.last().content_id == content_id {
        Some(streams.len() - 1)
    } else {
        content_index(streams.drop_last(), content_id)
    }
}

pub proof fn lemma_stream_index(streams: Seq<StreamView>, serial: u64)
    ensures
        match stream_index(streams, serial) {
            Some(i) => 0 <= i < streams.len() && streams[i].serial == serial,
            None => forall|j: int|
                0 <= j < streams.len() ==> (#[trigger] streams[j]).serial != serial,
        },
    decreases streams.len(),
{
    if streams.len() > 0 && streams.last().serial != serial {
        let rest = streams.drop_last();
        lemma_stream_index(rest, serial);
        assert forall|j: int| 0 <= j < streams.len() - 1 implies streams[j] == rest[j] by {}
    }
}

pub proof fn lemma_content_index(streams: Seq<StreamView>, content_id: Seq<char>)
    ensures
        match content_index(streams, content_id) {
            Some(i) => 0 <= i < streams.len() && streams[i].content_id == content_id,
            None => forall|j: int|
                0 <= j < streams.len() ==> (#[trigger] streams[j]).content_id != content_id,
        },
    decreases streams.len(),
{
    if streams.len() > 0 && streams.last().content_id != content_id {
        let rest = streams.drop_last();
        lemma_content_index(rest, content_id);
        assert forall|j: int| 0 <= j < streams.len() - 1 implies streams[j] == rest[j] by {}
    }
}

impl RegistryView {
    /// What holds of every registry: its streams are sound, are held by somebody,
    /// and have serials of their own; and there is one at most for each content
    /// id.
    pub open spec fn sound(self) -> bool {
        &&& forall|i: int|
            0 <= i < self.streams.len() ==> {
                &&& (#[trigger] self.streams[i]).sound()
                &&& !self.streams[i].idle()
                &&& self.streams[i].serial < self.next_serial
            }
        &&& forall|i: int, j: int|
            0 <= i < j < self.streams.len() ==> (#[trigger] self.streams[i]).serial != (
            #[trigger] self.streams[j]).serial
        &&& forall|i: int, j: int|
            0 <= i < j < self.streams.len() ==> (#[trigger] self.streams[i]).content_id != (
            #[trigger] self.streams[j]).content_id
    }

    /// The registry with another state of its stream at `i`. A stream that
    /// nobody holds any more is gone.
    pub open spec fn put(self, i: int, s: StreamView) -> RegistryView {
        RegistryView {
            streams: if s.idle() {
                self.streams.remove(i)
            } else {
                self.streams.update(i, s)
            },
            ..self
        }
    }

    /// A request asks for the pull of a content id, and holds it from now on.
    /// Tells its serial, and whether it was opened for this request. There is no
    /// answer where a counter is at its end.
    pub open spec fn engine_stream(self, content_id: Seq<char>, now: u64) -> (
        RegistryView,
        Option<(u64, bool)>,
    ) {
        match content_index(self.streams, content_id) {
            Some(i) => if self.streams[i].holders < u64::MAX {
                (self.put(i, self.streams[i].held()), Some((self.streams[i].serial, false)))
            } else {
                (self, None)
            },
            None => if self.next_serial < u64::MAX {
                (
                    RegistryView {
                        streams: self.streams.push(
                            StreamView::fresh(self.next_serial, content_id, now),
                        ),
                        next_serial: (self.next_serial + 1) as u64,
                        ..self
                    },
                    Some((self.next_serial, true)),
                )
            } else {
                (self, None)
            },
        }
    }

    /// A request lets go of a stream.
    pub open spec fn released(self, serial: u64) -> RegistryView {
        match stream_index(self.streams, serial) {
            Some(i) => if self.streams[i].holders > 0 {
                self.put(i, self.streams[i].let_go())
            } else {
                self
            },
            None => self,
        }
    }

    /// What waiting for a stream since `began` has come to. There is no answer
    /// where there is no such stream.
    pub open spec fn wait_ready(self, serial: u64, began: u64, now: u64) -> Option<WaitedView> {
        match stream_index(self.streams, serial) {
            Some(i) => Some(self.streams[i].wait_ready(began, now)),
            None => None,
        }
    }

    /// A request asks a stream for an encoder. There is no answer where there is
    /// no such stream, or a counter of it is at its end.
    pub open spec fn get_or_start_encoder(self, serial: u64, fmt: OutputFormat) -> (
        RegistryView,
        Option<EncodingView>,
    ) {
        match stream_index(self.streams, serial) {
            Some(i) => if self.streams[i].roomy() {
                let (s, encoding) = self.streams[i].get_or_start_encoder(fmt, self.frag_ms);
                (self.put(i, s), Some(encoding))
            } else {
                (self, None)
            },
            None => (self, None),
        }
    }

    /// A request has started an encoder. Tells the encoder's id and what it is
    /// primed with. There is no answer where there is no such stream, or a
    /// counter of it is at its end.
    pub open spec fn start_encoder(
        self,
        serial: u64,
        fmt: OutputFormat,
        video: TrackMode,
        audio: TrackMode,
        now: u64,
    ) -> (RegistryView, Option<(u64, Seq<u8>)>) {
        match stream_index(self.streams, serial) {
            Some(i) => if self.streams[i].roomy() {
                (
                    self.put(i, self.streams[i].started(fmt, video, audio, now)),
                    Some((self.streams[i].next_encoder, window_of(self.streams[i].replay))),
                )
            } else {
                (self, None)
            },
            None => (self, None),
        }
    }

    /// A request that was to start an encoder is done with it, whether it could or
    /// not.
    pub open spec fn creation_ended(self, serial: u64) -> RegistryView {
        match stream_index(self.streams, serial) {
            Some(i) => self.put(i, StreamView { creating: false, ..self.streams[i] }),
            None => self,
        }
    }

    /// The puller of a stream holds it, or lets go of it.
    pub open spec fn pull_holds(self, serial: u64, pulling: bool) -> RegistryView {
        match stream_index(self.streams, serial) {
            Some(i) => self.put(i, StreamView { pulling, ..self.streams[i] }),
            None => self,
        }
    }

    /// Every stream is held, so that the engine can be asked for its statistics.
    pub open spec fn poll_begun(self) -> RegistryView {
        RegistryView {
            streams: Seq::new(
                self.streams.len(),
                |i: int| StreamView { polling: true, ..self.streams[i] },
            ),
            ..self
        }
    }

    /// The engine was asked for the statistics of a stream, or need not be.
    pub open spec fn poll_ended(self, serial: u64) -> RegistryView {
        match stream_index(self.streams, serial) {
            Some(i) => self.put(i, StreamView { polling: false, ..self.streams[i] }),
            None => self,
        }
    }

    /// The serials of all streams.
    pub open spec fn serials(self) -> Seq<u64> {
        Seq::new(self.streams.len(), |i: int| self.streams[i].serial)
    }

    /// Where the engine's statistics of a stream are to be had, if they are.
    pub open spec fn stat_url(self, serial: u64) -> Option<Seq<char>> {
        match stream_index(self.streams, serial) {
            Some(i) => self.streams[i].stat_url(),
            None => None,
        }
    }

    /// A request that holds an encoder asks to listen to it. There is no answer
    /// where it does not, or a counter is at its end.
    pub open spec fn join(self, serial: u64, id: u64, peer: Seq<char>, began: u64, now: u64) -> (
        RegistryView,
        Option<JoinedView>,
    ) {
        match stream_index(self.streams, serial) {
            Some(i) => if self.streams[i].roomy() {
                let (s, joined) = self.streams[i].subscribe(id, peer, began, now);
                (self.put(i, s), joined)
            } else {
                (self, None)
            },
            None => (self, None),
        }
    }

    /// A request lets go of an encoder.
    pub open spec fn encoder_released(self, serial: u64, id: u64) -> RegistryView {
        match stream_index(self.streams, serial) {
            Some(i) => self.put(i, self.streams[i].encoder_let_go(id)),
            None => self,
        }
    }

    /// A listener leaves an encoder.
    pub open spec fn left(self, serial: u64, id: u64, listener: u64) -> RegistryView {
        match stream_index(self.streams, serial) {
            Some(i) => self.put(i, self.streams[i].left(id, listener)),
            None => self,
        }
    }

    /// The registry after ffmpeg wrote `chunk`.
    pub open spec fn wrote(self, serial: u64, id: u64, chunk: Seq<u8>) -> RegistryView {
        match stream_index(self.streams, serial) {
            Some(i) => self.put(i, self.streams[i].wrote(id, chunk)),
            None => self,
        }
    }

    /// The registry after ffmpeg's output ended.
    pub open spec fn ended(self, serial: u64, id: u64) -> RegistryView {
        match stream_index(self.streams, serial) {
            Some(i) => self.put(i, self.streams[i].ended(id)),
            None => self,
        }
    }

    /// The registry when nobody takes raw TS for ffmpeg any more.
    pub open spec fn starved(self, serial: u64, id: u64) -> RegistryView {
        match stream_index(self.streams, serial) {
            Some(i) => self.put(i, self.streams[i].starved(id)),
            None => self,
        }
    }

    /// The registry when an encoder is fed no more.
    pub open spec fn unfed(self, serial: u64, fmt: OutputFormat) -> RegistryView {
        match stream_index(self.streams, serial) {
            Some(i) => self.put(i, self.streams[i].unfed(fmt)),
            None => self,
        }
    }

    /// The registry after a chunk came from the engine.
    pub open spec fn received(self, serial: u64, chunk: Seq<u8>) -> RegistryView {
        match stream_index(self.streams, serial) {
            Some(i) => self.put(i, self.streams[i].received(chunk)),
            None => self,
        }
    }

    /// The registry after a stream was told how its start went.
    pub open spec fn published(self, serial: u64, outcome: Result<(), Seq<char>>) -> RegistryView {
        match stream_index(self.streams, serial) {
            Some(i) => self.put(i, self.streams[i].published(outcome)),
            None => self,
        }
    }

    /// The registry once the engine serves a stream.
    pub open spec fn came_up(
        self,
        serial: u64,
        session: SessionView,
        probe: ProbeView,
    ) -> RegistryView {
        match stream_index(self.streams, serial) {
            Some(i) => self.put(i, self.streams[i].came_up(session, probe)),
            None => self,
        }
    }

    /// A listener reads.
    pub open spec fn read(self, serial: u64, id: u64, listener: u64, cap: nat) -> (
        RegistryView,
        DeliveryView,
    ) {
        match stream_index(self.streams, serial) {
            Some(i) => {
                let (s, r) = self.streams[i].read(id, listener, cap);
                (self.put(i, s), r)
            },
            None => (self, DeliveryView::End),
        }
    }

    /// A chunk from the engine is offered to an encoder.
    pub open spec fn fed(self, serial: u64, id: u64, chunk: Seq<u8>) -> (RegistryView, SentKind) {
        match stream_index(self.streams, serial) {
            Some(i) => {
                let (s, r) = self.streams[i].fed(id, chunk);
                (self.put(i, s), r)
            },
            None => (self, SentKind::Gone),
        }
    }

    /// The next chunk is taken for ffmpeg.
    pub open spec fn fetched(self, serial: u64, id: u64) -> (RegistryView, ReceivedView) {
        match stream_index(self.streams, serial) {
            Some(i) => {
                let (s, r) = self.streams[i].fetched(id);
                (self.put(i, s), r)
            },
            None => (self, ReceivedView::Closed),
        }
    }

    /// The registry after the engine's statistics of a session came.
    pub open spec fn measured(self, serial: u64, now: u64, stats: Json) -> RegistryView {
        match stream_index(self.streams, serial) {
            Some(i) => self.put(i, StreamView { stats: Some((now, stats)), ..self.streams[i] }),
            None => self,
        }
    }

    /// Whether there is a stream with this serial.
    pub open spec fn has_stream(self, serial: u64) -> bool {
        stream_index(self.streams, serial) is Some
    }

    /// Whether there is an encoder with this id on that stream.
    pub open spec fn has_encoder(self, serial: u64, id: u64) -> bool {
        match stream_index(self.streams, serial) {
            Some(i) => encoder_index(self.streams[i].encoders, id) is Some,
            None => false,
        }
    }

    /// The targets of what comes from the engine for a stream.
    pub open spec fn targets(self, serial: u64) -> Seq<(OutputFormat, u64)> {
        match stream_index(self.streams, serial) {
            Some(i) => self.streams[i].targets(),
            None => Seq::empty(),
        }
    }
}

/// Another state of a stream leaves a registry sound, where it is the same
/// stream.
pub proof fn lemma_put_sound(r: RegistryView, i: int, s: StreamView)
    requires
        r.sound(),
        0 <= i < r.streams.len(),
        s.sound(),
        s.serial == r.streams[i].serial,
        s.content_id == r.streams[i].content_id,
    ensures
        r.put(i, s).sound(),
{
    let t = r.put(i, s);
    if s.idle() {
        assert forall|k: int| 0 <= k < t.streams.len() implies #[trigger] t.streams[k]
            == r.streams[if k < i {
            k
        } else {
            k + 1
        }] by {}
    } else {
        assert forall|k: int| 0 <= k < t.streams.len() && k != i implies #[trigger] t.streams[k]
            == r.streams[k] by {}
    }
}

/// What a list of streams holds.
pub open spec fn stream_views(list: Seq<EngineStream>) -> Seq<StreamView> {
    Seq::new(list.len(), |i: int| list[i]@)
}

impl View for Registry {
    type V = RegistryView;

    closed spec fn view(&self) -> RegistryView {
        RegistryView {
            streams: stream_views(self.streams@),
            next_serial: self.next_serial,
            engine_host: self.config.engine_host@,
            frag_ms: self.config.frag_duration_ms,
        }
    }
}

impl Registry {
    /// What holds of every registry.
    pub closed spec fn wf(&self) -> bool {
        &&& self@.sound()
        &&& forall|i: int| 0 <= i < self.streams@.len() ==> (#[trigger] self.streams@[i]).wf()
    }

    /// A well-formed registry is sound.
    pub proof fn lemma_sound(&self)
        requires
            self.wf(),
        ensures
            self@.sound(),
    {
    }

    pub fn new(config: Config) -> (r: Self)
        ensures
            r.wf(),
            r@ == (RegistryView {
                streams: Seq::empty(),
                next_serial: 0,
                engine_host: config.engine_host@,
                frag_ms: config.frag_duration_ms,
            }),
    {
        let r = Registry { streams: Vec::new(), next_serial: 0, config };
        assert(r@.streams == Seq::<StreamView>::empty());
        r
    }

    /// The engine to pull from.
    pub fn engine_host(&self) -> (r: &str)
        ensures
            r@ == self@.engine_host,
    {
        self.config.engine_host.as_str()
    }

    /// Every stream there is.
    pub fn live_streams(&self) -> (r: Vec<&EngineStream>)
        ensures
            r@.len() == self@.streams.len(),
            forall|i: int| 0 <= i < r@.len() ==> (#[trigger] r@[i])@ == self@.streams[i],
    {
        let mut r: Vec<&EngineStream> = Vec::new();
        let mut i: usize = 0;
        while i < self.streams.len()
            invariant
                i <= self.streams@.len(),
                r@.len() == i,
                forall|k: int| 0 <= k < i ==> (#[trigger] r@[k])@ == self.streams@[k]@,
            decreases self.streams.len() - i,
        {
            r.push(&self.streams[i]);
            i += 1;
        }
        r
    }

    /// The place of the stream with this serial.
    fn find_stream(&self, serial: u64) -> (r: Option<usize>)
        ensures
            match r {
                Some(i) => {
                    &&& i < self.streams@.len()
                    &&& stream_index(self@.streams, serial) == Some(i as int)
                    &&& self@.streams[i as int] == self.streams@[i as int]@
                },
                None => stream_index(self@.streams, serial) is None,
            },
    {
        let ghost all = self@.streams;
        let mut i: usize = self.streams.len();
        assert(all.take(i as int) == all);
        while i > 0
            invariant
                all == stream_views(self.streams@),
                all == self@.streams,
                i <= self.streams@.len(),
                stream_index(all.take(i as int), serial) == stream_index(all, serial),
            decreases i,
        {
            assert(all.take(i as int).drop_last() == all.take(i - 1));
            assert(all.take(i as int).last() == self.streams@[i - 1]@);
            i -= 1;
            if self.streams[i].serial() == serial {
                return Some(i);
            }
        }
        None
    }

    /// The place of the stream for this content id.
    fn find_content(&self, content_id: &str) -> (r: Option<usize>)
        ensures
            match r {
                Some(i) => {
                    &&& i < self.streams@.len()
                    &&& content_index(self@.streams, content_id@) == Some(i as int)
                    &&& self@.streams[i as int] == self.streams@[i as int]@
                },
                None => content_index(self@.streams, content_id@) is None,
            },
    {
        let ghost all = self@.streams;
        let mut i: usize = self.streams.len();
        assert(all.take(i as int) == all);
        while i > 0
            invariant
                all == stream_views(self.streams@),
                all == self@.streams,
                i <= self.streams@.len(),
                content_index(all.take(i as int), content_id@) == content_index(all, content_id@),
            decreases i,
        {
            assert(all.take(i as int).drop_last() == all.take(i - 1));
            assert(all.take(i as int).last() == self.streams@[i - 1]@);
            i -= 1;
            if same_text(self.streams[i].content_id(), content_id) {
                return Some(i);
            }
        }
        None
    }

    /// Lets the stream at `i` go, if nobody holds it. It is what has changed
    /// since `before`.
    fn sweep(&mut self, i: usize, Ghost(before): Ghost<Registry>)
        requires
            before.wf(),
            i < before.streams@.len(),
            *old(self) == (Registry { streams: old(self).streams, ..before }),
            old(self).streams@ == before.streams@.update(i as int, old(self).streams@[i as int]),
            old(self).streams@[i as int].wf(),
            old(self).streams@[i as int]@.serial == before.streams@[i as int]@.serial,
            old(self).streams@[i as int]@.content_id == before.streams@[i as int]@.content_id,
        ensures
            final(self).wf(),
            final(self)@ == before@.put(i as int, old(self).streams@[i as int]@),
    {
        let ghost s = self.streams@[i as int]@;
        proof {
            self.streams@[i as int].lemma_sound();
            assert(before@.streams[i as int] == before.streams@[i as int]@);
            lemma_put_sound(before@, i as int, s);
        }
        if self.streams[i].is_idle() {
            let gone = self.streams.remove(i);
        }
        assert(stream_views(self.streams@) == before@.put(i as int, s).streams);
        assert(self@ == before@.put(i as int, s));
    }

    /// Whether there is a stream with this serial.
    pub fn has_stream(&self, serial: u64) -> (r: bool)
        ensures
            r == self@.has_stream(serial),
    {
        self.find_stream(serial).is_some()
    }

    /// Whether there is an encoder with this id on that stream.
    pub fn has_encoder(&self, serial: u64, id: u64) -> (r: bool)
        ensures
            r == self@.has_encoder(serial, id),
    {
        match self.find_stream(serial) {
            Some(i) => self.streams[i].has_encoder(id),
            None => false,
        }
    }

    /// The encoder with this id on that stream.
    pub fn encoder(&self, serial: u64, id: u64) -> (r: Option<&Encoder>)
        ensures
            match stream_index(self@.streams, serial) {
                Some(i) => match encoder_index(self@.streams[i].encoders, id) {
                    Some(j) => r is Some && r->0@ == self@.streams[i].encoders[j],
                    None => r is None,
                },
                None => r is None,
            },
    {
        match self.find_stream(serial) {
            Some(i) => self.streams[i].encoder(id),
            None => None,
        }
    }

    /// The encoders that what comes from the engine for a stream goes to.
    pub fn targets(&self, serial: u64) -> (r: Vec<(OutputFormat, u64)>)
        ensures
            r@ == self@.targets(serial),
    {
        match self.find_stream(serial) {
            Some(i) => self.streams[i].targets(),
            None => Vec::new(),
        }
    }

    /// A request asks for the pull of a content id, and holds it from now on.
    pub fn engine_stream(&mut self, content_id: &str, now: u64) -> (r: Option<(u64, bool)>)
        requires
            old(self).wf(),
        ensures
            final(self).wf(),
            (final(self)@, r) == old(self)@.engine_stream(content_id@, now),
    {
        let ghost before = *self;
        match self.find_content(content_id) {
            Some(i) => {
                if self.streams[i].holders() == u64::MAX {
                    return None;
                }
                let serial: u64 = self.streams[i].serial();
                self.streams[i].hold();
                self.sweep(i, Ghost(before));
                Some((serial, false))
            },
            None => {
                if self.next_serial == u64::MAX {
                    return None;
                }
                proof {
                    lemma_content_index(before@.streams, content_id@);
                }
                let serial: u64 = self.next_serial;
                let stream = EngineStream::new(serial, content_id, now);
                let ghost list = self.streams@;
                self.streams.push(stream);
                self.next_serial = serial + 1;
                proof {
                    stream.lemma_sound();
                    assert(stream_views(self.streams@) == before@.streams.push(stream@));
                    assert forall|k: int| 0 <= k < list.len() implies #[trigger] self@.streams[k]
                        == before@.streams[k] by {}
                }
                Some((serial, true))
            },
        }
    }

    /// A request lets go of a stream.
    pub fn release(&mut self, serial: u64)
        requires
            old(self).wf(),
        ensures
            final(self).wf(),
            final(self)@ == old(self)@.released(serial),
    {
        let ghost before = *self;
        match self.find_stream(serial) {
            None => {},
            Some(i) => {
                if self.streams[i].holders() > 0 {
                    self.streams[i].let_go();
                    self.sweep(i, Ghost(before));
                }
            },
        }
    }

    /// Tells whether the start that a request has waited for since `began` is
    /// over.
    pub fn wait_ready(&self, serial: u64, began: u64, now: u64) -> (r: Option<Waited>)
        ensures
            self@.wait_ready(serial, began, now) == (match r {
                Some(w) => Some(w@),
                None => None,
            }),
    {
        match self.find_stream(serial) {
            Some(i) => Some(self.streams[i].wait_ready(began, now)),
            None => None,
        }
    }

    /// A request asks a stream for an encoder.
    pub fn get_or_start_encoder(&mut self, serial: u64, fmt: OutputFormat) -> (r: Option<Encoding>)
        requires
            old(self).wf(),
        ensures
            final(self).wf(),
            (
                final(self)@,
                match r {
                    Some(e) => Some(e@),
                    None => None,
                },
            ) == old(self)@.get_or_start_encoder(serial, fmt),
    {
        let ghost before = *self;
        match self.find_stream(serial) {
            None => None,
            Some(i) => {
                if !self.streams[i].has_room() {
                    return None;
                }
                let frag_ms = self.config.frag_duration_ms;
                let r = self.streams[i].get_or_start_encoder(fmt, frag_ms);
                self.sweep(i, Ghost(before));
                Some(r)
            },
        }
    }

    /// A request has started ffmpeg for an encoder. Tells the encoder's id, and
    /// what its ffmpeg is to be primed with.
    pub fn start_encoder(
        &mut self,
        serial: u64,
        fmt: OutputFormat,
        video: TrackMode,
        audio: TrackMode,
        now: u64,
    ) -> (r: Option<(u64, Vec<u8>)>)
        requires
            old(self).wf(),
        ensures
            final(self).wf(),
            (
                final(self)@,
                match r {
                    Some((id, prime)) => Some((id, prime@)),
                    None => None,
                },
            ) == old(self)@.start_encoder(serial, fmt, video, audio, now),
    {
        let ghost before = *self;
        match self.find_stream(serial) {
            None => None,
            Some(i) => {
                if !self.streams[i].has_room() {
                    return None;
                }
                let r = self.streams[i].start_encoder(fmt, video, audio, now);
                self.sweep(i, Ghost(before));
                Some(r)
            },
        }
    }

    /// A request that holds an encoder asks to listen to it.
    pub fn join(&mut self, serial: u64, id: u64, peer: &str, began: u64, now: u64) -> (r: Option<
        Joined,
    >)
        requires
            old(self).wf(),
        ensures
            final(self).wf(),
            (
                final(self)@,
                match r {
                    Some(j) => Some(j@),
                    None => None,
                },
            ) == old(self)@.join(serial, id, peer@, began, now),
    {
        let ghost before = *self;
        match self.find_stream(serial) {
            None => None,
            Some(i) => {
                if !self.streams[i].has_room() {
                    return None;
                }
                let r = self.streams[i].subscribe(id, peer, began, now);
                self.sweep(i, Ghost(before));
                r
            },
        }
    }

    /// A request that was to start an encoder is done with it, whether it could or
    /// not.
    pub fn end_creation(&mut self, serial: u64)
        requires
            old(self).wf(),
        ensures
            final(self).wf(),
            final(self)@ == old(self)@.creation_ended(serial),
    {
        let ghost before = *self;
        match self.find_stream(serial) {
            None => {},
            Some(i) => {
                self.streams[i].end_creation();
                self.sweep(i, Ghost(before));
            },
        }
    }

    /// A request lets go of an encoder.
    pub fn release_encoder(&mut self, serial: u64, id: u64)
        requires
            old(self).wf(),
        ensures
            final(self).wf(),
            final(self)@ == old(self)@.encoder_released(serial, id),
    {
        let ghost before = *self;
        match self.find_stream(serial) {
            None => {},
            Some(i) => {
                self.streams[i].release_encoder(id);
                self.sweep(i, Ghost(before));
            },
        }
    }

    /// A listener leaves an encoder.
    pub fn remove_listener(&mut self, serial: u64, id: u64, sub: Subscription)
        requires
            old(self).wf(),
        ensures
            final(self).wf(),
            final(self)@ == old(self)@.left(serial, id, sub.id()),
    {
        let ghost before = *self;
        match self.find_stream(serial) {
            None => {},
            Some(i) => {
                self.streams[i].remove_listener(id, sub);
                self.sweep(i, Ghost(before));
            },
        }
    }

    /// A listener reads up to `cap` bytes.
    pub fn read(&mut self, serial: u64, id: u64, sub: &Subscription, cap: usize) -> (r: Delivery)
        requires
            old(self).wf(),
        ensures
            final(self).wf(),
            (final(self)@, r@) == old(self)@.read(serial, id, sub.id(), cap as nat),
    {
        let ghost before = *self;
        match self.find_stream(serial) {
            None => Delivery::End,
            Some(i) => {
                let r = self.streams[i].read(id, sub, cap);
                self.sweep(i, Ghost(before));
                r
            },
        }
    }

    /// Takes in what ffmpeg wrote. Tells whether the encoder is still there.
    pub fn drain_ffmpeg(&mut self, serial: u64, id: u64, chunk: Bytes) -> (r: bool)
        requires
            old(self).wf(),
        ensures
            final(self).wf(),
            final(self)@ == old(self)@.wrote(serial, id, octets(chunk)),
            r == old(self)@.has_encoder(serial, id),
    {
        let ghost before = *self;
        match self.find_stream(serial) {
            None => false,
            Some(i) => {
                let r = self.streams[i].drain_ffmpeg(id, chunk);
                self.sweep(i, Ghost(before));
                r
            },
        }
    }

    /// Notes that ffmpeg's output has ended.
    pub fn finish(&mut self, serial: u64, id: u64)
        requires
            old(self).wf(),
        ensures
            final(self).wf(),
            final(self)@ == old(self)@.ended(serial, id),
    {
        let ghost before = *self;
        match self.find_stream(serial) {
            None => {},
            Some(i) => {
                self.streams[i].finish(id);
                self.sweep(i, Ghost(before));
            },
        }
    }

    /// Takes the next chunk of raw TS for an encoder's ffmpeg.
    pub fn next_feed(&mut self, serial: u64, id: u64) -> (r: Received)
        requires
            old(self).wf(),
        ensures
            final(self).wf(),
            (final(self)@, r@) == old(self)@.fetched(serial, id),
    {
        let ghost before = *self;
        match self.find_stream(serial) {
            None => Received::Closed,
            Some(i) => {
                let r = self.streams[i].next_feed(id);
                self.sweep(i, Ghost(before));
                r
            },
        }
    }

    /// Nobody takes raw TS for an encoder's ffmpeg any more.
    pub fn stop_feed(&mut self, serial: u64, id: u64)
        requires
            old(self).wf(),
        ensures
            final(self).wf(),
            final(self)@ == old(self)@.starved(serial, id),
    {
        let ghost before = *self;
        match self.find_stream(serial) {
            None => {},
            Some(i) => {
                self.streams[i].stop_feed(id);
                self.sweep(i, Ghost(before));
            },
        }
    }

    /// Takes in the engine's statistics of a session.
    pub fn record_stats(&mut self, serial: u64, now: u64, stats: Value)
        requires
            old(self).wf(),
        ensures
            final(self).wf(),
            final(self)@ == old(self)@.measured(serial, now, json_of(stats)),
    {
        let ghost before = *self;
        match self.find_stream(serial) {
            None => {},
            Some(i) => {
                self.streams[i].record_stats(now, stats);
                self.sweep(i, Ghost(before));
            },
        }
    }

    /// Tells those who wait how the start of a stream went.
    pub fn publish(&mut self, serial: u64, outcome: Result<(), String>)
        requires
            old(self).wf(),
        ensures
            final(self).wf(),
            final(self)@ == old(self)@.published(serial, told(outcome)),
    {
        let ghost before = *self;
        match self.find_stream(serial) {
            None => {},
            Some(i) => {
                self.streams[i].publish(outcome);
                self.sweep(i, Ghost(before));
            },
        }
    }

    /// The engine serves a stream, and its tracks are known.
    pub fn come_up(&mut self, serial: u64, session: Session, probe: Probe)
        requires
            old(self).wf(),
        ensures
            final(self).wf(),
            final(self)@ == old(self)@.came_up(serial, session@, probe@),
    {
        let ghost before = *self;
        match self.find_stream(serial) {
            None => {},
            Some(i) => {
                self.streams[i].come_up(session, probe);
                self.sweep(i, Ghost(before));
            },
        }
    }

    /// Takes in a chunk that came from the engine.
    pub fn receive(&mut self, serial: u64, chunk: &[u8])
        requires
            old(self).wf(),
        ensures
            final(self).wf(),
            final(self)@ == old(self)@.received(serial, chunk@),
    {
        let ghost before = *self;
        match self.find_stream(serial) {
            None => {},
            Some(i) => {
                self.streams[i].receive(chunk);
                self.sweep(i, Ghost(before));
            },
        }
    }

    /// Offers a chunk from the engine to an encoder.
    pub fn offer_feed(&mut self, serial: u64, id: u64, chunk: Bytes) -> (r: Sent)
        requires
            old(self).wf(),
        ensures
            final(self).wf(),
            (final(self)@, r.kind()) == old(self)@.fed(serial, id, octets(chunk)),
            r matches Sent::Full(back) ==> octets(back) == octets(chunk),
    {
        let ghost before = *self;
        match self.find_stream(serial) {
            None => Sent::Gone,
            Some(i) => {
                let r = self.streams[i].offer_feed(id, chunk);
                self.sweep(i, Ghost(before));
                r
            },
        }
    }

    /// The encoder that a stream feeds for this format is fed no more. Tells whether
    /// there was one.
    pub fn deregister(&mut self, serial: u64, fmt: OutputFormat) -> (r: bool)
        requires
            old(self).wf(),
        ensures
            final(self).wf(),
            final(self)@ == old(self)@.unfed(serial, fmt),
            r == old(self)@.feeds(serial, fmt),
    {
        let ghost before = *self;
        match self.find_stream(serial) {
            None => false,
            Some(i) => {
                let r = self.streams[i].deregister(fmt);
                self.sweep(i, Ghost(before));
                r
            },
        }
    }

    /// The puller of a stream holds it, or lets go of it.
    pub fn set_pulling(&mut self, serial: u64, pulling: bool)
        requires
            old(self).wf(),
        ensures
            final(self).wf(),
            final(self)@ == old(self)@.pull_holds(serial, pulling),
    {
        let ghost before = *self;
        match self.find_stream(serial) {
            None => {},
            Some(i) => {
                self.streams[i].set_pulling(pulling);
                self.sweep(i, Ghost(before));
            },
        }
    }

    /// Holds every stream so that the engine can be asked for its statistics, and
    /// gives their serials. Each is to be let go of with
    /// [`end_poll`](Registry::end_poll).
    pub fn begin_poll(&mut self) -> (r: Vec<u64>)
        requires
            old(self).wf(),
        ensures
            final(self).wf(),
            final(self)@ == old(self)@.poll_begun(),
            r@ == old(self)@.serials(),
    {
        let ghost before = self@;
        let mut r: Vec<u64> = Vec::new();
        let mut i: usize = 0;
        while i < self.streams.len()
            invariant
                before == old(self)@,
                before.sound(),
                i <= self.streams@.len(),
                self.streams@.len() == before.streams.len(),
                self.next_serial == before.next_serial,
                self@ == (RegistryView { streams: self@.streams, ..before }),
                forall|k: int|
                    0 <= k < self.streams@.len() ==> (#[trigger] self.streams@[k]).wf(),
                forall|k: int|
                    0 <= k < self.streams@.len() ==> (#[trigger] self.streams@[k])@ == if k < i {
                        StreamView { polling: true, ..before.streams[k] }
                    } else {
                        before.streams[k]
                    },
                r@.len() == i,
                forall|k: int| 0 <= k < i ==> #[trigger] r@[k] == before.streams[k].serial,
            decreases self.streams.len() - i,
        {
            let ghost list = self.streams@;
            r.push(self.streams[i].serial());
            self.streams[i].set_polling(true);
            assert(forall|k: int|
                0 <= k < list.len() && k != i ==> #[trigger] self.streams@[k] == list[k]);
            i += 1;
        }
        proof {
            let goal = before.poll_begun();
            assert(stream_views(self.streams@) == goal.streams);
            assert(self@ == goal);
            assert forall|k: int| 0 <= k < self@.streams.len() implies (
            #[trigger] self@.streams[k]).sound() && !self@.streams[k].idle()
                && self@.streams[k].serial == before.streams[k].serial
                && self@.streams[k].content_id == before.streams[k].content_id by {
                self.streams@[k].lemma_sound();
            }
        }
        assert(r@ == before.serials());
        r
    }

    /// Where the engine's statistics of a stream are to be had, if they are.
    pub fn stat_url(&self, serial: u64) -> (r: Option<String>)
        ensures
            text_of(r) == self@.stat_url(serial),
    {
        match self.find_stream(serial) {
            Some(i) => self.streams[i].stat_url(),
            None => None,
        }
    }

    /// The engine was asked for the statistics of a stream, or need not be.
    pub fn end_poll(&mut self, serial: u64)
        requires
            old(self).wf(),
        ensures
            final(self).wf(),
            final(self)@ == old(self)@.poll_ended(serial),
    {
        let ghost before = *self;
        match self.find_stream(serial) {
            None => {},
            Some(i) => {
                self.streams[i].set_polling(false);
                self.sweep(i, Ghost(before));
            },
        }
    }

    /// How many bytes a listener was sent.
    pub fn bytes_sent(&self, serial: u64, id: u64, sub: &Subscription) -> (n: u64)
        ensures
            n == self@.sent_to(serial, id, sub.id()),
    {
        match self.find_stream(serial) {
            Some(i) => self.streams[i].bytes_sent(id, sub),
            None => 0,
        }
    }
}

/// An outcome over texts.
pub open spec fn told(outcome: Result<(), String>) -> Result<(), Seq<char>> {
    match outcome {
        Ok(_) => Ok(()),
        Err(e) => Err(e@),
    }
}

impl RegistryView {
    /// Whether a stream feeds an encoder of this format.
    pub open spec fn feeds(self, serial: u64, fmt: OutputFormat) -> bool {
        match stream_index(self.streams, serial) {
            Some(i) => fed_index(self.streams[i].encoders, fmt) is Some,
            None => false,
        }
    }

    /// How many bytes a listener was sent.
    pub open spec fn sent_to(self, serial: u64, id: u64, listener: u64) -> u64 {
        match stream_index(self.streams, serial) {
            Some(i) => self.streams[i].sent_to(id, listener),
            None => 0,
        }
    }
}

} // verus!
