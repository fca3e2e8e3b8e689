//! One engine pull per content id, and the encoders that it feeds.

use bytes::Bytes;
use serde_json::Value;
use vstd::prelude::*;

use crate::encoder::{
    left_of, time_left, Delivery, DeliveryView, Encoder, EncoderView, Joined, JoinedView,
    Subscription, TS_QUEUE,
};
use crate::engine::{Session, SessionView};
use crate::format::{
    audio_mode, codec_text, command_line, plan, video_mode, FragDurationMs, OutputFormat, Plan,
    TrackMode,
};
use crate::json::{json_of, Json};
use crate::octets::octets;
use crate::queue::{Queue, QueueView, Received, ReceivedView, Sent, SentKind};
use crate::replay::{last_bytes, window_of, Replay, REPLAY_BYTES};
use crate::text::{text_of, texts};

verus! {

/// How long a request will wait for a cold stream to connect and probe, in
/// milliseconds.
pub const START_TIMEOUT: u64 = 45000;

// ---------------------------------------------------------------------------
// What a stream holds
// ---------------------------------------------------------------------------

/// The codecs of a source, as far as it has such tracks.
#[derive(Debug, Clone, PartialEq, Eq)]
pub struct Probe {
    pub video: Option<String>,
    pub audio: Option<String>,
}

/// What a `Probe` says.
#[verifier::ext_equal]
pub struct ProbeView {
    pub video: Option<Seq<char>>,
    pub audio: Option<Seq<char>>,
}

impl View for Probe {
    type V = ProbeView;

    open spec fn view(&self) -> ProbeView {
        ProbeView { video: text_of(self.video), audio: text_of(self.audio) }
    }
}

/// How starting a pull has gone.
#[derive(Debug)]
pub enum Start {
    Pending,
    Ready,
    Failed(String),
}

/// What a `Start` says.
#[verifier::ext_equal]
pub enum StartView {
    Pending,
    Ready,
    Failed(Seq<char>),
}

impl View for Start {
    type V = StartView;

    open spec fn view(&self) -> StartView {
        match self {
            Start::Pending => StartView::Pending,
            Start::Ready => StartView::Ready,
            Start::Failed(e) => StartView::Failed(e@),
        }
    }
}

/// What waiting for a pull to start comes to.
#[derive(Debug)]
pub enum Waited {
    Ready,
    Fail(String),
    /// It may still start, within this many milliseconds.
    Wait(u64),
}

/// What a `Waited` says.
#[verifier::ext_equal]
pub enum WaitedView {
    Ready,
    Fail(Seq<char>),
    Wait(u64),
}

impl View for Waited {
    type V = WaitedView;

    open spec fn view(&self) -> WaitedView {
        match self {
            Waited::Ready => WaitedView::Ready,
            Waited::Fail(e) => WaitedView::Fail(e@),
            Waited::Wait(left) => WaitedView::Wait(*left),
        }
    }
}

/// What asking for an encoder comes to.
#[derive(Debug)]
pub enum Encoding {
    /// This one is running, and is held for the request now.
    Existing(u64),
    /// None is: the request is to start ffmpeg by this plan.
    Start(Plan),
    /// Another request is starting one.
    Busy,
    /// None can be started.
    Fail(String),
}

/// What an `Encoding` says.
#[verifier::ext_equal]
pub enum EncodingView {
    Existing(u64),
    Start { args: Seq<Seq<char>>, video: TrackMode, audio: TrackMode },
    Busy,
    Fail(Seq<char>),
}

impl View for Encoding {
    type V = EncodingView;

    open spec fn view(&self) -> EncodingView {
        match self {
            Encoding::Existing(id) => EncodingView::Existing(*id),
            Encoding::Start(p) => EncodingView::Start {
                args: texts(p.args@),
                video: p.video,
                audio: p.audio,
            },
            Encoding::Busy => EncodingView::Busy,
            Encoding::Fail(e) => EncodingView::Fail(e@),
        }
    }
}

/// One engine pull.
#[derive(Debug)]
pub struct EngineStream {
    serial: u64,
    content_id: String,
    started: u64,
    bytes_in: u64,
    session: Option<Session>,
    probe: Option<Probe>,
    stats: Option<(u64, Value)>,
    /// Trailing raw TS, replayed into each new encoder.
    replay: Replay,
    encoders: Vec<Encoder>,
    /// The feeds of encoders that are gone, as long as somebody takes from them.
    orphans: Vec<(u64, Queue)>,
    next_encoder: u64,
    /// Set while a request starts an encoder, so that two simultaneous requests
    /// for the same format cannot both spawn an ffmpeg.
    creating: bool,
    start: Start,
    holders: u64,
    /// Set while the puller hands out a chunk.
    pulling: bool,
    /// Set while the engine is asked for its statistics.
    polling: bool,
}

/// What an `EngineStream` holds.
#[verifier::ext_equal]
pub struct StreamView {
    /// Tells the stream from every other, earlier ones for the same content id
    /// included.
    pub serial: u64,
    pub content_id: Seq<char>,
    /// When it was started, in milliseconds.
    pub started: u64,
    pub bytes_in: u64,
    pub session: Option<SessionView>,
    pub probe: Option<ProbeView>,
    /// The engine's statistics, and when they came.
    pub stats: Option<(u64, Json)>,
    pub replay: Seq<u8>,
    pub encoders: Seq<EncoderView>,
    /// The feeds of encoders that are gone, as long as somebody takes from
    /// them, by the encoder's id.
    pub orphans: Seq<(u64, QueueView)>,
    /// The id that the next encoder gets.
    pub next_encoder: u64,
    pub creating: bool,
    pub start: StartView,
    /// How many requests hold the stream.
    pub holders: u64,
    /// Whether the puller holds the stream, as it does while it hands out a chunk.
    pub pulling: bool,
    /// Whether the stream is held so that the engine can be asked for its
    /// statistics.
    pub polling: bool,
}

/// The place of the feed of the encoder with this id.
pub open spec fn orphan_index(orphans: Seq<(u64, QueueView)>, id: u64) -> Option<int>
    decreases orphans.len(),
{
    if orphans.len() == 0 {
        None
    } else if orphans.last().0 == id {
        Some(orphans.len() - 1)
    } else {
        orphan_index(orphans.drop_last(), id)
    }
}

/// The place of a feed is in the list, and holds the feed of that id.
pub proof fn lemma_orphan_index(orphans: Seq<(u64, QueueView)>, id: u64)
    ensures
        match orphan_index(orphans, id) {
            Some(i) => 0 <= i < orphans.len() && orphans[i].0 == id,
            None => forall|j: int| 0 <= j < orphans.len() ==> (#[trigger] orphans[j]).0 != id,
        },
    decreases orphans.len(),
{
    if orphans.len() > 0 && orphans.last().0 != id {
        let rest = orphans.drop_last();
        lemma_orphan_index(rest, id);
        assert forall|j: int| 0 <= j < orphans.len() - 1 implies orphans[j] == rest[j] by {}
    }
}

/// The place of the encoder with this id.
pub open spec fn encoder_index(encoders: Seq<EncoderView>, id: u64) -> Option<int>
    decreases encoders.len(),
{
    if encoders.len() == 0 {
        None
    } else if encoders.last().id == id {
        Some(encoders.len() - 1)
    } else {
        encoder_index(encoders.drop_last(), id)
    }
}

/// The place of the encoder that is fed for this format.
pub open spec fn fed_index(encoders: Seq<EncoderView>, fmt: OutputFormat) -> Option<int>
    decreases encoders.len(),
{
    if encoders.len() == 0 {
        None
    } else if encoders.last().registered() && encoders.last().fmt == fmt {
        Some(encoders.len() - 1)
    } else {
        fed_index(encoders.drop_last(), fmt)
    }
}

/// The encoders that are fed, in order.
pub open spec fn fed_encoders(encoders: Seq<EncoderView>) -> Seq<EncoderView>
    decreases encoders.len(),
{
    if encoders.len() == 0 {
        Seq::empty()
    } else if encoders.last().registered() {
        fed_encoders(encoders.drop_last()).push(encoders.last())
    } else {
        fed_encoders(encoders.drop_last())
    }
}

pub proof fn lemma_encoder_index(encoders: Seq<EncoderView>, id: u64)
    ensures
        match encoder_index(encoders, id) {
            Some(i) => 0 <= i < encoders.len() && encoders[i].id == id,
            None => forall|j: int| 0 <= j < encoders.len() ==> (#[trigger] encoders[j]).id != id,
        },
    decreases encoders.len(),
{
    if encoders.len() > 0 && encoders.last().id != id {
        let rest = encoders.drop_last();
        lemma_encoder_index(rest, id);
        assert forall|j: int| 0 <= j < encoders.len() - 1 implies encoders[j] == rest[j] by {}
    }
}

pub proof fn lemma_fed_index(encoders: Seq<EncoderView>, fmt: OutputFormat)
    ensures
        match fed_index(encoders, fmt) {
            Some(i) => 0 <= i < encoders.len() && encoders[i].registered() && encoders[i].fmt
                == fmt,
            None => forall|j: int|
                0 <= j < encoders.len() ==> !((#[trigger] encoders[j]).registered()
                    && encoders[j].fmt == fmt),
        },
    decreases encoders.len(),
{
    if encoders.len() > 0 && !(encoders.last().registered() && encoders.last().fmt == fmt) {
        let rest = encoders.drop_last();
        lemma_fed_index(rest, fmt);
        assert forall|j: int| 0 <= j < encoders.len() - 1 implies encoders[j] == rest[j] by {}
    }
}

impl StreamView {
    /// A stream that was just opened for one request, which holds it.
    pub open spec fn fresh(serial: u64, content_id: Seq<char>, now: u64) -> StreamView {
        StreamView {
            serial,
            content_id,
            started: now,
            bytes_in: 0,
            session: None,
            probe: None,
            stats: None,
            replay: Seq::empty(),
            encoders: Seq::empty(),
            orphans: Seq::empty(),
            next_encoder: 0,
            creating: false,
            start: StartView::Pending,
            holders: 1,
            pulling: false,
            polling: false,
        }
    }

    /// Whether nobody holds the stream: no request, no encoder, nor the puller
    /// or whoever asks for statistics.
    pub open spec fn idle(self) -> bool {
        self.holders == 0 && self.encoders.len() == 0 && !self.pulling && !self.polling
    }

    /// What holds of every stream: its encoders are sound, are held by somebody,
    /// and have ids of their own, as have the feeds that outlive theirs; at most
    /// one is fed for each format; and the replay window is within its size.
    pub open spec fn sound(self) -> bool {
        &&& self.replay.len() <= REPLAY_BYTES
        &&& forall|i: int|
            0 <= i < self.encoders.len() ==> {
                &&& (#[trigger] self.encoders[i]).sound()
                &&& self.encoders[i].holders() > 0
                &&& self.encoders[i].id < self.next_encoder
            }
        &&& forall|i: int, j: int|
            0 <= i < j < self.encoders.len() ==> (#[trigger] self.encoders[i]).id != (
            #[trigger] self.encoders[j]).id
        &&& forall|i: int, j: int|
            0 <= i < j < self.encoders.len() && (#[trigger] self.encoders[i]).registered() && (
            #[trigger] self.encoders[j]).registered() ==> self.encoders[i].fmt
                != self.encoders[j].fmt
        &&& forall|k: int|
            0 <= k < self.orphans.len() ==> {
                &&& (#[trigger] self.orphans[k]).0 < self.next_encoder
                &&& self.orphans[k].1.sound()
                &&& self.orphans[k].1.limit == TS_QUEUE
                &&& self.orphans[k].1.receiving
                &&& !self.orphans[k].1.sending
            }
        &&& forall|j: int, k: int|
            0 <= j < k < self.orphans.len() ==> (#[trigger] self.orphans[j]).0 != (
            #[trigger] self.orphans[k]).0
        &&& forall|i: int, k: int|
            0 <= i < self.encoders.len() && 0 <= k < self.orphans.len() ==> (
            #[trigger] self.encoders[i]).id != (#[trigger] self.orphans[k]).0
    }

    /// The stream with another state of its encoder at `i`. An encoder that
    /// nobody holds any more is gone; its feed stays as long as somebody takes
    /// from it.
    pub open spec fn put(self, i: int, e: EncoderView) -> StreamView {
        StreamView {
            encoders: if e.holders() == 0 {
                self.encoders.remove(i)
            } else {
                self.encoders.update(i, e)
            },
            orphans: if e.holders() == 0 && e.feed.receiving {
                self.orphans.push((e.id, e.feed.unsent()))
            } else {
                self.orphans
            },
            ..self
        }
    }

    /// The stream with one more request that holds it.
    pub open spec fn held(self) -> StreamView {
        StreamView { holders: (self.holders + 1) as u64, ..self }
    }

    /// The stream with one less request that holds it.
    pub open spec fn let_go(self) -> StreamView {
        StreamView { holders: (self.holders - 1) as u64, ..self }
    }

    /// The stream after `chunk` came from the engine.
    pub open spec fn received(self, chunk: Seq<u8>) -> StreamView {
        StreamView {
            bytes_in: self.bytes_in.wrapping_add(chunk.len() as u64),
            replay: last_bytes(self.replay + chunk, REPLAY_BYTES as nat),
            ..self
        }
    }

    /// The stream after it was told how its start went.
    pub open spec fn published(self, outcome: Result<(), Seq<char>>) -> StreamView {
        StreamView {
            start: match outcome {
                Ok(_) => StartView::Ready,
                Err(e) => StartView::Failed(e),
            },
            ..self
        }
    }

    /// The stream once the engine serves it and its tracks are known. The first
    /// session and the first probe result stay.
    pub open spec fn came_up(self, session: SessionView, probe: ProbeView) -> StreamView {
        StreamView {
            session: if self.session is Some {
                self.session
            } else {
                Some(session)
            },
            probe: if self.probe is Some {
                self.probe
            } else {
                Some(probe)
            },
            ..self.published(Ok(()))
        }
    }

    /// What waiting for the start since `began` has come to at `now`.
    pub open spec fn wait_ready(self, began: u64, now: u64) -> WaitedView {
        match self.start {
            StartView::Ready => WaitedView::Ready,
            StartView::Failed(e) => WaitedView::Fail(e),
            StartView::Pending => if time_left(START_TIMEOUT, began, now) == 0 {
                WaitedView::Fail("timed out waiting for the engine stream to start"@)
            } else {
                WaitedView::Wait(time_left(START_TIMEOUT, began, now))
            },
        }
    }

    /// A request asks for an encoder of this format.
    ///
    /// A finished encoder is still registered while its last listener drains; a
    /// replacement is started rather than a dead one joined.
    pub open spec fn get_or_start_encoder(self, fmt: OutputFormat, frag_ms: FragDurationMs) -> (
        StreamView,
        EncodingView,
    ) {
        if self.creating {
            (self, EncodingView::Busy)
        } else {
            match fed_index(self.encoders, fmt) {
                Some(i) => if !self.encoders[i].finished {
                    (
                        self.put(i, self.encoders[i].held()),
                        EncodingView::Existing(self.encoders[i].id),
                    )
                } else {
                    self.plan_encoder(fmt, frag_ms)
                },
                None => self.plan_encoder(fmt, frag_ms),
            }
        }
    }

    /// A request is to start an encoder of this format.
    pub open spec fn plan_encoder(self, fmt: OutputFormat, frag_ms: FragDurationMs) -> (
        StreamView,
        EncodingView,
    ) {
        match self.probe {
            None => (self, EncodingView::Fail("engine stream has no probe result"@)),
            Some(probe) => (
                StreamView { creating: true, ..self },
                EncodingView::Start {
                    args: command_line(fmt, probe.audio, frag_ms),
                    video: video_mode(fmt),
                    audio: audio_mode(fmt, probe.audio),
                },
            ),
        }
    }

    /// The stream when the encoder that was fed for this format is fed no more.
    pub open spec fn unfed(self, fmt: OutputFormat) -> StreamView {
        match fed_index(self.encoders, fmt) {
            Some(i) => StreamView {
                encoders: self.encoders.update(i, self.encoders[i].deregistered()),
                ..self
            },
            None => self,
        }
    }

    /// The stream with an encoder that was just started, in the place of the one
    /// that was fed for its format. It is held by the request that started it.
    pub open spec fn started(
        self,
        fmt: OutputFormat,
        video: TrackMode,
        audio: TrackMode,
        now: u64,
    ) -> StreamView {
        StreamView {
            encoders: self.unfed(fmt).encoders.push(
                EncoderView::fresh(self.next_encoder, self.content_id, fmt, video, audio, now),
            ),
            next_encoder: (self.next_encoder + 1) as u64,
            ..self
        }
    }
}

/// Another state of an encoder leaves a stream sound, where it is the same
/// encoder and is not fed unless it was.
pub proof fn lemma_put_sound(s: StreamView, i: int, e: EncoderView)
    requires
        s.sound(),
        0 <= i < s.encoders.len(),
        e.sound(),
        e.id == s.encoders[i].id,
        e.fmt == s.encoders[i].fmt,
        e.registered() ==> s.encoders[i].registered(),
    ensures
        s.put(i, e).sound(),
{
    let t = s.put(i, e);
    if e.holders() == 0 {
        assert forall|k: int| 0 <= k < t.encoders.len() implies #[trigger] t.encoders[k]
            == s.encoders[if k < i {
            k
        } else {
            k + 1
        }] by {}
    } else {
        assert forall|k: int| 0 <= k < t.encoders.len() && k != i implies #[trigger] t.encoders[k]
            == s.encoders[k] by {}
    }
}

/// What a list of feeds holds.
pub open spec fn orphan_views(list: Seq<(u64, Queue)>) -> Seq<(u64, QueueView)> {
    Seq::new(list.len(), |i: int| (list[i].0, list[i].1@))
}

/// What a list of encoders holds.
pub open spec fn encoder_views(list: Seq<Encoder>) -> Seq<EncoderView> {
    Seq::new(list.len(), |i: int| list[i]@)
}

impl View for EngineStream {
    type V = StreamView;

    closed spec fn view(&self) -> StreamView {
        StreamView {
            serial: self.serial,
            content_id: self.content_id@,
            started: self.started,
            bytes_in: self.bytes_in,
            session: match self.session {
                Some(s) => Some(s@),
                None => None,
            },
            probe: match self.probe {
                Some(p) => Some(p@),
                None => None,
            },
            stats: match self.stats {
                Some((at, v)) => Some((at, json_of(v))),
                None => None,
            },
            replay: self.replay@,
            encoders: encoder_views(self.encoders@),
            orphans: orphan_views(self.orphans@),
            next_encoder: self.next_encoder,
            creating: self.creating,
            start: self.start@,
            holders: self.holders,
            pulling: self.pulling,
            polling: self.polling,
        }
    }
}

impl StreamView {
    /// Whether the stream can take another holder, another encoder, and another
    /// listener on every encoder. The counters end at `u64::MAX`.
    pub open spec fn roomy(self) -> bool {
        &&& self.holders < u64::MAX
        &&& self.next_encoder < u64::MAX
        &&& forall|i: int|
            0 <= i < self.encoders.len() ==> (#[trigger] self.encoders[i]).roomy()
    }

    /// The session's `stat_url`, if there is one.
    pub open spec fn stat_url(self) -> Option<Seq<char>> {
        match self.session {
            Some(s) => s.stat_url,
            None => None,
        }
    }

    /// The targets of what comes from the engine: the encoders that are fed.
    pub open spec fn targets(self) -> Seq<(OutputFormat, u64)> {
        Seq::new(
            fed_encoders(self.encoders).len(),
            |i: int| (fed_encoders(self.encoders)[i].fmt, fed_encoders(self.encoders)[i].id),
        )
    }

    /// A request that holds an encoder asks to listen to it. There is no answer
    /// where no request holds an encoder of this id.
    pub open spec fn subscribe(self, id: u64, peer: Seq<char>, began: u64, now: u64) -> (
        StreamView,
        Option<JoinedView>,
    ) {
        match encoder_index(self.encoders, id) {
            Some(i) => if self.encoders[i].joining > 0 {
                let (e, joined) = self.encoders[i].subscribe(peer, began, now);
                (self.put(i, e), Some(joined))
            } else {
                (self, None)
            },
            None => (self, None),
        }
    }

    /// A request lets go of an encoder.
    pub open spec fn encoder_let_go(self, id: u64) -> StreamView {
        match encoder_index(self.encoders, id) {
            Some(i) => if self.encoders[i].joining > 0 {
                self.put(i, self.encoders[i].let_go())
            } else {
                self
            },
            None => self,
        }
    }

    /// A listener leaves an encoder.
    pub open spec fn left(self, id: u64, listener: u64) -> StreamView {
        match encoder_index(self.encoders, id) {
            Some(i) => self.put(i, self.encoders[i].left(listener)),
            None => self,
        }
    }

    /// A listener reads.
    pub open spec fn read(self, id: u64, listener: u64, cap: nat) -> (StreamView, DeliveryView) {
        match encoder_index(self.encoders, id) {
            Some(i) => {
                let (e, delivery) = self.encoders[i].read(listener, cap);
                (self.put(i, e), delivery)
            },
            None => (self, DeliveryView::End),
        }
    }

    /// How many bytes a listener was sent.
    pub open spec fn sent_to(self, id: u64, listener: u64) -> u64 {
        match encoder_index(self.encoders, id) {
            Some(i) => self.encoders[i].sent_to(listener),
            None => 0,
        }
    }

    /// The stream after ffmpeg wrote `chunk`.
    pub open spec fn wrote(self, id: u64, chunk: Seq<u8>) -> StreamView {
        match encoder_index(self.encoders, id) {
            Some(i) => self.put(i, self.encoders[i].wrote(chunk)),
            None => self,
        }
    }

    /// The stream after ffmpeg's output ended.
    pub open spec fn ended(self, id: u64) -> StreamView {
        match encoder_index(self.encoders, id) {
            Some(i) => self.put(i, self.encoders[i].ended()),
            None => self,
        }
    }

    /// The stream after a chunk from the engine was offered to an encoder. The
    /// feed of one that is gone takes it as long as somebody takes from there.
    pub open spec fn fed(self, id: u64, chunk: Seq<u8>) -> (StreamView, SentKind) {
        match encoder_index(self.encoders, id) {
            Some(i) => {
                let (e, sent) = self.encoders[i].fed(chunk);
                (self.put(i, e), sent)
            },
            None => match orphan_index(self.orphans, id) {
                Some(k) => {
                    let (feed, sent) = self.orphans[k].1.send(chunk);
                    (StreamView { orphans: self.orphans.update(k, (id, feed)), ..self }, sent)
                },
                None => (self, SentKind::Gone),
            },
        }
    }

    /// The stream after the next chunk was taken for ffmpeg.
    pub open spec fn fetched(self, id: u64) -> (StreamView, ReceivedView) {
        match encoder_index(self.encoders, id) {
            Some(i) => {
                let (e, received) = self.encoders[i].fetched();
                (self.put(i, e), received)
            },
            None => match orphan_index(self.orphans, id) {
                Some(k) => {
                    let (feed, received) = self.orphans[k].1.receive();
                    (StreamView { orphans: self.orphans.update(k, (id, feed)), ..self }, received)
                },
                None => (self, ReceivedView::Closed),
            },
        }
    }

    /// The stream when nobody takes raw TS for ffmpeg any more.
    pub open spec fn starved(self, id: u64) -> StreamView {
        match encoder_index(self.encoders, id) {
            Some(i) => self.put(i, self.encoders[i].starved()),
            None => match orphan_index(self.orphans, id) {
                Some(k) => StreamView { orphans: self.orphans.remove(k), ..self },
                None => self,
            },
        }
    }
}

impl EngineStream {
    /// What holds of every stream.
    pub closed spec fn wf(&self) -> bool {
        &&& self@.sound()
        &&& self.replay.wf()
        &&& forall|i: int| 0 <= i < self.encoders@.len() ==> (#[trigger] self.encoders@[i]).wf()
    }

    /// A well-formed stream is sound.
    pub proof fn lemma_sound(&self)
        requires
            self.wf(),
        ensures
            self@.sound(),
    {
    }

    /// A stream that was just opened for one request, which holds it.
    pub fn new(serial: u64, content_id: &str, now: u64) -> (s: Self)
        ensures
            s.wf(),
            s@ == StreamView::fresh(serial, content_id@, now),
    {
        let s = EngineStream {
            serial,
            content_id: content_id.to_owned(),
            started: now,
            bytes_in: 0,
            session: None,
            probe: None,
            stats: None,
            replay: Replay::new(),
            encoders: Vec::new(),
            orphans: Vec::new(),
            next_encoder: 0,
            creating: false,
            start: Start::Pending,
            holders: 1,
            pulling: false,
            polling: false,
        };
        assert(s@ == StreamView::fresh(serial, content_id@, now));
        s
    }

    pub fn serial(&self) -> (r: u64)
        ensures
            r == self@.serial,
    {
        self.serial
    }

    pub fn content_id(&self) -> (r: &str)
        ensures
            r@ == self@.content_id,
    {
        self.content_id.as_str()
    }

    /// When the stream was opened, in milliseconds.
    pub fn started(&self) -> (r: u64)
        ensures
            r == self@.started,
    {
        self.started
    }

    pub fn bytes_in(&self) -> (r: u64)
        ensures
            r == self@.bytes_in,
    {
        self.bytes_in
    }

    /// The codecs of the source, once they are known.
    pub fn probe(&self) -> (r: Option<&Probe>)
        ensures
            match r {
                Some(p) => self@.probe == Some(p@),
                None => self@.probe is None,
            },
    {
        self.probe.as_ref()
    }

    /// The engine's statistics of the session, as they came last.
    pub fn stats(&self) -> (r: Option<Value>)
        ensures
            match r {
                Some(v) => self@.stats matches Some(s) && s.1 == json_of(v),
                None => self@.stats is None,
            },
    {
        match &self.stats {
            Some((_, v)) => Some(v.clone()),
            None => None,
        }
    }

    /// Where the engine's statistics of the session are to be had.
    pub fn stat_url(&self) -> (r: Option<String>)
        ensures
            text_of(r) == self@.stat_url(),
    {
        match &self.session {
            Some(s) => match &s.stat_url {
                Some(url) => Some(url.as_str().to_owned()),
                None => None,
            },
            None => None,
        }
    }

    /// Takes in the engine's statistics.
    pub fn record_stats(&mut self, now: u64, stats: Value)
        requires
            old(self).wf(),
        ensures
            final(self).wf(),
            final(self)@ == (StreamView { stats: Some((now, json_of(stats))), ..old(self)@ }),
    {
        self.stats = Some((now, stats));
    }

    /// Takes in a chunk for the replay window.
    pub fn remember(&mut self, chunk: &[u8])
        requires
            old(self).wf(),
        ensures
            final(self).wf(),
            final(self)@ == (StreamView {
                replay: last_bytes(old(self)@.replay + chunk@, REPLAY_BYTES as nat),
                ..old(self)@
            }),
    {
        self.replay.remember(chunk);
    }

    /// The replay window, trimmed to start on a TS packet boundary.
    pub fn replay_window(&self) -> (r: Vec<u8>)
        requires
            self.wf(),
        ensures
            r@ == window_of(self@.replay),
    {
        self.replay.window()
    }

    /// Takes in a chunk that came from the engine.
    pub fn receive(&mut self, chunk: &[u8])
        requires
            old(self).wf(),
        ensures
            final(self).wf(),
            final(self)@ == old(self)@.received(chunk@),
    {
        self.bytes_in = self.bytes_in.wrapping_add(chunk.len() as u64);
        self.remember(chunk);
    }

    /// Tells those who wait how the start went.
    pub fn publish(&mut self, outcome: Result<(), String>)
        requires
            old(self).wf(),
        ensures
            final(self).wf(),
            final(self)@ == old(self)@.published(
                match outcome {
                    Ok(_) => Ok(()),
                    Err(e) => Err(e@),
                },
            ),
    {
        self.start = match outcome {
            Ok(_) => Start::Ready,
            Err(e) => Start::Failed(e),
        };
    }

    /// The engine serves the stream, and its tracks are known.
    pub fn come_up(&mut self, session: Session, probe: Probe)
        requires
            old(self).wf(),
        ensures
            final(self).wf(),
            final(self)@ == old(self)@.came_up(session@, probe@),
    {
        if self.session.is_none() {
            self.session = Some(session);
        }
        if self.probe.is_none() {
            self.probe = Some(probe);
        }
        self.publish(Ok(()));
    }

    /// Tells whether the start that a request has waited for since `began` is
    /// over.
    pub fn wait_ready(&self, began: u64, now: u64) -> (r: Waited)
        ensures
            r@ == self@.wait_ready(began, now),
    {
        match &self.start {
            Start::Ready => Waited::Ready,
            Start::Failed(e) => Waited::Fail(e.as_str().to_owned()),
            Start::Pending => {
                let left: u64 = left_of(START_TIMEOUT, began, now);
                if left == 0 {
                    Waited::Fail("timed out waiting for the engine stream to start".to_owned())
                } else {
                    Waited::Wait(left)
                }
            },
        }
    }

    /// One more request holds the stream.
    pub fn hold(&mut self)
        requires
            old(self).wf(),
            old(self)@.holders < u64::MAX,
        ensures
            final(self).wf(),
            final(self)@ == old(self)@.held(),
    {
        self.holders = self.holders + 1;
    }

    /// One less request holds the stream.
    pub fn let_go(&mut self)
        requires
            old(self).wf(),
            old(self)@.holders > 0,
        ensures
            final(self).wf(),
            final(self)@ == old(self)@.let_go(),
    {
        self.holders = self.holders - 1;
    }

    /// How many requests hold the stream.
    pub fn holders(&self) -> (r: u64)
        ensures
            r == self@.holders,
    {
        self.holders
    }

    /// Whether nobody holds the stream.
    pub fn is_idle(&self) -> (r: bool)
        ensures
            r == self@.idle(),
    {
        self.holders == 0 && self.encoders.len() == 0 && !self.pulling && !self.polling
    }

    /// The puller holds the stream, or lets go of it.
    pub fn set_pulling(&mut self, pulling: bool)
        requires
            old(self).wf(),
        ensures
            final(self).wf(),
            final(self)@ == (StreamView { pulling, ..old(self)@ }),
    {
        self.pulling = pulling;
    }

    /// Whoever asks for statistics holds the stream, or lets go of it.
    pub fn set_polling(&mut self, polling: bool)
        requires
            old(self).wf(),
        ensures
            final(self).wf(),
            final(self)@ == (StreamView { polling, ..old(self)@ }),
    {
        self.polling = polling;
    }

    /// Whether the stream can take another holder, another encoder, and another
    /// listener on every encoder.
    pub fn has_room(&self) -> (r: bool)
        ensures
            r == self@.roomy(),
    {
        if !(self.holders < u64::MAX && self.next_encoder < u64::MAX) {
            return false;
        }
        let mut i: usize = 0;
        while i < self.encoders.len()
            invariant
                i <= self.encoders@.len(),
                forall|k: int| 0 <= k < i ==> (#[trigger] self.encoders@[k])@.roomy(),
            decreases self.encoders.len() - i,
        {
            if !self.encoders[i].has_room() {
                assert(!self@.encoders[i as int].roomy());
                return false;
            }
            i += 1;
        }
        assert forall|k: int| 0 <= k < self@.encoders.len() implies (
        #[trigger] self@.encoders[k]).roomy() by {
            assert(self.encoders@[k]@.roomy());
        }
        true
    }

    /// Every encoder that is fed.
    pub fn live_encoders(&self) -> (r: Vec<&Encoder>)
        ensures
            r@.len() == fed_encoders(self@.encoders).len(),
            forall|i: int|
                0 <= i < r@.len() ==> (#[trigger] r@[i])@ == fed_encoders(self@.encoders)[i],
    {
        let ghost all = self@.encoders;
        let mut r: Vec<&Encoder> = Vec::new();
        let mut i: usize = 0;
        while i < self.encoders.len()
            invariant
                all == encoder_views(self.encoders@),
                i <= self.encoders@.len(),
                r@.len() == fed_encoders(all.take(i as int)).len(),
                forall|k: int|
                    0 <= k < r@.len() ==> (#[trigger] r@[k])@ == fed_encoders(
                        all.take(i as int),
                    )[k],
            decreases self.encoders.len() - i,
        {
            assert(all.take(i + 1).drop_last() == all.take(i as int));
            assert(all.take(i + 1).last() == self.encoders@[i as int]@);
            if self.encoders[i].is_registered() {
                r.push(&self.encoders[i]);
            }
            i += 1;
        }
        assert(all.take(i as int) == all);
        r
    }

    /// The encoders that what comes from the engine goes to.
    pub fn targets(&self) -> (r: Vec<(OutputFormat, u64)>)
        ensures
            r@ == self@.targets(),
    {
        let live = self.live_encoders();
        let mut r: Vec<(OutputFormat, u64)> = Vec::new();
        let mut i: usize = 0;
        while i < live.len()
            invariant
                live@.len() == fed_encoders(self@.encoders).len(),
                forall|k: int|
                    0 <= k < live@.len() ==> (#[trigger] live@[k])@ == fed_encoders(
                        self@.encoders,
                    )[k],
                i <= live@.len(),
                r@ == self@.targets().take(i as int),
            decreases live.len() - i,
        {
            r.push((live[i].fmt(), live[i].id()));
            assert(self@.targets().take(i + 1) == self@.targets().take(i as int).push(
                self@.targets()[i as int],
            ));
            i += 1;
        }
        assert(self@.targets().take(i as int) == self@.targets());
        r
    }

    /// Whether there is an encoder with this id.
    pub fn has_encoder(&self, id: u64) -> (r: bool)
        ensures
            r == (encoder_index(self@.encoders, id) is Some),
    {
        self.find_encoder(id).is_some()
    }

    /// The encoder with this id.
    pub fn encoder(&self, id: u64) -> (r: Option<&Encoder>)
        ensures
            match encoder_index(self@.encoders, id) {
                Some(i) => r is Some && r->0@ == self@.encoders[i],
                None => r is None,
            },
    {
        match self.find_encoder(id) {
            Some(i) => Some(&self.encoders[i]),
            None => None,
        }
    }

    /// How many bytes a listener was sent.
    pub fn bytes_sent(&self, id: u64, sub: &Subscription) -> (n: u64)
        ensures
            n == self@.sent_to(id, sub.id()),
    {
        match self.find_encoder(id) {
            Some(i) => sub.bytes_sent(&self.encoders[i]),
            None => 0,
        }
    }

    /// The place of the encoder with this id.
    fn find_encoder(&self, id: u64) -> (r: Option<usize>)
        ensures
            match r {
                Some(i) => {
                    &&& i < self.encoders@.len()
                    &&& encoder_index(self@.encoders, id) == Some(i as int)
                    &&& self@.encoders[i as int] == self.encoders@[i as int]@
                },
                None => encoder_index(self@.encoders, id) is None,
            },
    {
        let ghost all = self@.encoders;
        let mut i: usize = self.encoders.len();
        assert(all.take(i as int) == all);
        while i > 0
            invariant
                all == encoder_views(self.encoders@),
                all == self@.encoders,
                i <= self.encoders@.len(),
                encoder_index(all.take(i as int), id) == encoder_index(all, id),
            decreases i,
        {
            assert(all.take(i as int).drop_last() == all.take(i - 1));
            assert(all.take(i as int).last() == self.encoders@[i - 1]@);
            i -= 1;
            if self.encoders[i].id() == id {
                return Some(i);
            }
        }
        None
    }

    /// The place of the feed of the encoder with this id, which is gone.
    fn find_orphan(&self, id: u64) -> (r: Option<usize>)
        ensures
            match r {
                Some(k) => {
                    &&& k < self.orphans@.len()
                    &&& orphan_index(self@.orphans, id) == Some(k as int)
                    &&& self@.orphans[k as int] == (id, self.orphans@[k as int].1@)
                },
                None => orphan_index(self@.orphans, id) is None,
            },
    {
        let ghost all = self@.orphans;
        let mut k: usize = self.orphans.len();
        assert(all.take(k as int) == all);
        while k > 0
            invariant
                all == orphan_views(self.orphans@),
                all == self@.orphans,
                k <= self.orphans@.len(),
                orphan_index(all.take(k as int), id) == orphan_index(all, id),
            decreases k,
        {
            assert(all.take(k as int).drop_last() == all.take(k - 1));
            assert(all.take(k as int).last() == all[k - 1]);
            k -= 1;
            if self.orphans[k].0 == id {
                return Some(k);
            }
        }
        None
    }

    /// The place of the encoder that is fed for this format.
    fn find_fed(&self, fmt: OutputFormat) -> (r: Option<usize>)
        ensures
            match r {
                Some(i) => {
                    &&& i < self.encoders@.len()
                    &&& fed_index(self@.encoders, fmt) == Some(i as int)
                    &&& self@.encoders[i as int] == self.encoders@[i as int]@
                },
                None => fed_index(self@.encoders, fmt) is None,
            },
    {
        let ghost all = self@.encoders;
        let mut i: usize = self.encoders.len();
        assert(all.take(i as int) == all);
        while i > 0
            invariant
                all == encoder_views(self.encoders@),
                all == self@.encoders,
                i <= self.encoders@.len(),
                fed_index(all.take(i as int), fmt) == fed_index(all, fmt),
            decreases i,
        {
            assert(all.take(i as int).drop_last() == all.take(i - 1));
            assert(all.take(i as int).last() == self.encoders@[i - 1]@);
            i -= 1;
            if self.encoders[i].is_registered() && self.encoders[i].fmt() == fmt {
                return Some(i);
            }
        }
        None
    }

    /// Lets the encoder at `i` go, if nobody holds it. It is what has changed
    /// since `before`.
    fn sweep(&mut self, i: usize, Ghost(before): Ghost<EngineStream>)
        requires
            before.wf(),
            i < before.encoders@.len(),
            *old(self) == (EngineStream { encoders: old(self).encoders, ..before }),
            old(self).encoders@ == before.encoders@.update(
                i as int,
                old(self).encoders@[i as int],
            ),
            old(self).encoders@[i as int].wf(),
            old(self).encoders@[i as int]@.id == before.encoders@[i as int]@.id,
            old(self).encoders@[i as int]@.fmt == before.encoders@[i as int]@.fmt,
            old(self).encoders@[i as int]@.registered() ==> before.encoders@[i as int]@.registered(),
        ensures
            final(self).wf(),
            final(self)@ == before@.put(i as int, old(self).encoders@[i as int]@),
    {
        let ghost list = self.encoders@;
        let ghost e = list[i as int]@;
        proof {
            list[i as int].lemma_sound();
            assert(before@.encoders[i as int] == before.encoders@[i as int]@);
            lemma_put_sound(before@, i as int, e);
        }
        if self.encoders[i].is_idle() {
            let gone = self.encoders.remove(i);
            if gone.has_taker() {
                let ghost orphans = self.orphans@;
                let id: u64 = gone.id();
                let mut feed = gone.into_feed();
                feed.close_sender();
                self.orphans.push((id, feed));
                assert(orphan_views(self.orphans@) == orphan_views(orphans).push((id, feed@)));
            }
        }
        assert(encoder_views(self.encoders@) == before@.put(i as int, e).encoders);
        assert(self@ == before@.put(i as int, e));
    }
}

impl EngineStream {
    /// A request asks for an encoder of this format: it gets hold of the one
    /// that runs, or is to start one.
    pub fn get_or_start_encoder(&mut self, fmt: OutputFormat, frag_ms: FragDurationMs) -> (r:
        Encoding)
        requires
            old(self).wf(),
            old(self)@.roomy(),
        ensures
            final(self).wf(),
            (final(self)@, r@) == old(self)@.get_or_start_encoder(fmt, frag_ms),
    {
        if self.creating {
            return Encoding::Busy;
        }
        match self.find_fed(fmt) {
            Some(i) => if !self.encoders[i].is_finished() {
                let ghost before = *self;
                let id: u64 = self.encoders[i].id();
                self.encoders[i].hold();
                self.sweep(i, Ghost(before));
                return Encoding::Existing(id);
            },
            None => {},
        }
        match &self.probe {
            None => Encoding::Fail("engine stream has no probe result".to_owned()),
            Some(probe) => {
                let codec = match &probe.audio {
                    Some(c) => Some(c.as_str()),
                    None => None,
                };
                assert(codec_text(codec) == probe@.audio);
                let p = plan(fmt, codec, frag_ms);
                self.creating = true;
                Encoding::Start(p)
            },
        }
    }

    /// The encoder that is fed for this format is fed no more. Tells whether
    /// there was one.
    pub fn deregister(&mut self, fmt: OutputFormat) -> (r: bool)
        requires
            old(self).wf(),
        ensures
            final(self).wf(),
            final(self)@ == old(self)@.unfed(fmt),
            r == (fed_index(old(self)@.encoders, fmt) is Some),
    {
        match self.find_fed(fmt) {
            None => false,
            Some(i) => {
                let ghost before = *self;
                self.encoders[i].deregister();
                self.sweep(i, Ghost(before));
                true
            },
        }
    }

    /// Registers an encoder whose ffmpeg was just started, and gives its id with
    /// what it is to be primed with.
    ///
    /// The replay window is taken and the encoder registered in one step. Taken
    /// separately, a chunk could be in the window and come again live, or be in
    /// neither.
    pub fn start_encoder(&mut self, fmt: OutputFormat, video: TrackMode, audio: TrackMode, now: u64)
        -> (r: (u64, Vec<u8>))
        requires
            old(self).wf(),
            old(self)@.next_encoder < u64::MAX,
        ensures
            final(self).wf(),
            final(self)@ == old(self)@.started(fmt, video, audio, now),
            r.0 == old(self)@.next_encoder,
            r.1@ == window_of(old(self)@.replay),
    {
        let ghost before = self@;
        proof {
            lemma_fed_index(before.encoders, fmt);
        }
        let replaced = self.deregister(fmt);
        let prime = self.replay_window();
        let id: u64 = self.next_encoder;
        let encoder = Encoder::new(id, self.content_id.as_str(), fmt, video, audio, now);
        let ghost fed = self@;
        let ghost list = self.encoders@;
        self.encoders.push(encoder);
        self.next_encoder = id + 1;
        proof {
            encoder.lemma_sound();
            assert(encoder_views(self.encoders@) == fed.encoders.push(encoder@));
            assert(self@ == before.started(fmt, video, audio, now));
            assert forall|k: int| 0 <= k < list.len() implies (#[trigger] self@.encoders[k])
                == fed.encoders[k] && !(fed.encoders[k].registered() && fed.encoders[k].fmt
                == fmt) by {
                lemma_unfed(before, fmt, k);
            }
        }
        (id, prime)
    }

    /// A request that was to start an encoder is done with it, whether it could or
    /// not.
    pub fn end_creation(&mut self)
        requires
            old(self).wf(),
        ensures
            final(self).wf(),
            final(self)@ == (StreamView { creating: false, ..old(self)@ }),
    {
        self.creating = false;
    }

    /// A request that holds an encoder asks to listen to it.
    pub fn subscribe(&mut self, id: u64, peer: &str, began: u64, now: u64) -> (r: Option<Joined>)
        requires
            old(self).wf(),
            old(self)@.roomy(),
        ensures
            final(self).wf(),
            (
                final(self)@,
                match r {
                    Some(j) => Some(j@),
                    None => None,
                },
            ) == old(self)@.subscribe(id, peer@, began, now),
    {
        match self.find_encoder(id) {
            None => None,
            Some(i) => {
                let ghost before = *self;
                if self.encoders[i].joining() == 0 {
                    return None;
                }
                let r = self.encoders[i].subscribe(peer, began, now);
                self.sweep(i, Ghost(before));
                Some(r)
            },
        }
    }

    /// A request lets go of an encoder.
    pub fn release_encoder(&mut self, id: u64)
        requires
            old(self).wf(),
        ensures
            final(self).wf(),
            final(self)@ == old(self)@.encoder_let_go(id),
    {
        match self.find_encoder(id) {
            None => {},
            Some(i) => {
                let ghost before = *self;
                if self.encoders[i].joining() > 0 {
                    self.encoders[i].let_go();
                    self.sweep(i, Ghost(before));
                }
            },
        }
    }

    /// A listener leaves an encoder.
    pub fn remove_listener(&mut self, id: u64, sub: Subscription)
        requires
            old(self).wf(),
        ensures
            final(self).wf(),
            final(self)@ == old(self)@.left(id, sub.id()),
    {
        match self.find_encoder(id) {
            None => {},
            Some(i) => {
                let ghost before = *self;
                self.encoders[i].remove_listener(sub);
                self.sweep(i, Ghost(before));
            },
        }
    }

    /// A listener reads up to `cap` bytes.
    pub fn read(&mut self, id: u64, sub: &Subscription, cap: usize) -> (r: Delivery)
        requires
            old(self).wf(),
        ensures
            final(self).wf(),
            (final(self)@, r@) == old(self)@.read(id, sub.id(), cap as nat),
    {
        match self.find_encoder(id) {
            None => Delivery::End,
            Some(i) => {
                let ghost before = *self;
                let r = sub.read(&mut self.encoders[i], cap);
                self.sweep(i, Ghost(before));
                r
            },
        }
    }

    /// Takes in what ffmpeg wrote. Tells whether the encoder is still there.
    pub fn drain_ffmpeg(&mut self, id: u64, chunk: Bytes) -> (r: bool)
        requires
            old(self).wf(),
        ensures
            final(self).wf(),
            final(self)@ == old(self)@.wrote(id, octets(chunk)),
            r == (encoder_index(old(self)@.encoders, id) is Some),
    {
        match self.find_encoder(id) {
            None => false,
            Some(i) => {
                let ghost before = *self;
                self.encoders[i].drain_ffmpeg(chunk);
                self.sweep(i, Ghost(before));
                true
            },
        }
    }

    /// Notes that ffmpeg's output has ended.
    pub fn finish(&mut self, id: u64)
        requires
            old(self).wf(),
        ensures
            final(self).wf(),
            final(self)@ == old(self)@.ended(id),
    {
        match self.find_encoder(id) {
            None => {},
            Some(i) => {
                let ghost before = *self;
                self.encoders[i].finish();
                self.sweep(i, Ghost(before));
            },
        }
    }

    /// Offers a chunk from the engine to an encoder.
    pub fn offer_feed(&mut self, id: u64, chunk: Bytes) -> (r: Sent)
        requires
            old(self).wf(),
        ensures
            final(self).wf(),
            (final(self)@, r.kind()) == old(self)@.fed(id, octets(chunk)),
            r matches Sent::Full(back) ==> octets(back) == octets(chunk),
    {
        match self.find_encoder(id) {
            None => match self.find_orphan(id) {
                Some(k) => {
                    let ghost before = self@.orphans;
                    let r = self.orphans[k].1.try_send(chunk);
                    assert(orphan_views(self.orphans@) == before.update(
                        k as int,
                        (id, self.orphans@[k as int].1@),
                    ));
                    r
                },
                None => Sent::Gone,
            },
            Some(i) => {
                let ghost before = *self;
                let r = self.encoders[i].offer_feed(chunk);
                self.sweep(i, Ghost(before));
                r
            },
        }
    }

    /// Takes the next chunk of raw TS for an encoder's ffmpeg.
    pub fn next_feed(&mut self, id: u64) -> (r: Received)
        requires
            old(self).wf(),
        ensures
            final(self).wf(),
            (final(self)@, r@) == old(self)@.fetched(id),
    {
        match self.find_encoder(id) {
            None => match self.find_orphan(id) {
                Some(k) => {
                    let ghost before = self@.orphans;
                    let r = self.orphans[k].1.try_receive();
                    assert(orphan_views(self.orphans@) == before.update(
                        k as int,
                        (id, self.orphans@[k as int].1@),
                    ));
                    r
                },
                None => Received::Closed,
            },
            Some(i) => {
                let ghost before = *self;
                let r = self.encoders[i].next_feed();
                self.sweep(i, Ghost(before));
                r
            },
        }
    }

    /// Nobody takes raw TS for an encoder's ffmpeg any more.
    pub fn stop_feed(&mut self, id: u64)
        requires
            old(self).wf(),
        ensures
            final(self).wf(),
            final(self)@ == old(self)@.starved(id),
    {
        match self.find_encoder(id) {
            None => match self.find_orphan(id) {
                Some(k) => {
                    let ghost before = self@.orphans;
                    let feed = self.orphans.remove(k);
                    assert(orphan_views(self.orphans@) == before.remove(k as int));
                },
                None => {},
            },
            Some(i) => {
                let ghost before = *self;
                self.encoders[i].stop_feed();
                self.sweep(i, Ghost(before));
            },
        }
    }
}

/// Once a format is not fed, no encoder of it is.
pub proof fn lemma_unfed(s: StreamView, fmt: OutputFormat, k: int)
    requires
        s.sound(),
        0 <= k < s.encoders.len(),
    ensures
        s.unfed(fmt).encoders.len() == s.encoders.len(),
        !(s.unfed(fmt).encoders[k].registered() && s.unfed(fmt).encoders[k].fmt == fmt),
{
    lemma_fed_index(s.encoders, fmt);
    if let Some(i) = fed_index(s.encoders, fmt) {
        if k < i {
            assert(s.encoders[k].registered() && s.encoders[i].registered() ==> s.encoders[k].fmt
                != s.encoders[i].fmt);
        } else if i < k {
            assert(s.encoders[i].registered() && s.encoders[k].registered() ==> s.encoders[i].fmt
                != s.encoders[k].fmt);
        }
    }
}

} // verus!
