//! The puller: one per content id, holding the sole engine connection.
//!
//! A [`Pull`] opens the engine session, reads a preroll and has it probed, and
//! then hands every chunk that comes to the encoders. It outlives its stream by
//! as much as it takes to notice, and stops the engine session at its end.

use bytes::Bytes;
use vstd::prelude::*;

use crate::encoder::{left_of, time_left};
use crate::engine::{
    getstream, getstream_url, handshake_reply, open_session, send_stop, settled, stop_url, Session,
    SessionView,
};
use crate::format::OutputFormat;
use crate::octets::{as_slice, octets};
use crate::queue::{Sent, SentKind};
use crate::registry::{Registry, RegistryView};
use crate::stream::{Probe, ProbeView};
use crate::text::{decimal, numeral, push_numeral, text_of};

verus! {

/// Read size for the engine pull and for ffmpeg output. A pipe read returns as
/// soon as any data is there, so this is an upper bound, not a batching delay.
pub const CHUNK: usize = 65536;

/// Bytes buffered from the engine before probing. Sized to match ffprobe's
/// `-probesize`.
pub const PREROLL: usize = 262144;

/// How long an encoder may fail to accept raw TS before it is torn down, in
/// milliseconds.
///
/// Must be generous. An AceStream engine prebuffers tens of megabytes and then
/// releases the lot at link speed, so at stream start the queue fills instantly
/// through no fault of the encoder. Blocking the puller is the correct response:
/// it stops reading, TCP flow control throttles the engine, and the burst drains
/// at the rate the encoders can actually consume.
pub const TS_STALL: u64 = 20000;

/// How long to wait before an encoder is offered a chunk again, in milliseconds.
pub const RETRY: u64 = 5;

/// How often the engine's statistics are asked for, in milliseconds.
pub const STATS_INTERVAL: u64 = 5000;

/// The player id of a pull that begins so many nanoseconds after the epoch.
pub open spec fn pid_at(nanos: nat) -> Seq<char> {
    "proxy-"@ + numeral(nanos, 16)
}

/// A player id that no other pull has, made from the time.
pub fn now_pid(nanos: u128) -> (s: String)
    ensures
        s@ == pid_at(nanos as nat),
{
    let mut s = "proxy-".to_owned();
    push_numeral(&mut s, nanos, 16);
    s
}

// ---------------------------------------------------------------------------
// Handing out a chunk
// ---------------------------------------------------------------------------

/// A chunk on its way to the encoders.
#[derive(Debug)]
struct Cargo {
    chunk: Bytes,
    targets: Vec<(OutputFormat, u64)>,
    /// How many targets are done with.
    at: usize,
    /// Since when the next target has been offered the chunk.
    since: u64,
    /// The formats whose encoders did not take the chunk.
    wedged: Vec<OutputFormat>,
}

/// What a chunk on its way is.
#[verifier::ext_equal]
pub struct CargoView {
    pub chunk: Seq<u8>,
    /// The encoders that have yet to get it, in order.
    pub targets: Seq<(OutputFormat, u64)>,
    /// Since when the first of them has been offered it.
    pub since: u64,
    /// The formats whose encoders did not take it.
    pub wedged: Seq<OutputFormat>,
}

impl View for Cargo {
    type V = CargoView;

    closed spec fn view(&self) -> CargoView {
        CargoView {
            chunk: octets(self.chunk),
            targets: self.targets@.skip(self.at as int),
            since: self.since,
            wedged: self.wedged@,
        }
    }
}

/// The registry once the encoders of these formats are fed no more.
pub open spec fn unfed_all(r: RegistryView, serial: u64, formats: Seq<OutputFormat>) -> RegistryView
    decreases formats.len(),
{
    if formats.len() == 0 {
        r
    } else {
        unfed_all(r.unfed(serial, formats[0]), serial, formats.drop_first())
    }
}

impl CargoView {
    /// The chunk when its next target is done with.
    pub open spec fn next(self, now: u64) -> CargoView {
        CargoView { targets: self.targets.drop_first(), since: now, ..self }
    }

    /// The chunk when its next target will not take it.
    pub open spec fn refused(self, now: u64) -> CargoView {
        CargoView { wedged: self.wedged.push(self.targets[0].0), ..self.next(now) }
    }

    /// Hands the chunk to one encoder after the other, waiting for room rather
    /// than giving up.
    ///
    /// This is the opposite policy from a listener's, deliberately. Evicting a
    /// *listener* costs that listener alone and it can reconnect; dropping an
    /// *encoder* kills every listener on it and restarts ffmpeg. So here the
    /// puller blocks, which is also the only way to signal the engine to slow
    /// down, and only gives up after [`TS_STALL`].
    pub open spec fn deliver(self, r: RegistryView, serial: u64, now: u64) -> (
        RegistryView,
        CargoView,
    )
        decreases self.targets.len(),
    {
        if self.targets.len() == 0 {
            (r, self)
        } else {
            let (r2, sent) = r.fed(serial, self.targets[0].1, self.chunk);
            match sent {
                SentKind::Done => self.next(now).deliver(r2, serial, now),
                SentKind::Gone => self.refused(now).deliver(r2, serial, now),
                SentKind::Full => if time_left(TS_STALL, self.since, now) == 0 {
                    self.refused(now).deliver(r2, serial, now)
                } else {
                    (r2, self)
                },
            }
        }
    }
}

impl Registry {
    /// Hands a chunk to one encoder after the other, as far as they take it.
    fn deliver(&mut self, serial: u64, cargo: &mut Cargo, now: u64)
        requires
            old(self).wf(),
            old(cargo).at <= old(cargo).targets@.len(),
        ensures
            final(self).wf(),
            final(cargo).at <= final(cargo).targets@.len(),
            (final(self)@, final(cargo)@) == old(cargo)@.deliver(old(self)@, serial, now),
    {
        let ghost goal = cargo@.deliver(self@, serial, now);
        while cargo.at < cargo.targets.len()
            invariant
                self.wf(),
                cargo.at <= cargo.targets@.len(),
                goal == old(cargo)@.deliver(old(self)@, serial, now),
                cargo@.deliver(self@, serial, now) == goal,
            decreases cargo.targets@.len() - cargo.at,
        {
            let ghost before = cargo@;
            let (fmt, id) = cargo.targets[cargo.at];
            assert(before.targets[0] == (fmt, id));
            assert(before.targets.drop_first() == cargo.targets@.skip(cargo.at + 1));
            let refused: bool = match self.offer_feed(serial, id, cargo.chunk.clone()) {
                Sent::Done => false,
                Sent::Gone => true,
                Sent::Full(_) => if left_of(TS_STALL, cargo.since, now) == 0 {
                    true
                } else {
                    return ;
                },
            };
            if refused {
                cargo.wedged.push(fmt);
            }
            cargo.at = cargo.at + 1;
            cargo.since = now;
            assert(cargo@ == if refused {
                before.refused(now)
            } else {
                before.next(now)
            });
        }
        assert(cargo@.targets.len() == 0);
    }

    /// The encoders of these formats are fed no more.
    fn deregister_all(&mut self, serial: u64, formats: &Vec<OutputFormat>)
        requires
            old(self).wf(),
        ensures
            final(self).wf(),
            final(self)@ == unfed_all(old(self)@, serial, formats@),
    {
        let mut i: usize = 0;
        let ghost goal = unfed_all(self@, serial, formats@);
        assert(formats@.skip(0) == formats@);
        while i < formats.len()
            invariant
                self.wf(),
                i <= formats@.len(),
                unfed_all(self@, serial, formats@.skip(i as int)) == goal,
            decreases formats.len() - i,
        {
            assert(formats@.skip(i as int).drop_first() == formats@.skip(i + 1));
            let fed = self.deregister(serial, formats[i]);
            i += 1;
        }
        assert(formats@.skip(i as int).len() == 0);
    }
}

// ---------------------------------------------------------------------------
// The pull
// ---------------------------------------------------------------------------

/// How far a pull has come.
#[derive(Debug)]
enum Phase {
    Opening,
    Connecting,
    Prerolling(Vec<u8>),
    Probing,
    Reading,
    Sending(Cargo),
    Over,
}

/// How far a pull has come.
#[verifier::ext_equal]
pub enum PhaseView {
    /// It waits for the answer to the handshake.
    Opening,
    /// It waits for the stream to open.
    Connecting,
    /// It has read this much of the preroll.
    Prerolling(Seq<u8>),
    /// It waits for the preroll to be probed.
    Probing,
    /// It waits for more from the engine.
    Reading,
    /// It hands a chunk to the encoders.
    Sending(CargoView),
    /// It has ended.
    Over,
}

impl View for Phase {
    type V = PhaseView;

    closed spec fn view(&self) -> PhaseView {
        match self {
            Phase::Opening => PhaseView::Opening,
            Phase::Connecting => PhaseView::Connecting,
            Phase::Prerolling(b) => PhaseView::Prerolling(b@),
            Phase::Probing => PhaseView::Probing,
            Phase::Reading => PhaseView::Reading,
            Phase::Sending(c) => PhaseView::Sending(c@),
            Phase::Over => PhaseView::Over,
        }
    }
}

/// An engine pull in the making, and then at work.
#[derive(Debug)]
pub struct Pull {
    serial: u64,
    engine_host: String,
    content_id: String,
    pid: String,
    session: Option<Session>,
    phase: Phase,
}

/// What a `Pull` holds.
#[verifier::ext_equal]
pub struct PullView {
    /// The stream that it pulls for.
    pub serial: u64,
    pub engine_host: Seq<char>,
    pub content_id: Seq<char>,
    pub pid: Seq<char>,
    pub session: Option<SessionView>,
    pub phase: PhaseView,
}

impl View for Pull {
    type V = PullView;

    closed spec fn view(&self) -> PullView {
        PullView {
            serial: self.serial,
            engine_host: self.engine_host@,
            content_id: self.content_id@,
            pid: self.pid@,
            session: match self.session {
                Some(s) => Some(s@),
                None => None,
            },
            phase: self.phase@,
        }
    }
}

/// What has happened since the last step.
#[derive(Debug)]
pub enum PullEvent {
    /// What the request for the handshake brought.
    Handshake(Result<String, String>),
    /// The status that the stream was opened with, or why it could not be.
    Opened(Result<u16, String>),
    /// Bytes that were read.
    Data(Bytes),
    /// The engine closed the stream.
    End,
    /// Reading failed.
    Broken(String),
    /// What probing the preroll found.
    Probed(Result<Probe, String>),
    /// Time has passed.
    Tick,
}

/// What a `PullEvent` says.
#[verifier::ext_equal]
pub enum PullEventView {
    Handshake(Result<String, String>),
    Opened(Result<u16, Seq<char>>),
    Data(Seq<u8>),
    End,
    Broken(Seq<char>),
    Probed(Result<ProbeView, Seq<char>>),
    Tick,
}

impl View for PullEvent {
    type V = PullEventView;

    open spec fn view(&self) -> PullEventView {
        match self {
            PullEvent::Handshake(h) => PullEventView::Handshake(*h),
            PullEvent::Opened(Ok(status)) => PullEventView::Opened(Ok(*status)),
            PullEvent::Opened(Err(e)) => PullEventView::Opened(Err(e@)),
            PullEvent::Data(b) => PullEventView::Data(octets(*b)),
            PullEvent::End => PullEventView::End,
            PullEvent::Broken(e) => PullEventView::Broken(e@),
            PullEvent::Probed(Ok(p)) => PullEventView::Probed(Ok(p@)),
            PullEvent::Probed(Err(e)) => PullEventView::Probed(Err(e@)),
            PullEvent::Tick => PullEventView::Tick,
        }
    }
}

/// What is to be done next.
#[derive(Debug)]
pub enum PullAction {
    /// Open the stream at this URL.
    Open(String),
    /// Read up to this many bytes of the stream.
    Read(usize),
    /// Probe these bytes.
    Probe(Vec<u8>),
    /// Wait for this many milliseconds.
    Sleep(u64),
    /// End, and request this URL before, if there is one.
    Stop(Option<String>),
    /// Nothing: the event was not one to wait for.
    Ignore,
}

/// What a `PullAction` says.
#[verifier::ext_equal]
pub enum PullActionView {
    Open(Seq<char>),
    Read(nat),
    Probe(Seq<u8>),
    Sleep(u64),
    Stop(Option<Seq<char>>),
    Ignore,
}

impl View for PullAction {
    type V = PullActionView;

    open spec fn view(&self) -> PullActionView {
        match self {
            PullAction::Open(url) => PullActionView::Open(url@),
            PullAction::Read(cap) => PullActionView::Read(*cap as nat),
            PullAction::Probe(b) => PullActionView::Probe(b@),
            PullAction::Sleep(ms) => PullActionView::Sleep(*ms),
            PullAction::Stop(url) => PullActionView::Stop(text_of(*url)),
            PullAction::Ignore => PullActionView::Ignore,
        }
    }
}

/// A registry, a pull and what is to be done.
pub type PullStep = (RegistryView, PullView, PullActionView);

impl PullView {
    /// A pull that begins, and the URL to request for its handshake.
    pub open spec fn begun(
        serial: u64,
        engine_host: Seq<char>,
        content_id: Seq<char>,
        pid: Seq<char>,
    ) -> (PullView, Seq<char>) {
        (
            PullView {
                serial,
                engine_host,
                content_id,
                pid,
                session: None,
                phase: PhaseView::Opening,
            },
            getstream(engine_host, content_id, pid, true),
        )
    }

    /// The pull in another phase.
    pub open spec fn at(self, phase: PhaseView) -> PullView {
        PullView { phase, ..self }
    }

    /// What to request so that the engine drops the session.
    pub open spec fn farewell(self) -> Option<Seq<char>> {
        match self.session {
            Some(s) => match s.command_url {
                Some(url) => Some(stop_url(url)),
                None => None,
            },
            None => None,
        }
    }

    /// The pull ends.
    pub open spec fn stop(self, r: RegistryView) -> PullStep {
        (r, self.at(PhaseView::Over), PullActionView::Stop(self.farewell()))
    }

    /// The pull ends before its stream is up, and tells why.
    pub open spec fn fail(self, r: RegistryView, reason: Seq<char>) -> PullStep {
        self.stop(r.published(self.serial, Err(reason)))
    }

    /// What the handshake brings.
    pub open spec fn shaken(self, r: RegistryView, handshake: Result<String, String>) -> PullStep {
        match settled(
            getstream(self.engine_host, self.content_id, self.pid, false),
            handshake_reply(handshake),
        ) {
            Err(e) => self.fail(r, e),
            Ok(s) => (
                r,
                PullView { session: Some(s), phase: PhaseView::Connecting, ..self },
                PullActionView::Open(s.playback_url),
            ),
        }
    }

    /// What opening the stream brings.
    pub open spec fn opened(self, r: RegistryView, outcome: Result<u16, Seq<char>>) -> PullStep {
        match outcome {
            Ok(status) => if status != 200 {
                self.fail(r, "engine returned http "@ + numeral(status as nat, 10))
            } else if r.has_stream(self.serial) {
                (
                    r,
                    self.at(PhaseView::Prerolling(Seq::empty())),
                    PullActionView::Read(PREROLL as nat),
                )
            } else {
                self.stop(r)
            },
            Err(e) => self.fail(r, "could not open engine stream: "@ + e),
        }
    }

    /// More of the preroll has come.
    ///
    /// The preroll is the only thing that is probed: every format and every
    /// later listener reuses the result, so it costs one engine read window per
    /// content id rather than one per request. It is deliberately not replayed to
    /// encoders: it is already stale by the time the first one starts, and
    /// injecting old timestamps upsets the MP4 muxer.
    pub open spec fn prerolled(self, r: RegistryView, preroll: Seq<u8>) -> PullStep {
        if preroll.len() < PREROLL {
            (
                r,
                self.at(PhaseView::Prerolling(preroll)),
                PullActionView::Read((PREROLL - preroll.len()) as nat),
            )
        } else {
            self.probe(r, preroll)
        }
    }

    /// The preroll is complete.
    pub open spec fn probe(self, r: RegistryView, preroll: Seq<u8>) -> PullStep {
        (r, self.at(PhaseView::Probing), PullActionView::Probe(preroll))
    }

    /// What probing brings.
    pub open spec fn probed(
        self,
        r: RegistryView,
        outcome: Result<ProbeView, Seq<char>>,
    ) -> PullStep {
        match outcome {
            Err(e) => self.fail(r, "could not probe stream: "@ + e),
            Ok(probe) => match self.session {
                Some(session) => if r.has_stream(self.serial) {
                    (
                        r.came_up(self.serial, session, probe),
                        self.at(PhaseView::Reading),
                        PullActionView::Read(CHUNK as nat),
                    )
                } else {
                    self.stop(r)
                },
                None => self.stop(r),
            },
        }
    }

    /// A chunk has come. It is counted and remembered before it is offered to
    /// the encoders there are.
    ///
    /// Whether to go on depends on the stream, never on its encoders: there
    /// legitimately is none between the stream coming up and the first encoder
    /// registering, and ending on that would kill every cold start.
    pub open spec fn chunk(self, r: RegistryView, data: Seq<u8>, now: u64) -> PullStep {
        if r.has_stream(self.serial) {
            let r2 = r.received(self.serial, data);
            self.send(
                r2,
                CargoView {
                    chunk: data,
                    targets: r2.targets(self.serial),
                    since: now,
                    wedged: Seq::empty(),
                },
                now,
            )
        } else {
            self.stop(r)
        }
    }

    /// A chunk is handed to the encoders. Those that did not take it are fed no
    /// more. The pull holds the stream until the chunk is handed out, and no
    /// longer.
    pub open spec fn send(self, r: RegistryView, cargo: CargoView, now: u64) -> PullStep {
        let (r2, rest) = cargo.deliver(r, self.serial, now);
        if rest.targets.len() > 0 {
            (
                r2.pull_holds(self.serial, true),
                self.at(PhaseView::Sending(rest)),
                PullActionView::Sleep(RETRY),
            )
        } else {
            (
                unfed_all(r2, self.serial, rest.wedged).pull_holds(self.serial, false),
                self.at(PhaseView::Reading),
                PullActionView::Read(CHUNK as nat),
            )
        }
    }

    /// A step of the pull.
    pub open spec fn step(self, r: RegistryView, event: PullEventView, now: u64) -> PullStep {
        match (self.phase, event) {
            (PhaseView::Opening, PullEventView::Handshake(h)) => self.shaken(r, h),
            (PhaseView::Connecting, PullEventView::Opened(outcome)) => self.opened(r, outcome),
            (PhaseView::Prerolling(got), PullEventView::Data(d)) => self.prerolled(r, got + d),
            (PhaseView::Prerolling(got), PullEventView::End) => self.probe(r, got),
            (PhaseView::Prerolling(got), PullEventView::Broken(e)) => self.fail(
                r,
                "engine stream failed during preroll: "@ + e,
            ),
            (PhaseView::Probing, PullEventView::Probed(outcome)) => self.probed(r, outcome),
            (PhaseView::Reading, PullEventView::Data(d)) => self.chunk(r, d, now),
            (PhaseView::Reading, PullEventView::End) => self.stop(r),
            (PhaseView::Reading, PullEventView::Broken(e)) => self.stop(r),
            (PhaseView::Sending(cargo), PullEventView::Tick) => self.send(r, cargo, now),
            _ => (r, self, PullActionView::Ignore),
        }
    }
}

/// A message with a reason behind it.
fn because(message: &str, reason: &str) -> (s: String)
    ensures
        s@ == message@ + reason@,
{
    let mut s = message.to_owned();
    s.append(reason);
    s
}

impl Pull {
    /// What holds of every pull.
    pub closed spec fn wf(&self) -> bool {
        self.phase matches Phase::Sending(c) ==> c.at <= c.targets@.len()
    }

    /// A pull for a stream, and the URL to request for its handshake.
    pub fn new(serial: u64, engine_host: &str, content_id: &str, pid: &str) -> (r: (Self, String))
        ensures
            r.0.wf(),
            r.0@ == (PullView {
                serial,
                engine_host: engine_host@,
                content_id: content_id@,
                pid: pid@,
                session: None,
                phase: PhaseView::Opening,
            }),
            r.1@ == getstream(engine_host@, content_id@, pid@, true),
            (r.0@, r.1@) == PullView::begun(serial, engine_host@, content_id@, pid@),
    {
        let url = getstream_url(engine_host, content_id, pid, true);
        (
            Pull {
                serial,
                engine_host: engine_host.to_owned(),
                content_id: content_id.to_owned(),
                pid: pid.to_owned(),
                session: None,
                phase: Phase::Opening,
            },
            url,
        )
    }

    /// The stream that the pull is for.
    pub fn serial(&self) -> (r: u64)
        ensures
            r == self@.serial,
    {
        self.serial
    }

    /// What to request so that the engine drops the session.
    fn farewell(&self) -> (r: Option<String>)
        ensures
            text_of(r) == self@.farewell(),
    {
        match &self.session {
            Some(s) => match &s.command_url {
                Some(url) => Some(send_stop(url.as_str())),
                None => None,
            },
            None => None,
        }
    }

    /// The pull ends.
    fn stop(&mut self) -> (r: PullAction)
        ensures
            final(self).wf(),
            final(self)@ == old(self)@.at(PhaseView::Over),
            r@ == PullActionView::Stop(old(self)@.farewell()),
    {
        self.phase = Phase::Over;
        PullAction::Stop(self.farewell())
    }
}

impl Registry {
    /// A pull ends before its stream is up, and tells why.
    fn fail(&mut self, pull: &mut Pull, reason: String) -> (r: PullAction)
        requires
            old(self).wf(),
        ensures
            final(self).wf(),
            final(pull).wf(),
            (final(self)@, final(pull)@, r@) == old(pull)@.fail(old(self)@, reason@),
    {
        self.publish(pull.serial, Err(reason));
        pull.stop()
    }

    /// Hands a chunk to the encoders.
    fn send(&mut self, pull: &mut Pull, cargo: Cargo, now: u64) -> (r: PullAction)
        requires
            old(self).wf(),
            cargo.at <= cargo.targets@.len(),
        ensures
            final(self).wf(),
            final(pull).wf(),
            (final(self)@, final(pull)@, r@) == old(pull)@.send(old(self)@, cargo@, now),
    {
        let mut cargo = cargo;
        let serial: u64 = pull.serial;
        self.deliver(serial, &mut cargo, now);
        if cargo.at < cargo.targets.len() {
            self.set_pulling(serial, true);
            pull.phase = Phase::Sending(cargo);
            PullAction::Sleep(RETRY)
        } else {
            self.deregister_all(serial, &cargo.wedged);
            self.set_pulling(serial, false);
            pull.phase = Phase::Reading;
            PullAction::Read(CHUNK)
        }
    }

    /// Takes a pull one step further.
    pub fn pull(&mut self, pull: &mut Pull, event: PullEvent, now: u64) -> (r: PullAction)
        requires
            old(self).wf(),
            old(pull).wf(),
        ensures
            final(self).wf(),
            final(pull).wf(),
            (final(self)@, final(pull)@, r@) == old(pull)@.step(old(self)@, event@, now),
    {
        let mut phase = Phase::Over;
        std::mem::swap(&mut phase, &mut pull.phase);
        match phase {
            Phase::Opening => match event {
                PullEvent::Handshake(h) => match open_session(
                    pull.engine_host.as_str(),
                    pull.content_id.as_str(),
                    pull.pid.as_str(),
                    h,
                ) {
                    Err(e) => self.fail(pull, e),
                    Ok(s) => {
                        let url = s.playback_url.as_str().to_owned();
                        pull.session = Some(s);
                        pull.phase = Phase::Connecting;
                        PullAction::Open(url)
                    },
                },
                _ => {
                    pull.phase = Phase::Opening;
                    PullAction::Ignore
                },
            },
            Phase::Connecting => match event {
                PullEvent::Opened(Ok(status)) => if status != 200 {
                    let code = decimal(status as u64);
                    self.fail(pull, because("engine returned http ", code.as_str()))
                } else if self.has_stream(pull.serial) {
                    let preroll: Vec<u8> = Vec::new();
                    assert(preroll@ == Seq::<u8>::empty());
                    pull.phase = Phase::Prerolling(preroll);
                    PullAction::Read(PREROLL)
                } else {
                    pull.stop()
                },
                PullEvent::Opened(Err(e)) => {
                    self.fail(pull, because("could not open engine stream: ", e.as_str()))
                },
                _ => {
                    pull.phase = Phase::Connecting;
                    PullAction::Ignore
                },
            },
            Phase::Prerolling(got) => {
                let mut got = got;
                match event {
                    PullEvent::Data(d) => {
                        got.extend_from_slice(as_slice(&d));
                        if got.len() < PREROLL {
                            let left: usize = PREROLL - got.len();
                            pull.phase = Phase::Prerolling(got);
                            PullAction::Read(left)
                        } else {
                            pull.phase = Phase::Probing;
                            PullAction::Probe(got)
                        }
                    },
                    PullEvent::End => {
                        pull.phase = Phase::Probing;
                        PullAction::Probe(got)
                    },
                    PullEvent::Broken(e) => {
                        self.fail(
                            pull,
                            because("engine stream failed during preroll: ", e.as_str()),
                        )
                    },
                    _ => {
                        pull.phase = Phase::Prerolling(got);
                        PullAction::Ignore
                    },
                }
            },
            Phase::Probing => match event {
                PullEvent::Probed(Err(e)) => {
                    self.fail(pull, because("could not probe stream: ", e.as_str()))
                },
                PullEvent::Probed(Ok(probe)) => {
                    let session = match &pull.session {
                        Some(s) => Some(copy_session(s)),
                        None => None,
                    };
                    match session {
                        Some(s) => if self.has_stream(pull.serial) {
                            self.come_up(pull.serial, s, probe);
                            pull.phase = Phase::Reading;
                            PullAction::Read(CHUNK)
                        } else {
                            pull.stop()
                        },
                        None => pull.stop(),
                    }
                },
                _ => {
                    pull.phase = Phase::Probing;
                    PullAction::Ignore
                },
            },
            Phase::Reading => match event {
                PullEvent::Data(d) => if self.has_stream(pull.serial) {
                    self.receive(pull.serial, as_slice(&d));
                    let targets = self.targets(pull.serial);
                    let wedged: Vec<OutputFormat> = Vec::new();
                    let cargo = Cargo { chunk: d, targets, at: 0, since: now, wedged };
                    assert(cargo.targets@.skip(0) == cargo.targets@);
                    assert(cargo@ == (CargoView {
                        chunk: octets(d),
                        targets: self@.targets(pull.serial),
                        since: now,
                        wedged: Seq::empty(),
                    }));
                    self.send(pull, cargo, now)
                } else {
                    pull.stop()
                },
                PullEvent::End => pull.stop(),
                PullEvent::Broken(_) => pull.stop(),
                _ => {
                    pull.phase = Phase::Reading;
                    PullAction::Ignore
                },
            },
            Phase::Sending(cargo) => match event {
                PullEvent::Tick => self.send(pull, cargo, now),
                _ => {
                    pull.phase = Phase::Sending(cargo);
                    PullAction::Ignore
                },
            },
            Phase::Over => PullAction::Ignore,
        }
    }
}

/// A copy of a session.
fn copy_session(s: &Session) -> (r: Session)
    ensures
        r@ == s@,
{
    Session {
        playback_url: s.playback_url.as_str().to_owned(),
        stat_url: copy_text(&s.stat_url),
        command_url: copy_text(&s.command_url),
    }
}

/// A copy of an optional text.
fn copy_text(s: &Option<String>) -> (r: Option<String>)
    ensures
        text_of(r) == text_of(*s),
{
    match s {
        Some(t) => Some(t.as_str().to_owned()),
        None => None,
    }
}

} // verus!
