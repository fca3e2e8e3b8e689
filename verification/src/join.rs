//! The way of a request to becoming a listener.
//!
//! A [`Join`] asks for the engine pull of its content id, waits until that is up,
//! gets hold of an encoder of its format or has one started, and becomes a
//! listener on it. Every step tells what is to be done before the next.

use vstd::prelude::*;

use crate::encoder::{Joined, JoinedView, Subscription};
use crate::format::{OutputFormat, Plan, TrackMode};
use crate::registry::{Registry, RegistryView};
use crate::stream::{Encoding, EncodingView, Waited, WaitedView};
use crate::text::texts;

verus! {

/// How far a request has come.
#[derive(Debug, Clone, Copy, PartialEq, Eq, Structural)]
pub enum Stage {
    /// It has not asked for anything yet.
    Asking,
    /// It holds a stream and waits for it to start.
    Starting { serial: u64, began: u64 },
    /// It holds a stream and is to ask for an encoder.
    Acquiring { serial: u64 },
    /// It holds a stream and is starting ffmpeg for it.
    Spawning { serial: u64, video: TrackMode, audio: TrackMode },
    /// It holds a stream and an encoder, and is starting what feeds and drains
    /// that encoder's ffmpeg. Nobody else starts an encoder meanwhile.
    Running { serial: u64, id: u64 },
    /// It holds a stream and an encoder, and is to listen to that.
    Joining { serial: u64, id: u64, began: u64 },
    /// It listens, or has failed.
    Over,
}

/// A request to listen.
#[derive(Debug)]
pub struct Join {
    content_id: String,
    fmt: OutputFormat,
    peer: String,
    stage: Stage,
}

/// What a `Join` holds.
#[verifier::ext_equal]
pub struct JoinView {
    pub content_id: Seq<char>,
    pub fmt: OutputFormat,
    pub peer: Seq<char>,
    pub stage: Stage,
}

impl View for Join {
    type V = JoinView;

    closed spec fn view(&self) -> JoinView {
        JoinView {
            content_id: self.content_id@,
            fmt: self.fmt,
            peer: self.peer@,
            stage: self.stage,
        }
    }
}

/// What has happened since the last step.
#[derive(Debug)]
pub enum JoinEvent {
    /// Nothing but that time has passed, or that something may have changed.
    Proceed,
    /// The puller could not be started.
    PullerFailed(String),
    /// ffmpeg was started, or could not be.
    Spawned(Result<(), String>),
    /// What feeds ffmpeg could not be started.
    FeederFailed(String),
    /// What drains ffmpeg could not be started.
    DrainerFailed(String),
}

/// What a `JoinEvent` says.
#[verifier::ext_equal]
pub enum JoinEventView {
    Proceed,
    PullerFailed(Seq<char>),
    Spawned(Result<(), Seq<char>>),
    FeederFailed(Seq<char>),
    DrainerFailed(Seq<char>),
}

impl View for JoinEvent {
    type V = JoinEventView;

    open spec fn view(&self) -> JoinEventView {
        match self {
            JoinEvent::Proceed => JoinEventView::Proceed,
            JoinEvent::PullerFailed(e) => JoinEventView::PullerFailed(e@),
            JoinEvent::Spawned(r) => JoinEventView::Spawned(
                match r {
                    Ok(_) => Ok(()),
                    Err(e) => Err(e@),
                },
            ),
            JoinEvent::FeederFailed(e) => JoinEventView::FeederFailed(e@),
            JoinEvent::DrainerFailed(e) => JoinEventView::DrainerFailed(e@),
        }
    }
}

/// What is to be done before the next step.
#[derive(Debug)]
pub enum JoinAction {
    /// Nothing.
    Again,
    /// Wait until something changes, for up to this many milliseconds.
    Wait(u64),
    /// Wait until something changes.
    Busy,
    /// Start the puller of this stream.
    StartPuller(u64),
    /// Start ffmpeg by this plan.
    Spawn(Plan),
    /// Feed and drain the ffmpeg of this encoder, and begin by feeding it these
    /// bytes.
    Run { serial: u64, id: u64, prime: Vec<u8> },
    /// The request listens.
    Done { serial: u64, id: u64, sub: Subscription },
    /// The request has failed.
    Fail(String),
    /// The registry has no place for the request: a counter is at its end, or
    /// what it held is gone.
    Lost,
}

/// What a `JoinAction` says.
#[verifier::ext_equal]
pub enum JoinActionView {
    Again,
    Wait(u64),
    Busy,
    StartPuller(u64),
    Spawn { args: Seq<Seq<char>>, video: TrackMode, audio: TrackMode },
    Run { serial: u64, id: u64, prime: Seq<u8> },
    Done { serial: u64, id: u64, listener: u64 },
    Fail(Seq<char>),
    Lost,
}

impl View for JoinAction {
    type V = JoinActionView;

    open spec fn view(&self) -> JoinActionView {
        match self {
            JoinAction::Again => JoinActionView::Again,
            JoinAction::Wait(left) => JoinActionView::Wait(*left),
            JoinAction::Busy => JoinActionView::Busy,
            JoinAction::StartPuller(serial) => JoinActionView::StartPuller(*serial),
            JoinAction::Spawn(p) => JoinActionView::Spawn {
                args: texts(p.args@),
                video: p.video,
                audio: p.audio,
            },
            JoinAction::Run { serial, id, prime } => JoinActionView::Run {
                serial: *serial,
                id: *id,
                prime: prime@,
            },
            JoinAction::Done { serial, id, sub } => JoinActionView::Done {
                serial: *serial,
                id: *id,
                listener: sub.id(),
            },
            JoinAction::Fail(e) => JoinActionView::Fail(e@),
            JoinAction::Lost => JoinActionView::Lost,
        }
    }
}

/// A registry, a request and what is to be done.
pub type JoinStep = (RegistryView, JoinView, JoinActionView);

impl JoinView {
    /// The request at another stage.
    pub open spec fn at(self, stage: Stage) -> JoinView {
        JoinView { stage, ..self }
    }

    /// The request is over, and lets go of its stream.
    pub open spec fn close(self, r: RegistryView, serial: u64, action: JoinActionView) -> JoinStep {
        (r.released(serial), self.at(Stage::Over), action)
    }

    /// The request asks for its stream.
    pub open spec fn ask(self, r: RegistryView, now: u64) -> JoinStep {
        match r.engine_stream(self.content_id, now) {
            (r2, Some((serial, fresh))) => (
                r2,
                self.at(Stage::Starting { serial, began: now }),
                if fresh {
                    JoinActionView::StartPuller(serial)
                } else {
                    JoinActionView::Again
                },
            ),
            (r2, None) => (r2, self.at(Stage::Over), JoinActionView::Lost),
        }
    }

    /// The request looks whether its stream has started. Concurrent requests for
    /// the same cold id all wait here on one pull.
    pub open spec fn check_start(
        self,
        r: RegistryView,
        serial: u64,
        began: u64,
        now: u64,
    ) -> JoinStep {
        match r.wait_ready(serial, began, now) {
            None => self.close(r, serial, JoinActionView::Lost),
            Some(WaitedView::Ready) => (
                r,
                self.at(Stage::Acquiring { serial }),
                JoinActionView::Again,
            ),
            Some(WaitedView::Fail(e)) => self.close(r, serial, JoinActionView::Fail(e)),
            Some(WaitedView::Wait(left)) => (r, self, JoinActionView::Wait(left)),
        }
    }

    /// The request asks for an encoder.
    pub open spec fn acquire(self, r: RegistryView, serial: u64, now: u64) -> JoinStep {
        match r.get_or_start_encoder(serial, self.fmt) {
            (r2, None) => self.close(r2, serial, JoinActionView::Lost),
            (r2, Some(EncodingView::Existing(id))) => (
                r2,
                self.at(Stage::Joining { serial, id, began: now }),
                JoinActionView::Again,
            ),
            (r2, Some(EncodingView::Start { args, video, audio })) => (
                r2,
                self.at(Stage::Spawning { serial, video, audio }),
                JoinActionView::Spawn { args, video, audio },
            ),
            (r2, Some(EncodingView::Busy)) => (r2, self, JoinActionView::Busy),
            (r2, Some(EncodingView::Fail(e))) => self.close(r2, serial, JoinActionView::Fail(e)),
        }
    }

    /// The request has ffmpeg running, or has not.
    pub open spec fn spawned(
        self,
        r: RegistryView,
        serial: u64,
        video: TrackMode,
        audio: TrackMode,
        outcome: Result<(), Seq<char>>,
        now: u64,
    ) -> JoinStep {
        match outcome {
            Err(e) => self.close(
                r.creation_ended(serial),
                serial,
                JoinActionView::Fail("could not start ffmpeg: "@ + e),
            ),
            Ok(_) => match r.start_encoder(serial, self.fmt, video, audio, now) {
                (r2, Some((id, prime))) => (
                    r2,
                    self.at(Stage::Running { serial, id }),
                    JoinActionView::Run { serial, id, prime },
                ),
                (r2, None) => self.close(r2.creation_ended(serial), serial, JoinActionView::Lost),
            },
        }
    }

    /// The request asks to listen.
    pub open spec fn listen(
        self,
        r: RegistryView,
        serial: u64,
        id: u64,
        began: u64,
        now: u64,
    ) -> JoinStep {
        match r.join(serial, id, self.peer, began, now) {
            (r2, None) => self.close(
                r2.encoder_released(serial, id),
                serial,
                JoinActionView::Lost,
            ),
            (r2, Some(JoinedView::Done(listener))) => self.close(
                r2,
                serial,
                JoinActionView::Done { serial, id, listener },
            ),
            (r2, Some(JoinedView::Fail(e))) => self.close(r2, serial, JoinActionView::Fail(e)),
            (r2, Some(JoinedView::Wait(left))) => (r2, self, JoinActionView::Wait(left)),
        }
    }

    /// The request has its encoder's ffmpeg fed and drained.
    pub open spec fn run(self, r: RegistryView, serial: u64, id: u64, now: u64) -> JoinStep {
        (
            r.creation_ended(serial),
            self.at(Stage::Joining { serial, id, began: now }),
            JoinActionView::Again,
        )
    }

    /// The request gives up the encoder that it has started, with a reason.
    pub open spec fn give_up(
        self,
        r: RegistryView,
        serial: u64,
        id: u64,
        reason: Seq<char>,
    ) -> JoinStep {
        self.close(
            r.encoder_released(serial, id).creation_ended(serial),
            serial,
            JoinActionView::Fail(reason),
        )
    }

    /// A step of the request.
    pub open spec fn step(self, r: RegistryView, event: JoinEventView, now: u64) -> JoinStep {
        match (self.stage, event) {
            (Stage::Asking, JoinEventView::Proceed) => self.ask(r, now),
            (Stage::Starting { serial, began }, JoinEventView::Proceed) => self.check_start(
                r,
                serial,
                began,
                now,
            ),
            (Stage::Starting { serial, began }, JoinEventView::PullerFailed(e)) => self.close(
                r,
                serial,
                JoinActionView::Fail("could not start puller: "@ + e),
            ),
            (Stage::Acquiring { serial }, JoinEventView::Proceed) => self.acquire(r, serial, now),
            (Stage::Spawning { serial, video, audio }, JoinEventView::Spawned(outcome)) => {
                self.spawned(r, serial, video, audio, outcome, now)
            },
            (Stage::Running { serial, id }, JoinEventView::Proceed) => self.run(
                r,
                serial,
                id,
                now,
            ),
            (Stage::Running { serial, id }, JoinEventView::FeederFailed(e)) => self.give_up(
                r.starved(serial, id),
                serial,
                id,
                "could not start feeder: "@ + e,
            ),
            (Stage::Running { serial, id }, JoinEventView::DrainerFailed(e)) => self.give_up(
                r,
                serial,
                id,
                "could not start drainer: "@ + e,
            ),
            (Stage::Joining { serial, id, began }, JoinEventView::Proceed) => self.listen(
                r,
                serial,
                id,
                began,
                now,
            ),
            _ => (r, self, JoinActionView::Busy),
        }
    }
}

/// A message with a reason behind it.
fn because(message: &str, reason: &str) -> (s: String)
    ensures
        s@ == message@ + reason@,
{
    let mut s = message.to_owned();
    s.append(reason);
    s
}

impl Join {
    /// A request to listen to a content id in a format.
    pub fn new(content_id: &str, fmt: OutputFormat, peer: &str) -> (j: Self)
        ensures
            j@ == (JoinView {
                content_id: content_id@,
                fmt,
                peer: peer@,
                stage: Stage::Asking,
            }),
    {
        Join {
            content_id: content_id.to_owned(),
            fmt,
            peer: peer.to_owned(),
            stage: Stage::Asking,
        }
    }

    /// How far the request has come.
    pub fn stage(&self) -> (r: Stage)
        ensures
            r == self@.stage,
    {
        self.stage
    }
}

impl Registry {
    /// Takes a request to `content_id` in `fmt` one step further, starting the
    /// engine pull and the format's ffmpeg if they are not already running.
    ///
    /// The encoder is held until the request listens, so it cannot be torn down
    /// underneath a joiner waiting for its first fragment.
    pub fn subscribe(&mut self, join: &mut Join, event: JoinEvent, now: u64) -> (r: JoinAction)
        requires
            old(self).wf(),
        ensures
            final(self).wf(),
            (final(self)@, final(join)@, r@) == old(join)@.step(old(self)@, event@, now),
    {
        match join.stage {
            Stage::Asking => match event {
                JoinEvent::Proceed => match self.engine_stream(join.content_id.as_str(), now) {
                    Some((serial, fresh)) => {
                        join.stage = Stage::Starting { serial, began: now };
                        if fresh {
                            JoinAction::StartPuller(serial)
                        } else {
                            JoinAction::Again
                        }
                    },
                    None => {
                        join.stage = Stage::Over;
                        JoinAction::Lost
                    },
                },
                _ => JoinAction::Busy,
            },
            Stage::Starting { serial, began } => match event {
                JoinEvent::Proceed => match self.wait_ready(serial, began, now) {
                    Some(Waited::Ready) => {
                        join.stage = Stage::Acquiring { serial };
                        JoinAction::Again
                    },
                    Some(Waited::Wait(left)) => JoinAction::Wait(left),
                    Some(Waited::Fail(e)) => self.close(join, serial, JoinAction::Fail(e)),
                    None => self.close(join, serial, JoinAction::Lost),
                },
                JoinEvent::PullerFailed(e) => {
                    let message = because("could not start puller: ", e.as_str());
                    self.close(join, serial, JoinAction::Fail(message))
                },
                _ => JoinAction::Busy,
            },
            Stage::Acquiring { serial } => match event {
                JoinEvent::Proceed => match self.get_or_start_encoder(serial, join.fmt) {
                    Some(Encoding::Existing(id)) => {
                        join.stage = Stage::Joining { serial, id, began: now };
                        JoinAction::Again
                    },
                    Some(Encoding::Start(plan)) => {
                        join.stage = Stage::Spawning {
                            serial,
                            video: plan.video,
                            audio: plan.audio,
                        };
                        JoinAction::Spawn(plan)
                    },
                    Some(Encoding::Busy) => JoinAction::Busy,
                    Some(Encoding::Fail(e)) => self.close(join, serial, JoinAction::Fail(e)),
                    None => self.close(join, serial, JoinAction::Lost),
                },
                _ => JoinAction::Busy,
            },
            Stage::Spawning { serial, video, audio } => match event {
                JoinEvent::Spawned(Ok(_)) => match self.start_encoder(
                    serial,
                    join.fmt,
                    video,
                    audio,
                    now,
                ) {
                    Some((id, prime)) => {
                        join.stage = Stage::Running { serial, id };
                        JoinAction::Run { serial, id, prime }
                    },
                    None => {
                        self.end_creation(serial);
                        self.close(join, serial, JoinAction::Lost)
                    },
                },
                JoinEvent::Spawned(Err(e)) => {
                    let message = because("could not start ffmpeg: ", e.as_str());
                    self.end_creation(serial);
                    self.close(join, serial, JoinAction::Fail(message))
                },
                _ => JoinAction::Busy,
            },
            Stage::Running { serial, id } => match event {
                JoinEvent::Proceed => {
                    self.end_creation(serial);
                    join.stage = Stage::Joining { serial, id, began: now };
                    JoinAction::Again
                },
                JoinEvent::FeederFailed(e) => {
                    let message = because("could not start feeder: ", e.as_str());
                    self.stop_feed(serial, id);
                    self.give_up(join, serial, id, message)
                },
                JoinEvent::DrainerFailed(e) => {
                    let message = because("could not start drainer: ", e.as_str());
                    self.give_up(join, serial, id, message)
                },
                _ => JoinAction::Busy,
            },
            Stage::Joining { serial, id, began } => match event {
                JoinEvent::Proceed => match self.join(serial, id, join.peer.as_str(), began, now) {
                    Some(Joined::Done(sub)) => self.close(
                        join,
                        serial,
                        JoinAction::Done { serial, id, sub },
                    ),
                    Some(Joined::Fail(e)) => self.close(join, serial, JoinAction::Fail(e)),
                    Some(Joined::Wait(left)) => JoinAction::Wait(left),
                    None => {
                        self.release_encoder(serial, id);
                        self.close(join, serial, JoinAction::Lost)
                    },
                },
                _ => JoinAction::Busy,
            },
            Stage::Over => JoinAction::Busy,
        }
    }

    /// The request gives up the encoder that it has started, with a reason.
    fn give_up(&mut self, join: &mut Join, serial: u64, id: u64, reason: String) -> (r: JoinAction)
        requires
            old(self).wf(),
        ensures
            final(self).wf(),
            (final(self)@, final(join)@, r@) == old(join)@.give_up(
                old(self)@,
                serial,
                id,
                reason@,
            ),
    {
        self.release_encoder(serial, id);
        self.end_creation(serial);
        self.close(join, serial, JoinAction::Fail(reason))
    }

    /// The request is over, and lets go of its stream.
    fn close(&mut self, join: &mut Join, serial: u64, action: JoinAction) -> (r: JoinAction)
        requires
            old(self).wf(),
        ensures
            final(self).wf(),
            (final(self)@, final(join)@, r@) == old(join)@.close(old(self)@, serial, action@),
    {
        self.release(serial);
        join.stage = Stage::Over;
        action
    }
}

} // verus!
