//! One ffmpeg per content id and output format, and the listeners on it.
//!
//! An [`Encoder`] holds what is known of an ffmpeg process: the raw TS that
//! waits to be written to it, how far its output parses as fragmented MP4, and a
//! bounded queue for every listener. A [`Subscription`] is a listener's handle.
//! An encoder lives as long as somebody holds it: a listener, or a request that
//! is about to become one.

use bytes::Bytes;
use vstd::prelude::*;

use crate::format::{OutputFormat, TrackMode};
use crate::mp4::{coalesce, views, Piece, PieceView, Scan, Scanner};
use crate::octets::{octets, octets_of, slice};
use crate::queue::{Queue, QueueView, Received, ReceivedView, Sent, SentKind};

verus! {

/// Per-listener output backlog. Overflow evicts the listener; see
/// [`Encoder::fan_out`].
pub const SUB_QUEUE: usize = 64;

/// Per-encoder raw-TS backlog. Bounded deliberately small: the response to a
/// full queue is backpressure onto the engine socket, not buffering.
pub const TS_QUEUE: usize = 64;

/// How long an fMP4 joiner waits for the first fragment, in milliseconds. A
/// fragment closes on a keyframe, so this must comfortably exceed the source
/// GOP.
pub const INIT_TIMEOUT: u64 = 30000;

// ---------------------------------------------------------------------------
// Outlets
// ---------------------------------------------------------------------------

/// A listener's end of an encoder: what waits for it, and what it has been
/// given.
#[derive(Debug)]
pub struct Outlet {
    id: u64,
    peer: String,
    joined: u64,
    queue: Queue,
    leftover: Bytes,
    bytes_sent: u64,
    awaiting_fragment: bool,
}

/// What an `Outlet` holds.
#[verifier::ext_equal]
pub struct OutletView {
    pub id: u64,
    pub peer: Seq<char>,
    pub joined: u64,
    /// What waits to be read. Its sender goes when the listener is evicted.
    pub queue: QueueView,
    /// What is left of the chunk that was read last.
    pub leftover: Seq<u8>,
    pub bytes_sent: u64,
    /// fMP4 only: true until this listener has been aligned to a `moof`.
    pub awaiting_fragment: bool,
}

/// What a listener reads.
#[derive(Debug)]
pub enum Delivery {
    /// These bytes.
    Data(Bytes),
    /// Nothing any more: a clean end of the response.
    End,
    /// Nothing yet.
    Wait,
}

/// What a `Delivery` says.
#[verifier::ext_equal]
pub enum DeliveryView {
    Data(Seq<u8>),
    End,
    Wait,
}

impl View for Delivery {
    type V = DeliveryView;

    open spec fn view(&self) -> DeliveryView {
        match self {
            Delivery::Data(b) => DeliveryView::Data(octets(*b)),
            Delivery::End => DeliveryView::End,
            Delivery::Wait => DeliveryView::Wait,
        }
    }
}

impl OutletView {
    /// Whether the outlet still is one of the encoder's listeners.
    pub open spec fn listening(self) -> bool {
        self.queue.sending
    }

    /// The outlet after a piece of output was offered to it.
    ///
    /// Mid-fragment bytes are useless to a client that has only had the init
    /// segment; it is held until the next `moof`. A listener whose queue is full
    /// is evicted: a shared producer cannot block on its slowest consumer, and
    /// for fMP4 a dropped chunk is unrecoverable.
    pub open spec fn offer(self, piece: PieceView) -> OutletView {
        if !self.listening() || (self.awaiting_fragment && !piece.starts()) {
            self
        } else {
            let (queue, sent) = self.queue.send(piece.content());
            if sent == SentKind::Done {
                OutletView {
                    queue,
                    bytes_sent: self.bytes_sent.wrapping_add(piece.content().len() as u64),
                    awaiting_fragment: false,
                    ..self
                }
            } else {
                OutletView { queue: self.queue.unsent(), awaiting_fragment: false, ..self }
            }
        }
    }

    /// A read of up to `cap` bytes of the chunk that comes next, or of what is
    /// left of the last one.
    pub open spec fn read(self, cap: nat) -> (OutletView, DeliveryView) {
        if self.leftover.len() > 0 {
            self.hand_out(cap)
        } else {
            match self.queue.receive() {
                (queue, ReceivedView::Chunk(chunk)) => OutletView {
                    queue,
                    leftover: chunk,
                    ..self
                }.hand_out(cap),
                (queue, ReceivedView::Empty) => (self, DeliveryView::Wait),
                (queue, ReceivedView::Closed) => (self, DeliveryView::End),
            }
        }
    }

    /// Up to `cap` bytes of what is left.
    pub open spec fn hand_out(self, cap: nat) -> (OutletView, DeliveryView) {
        let n = if cap < self.leftover.len() {
            cap
        } else {
            self.leftover.len()
        };
        (
            OutletView { leftover: self.leftover.skip(n as int), ..self },
            DeliveryView::Data(self.leftover.take(n as int)),
        )
    }
}

impl View for Outlet {
    type V = OutletView;

    closed spec fn view(&self) -> OutletView {
        OutletView {
            id: self.id,
            peer: self.peer@,
            joined: self.joined,
            queue: self.queue@,
            leftover: octets(self.leftover),
            bytes_sent: self.bytes_sent,
            awaiting_fragment: self.awaiting_fragment,
        }
    }
}

impl Outlet {
    /// Offers a piece of output.
    fn offer(&mut self, piece: &Piece)
        ensures
            final(self)@ == old(self)@.offer(piece@),
    {
        if !self.queue.is_sending() {
            return ;
        }
        if self.awaiting_fragment {
            if !piece.fragment_start() {
                return ;
            }
            self.awaiting_fragment = false;
        }
        let data = piece.data();
        match self.queue.try_send(data.clone()) {
            Sent::Done => {
                self.bytes_sent = self.bytes_sent.wrapping_add(data.len() as u64);
            },
            Sent::Full(_) => {
                self.queue.close_sender();
            },
            Sent::Gone => {
                self.queue.close_sender();
            },
        }
    }

    /// Reads up to `cap` bytes.
    fn read(&mut self, cap: usize) -> (r: Delivery)
        ensures
            (final(self)@, r@) == old(self)@.read(cap as nat),
    {
        if self.leftover.is_empty() {
            match self.queue.try_receive() {
                Received::Chunk(chunk) => {
                    self.leftover = chunk;
                },
                Received::Empty => return Delivery::Wait,
                Received::Closed => return Delivery::End,
            }
        }
        let n: usize = if cap < self.leftover.len() {
            cap
        } else {
            self.leftover.len()
        };
        let ghost all = octets(self.leftover);
        let data = slice(&self.leftover, 0, n);
        self.leftover = slice(&self.leftover, n, self.leftover.len());
        assert(all.subrange(0, n as int) == all.take(n as int));
        assert(all.subrange(n as int, all.len() as int) == all.skip(n as int));
        Delivery::Data(data)
    }
}

/// What a list of outlets holds.
pub open spec fn outlet_views(list: Seq<Outlet>) -> Seq<OutletView> {
    Seq::new(list.len(), |i: int| list[i]@)
}

/// Every outlet after a piece was offered to it.
pub open spec fn offered(outlets: Seq<OutletView>, piece: PieceView) -> Seq<OutletView> {
    Seq::new(outlets.len(), |i: int| outlets[i].offer(piece))
}

/// Every outlet after the pieces were offered to it, in order.
pub open spec fn offered_all(outlets: Seq<OutletView>, pieces: Seq<PieceView>) -> Seq<OutletView>
    decreases pieces.len(),
{
    if pieces.len() == 0 {
        outlets
    } else {
        offered_all(offered(outlets, pieces[0]), pieces.drop_first())
    }
}

/// The place of the outlet with this id.
pub open spec fn outlet_index(outlets: Seq<OutletView>, id: u64) -> Option<int>
    decreases outlets.len(),
{
    if outlets.len() == 0 {
        None
    } else if outlets.last().id == id {
        Some(outlets.len() - 1)
    } else {
        outlet_index(outlets.drop_last(), id)
    }
}

/// The outlet found is one with this id, and there is none behind it.
pub proof fn lemma_outlet_index(outlets: Seq<OutletView>, id: u64)
    ensures
        match outlet_index(outlets, id) {
            Some(i) => 0 <= i < outlets.len() && outlets[i].id == id && forall|j: int|
                i < j < outlets.len() ==> (#[trigger] outlets[j]).id != id,
            None => forall|j: int| 0 <= j < outlets.len() ==> (#[trigger] outlets[j]).id != id,
        },
    decreases outlets.len(),
{
    if outlets.len() > 0 && outlets.last().id != id {
        let rest = outlets.drop_last();
        lemma_outlet_index(rest, id);
        assert forall|j: int| 0 <= j < outlets.len() - 1 implies outlets[j] == rest[j] by {}
    }
}

// ---------------------------------------------------------------------------
// Encoders
// ---------------------------------------------------------------------------

/// An ffmpeg process, and the listeners on its output.
#[derive(Debug)]
pub struct Encoder {
    id: u64,
    content_id: String,
    fmt: OutputFormat,
    started: u64,
    bytes_out: u64,
    video: TrackMode,
    audio: TrackMode,
    /// Cached fMP4 init segment, replayed to every late joiner.
    init: Option<Bytes>,
    /// Set if the fMP4 byte stream did not parse; late joiners are refused
    /// rather than served something they cannot decode.
    unjoinable: bool,
    /// Set when ffmpeg's output ends, so joiners stop waiting on an init
    /// segment that will never arrive.
    finished: bool,
    outlets: Vec<Outlet>,
    next_id: u64,
    joining: u64,
    scanner: Option<Scanner>,
    /// Raw TS on its way to ffmpeg. Its sender is the encoder's registration
    /// with the engine stream: once that is gone, no more comes.
    feed: Queue,
}

/// What an `Encoder` holds.
#[verifier::ext_equal]
pub struct EncoderView {
    pub id: u64,
    pub content_id: Seq<char>,
    pub fmt: OutputFormat,
    /// When it was started, in milliseconds.
    pub started: u64,
    pub bytes_out: u64,
    pub video: TrackMode,
    pub audio: TrackMode,
    pub init: Option<Seq<u8>>,
    pub unjoinable: bool,
    pub finished: bool,
    /// Its listeners, and those it has evicted that did not leave yet.
    pub outlets: Seq<OutletView>,
    /// The id that the next listener gets.
    pub next_id: u64,
    /// How many requests hold the encoder in order to listen to it.
    pub joining: u64,
    /// How far the output parses, where the format needs that known.
    pub scan: Option<Scan>,
    pub feed: QueueView,
}

/// A listener's handle on an encoder.
#[derive(Debug)]
pub struct Subscription {
    id: u64,
}

impl Subscription {
    /// The id of the outlet that it reads from.
    pub closed spec fn id(&self) -> u64 {
        self.id
    }
}

/// What waiting for the init segment comes to.
#[derive(Debug)]
pub enum Awaited {
    /// Here it is.
    Ready(Bytes),
    /// It will not come.
    Fail(String),
    /// It may still come, within this many milliseconds.
    Wait(u64),
}

/// What an `Awaited` says.
#[verifier::ext_equal]
pub enum AwaitedView {
    Ready(Seq<u8>),
    Fail(Seq<char>),
    Wait(u64),
}

impl View for Awaited {
    type V = AwaitedView;

    open spec fn view(&self) -> AwaitedView {
        match self {
            Awaited::Ready(b) => AwaitedView::Ready(octets(*b)),
            Awaited::Fail(e) => AwaitedView::Fail(e@),
            Awaited::Wait(left) => AwaitedView::Wait(*left),
        }
    }
}

/// What a request to listen comes to.
#[derive(Debug)]
pub enum Joined {
    /// The request listens now.
    Done(Subscription),
    /// It cannot.
    Fail(String),
    /// It has to wait, for up to this many milliseconds.
    Wait(u64),
}

/// What a `Joined` says.
#[verifier::ext_equal]
pub enum JoinedView {
    Done(u64),
    Fail(Seq<char>),
    Wait(u64),
}

impl View for Joined {
    type V = JoinedView;

    open spec fn view(&self) -> JoinedView {
        match self {
            Joined::Done(sub) => JoinedView::Done(sub.id()),
            Joined::Fail(e) => JoinedView::Fail(e@),
            Joined::Wait(left) => JoinedView::Wait(*left),
        }
    }
}

/// How much of `limit` is left at `now` of what began at `began`, in
/// milliseconds.
pub open spec fn time_left(limit: u64, began: u64, now: u64) -> u64 {
    if now < began {
        limit
    } else if now - began < limit {
        (limit - (now - began)) as u64
    } else {
        0
    }
}

/// How much of `limit` is left at `now` of what began at `began`.
pub(crate) fn left_of(limit: u64, began: u64, now: u64) -> (r: u64)
    ensures
        r == time_left(limit, began, now),
{
    if now < began {
        limit
    } else if now - began < limit {
        limit - (now - began)
    } else {
        0
    }
}

/// How many whole seconds have passed at `now` since `began`, in milliseconds.
pub open spec fn seconds_since(began: u64, now: u64) -> u64 {
    if now < began {
        0
    } else {
        ((now - began) as u64) / 1000
    }
}

/// What is told of a listener: its peer, for how many seconds it has listened,
/// and how many bytes it was sent.
pub open spec fn told(o: OutletView, now: u64) -> (Seq<char>, u64, u64) {
    (o.peer, seconds_since(o.joined, now), o.bytes_sent)
}

/// Those outlets that are listeners, in order.
pub open spec fn listening(outlets: Seq<OutletView>) -> Seq<OutletView>
    decreases outlets.len(),
{
    if outlets.len() == 0 {
        Seq::empty()
    } else if outlets.last().listening() {
        listening(outlets.drop_last()).push(outlets.last())
    } else {
        listening(outlets.drop_last())
    }
}

impl EncoderView {
    /// An encoder that was just started for one request, which holds it.
    pub open spec fn fresh(
        id: u64,
        content_id: Seq<char>,
        fmt: OutputFormat,
        video: TrackMode,
        audio: TrackMode,
        now: u64,
    ) -> EncoderView {
        EncoderView {
            id,
            content_id,
            fmt,
            started: now,
            bytes_out: 0,
            video,
            audio,
            init: None,
            unjoinable: false,
            finished: false,
            outlets: Seq::empty(),
            next_id: 0,
            joining: 1,
            scan: if fmt == OutputFormat::Fmp4 {
                Some(Scan::fresh())
            } else {
                None
            },
            feed: QueueView::fresh(TS_QUEUE as nat),
        }
    }

    /// Whether the engine stream feeds the encoder.
    pub open spec fn registered(self) -> bool {
        self.feed.sending
    }

    /// How many hold the encoder.
    pub open spec fn holders(self) -> nat {
        self.joining as nat + self.outlets.len()
    }

    /// What holds of every encoder: its outlets have ids of their own, which were
    /// given out before, and no queue is over its limit.
    pub open spec fn sound(self) -> bool {
        &&& forall|i: int| 0 <= i < self.outlets.len() ==> (#[trigger] self.outlets[i]).id
            < self.next_id
        &&& forall|i: int, j: int|
            0 <= i < j < self.outlets.len() ==> (#[trigger] self.outlets[i]).id != (
            #[trigger] self.outlets[j]).id
        &&& forall|i: int|
            0 <= i < self.outlets.len() ==> (#[trigger] self.outlets[i]).queue.sound()
                && self.outlets[i].queue.limit == SUB_QUEUE
        &&& self.feed.sound()
        &&& self.feed.limit == TS_QUEUE
        &&& self.scan is Some <==> self.fmt == OutputFormat::Fmp4
        &&& self.scan matches Some(s) ==> s.sound()
    }

    /// Whether the encoder can take another holder and another listener. Its
    /// counters end at `u64::MAX`.
    pub open spec fn roomy(self) -> bool {
        self.joining < u64::MAX && self.next_id < u64::MAX
    }

    /// The encoder with one more request that holds it.
    pub open spec fn held(self) -> EncoderView {
        EncoderView { joining: (self.joining + 1) as u64, ..self }
    }

    /// The encoder with one less request that holds it.
    pub open spec fn let_go(self) -> EncoderView {
        EncoderView { joining: (self.joining - 1) as u64, ..self }
    }

    /// What waiting for the init segment since `began` has come to at `now`.
    ///
    /// That the output broke comes before the cached segment: once the box
    /// structure has broken, fragment boundaries are no longer reliable, so a
    /// joiner would take the init segment and then never attach.
    pub open spec fn await_init_segment(self, began: u64, now: u64) -> AwaitedView {
        if self.unjoinable {
            AwaitedView::Fail("stream is not valid fragmented mp4"@)
        } else if let Some(init) = self.init {
            AwaitedView::Ready(init)
        } else if self.finished {
            AwaitedView::Fail("encoder stopped before producing a fragment"@)
        } else if time_left(INIT_TIMEOUT, began, now) == 0 {
            AwaitedView::Fail(
                "no fragment within 30s; the source keyframe interval may exceed it"@,
            )
        } else {
            AwaitedView::Wait(time_left(INIT_TIMEOUT, began, now))
        }
    }

    /// The outlet of a listener that joins now: with the init segment before
    /// anything else, where the format has one.
    pub open spec fn opened(self, peer: Seq<char>, now: u64, init: Option<Seq<u8>>) -> OutletView {
        OutletView {
            id: self.next_id,
            peer,
            joined: now,
            queue: match init {
                Some(i) => QueueView {
                    items: seq![i],
                    ..QueueView::fresh(SUB_QUEUE as nat)
                },
                None => QueueView::fresh(SUB_QUEUE as nat),
            },
            leftover: Seq::empty(),
            bytes_sent: 0,
            awaiting_fragment: init is Some,
        }
    }

    /// The encoder when a request that holds it becomes a listener.
    pub open spec fn joined(self, peer: Seq<char>, now: u64, init: Option<Seq<u8>>) -> EncoderView {
        EncoderView {
            outlets: self.outlets.push(self.opened(peer, now, init)),
            next_id: (self.next_id + 1) as u64,
            ..self.let_go()
        }
    }

    /// A request that holds the encoder, and has waited since `began`, asks to
    /// listen. Unless it has to go on waiting it holds the encoder no longer: it
    /// either listens or has failed.
    pub open spec fn subscribe(self, peer: Seq<char>, began: u64, now: u64) -> (
        EncoderView,
        JoinedView,
    ) {
        if self.fmt != OutputFormat::Fmp4 {
            (self.joined(peer, now, None), JoinedView::Done(self.next_id))
        } else {
            match self.await_init_segment(began, now) {
                AwaitedView::Ready(init) => (
                    self.joined(peer, now, Some(init)),
                    JoinedView::Done(self.next_id),
                ),
                AwaitedView::Fail(e) => (self.let_go(), JoinedView::Fail(e)),
                AwaitedView::Wait(left) => (self, JoinedView::Wait(left)),
            }
        }
    }

    /// The encoder without the outlet of this id.
    pub open spec fn left(self, id: u64) -> EncoderView {
        match outlet_index(self.outlets, id) {
            Some(i) => EncoderView { outlets: self.outlets.remove(i), ..self },
            None => self,
        }
    }

    /// The encoder after a piece went out to every listener.
    pub open spec fn fan_out(self, piece: PieceView) -> EncoderView {
        EncoderView { outlets: offered(self.outlets, piece), ..self }
    }

    /// The encoder after ffmpeg wrote `chunk`: it is counted, goes out to the
    /// listeners, and may complete the init segment or break the structure.
    pub open spec fn wrote(self, chunk: Seq<u8>) -> EncoderView {
        let counted = EncoderView {
            bytes_out: self.bytes_out.wrapping_add(chunk.len() as u64),
            ..self
        };
        match self.scan {
            None => counted.fan_out(PieceView::Media { data: chunk, fragment_start: true }),
            Some(before) => {
                let (scan, spans) = before.push(chunk);
                EncoderView {
                    outlets: offered_all(self.outlets, coalesce(spans)),
                    scan: Some(scan),
                    unjoinable: self.unjoinable || scan.failed,
                    init: if (scan.failed && !self.unjoinable) || self.init is Some {
                        self.init
                    } else {
                        scan.segment()
                    },
                    ..counted
                }
            },
        }
    }

    /// The encoder after ffmpeg's output ended.
    pub open spec fn ended(self) -> EncoderView {
        EncoderView { finished: true, ..self }
    }

    /// A read of a listener.
    pub open spec fn read(self, id: u64, cap: nat) -> (EncoderView, DeliveryView) {
        match outlet_index(self.outlets, id) {
            Some(i) => {
                let (outlet, delivery) = self.outlets[i].read(cap);
                (EncoderView { outlets: self.outlets.update(i, outlet), ..self }, delivery)
            },
            None => (self, DeliveryView::End),
        }
    }

    /// How many bytes were sent to a listener.
    pub open spec fn sent_to(self, id: u64) -> u64 {
        match outlet_index(self.outlets, id) {
            Some(i) => self.outlets[i].bytes_sent,
            None => 0,
        }
    }
}

impl View for Encoder {
    type V = EncoderView;

    closed spec fn view(&self) -> EncoderView {
        EncoderView {
            id: self.id,
            content_id: self.content_id@,
            fmt: self.fmt,
            started: self.started,
            bytes_out: self.bytes_out,
            video: self.video,
            audio: self.audio,
            init: octets_of(self.init),
            unjoinable: self.unjoinable,
            finished: self.finished,
            outlets: outlet_views(self.outlets@),
            next_id: self.next_id,
            joining: self.joining,
            scan: match self.scanner {
                Some(s) => Some(s@),
                None => None,
            },
            feed: self.feed@,
        }
    }
}

/// What is told of listeners, over views.
pub open spec fn info_views(list: Seq<(String, u64, u64)>) -> Seq<(Seq<char>, u64, u64)> {
    Seq::new(list.len(), |i: int| (list[i].0@, list[i].1, list[i].2))
}

/// What is told of every listener.
pub open spec fn told_all(outlets: Seq<OutletView>, now: u64) -> Seq<(Seq<char>, u64, u64)> {
    Seq::new(listening(outlets).len(), |i: int| told(listening(outlets)[i], now))
}

impl Encoder {
    /// What holds of every encoder.
    pub closed spec fn wf(&self) -> bool {
        &&& self@.sound()
        &&& self.scanner matches Some(s) ==> s.wf()
    }

    /// A well-formed encoder is sound.
    pub proof fn lemma_sound(&self)
        requires
            self.wf(),
        ensures
            self@.sound(),
    {
    }

    /// An encoder that was just started for one request, which holds it.
    pub fn new(
        id: u64,
        content_id: &str,
        fmt: OutputFormat,
        video: TrackMode,
        audio: TrackMode,
        now: u64,
    ) -> (e: Self)
        ensures
            e.wf(),
            e@ == EncoderView::fresh(id, content_id@, fmt, video, audio, now),
    {
        let scanner = if fmt.needs_init_segment() {
            Some(Scanner::new())
        } else {
            None
        };
        let e = Encoder {
            id,
            content_id: content_id.to_owned(),
            fmt,
            started: now,
            bytes_out: 0,
            video,
            audio,
            init: None,
            unjoinable: false,
            finished: false,
            outlets: Vec::new(),
            next_id: 0,
            joining: 1,
            scanner,
            feed: Queue::new(TS_QUEUE),
        };
        assert(e@ == EncoderView::fresh(id, content_id@, fmt, video, audio, now));
        e
    }

    /// Whether the encoder can take another holder and another listener.
    pub fn has_room(&self) -> (r: bool)
        ensures
            r == self@.roomy(),
    {
        self.joining < u64::MAX && self.next_id < u64::MAX
    }

    /// One more request holds the encoder.
    pub fn hold(&mut self)
        requires
            old(self).wf(),
            old(self)@.roomy(),
        ensures
            final(self).wf(),
            final(self)@ == old(self)@.held(),
    {
        self.joining = self.joining + 1;
    }

    /// One less request holds the encoder.
    pub fn let_go(&mut self)
        requires
            old(self).wf(),
            old(self)@.joining > 0,
        ensures
            final(self).wf(),
            final(self)@ == old(self)@.let_go(),
    {
        self.joining = self.joining - 1;
    }

    /// Whether nobody holds the encoder.
    pub fn is_idle(&self) -> (r: bool)
        ensures
            r == (self@.holders() == 0),
    {
        self.joining == 0 && self.outlets.len() == 0
    }

    /// Tells whether an fMP4 joiner that has waited since `began` has a complete
    /// init segment.
    ///
    /// The joiner holds the encoder throughout, which is what makes this
    /// correct: tearing down and retrying would restart ffmpeg each time and
    /// never converge, since the fragment clock restarts with it.
    pub fn await_init_segment(&self, began: u64, now: u64) -> (r: Awaited)
        ensures
            r@ == self@.await_init_segment(began, now),
    {
        if self.unjoinable {
            return Awaited::Fail("stream is not valid fragmented mp4".to_owned());
        }
        match &self.init {
            Some(init) => return Awaited::Ready(init.clone()),
            None => {},
        }
        if self.finished {
            return Awaited::Fail("encoder stopped before producing a fragment".to_owned());
        }
        let left: u64 = left_of(INIT_TIMEOUT, began, now);
        if left == 0 {
            return Awaited::Fail(
                "no fragment within 30s; the source keyframe interval may exceed it".to_owned(),
            );
        }
        Awaited::Wait(left)
    }

    /// Makes a request that holds the encoder one of its listeners.
    fn join(&mut self, peer: &str, now: u64, init: Option<Bytes>) -> (sub: Subscription)
        requires
            old(self).wf(),
            old(self)@.joining > 0,
            old(self)@.next_id < u64::MAX,
        ensures
            final(self).wf(),
            final(self)@ == old(self)@.joined(peer@, now, octets_of(init)),
            sub.id() == old(self)@.next_id,
    {
        let ghost before = self@;
        let id: u64 = self.next_id;
        let mut queue = Queue::new(SUB_QUEUE);
        let awaiting_fragment: bool = init.is_some();
        let ghost first = octets_of(init);
        match init {
            Some(b) => {
                // Must land before any media: the queue is empty and SUB_QUEUE
                // deep.
                let sent = queue.try_send(b);
                assert(Seq::<Seq<u8>>::empty().push(octets(b)) == seq![octets(b)]);
            },
            None => {},
        }
        let outlet = Outlet {
            id,
            peer: peer.to_owned(),
            joined: now,
            queue,
            leftover: Bytes::new(),
            bytes_sent: 0,
            awaiting_fragment,
        };
        assert(outlet@ == before.opened(peer@, now, first));
        let ghost outlets = self.outlets@;
        self.outlets.push(outlet);
        self.next_id = id + 1;
        self.joining = self.joining - 1;
        assert(outlet_views(self.outlets@) == outlet_views(outlets).push(outlet@));
        assert(self@ == before.joined(peer@, now, first));
        Subscription { id }
    }

    /// A request that holds the encoder, and has waited since `began`, asks to
    /// listen. Unless it has to go on waiting it holds the encoder no longer.
    pub fn subscribe(&mut self, peer: &str, began: u64, now: u64) -> (r: Joined)
        requires
            old(self).wf(),
            old(self)@.joining > 0,
            old(self)@.next_id < u64::MAX,
        ensures
            final(self).wf(),
            (final(self)@, r@) == old(self)@.subscribe(peer@, began, now),
    {
        if !self.fmt.needs_init_segment() {
            return Joined::Done(self.join(peer, now, None));
        }
        match self.await_init_segment(began, now) {
            Awaited::Ready(init) => Joined::Done(self.join(peer, now, Some(init))),
            Awaited::Fail(e) => {
                self.let_go();
                Joined::Fail(e)
            },
            Awaited::Wait(left) => Joined::Wait(left),
        }
    }

    /// The place of the outlet with this id.
    fn find_outlet(&self, id: u64) -> (r: Option<usize>)
        ensures
            match r {
                Some(i) => i < self.outlets@.len() && outlet_index(self@.outlets, id) == Some(
                    i as int,
                ),
                None => outlet_index(self@.outlets, id) is None,
            },
    {
        let ghost all = self@.outlets;
        let mut i: usize = self.outlets.len();
        assert(all.take(i as int) == all);
        while i > 0
            invariant
                all == outlet_views(self.outlets@),
                all == self@.outlets,
                i <= self.outlets@.len(),
                outlet_index(all.take(i as int), id) == outlet_index(all, id),
            decreases i,
        {
            assert(all.take(i as int).drop_last() == all.take(i - 1));
            assert(all.take(i as int).last() == self.outlets@[i - 1]@);
            i -= 1;
            if self.outlets[i].id == id {
                return Some(i);
            }
        }
        None
    }

    /// A listener leaves.
    pub fn remove_listener(&mut self, sub: Subscription)
        requires
            old(self).wf(),
        ensures
            final(self).wf(),
            final(self)@ == old(self)@.left(sub.id()),
    {
        let ghost before = self@;
        match self.find_outlet(sub.id) {
            Some(i) => {
                let ghost outlets = self.outlets@;
                let gone = self.outlets.remove(i);
                assert(outlet_views(self.outlets@) == outlet_views(outlets).remove(i as int));
                assert(self@ == before.left(sub.id));
                proof {
                    let after = self@;
                    assert forall|k: int| 0 <= k < after.outlets.len() implies #[trigger] after.outlets[k]
                        == before.outlets[if k < i {
                        k
                    } else {
                        k + 1
                    }] by {}
                }
            },
            None => {},
        }
    }

    /// Delivers one scanned piece to every listener.
    pub fn fan_out(&mut self, piece: &Piece)
        requires
            old(self).wf(),
        ensures
            final(self).wf(),
            final(self)@ == old(self)@.fan_out(piece@),
    {
        let ghost before = self@;
        let n: usize = self.outlets.len();
        let mut i: usize = 0;
        while i < n
            invariant
                n == self.outlets@.len(),
                n == before.outlets.len(),
                i <= n,
                before.sound(),
                self@ == (EncoderView { outlets: outlet_views(self.outlets@), ..before }),
                self.scanner matches Some(s) ==> s.wf(),
                forall|k: int|
                    0 <= k < i ==> (#[trigger] self.outlets@[k])@ == before.outlets[k].offer(
                        piece@,
                    ),
                forall|k: int| i <= k < n ==> (#[trigger] self.outlets@[k])@ == before.outlets[k],
            decreases n - i,
        {
            self.outlets[i].offer(piece);
            i += 1;
        }
        proof {
            assert(outlet_views(self.outlets@) == offered(before.outlets, piece@));
            lemma_offered(before, piece@);
        }
    }

    /// Takes in what ffmpeg wrote: tracks the fMP4 structure, and fans out to
    /// the listeners.
    pub fn drain_ffmpeg(&mut self, chunk: Bytes)
        requires
            old(self).wf(),
        ensures
            final(self).wf(),
            final(self)@ == old(self)@.wrote(octets(chunk)),
    {
        let ghost before = self@;
        let ghost data = octets(chunk);
        self.bytes_out = self.bytes_out.wrapping_add(chunk.len() as u64);
        let pieces: Vec<Piece> = match &mut self.scanner {
            Some(s) => s.push(chunk),
            None => {
                let mut one: Vec<Piece> = Vec::new();
                one.push(Piece::Media { data: chunk, fragment_start: true });
                one
            },
        };
        let ghost all = views(pieces@);
        let ghost scan = match before.scan {
            Some(b) => Some(b.push(data).0),
            None => None,
        };
        proof {
            if before.scan is None {
                assert(all == seq![PieceView::Media { data, fragment_start: true }]);
            } else {
                assert(all == coalesce(before.scan->0.push(data).1));
            }
        }
        let mut i: usize = 0;
        assert(all.skip(0) == all);
        while i < pieces.len()
            invariant
                i <= pieces.len(),
                all == views(pieces@),
                self.wf(),
                self@ == (EncoderView {
                    outlets: self@.outlets,
                    bytes_out: before.bytes_out.wrapping_add(data.len() as u64),
                    scan,
                    ..before
                }),
                offered_all(self@.outlets, all.skip(i as int)) == offered_all(before.outlets, all),
            decreases pieces.len() - i,
        {
            assert(all.skip(i as int).drop_first() == all.skip(i + 1));
            assert(all.skip(i as int)[0] == pieces@[i as int]@);
            self.fan_out(&pieces[i]);
            i += 1;
        }
        proof {
            assert(all.skip(i as int).len() == 0);
            if before.scan is None {
                reveal_with_fuel(offered_all, 2);
                assert(all.drop_first().len() == 0);
            }
        }
        match &self.scanner {
            None => {},
            Some(s) => if s.failed() && !self.unjoinable {
                self.refuse_joiners();
            } else if self.init.is_none() {
                match s.init_segment() {
                    Some(segment) => self.cache_init(segment),
                    None => {},
                }
            },
        }
        assert(self@ == before.wrote(data));
    }

    /// Caches the init segment, which every joiner gets first.
    pub fn cache_init(&mut self, segment: Bytes)
        requires
            old(self).wf(),
        ensures
            final(self).wf(),
            final(self)@ == (EncoderView { init: Some(octets(segment)), ..old(self)@ }),
    {
        self.init = Some(segment);
    }

    /// Refuses joiners from now on: the output did not parse.
    pub fn refuse_joiners(&mut self)
        requires
            old(self).wf(),
        ensures
            final(self).wf(),
            final(self)@ == (EncoderView { unjoinable: true, ..old(self)@ }),
    {
        self.unjoinable = true;
    }

    /// Notes that ffmpeg's output has ended. Whoever still waits for a first
    /// fragment waits in vain.
    pub fn finish(&mut self)
        requires
            old(self).wf(),
        ensures
            final(self).wf(),
            final(self)@ == old(self)@.ended(),
    {
        self.finished = true;
    }

    /// How many listeners there are.
    pub fn listener_count(&self) -> (n: usize)
        ensures
            n == listening(self@.outlets).len(),
    {
        let ghost all = self@.outlets;
        let mut n: usize = 0;
        let mut i: usize = 0;
        while i < self.outlets.len()
            invariant
                all == outlet_views(self.outlets@),
                i <= self.outlets@.len(),
                n <= i,
                n == listening(all.take(i as int)).len(),
            decreases self.outlets.len() - i,
        {
            assert(all.take(i + 1).drop_last() == all.take(i as int));
            assert(all.take(i + 1).last() == self.outlets@[i as int]@);
            if self.outlets[i].queue.is_sending() {
                n += 1;
            }
            i += 1;
        }
        assert(all.take(i as int) == all);
        n
    }

    /// For every listener: its peer, for how many seconds it has listened, and
    /// how many bytes it was sent.
    pub fn listener_info(&self, now: u64) -> (r: Vec<(String, u64, u64)>)
        ensures
            info_views(r@) == told_all(self@.outlets, now),
    {
        let ghost all = self@.outlets;
        let mut r: Vec<(String, u64, u64)> = Vec::new();
        let mut i: usize = 0;
        assert(info_views(r@) == told_all(all.take(0), now));
        while i < self.outlets.len()
            invariant
                all == outlet_views(self.outlets@),
                i <= self.outlets@.len(),
                info_views(r@) == told_all(all.take(i as int), now),
            decreases self.outlets.len() - i,
        {
            assert(all.take(i + 1).drop_last() == all.take(i as int));
            assert(all.take(i + 1).last() == self.outlets@[i as int]@);
            let o = &self.outlets[i];
            if o.queue.is_sending() {
                let seconds: u64 = if now < o.joined {
                    0
                } else {
                    (now - o.joined) / 1000
                };
                let ghost before = r@;
                r.push((o.peer.as_str().to_owned(), seconds, o.bytes_sent));
                assert(info_views(r@) == info_views(before).push(told(o@, now)));
                assert(told_all(all.take(i + 1), now) == told_all(all.take(i as int), now).push(
                    told(o@, now),
                ));
            }
            i += 1;
        }
        assert(all.take(i as int) == all);
        r
    }
}

/// A piece that goes out leaves an encoder sound.
proof fn lemma_offered(e: EncoderView, piece: PieceView)
    requires
        e.sound(),
    ensures
        e.fan_out(piece).sound(),
{
    let after = e.fan_out(piece);
    assert forall|i: int| 0 <= i < after.outlets.len() implies #[trigger] after.outlets[i]
        == e.outlets[i].offer(piece) by {}
}

impl Subscription {
    /// Reads up to `cap` bytes from the encoder that is listened to.
    pub fn read(&self, encoder: &mut Encoder, cap: usize) -> (r: Delivery)
        requires
            old(encoder).wf(),
        ensures
            final(encoder).wf(),
            (final(encoder)@, r@) == old(encoder)@.read(self.id(), cap as nat),
    {
        let ghost before = encoder@;
        match encoder.find_outlet(self.id) {
            None => Delivery::End,
            Some(i) => {
                let ghost outlets = encoder.outlets@;
                let r = encoder.outlets[i].read(cap);
                proof {
                    let (outlet, delivery) = before.outlets[i as int].read(cap as nat);
                    assert(outlet_views(encoder.outlets@) == before.outlets.update(
                        i as int,
                        outlet,
                    ));
                    assert(encoder@ == before.read(self.id, cap as nat).0);
                    let after = encoder@;
                    assert forall|k: int| 0 <= k < after.outlets.len() && k != i implies #[trigger] after.outlets[k]
                        == before.outlets[k] by {}
                }
                r
            },
        }
    }

    /// How many bytes the listener was sent.
    pub fn bytes_sent(&self, encoder: &Encoder) -> (n: u64)
        ensures
            n == encoder@.sent_to(self.id()),
    {
        match encoder.find_outlet(self.id) {
            Some(i) => encoder.outlets[i].bytes_sent,
            None => 0,
        }
    }

    /// The byte counter of the listener, so that a total can be logged.
    pub fn counter(&self, encoder: &Encoder) -> (n: u64)
        ensures
            n == encoder@.sent_to(self.id()),
    {
        self.bytes_sent(encoder)
    }
}

impl EncoderView {
    /// The encoder after a chunk of raw TS was offered to it.
    pub open spec fn fed(self, chunk: Seq<u8>) -> (EncoderView, SentKind) {
        let (feed, sent) = self.feed.send(chunk);
        (EncoderView { feed, ..self }, sent)
    }

    /// The encoder after the next chunk of raw TS was taken for ffmpeg.
    pub open spec fn fetched(self) -> (EncoderView, ReceivedView) {
        let (feed, received) = self.feed.receive();
        (EncoderView { feed, ..self }, received)
    }

    /// The encoder when nobody takes raw TS for ffmpeg any more.
    pub open spec fn starved(self) -> EncoderView {
        EncoderView { feed: self.feed.unreceived(), ..self }
    }

    /// The encoder when the engine stream feeds it no more.
    pub open spec fn deregistered(self) -> EncoderView {
        EncoderView { feed: self.feed.unsent(), ..self }
    }
}

impl Encoder {
    /// Offers a chunk of raw TS.
    pub fn offer_feed(&mut self, chunk: Bytes) -> (r: Sent)
        requires
            old(self).wf(),
        ensures
            final(self).wf(),
            (final(self)@, r.kind()) == old(self)@.fed(octets(chunk)),
            r matches Sent::Full(back) ==> octets(back) == octets(chunk),
    {
        let r = self.feed.try_send(chunk);
        assert(self@ == old(self)@.fed(octets(chunk)).0);
        r
    }

    /// Takes the next chunk of raw TS for ffmpeg. Closed means that ffmpeg's
    /// input is to be closed, so that it sees EOF and shuts down cleanly.
    pub fn next_feed(&mut self) -> (r: Received)
        requires
            old(self).wf(),
        ensures
            final(self).wf(),
            (final(self)@, r@) == old(self)@.fetched(),
    {
        self.feed.try_receive()
    }

    /// Nobody takes raw TS for ffmpeg any more: it has exited.
    pub fn stop_feed(&mut self)
        requires
            old(self).wf(),
        ensures
            final(self).wf(),
            final(self)@ == old(self)@.starved(),
    {
        self.feed.close_receiver();
    }

    /// The engine stream feeds the encoder no more.
    pub fn deregister(&mut self)
        requires
            old(self).wf(),
        ensures
            final(self).wf(),
            final(self)@ == old(self)@.deregistered(),
    {
        self.feed.close_sender();
    }

    pub fn id(&self) -> (r: u64)
        ensures
            r == self@.id,
    {
        self.id
    }

    pub fn fmt(&self) -> (r: OutputFormat)
        ensures
            r == self@.fmt,
    {
        self.fmt
    }

    pub fn video(&self) -> (r: TrackMode)
        ensures
            r == self@.video,
    {
        self.video
    }

    pub fn audio(&self) -> (r: TrackMode)
        ensures
            r == self@.audio,
    {
        self.audio
    }

    /// When the encoder was started, in milliseconds.
    pub fn started(&self) -> (r: u64)
        ensures
            r == self@.started,
    {
        self.started
    }

    pub fn bytes_out(&self) -> (r: u64)
        ensures
            r == self@.bytes_out,
    {
        self.bytes_out
    }

    /// Whether ffmpeg's output has ended.
    pub fn is_finished(&self) -> (r: bool)
        ensures
            r == self@.finished,
    {
        self.finished
    }

    /// Whether somebody takes raw TS for ffmpeg.
    pub fn has_taker(&self) -> (r: bool)
        ensures
            r == self@.feed.receiving,
    {
        self.feed.is_receiving()
    }

    /// Whether as much raw TS waits for ffmpeg as can.
    pub fn is_backed_up(&self) -> (r: bool)
        ensures
            r == (self@.feed.items.len() >= self@.feed.limit),
    {
        self.feed.is_full()
    }

    /// Whether the output can be joined. It cannot once it did not parse.
    pub fn is_joinable(&self) -> (r: bool)
        ensures
            r == !self@.unjoinable,
    {
        !self.unjoinable
    }

    /// What is left of an encoder that is gone: the raw TS for its ffmpeg.
    pub fn into_feed(self) -> (q: Queue)
        ensures
            q@ == self@.feed,
    {
        self.feed
    }

    /// Whether the engine stream feeds the encoder.
    pub fn is_registered(&self) -> (r: bool)
        ensures
            r == self@.registered(),
    {
        self.feed.is_sending()
    }

    /// How many requests hold the encoder in order to listen to it.
    pub fn joining(&self) -> (r: u64)
        ensures
            r == self@.joining,
    {
        self.joining
    }
}

} // verus!
