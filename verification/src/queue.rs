//! A bounded queue of byte chunks between one sender and one receiver.
//!
//! Neither side blocks: a full queue hands the chunk back, and an empty one says
//! whether anything can still come.

use std::collections::VecDeque;

use bytes::Bytes;
use vstd::prelude::*;

use crate::octets::octets;

verus! {

/// A bounded queue of chunks.
#[derive(Debug)]
pub struct Queue {
    items: VecDeque<Bytes>,
    limit: usize,
    sending: bool,
    receiving: bool,
}

/// What a `Queue` holds.
#[verifier::ext_equal]
pub struct QueueView {
    /// The chunks that were sent and not received, oldest first.
    pub items: Seq<Seq<u8>>,
    /// How many chunks there can be.
    pub limit: nat,
    /// Whether the sender is still there.
    pub sending: bool,
    /// Whether the receiver is still there.
    pub receiving: bool,
}

/// What became of a chunk.
#[derive(Debug)]
pub enum Sent {
    /// It is in the queue.
    Done,
    /// There was no room; here it is back.
    Full(Bytes),
    /// There is no receiver.
    Gone,
}

/// What a `Sent` says.
#[derive(Debug, Clone, Copy, PartialEq, Eq, Structural)]
pub enum SentKind {
    Done,
    Full,
    Gone,
}

/// What is received.
#[derive(Debug)]
pub enum Received {
    /// The oldest chunk.
    Chunk(Bytes),
    /// Nothing yet.
    Empty,
    /// Nothing any more: the sender is gone and every chunk was received.
    Closed,
}

/// What a `Received` says.
#[verifier::ext_equal]
pub enum ReceivedView {
    Chunk(Seq<u8>),
    Empty,
    Closed,
}

impl View for Received {
    type V = ReceivedView;

    open spec fn view(&self) -> ReceivedView {
        match self {
            Received::Chunk(b) => ReceivedView::Chunk(octets(*b)),
            Received::Empty => ReceivedView::Empty,
            Received::Closed => ReceivedView::Closed,
        }
    }
}

impl Sent {
    /// Which of the three it is.
    pub open spec fn kind(&self) -> SentKind {
        match self {
            Sent::Done => SentKind::Done,
            Sent::Full(_) => SentKind::Full,
            Sent::Gone => SentKind::Gone,
        }
    }
}

impl QueueView {
    /// An empty queue for up to `limit` chunks.
    pub open spec fn fresh(limit: nat) -> QueueView {
        QueueView { items: Seq::empty(), limit, sending: true, receiving: true }
    }

    /// The queue never holds more than its limit.
    pub open spec fn sound(self) -> bool {
        self.items.len() <= self.limit
    }

    /// Sending a chunk: the queue afterwards, and what became of the chunk.
    pub open spec fn send(self, chunk: Seq<u8>) -> (QueueView, SentKind) {
        if !self.receiving {
            (self, SentKind::Gone)
        } else if self.items.len() < self.limit {
            (QueueView { items: self.items.push(chunk), ..self }, SentKind::Done)
        } else {
            (self, SentKind::Full)
        }
    }

    /// Receiving a chunk: the queue afterwards, and what is received.
    pub open spec fn receive(self) -> (QueueView, ReceivedView) {
        if self.items.len() > 0 {
            (
                QueueView { items: self.items.drop_first(), ..self },
                ReceivedView::Chunk(self.items[0]),
            )
        } else if self.sending {
            (self, ReceivedView::Empty)
        } else {
            (self, ReceivedView::Closed)
        }
    }

    /// The queue without its sender.
    pub open spec fn unsent(self) -> QueueView {
        QueueView { sending: false, ..self }
    }

    /// The queue without its receiver.
    pub open spec fn unreceived(self) -> QueueView {
        QueueView { receiving: false, ..self }
    }
}

/// The bytes of a list of buffers.
pub open spec fn contents(list: Seq<Bytes>) -> Seq<Seq<u8>> {
    Seq::new(list.len(), |i: int| octets(list[i]))
}

impl View for Queue {
    type V = QueueView;

    closed spec fn view(&self) -> QueueView {
        QueueView {
            items: contents(self.items@),
            limit: self.limit as nat,
            sending: self.sending,
            receiving: self.receiving,
        }
    }
}

impl Queue {
    /// An empty queue for up to `limit` chunks.
    pub fn new(limit: usize) -> (q: Self)
        ensures
            q@ == QueueView::fresh(limit as nat),
    {
        let q = Queue { items: VecDeque::new(), limit, sending: true, receiving: true };
        assert(contents(q.items@) == Seq::<Seq<u8>>::empty());
        q
    }

    /// Sends a chunk, if there is room for it.
    pub fn try_send(&mut self, chunk: Bytes) -> (r: Sent)
        ensures
            (final(self)@, r.kind()) == old(self)@.send(octets(chunk)),
            r matches Sent::Full(back) ==> octets(back) == octets(chunk),
    {
        if !self.receiving {
            Sent::Gone
        } else if self.items.len() < self.limit {
            let ghost before = self.items@;
            self.items.push_back(chunk);
            assert(contents(self.items@) == contents(before).push(octets(chunk)));
            Sent::Done
        } else {
            Sent::Full(chunk)
        }
    }

    /// Receives the oldest chunk, if there is one.
    pub fn try_receive(&mut self) -> (r: Received)
        ensures
            (final(self)@, r@) == old(self)@.receive(),
    {
        let ghost before = self.items@;
        match self.items.pop_front() {
            Some(chunk) => {
                assert(contents(self.items@) == contents(before).drop_first());
                Received::Chunk(chunk)
            },
            None => if self.sending {
                Received::Empty
            } else {
                Received::Closed
            },
        }
    }

    /// Takes the sender away.
    pub fn close_sender(&mut self)
        ensures
            final(self)@ == old(self)@.unsent(),
    {
        self.sending = false;
    }

    /// Takes the receiver away.
    pub fn close_receiver(&mut self)
        ensures
            final(self)@ == old(self)@.unreceived(),
    {
        self.receiving = false;
    }

    /// Whether there is no room for another chunk.
    pub fn is_full(&self) -> (r: bool)
        ensures
            r == (self@.items.len() >= self@.limit),
    {
        self.items.len() >= self.limit
    }

    /// Whether the receiver is still there.
    pub fn is_receiving(&self) -> (r: bool)
        ensures
            r == self@.receiving,
    {
        self.receiving
    }

    /// Whether the sender is still there.
    pub fn is_sending(&self) -> (r: bool)
        ensures
            r == self@.sending,
    {
        self.sending
    }
}

} // verus!
