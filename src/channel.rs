//! The bounded, ordered, closable hand-off between the worker that encodes
//! an archive and the response body that sends it. The worker blocks while a
//! send reports `Full`; the body waits while a receive reports `Pending`;
//! whoever holds the lock around the channel wakes the other side.
use vstd::prelude::*;
use crate::tar::EncodeError;

verus! {

/// Why an archive stream ended badly.
#[derive(Clone, Copy, Debug, PartialEq, Eq, Structural)]
pub enum StreamError {
    /// An entry could not be listed or read.
    Unreadable,
    /// An entry could not be encoded.
    Encode(EncodeError),
}

/// How a stream ended.
#[derive(Clone, Copy, Debug, PartialEq, Eq, Structural)]
pub enum Outcome {
    Done,
    Failed(StreamError),
    /// The consumer went away.
    Cancelled,
}

/// `Open` while the producer sends; `Closing` once it has closed and chunks
/// remain buffered; `Closed` once nothing more will pass.
#[derive(Clone, Copy, Debug, PartialEq, Eq, Structural)]
pub enum ChannelState {
    Open,
    Closing(Outcome),
    Closed(Outcome),
}

/// What became of a send. A chunk that was not taken comes back.
pub enum SendOutcome {
    Sent,
    /// `capacity` chunks are waiting: try again after a receive.
    Full(Vec<u8>),
    /// The consumer went away: stop producing.
    Disconnected(Vec<u8>),
    /// The producer had already closed the channel.
    Rejected(Vec<u8>),
}

/// What a receive found.
pub enum RecvOutcome {
    Chunk(Vec<u8>),
    /// Nothing buffered yet and the producer still open: wait.
    Pending,
    Ended(Outcome),
}

/// The abstract channel: buffered chunks, every chunk ever accepted and
/// every chunk handed out.
pub struct ChannelView {
    pub chunks: Seq<Seq<u8>>,
    pub capacity: nat,
    pub state: ChannelState,
    pub sent: Seq<Seq<u8>>,
    pub delivered: Seq<Seq<u8>>,
}

pub open spec fn channel_wf(v: ChannelView) -> bool {
    &&& v.capacity > 0
    &&& v.chunks.len() <= v.capacity
    &&& v.delivered.len() <= v.sent.len()
    &&& v.delivered == v.sent.take(v.delivered.len() as int)
    &&& v.state != ChannelState::Closed(Outcome::Cancelled) ==> v.sent == v.delivered + v.chunks
    &&& v.state is Closed ==> v.chunks.len() == 0
    &&& v.state is Closing ==> v.chunks.len() > 0
}

pub enum SendKind {
    Sent,
    Full,
    Disconnected,
    Rejected,
}

/// What a send of any chunk does in state `v`.
pub open spec fn send_kind(v: ChannelView) -> SendKind {
    match v.state {
        ChannelState::Open => if v.chunks.len() < v.capacity {
            SendKind::Sent
        } else {
            SendKind::Full
        },
        ChannelState::Closed(Outcome::Cancelled) => SendKind::Disconnected,
        _ => SendKind::Rejected,
    }
}

pub open spec fn after_send(v: ChannelView, chunk: Seq<u8>) -> ChannelView {
    if send_kind(v) is Sent {
        ChannelView { chunks: v.chunks.push(chunk), sent: v.sent.push(chunk), ..v }
    } else {
        v
    }
}

/// The state a receive leaves; it hands out the first buffered chunk if any.
pub open spec fn after_recv(v: ChannelView) -> ChannelView {
    if v.chunks.len() > 0 {
        let rest = v.chunks.drop_first();
        ChannelView {
            chunks: rest,
            delivered: v.delivered.push(v.chunks[0]),
            state: match v.state {
                ChannelState::Closing(o) => if rest.len() == 0 {
                    ChannelState::Closed(o)
                } else {
                    v.state
                },
                _ => v.state,
            },
            ..v
        }
    } else {
        v
    }
}

/// The producer closes with `o`; a later close changes nothing.
pub open spec fn after_close(v: ChannelView, o: Outcome) -> ChannelView {
    match v.state {
        ChannelState::Open => ChannelView {
            state: if v.chunks.len() == 0 {
                ChannelState::Closed(o)
            } else {
                ChannelState::Closing(o)
            },
            ..v
        },
        _ => v,
    }
}

/// The consumer goes away: buffered chunks are dropped, and the channel is
/// cancelled unless it had already closed.
pub open spec fn after_cancel(v: ChannelView) -> ChannelView {
    match v.state {
        ChannelState::Closed(_) => v,
        _ => ChannelView { chunks: Seq::empty(), state: ChannelState::Closed(Outcome::Cancelled), ..v },
    }
}

pub struct ChunkChannel {
    queue: Vec<Vec<u8>>,
    capacity: usize,
    state: ChannelState,
    sent: Ghost<Seq<Seq<u8>>>,
    delivered: Ghost<Seq<Seq<u8>>>,
}

impl View for ChunkChannel {
    type V = ChannelView;

    closed spec fn view(&self) -> ChannelView {
        ChannelView {
            chunks: self.queue@.map_values(|c: Vec<u8>| c@),
            capacity: self.capacity as nat,
            state: self.state,
            sent: self.sent@,
            delivered: self.delivered@,
        }
    }
}

impl ChunkChannel {
    /// An open channel that buffers up to `capacity` chunks.
    pub fn new(capacity: usize) -> (c: ChunkChannel)
        requires
            capacity > 0,
        ensures
            channel_wf(c@),
            c@.capacity == capacity,
            c@.state == ChannelState::Open,
            c@.chunks.len() == 0,
            c@.sent.len() == 0,
            c@.delivered.len() == 0,
    {
        let c = ChunkChannel {
            queue: Vec::new(),
            capacity,
            state: ChannelState::Open,
            sent: Ghost(Seq::empty()),
            delivered: Ghost(Seq::empty()),
        };
        assert(c@.sent =~= c@.delivered + c@.chunks);
        assert(c@.delivered =~= c@.sent.take(0));
        c
    }

    pub fn state(&self) -> (r: ChannelState)
        ensures
            r == self@.state,
    {
        self.state
    }

    pub fn len(&self) -> (r: usize)
        ensures
            r == self@.chunks.len(),
    {
        self.queue.len()
    }

    /// Offers a chunk from the producer.
    pub fn try_send(&mut self, chunk: Vec<u8>) -> (r: SendOutcome)
        requires
            channel_wf(old(self)@),
        ensures
            channel_wf(final(self)@),
            final(self)@ == after_send(old(self)@, chunk@),
            match r {
                SendOutcome::Sent => send_kind(old(self)@) is Sent,
                SendOutcome::Full(c) => send_kind(old(self)@) is Full && c == chunk,
                SendOutcome::Disconnected(c) => send_kind(old(self)@) is Disconnected && c == chunk,
                SendOutcome::Rejected(c) => send_kind(old(self)@) is Rejected && c == chunk,
            },
    {
        match self.state {
            ChannelState::Open => {
                if self.queue.len() < self.capacity {
                    proof {
                        self.sent@ = self.sent@.push(chunk@);
                    }
                    self.queue.push(chunk);
                    assert(self@.chunks =~= old(self)@.chunks.push(chunk@));
                    assert(self@.sent =~= self@.delivered + self@.chunks);
                    assert(self@.delivered =~= self@.sent.take(self@.delivered.len() as int));
                    SendOutcome::Sent
                } else {
                    SendOutcome::Full(chunk)
                }
            },
            ChannelState::Closed(Outcome::Cancelled) => SendOutcome::Disconnected(chunk),
            _ => SendOutcome::Rejected(chunk),
        }
    }

    /// Takes the oldest buffered chunk, or reports why there is none.
    pub fn try_recv(&mut self) -> (r: RecvOutcome)
        requires
            channel_wf(old(self)@),
        ensures
            channel_wf(final(self)@),
            final(self)@ == after_recv(old(self)@),
            match r {
                RecvOutcome::Chunk(c) => old(self)@.chunks.len() > 0 && c@ == old(self)@.chunks[0],
                RecvOutcome::Pending => old(self)@.chunks.len() == 0 && old(self)@.state
                    == ChannelState::Open,
                RecvOutcome::Ended(o) => old(self)@.chunks.len() == 0 && old(self)@.state
                    == ChannelState::Closed(o),
            },
    {
        if self.queue.len() > 0 {
            let c = self.queue.remove(0);
            proof {
                self.delivered@ = self.delivered@.push(c@);
            }
            if self.queue.len() == 0 {
                match self.state {
                    ChannelState::Closing(o) => {
                        self.state = ChannelState::Closed(o);
                    },
                    _ => {},
                }
            }
            assert(self@.chunks =~= old(self)@.chunks.drop_first());
            assert(self@.sent =~= self@.delivered + self@.chunks);
            assert(self@.delivered =~= self@.sent.take(self@.delivered.len() as int));
            assert(self@ == after_recv(old(self)@));
            RecvOutcome::Chunk(c)
        } else {
            match self.state {
                ChannelState::Closed(o) => RecvOutcome::Ended(o),
                _ => RecvOutcome::Pending,
            }
        }
    }

    /// The producer is done, with outcome `o`.
    pub fn close(&mut self, o: Outcome)
        requires
            channel_wf(old(self)@),
        ensures
            channel_wf(final(self)@),
            final(self)@ == after_close(old(self)@, o),
    {
        match self.state {
            ChannelState::Open => {
                if self.queue.len() == 0 {
                    self.state = ChannelState::Closed(o);
                } else {
                    self.state = ChannelState::Closing(o);
                }
            },
            _ => {},
        }
    }

    /// The consumer is gone: drop what is buffered so that the producer's
    /// next send reports `Disconnected`.
    pub fn cancel(&mut self)
        requires
            channel_wf(old(self)@),
        ensures
            channel_wf(final(self)@),
            final(self)@ == after_cancel(old(self)@),
    {
        match self.state {
            ChannelState::Closed(_) => {},
            _ => {
                self.queue = Vec::new();
                self.state = ChannelState::Closed(Outcome::Cancelled);
                assert(self@.chunks =~= Seq::<Seq<u8>>::empty());
            },
        }
    }
}


/// Backpressure: once `capacity` chunks wait unconsumed a send is refused as
/// `Full` and changes nothing; one receive then lets exactly one send through,
/// and the send after it is `Full` again.
pub proof fn law_backpressure(v: ChannelView, a: Seq<u8>, b: Seq<u8>)
    requires
        channel_wf(v),
        v.state == ChannelState::Open,
        v.chunks.len() == v.capacity,
    ensures
        send_kind(v) is Full,
        after_send(v, a) == v,
        send_kind(after_recv(v)) is Sent,
        after_recv(v).chunks.len() == v.capacity - 1,
        send_kind(after_send(after_recv(v), a)) is Full,
        after_send(after_send(after_recv(v), a), b) == after_send(after_recv(v), a),
{
}

/// Order: the chunks handed out, followed by those still buffered, are the
/// chunks accepted, in the order they were sent, whatever the steps that led
/// here; receiving adds to what was handed out the oldest buffered chunk.
pub proof fn law_fifo(v: ChannelView, c: Seq<u8>)
    requires
        channel_wf(v),
        v.state != ChannelState::Closed(Outcome::Cancelled),
    ensures
        v.sent == v.delivered + v.chunks,
        channel_wf(after_send(v, c)),
        channel_wf(after_recv(v)),
        v.chunks.len() > 0 ==> after_recv(v).delivered == v.delivered.push(v.sent[v.delivered.len() as int]),
{
    let w = after_send(v, c);
    if send_kind(v) is Sent {
        assert(w.sent =~= w.delivered + w.chunks);
        assert(w.delivered =~= w.sent.take(w.delivered.len() as int));
    }
    if v.chunks.len() > 0 {
        let r = after_recv(v);
        assert(r.sent =~= r.delivered + r.chunks);
        assert(r.delivered =~= r.sent.take(r.delivered.len() as int));
        assert(v.sent[v.delivered.len() as int] == v.chunks[0]);
    }
}

/// Cancellation: once the consumer has gone, the producer's very next send
/// reports `Disconnected`, as does every later one, and nothing stays
/// buffered; no later close, send or receive reopens the channel.
pub proof fn law_cancellation(v: ChannelView, c: Seq<u8>, o: Outcome)
    requires
        channel_wf(v),
        v.state == ChannelState::Open,
    ensures
        channel_wf(after_cancel(v)),
        after_cancel(v).chunks.len() == 0,
        send_kind(after_cancel(v)) is Disconnected,
        after_send(after_cancel(v), c) == after_cancel(v),
        after_close(after_cancel(v), o) == after_cancel(v),
        after_recv(after_cancel(v)) == after_cancel(v),
{
}

/// Closing is final: in a closed channel no send, receive, close or cancel
/// changes anything.
pub proof fn law_closed_is_final(v: ChannelView, c: Seq<u8>, o: Outcome)
    requires
        channel_wf(v),
        v.state is Closed,
    ensures
        after_send(v, c) == v,
        after_recv(v) == v,
        after_close(v, o) == v,
        after_cancel(v) == v,
{
}

/// A producer that closes with `Done` after its last chunk lets the consumer
/// drain every chunk before it learns the outcome, and then learns `Done`.
pub proof fn law_drain_then_outcome(v: ChannelView, o: Outcome)
    requires
        channel_wf(v),
        v.state == ChannelState::Open,
        v.chunks.len() == 1,
    ensures
        after_close(v, o).state == ChannelState::Closing(o),
        after_recv(after_close(v, o)).state == ChannelState::Closed(o),
        after_recv(after_close(v, o)).delivered == v.delivered.push(v.chunks[0]),
{
}

} // verus!
