//! The two-priority consensus message bus and its dispatcher step: bounded
//! high and low queues of tagged envelopes, pushed by the network and the
//! engine, drained by a dispatcher that takes up to a full high-priority
//! quota and then exactly one low-priority message per round. The embedding
//! runs the loop, parks on a condition variable when a round reports
//! exhaustion, and hands each drained message to its handler.

use vstd::prelude::*;

verus! {

/// Depth of a high-priority queue.
pub const CONSENSUS_QUEUE_DEPTH_HI: usize = 16384;

/// Depth of a low-priority queue.
pub const CONSENSUS_QUEUE_DEPTH_LO: usize = 32768;

/// The kind of packet a consensus message carries.
#[derive(Clone, Copy, Debug, PartialEq, Eq, Structural)]
pub enum PacketType {
    Block,
    FinalizationMessage,
    FinalizationRecord,
    CatchUpStatus,
}

/// The single byte that prefixes a packet of each kind on the wire.
pub open spec fn packet_byte(p: PacketType) -> u8 {
    match p {
        PacketType::Block => 0,
        PacketType::FinalizationMessage => 1,
        PacketType::FinalizationRecord => 2,
        PacketType::CatchUpStatus => 3,
    }
}

impl PacketType {
    /// The single byte that prefixes a packet of this kind on the wire.
    pub fn to_byte(&self) -> (r: u8)
        ensures
            r == packet_byte(*self),
    {
        match self {
            PacketType::Block => 0,
            PacketType::FinalizationMessage => 1,
            PacketType::FinalizationRecord => 2,
            PacketType::CatchUpStatus => 3,
        }
    }
}

/// What a peer's catch-up state is believed to be.
#[derive(Clone, Copy, Debug, PartialEq, Eq, Structural)]
pub enum PeerStatus {
    UpToDate,
    Pending,
    CatchingUp,
}

/// Where a consensus message goes: in from a peer, or out to one peer or to
/// everyone.
#[derive(Clone, Copy, Debug, PartialEq, Eq, Structural)]
pub enum MessageType {
    Inbound(u64),
    Outbound(Option<u64>),
}

/// A tagged consensus envelope.
pub struct ConsensusMessage {
    pub message_type: MessageType,
    pub variant: PacketType,
    pub payload: Vec<u8>,
    pub dont_relay: Vec<u64>,
    pub omit_status: Option<PeerStatus>,
}

impl ConsensusMessage {
    /// Wraps a payload for the bus.
    pub fn new(
        message_type: MessageType,
        variant: PacketType,
        payload: Vec<u8>,
        dont_relay: Vec<u64>,
        omit_status: Option<PeerStatus>,
    ) -> (r: ConsensusMessage)
        ensures
            r.message_type == message_type,
            r.variant == variant,
            r.payload@ == payload@,
            r.dont_relay@ == dont_relay@,
            r.omit_status == omit_status,
    {
        ConsensusMessage { message_type, variant, payload, dont_relay, omit_status }
    }
}

/// Frames an engine callback payload: the packet kind byte, then the bytes.
pub fn frame_payload(variant: PacketType, payload: &Vec<u8>) -> (r: Vec<u8>)
    ensures
        r@.len() == payload@.len() + 1,
        r@[0] == packet_byte(variant),
        r@.skip(1) == payload@,
{
    let mut out: Vec<u8> = Vec::new();
    out.push(variant.to_byte());
    crate::wire::write_all(&mut out, payload);
    proof {
        assert(out@.skip(1) =~= payload@);
    }
    out
}

/// An envelope on a queue: a message to relay, or the stop sentinel.
pub enum QueueMsg {
    Relay(ConsensusMessage),
    Stop,
}

/// What one dispatcher round did, at the spec level: the messages to hand
/// to the handler in order, what is left of the queue, and whether the stop
/// sentinel was seen.
pub struct DrainOutcome {
    pub handled: Seq<ConsensusMessage>,
    pub rest: Seq<QueueMsg>,
    pub stopped: bool,
}

/// Draining up to `quota` messages off the front of one queue: relayed
/// messages are handled in order until the quota, the queue's end, or a
/// stop sentinel, which is consumed and ends the round.
pub open spec fn drain_spec(q: Seq<QueueMsg>, quota: nat) -> DrainOutcome
    decreases quota,
{
    if quota == 0 || q.len() == 0 {
        DrainOutcome { handled: Seq::empty(), rest: q, stopped: false }
    } else {
        match q[0] {
            QueueMsg::Stop => DrainOutcome {
                handled: Seq::empty(),
                rest: q.skip(1),
                stopped: true,
            },
            QueueMsg::Relay(m) => {
                let tail = drain_spec(q.skip(1), (quota - 1) as nat);
                DrainOutcome {
                    handled: seq![m] + tail.handled,
                    rest: tail.rest,
                    stopped: tail.stopped,
                }
            },
        }
    }
}

/// A queue that never holds the stop sentinel drains completely when it
/// fits in the quota: every message is handled, in order.
pub proof fn lemma_drain_all(q: Seq<QueueMsg>, quota: nat)
    requires
        q.len() <= quota,
        forall|i: int| 0 <= i < q.len() ==> (#[trigger] q[i]) is Relay,
    ensures
        drain_spec(q, quota).handled.len() == q.len(),
        drain_spec(q, quota).rest.len() == 0,
        !drain_spec(q, quota).stopped,
        forall|i: int|
            0 <= i < q.len() ==> (q[i] matches QueueMsg::Relay(m) && #[trigger] drain_spec(
                q,
                quota,
            ).handled[i] == m),
    decreases quota,
{
    if quota == 0 || q.len() == 0 {
    } else {
        assert(q[0] is Relay);
        assert(forall|i: int| 0 <= i < q.skip(1).len() ==> #[trigger] q.skip(1)[i] == q[i + 1]);
        lemma_drain_all(q.skip(1), (quota - 1) as nat);
        let tail = drain_spec(q.skip(1), (quota - 1) as nat);
        assert forall|i: int|
            0 <= i < q.len() implies (q[i] matches QueueMsg::Relay(m) && #[trigger] drain_spec(
            q,
            quota,
        ).handled[i] == m) by {
            if i > 0 {
                assert(tail.handled[i - 1] == drain_spec(q, quota).handled[i]);
            }
        }
    }
}

/// One pair of bounded queues with their dispatcher step.
pub struct RelayQueues {
    pub high: Vec<QueueMsg>,
    pub low: Vec<QueueMsg>,
    pub depth_hi: usize,
    pub depth_lo: usize,
}

impl RelayQueues {
    /// Fresh, empty queues with the given depths.
    pub fn new(depth_hi: usize, depth_lo: usize) -> (r: RelayQueues)
        ensures
            r.high@.len() == 0,
            r.low@.len() == 0,
            r.depth_hi == depth_hi,
            r.depth_lo == depth_lo,
    {
        RelayQueues { high: Vec::new(), low: Vec::new(), depth_hi, depth_lo }
    }

    /// Queues a high-priority envelope; `false` when the queue is at depth,
    /// in which case the caller chooses drop or backpressure.
    pub fn send_high_priority(&mut self, msg: QueueMsg) -> (r: bool)
        ensures
            final(self).low@ == old(self).low@,
            final(self).depth_hi == old(self).depth_hi,
            final(self).depth_lo == old(self).depth_lo,
            old(self).high@.len() < old(self).depth_hi ==> r && final(self).high@ == old(
                self,
            ).high@.push(msg),
            old(self).high@.len() >= old(self).depth_hi ==> !r && final(self).high@ == old(
                self,
            ).high@,
    {
        if self.high.len() < self.depth_hi {
            self.high.push(msg);
            true
        } else {
            false
        }
    }

    /// Queues a low-priority envelope; `false` when the queue is at depth.
    pub fn send_low_priority(&mut self, msg: QueueMsg) -> (r: bool)
        ensures
            final(self).high@ == old(self).high@,
            final(self).depth_hi == old(self).depth_hi,
            final(self).depth_lo == old(self).depth_lo,
            old(self).low@.len() < old(self).depth_lo ==> r && final(self).low@ == old(
                self,
            ).low@.push(msg),
            old(self).low@.len() >= old(self).depth_lo ==> !r && final(self).low@ == old(
                self,
            ).low@,
    {
        if self.low.len() < self.depth_lo {
            self.low.push(msg);
            true
        } else {
            false
        }
    }

    /// One dispatcher round: drains up to the full high-priority quota, then
    /// at most one low-priority envelope. The handled messages come back in
    /// delivery order, every high-priority one before the low-priority one;
    /// nothing past a consumed stop sentinel is handled. `stopped` reports
    /// the sentinel; `exhausted` tells the embedding to park until the next
    /// push.
    #[verifier::rlimit(100)]
    pub fn dispatch_round(&mut self) -> (r: (Vec<ConsensusMessage>, bool, bool))
        ensures
            final(self).depth_hi == old(self).depth_hi,
            final(self).depth_lo == old(self).depth_lo,
            ({
                let hi = drain_spec(old(self).high@, old(self).depth_hi as nat);
                &&& final(self).high@ == hi.rest
                &&& (hi.stopped ==> r.0@ == hi.handled && r.1 && final(self).low@ == old(
                    self,
                ).low@)
                &&& (!hi.stopped && old(self).low@.len() == 0 ==> r.0@ == hi.handled && !r.1
                    && final(self).low@ == old(self).low@)
                &&& (!hi.stopped && old(self).low@.len() > 0 ==> final(self).low@ == old(
                    self,
                ).low@.skip(1) && (match old(self).low@[0] {
                    QueueMsg::Stop => r.0@ == hi.handled && r.1,
                    QueueMsg::Relay(m) => r.0@ == hi.handled.push(m) && !r.1,
                }))
                &&& (r.2 == (hi.handled.len() == 0 && !hi.stopped && old(self).low@.len() == 0))
            }),
    {
        let ghost high0 = self.high@;
        let ghost quota0 = self.depth_hi as nat;
        let mut handled: Vec<ConsensusMessage> = Vec::new();
        let mut stopped = false;
        let mut i: usize = 0;
        while i < self.depth_hi && self.high.len() > 0 && !stopped
            invariant
                self.depth_hi == old(self).depth_hi,
                self.depth_lo == old(self).depth_lo,
                self.low@ == old(self).low@,
                i <= self.depth_hi,
                quota0 == self.depth_hi as nat,
                !stopped ==> {
                    &&& drain_spec(high0, quota0).handled == handled@ + drain_spec(
                        self.high@,
                        (quota0 - i) as nat,
                    ).handled
                    &&& drain_spec(high0, quota0).rest == drain_spec(
                        self.high@,
                        (quota0 - i) as nat,
                    ).rest
                    &&& drain_spec(high0, quota0).stopped == drain_spec(
                        self.high@,
                        (quota0 - i) as nat,
                    ).stopped
                },
                stopped ==> drain_spec(high0, quota0).handled == handled@ && drain_spec(
                    high0,
                    quota0,
                ).rest == self.high@ && drain_spec(high0, quota0).stopped,
            decreases self.high@.len() + (if stopped {
                0int
            } else {
                1int
            }),
        {
            let ghost pre = self.high@;
            let msg = self.high.remove(0);
            proof {
                assert(self.high@ =~= pre.skip(1));
                assert(msg == pre[0]);
                assert(pre.len() > 0);
                assert((quota0 - i) as nat >= 1);
            }
            match msg {
                QueueMsg::Relay(m) => {
                    handled.push(m);
                    proof {
                        assert(pre[0] == QueueMsg::Relay(m));
                        let tail = drain_spec(self.high@, (quota0 - i - 1) as nat);
                        assert(drain_spec(pre, (quota0 - i) as nat).handled == seq![m]
                            + tail.handled);
                        assert(drain_spec(pre, (quota0 - i) as nat).rest == tail.rest);
                        assert(drain_spec(pre, (quota0 - i) as nat).stopped == tail.stopped);
                        assert(drain_spec(high0, quota0).handled =~= handled@ + tail.handled);
                    }
                    i = i + 1;
                },
                QueueMsg::Stop => {
                    stopped = true;
                    proof {
                        assert(pre[0] is Stop);
                        assert(drain_spec(pre, (quota0 - i) as nat).stopped);
                        assert(drain_spec(pre, (quota0 - i) as nat).rest == pre.skip(1));
                        assert(drain_spec(pre, (quota0 - i) as nat).handled
                            =~= Seq::<ConsensusMessage>::empty());
                        assert(drain_spec(high0, quota0).handled =~= handled@);
                    }
                },
            }
        }
        proof {
            if !stopped {
                assert(drain_spec(self.high@, (quota0 - i) as nat).handled
                    =~= Seq::<ConsensusMessage>::empty());
                assert(drain_spec(high0, quota0).handled =~= handled@);
                assert(drain_spec(high0, quota0).rest == self.high@);
                assert(!drain_spec(high0, quota0).stopped);
            }
        }
        let took_high = handled.len() > 0;
        if !stopped && self.low.len() > 0 {
            let msg = self.low.remove(0);
            proof {
                assert(self.low@ =~= old(self).low@.skip(1));
            }
            match msg {
                QueueMsg::Relay(m) => {
                    handled.push(m);
                },
                QueueMsg::Stop => {
                    stopped = true;
                },
            }
            (handled, stopped, false)
        } else {
            let exhausted = !took_high && !stopped && self.low.len() == 0;
            (handled, stopped, exhausted)
        }
    }
}

} // verus!
