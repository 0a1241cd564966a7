//! Incoming voice packets, held back briefly and handed out in time order.

use std::collections::VecDeque;
use vstd::prelude::*;

use crate::addr::SocketAddr;
use crate::packet::Packet;
use crate::time::UtcTime;

verus! {

/// How long, in nanoseconds, a packet stays in the queue before it is handed out.
pub const PACKET_BUF_TIME_IN_QUEUE_NANOS: i64 = 100_000_000;

/// A received packet waiting in the queue: its creation time, its sender and its payload.
#[derive(Debug)]
pub struct QueuedPacket {
    pub timestamp: UtcTime,
    pub src: SocketAddr,
    pub payload: Vec<u8>,
}

/// The timestamps never decrease from the front of the queue to its back.
pub open spec fn time_ordered(q: Seq<QueuedPacket>) -> bool {
    &&& forall|i: int| 0 <= i < q.len() ==> (#[trigger] q[i]).timestamp.wf()
    &&& forall|i: int, j: int|
        0 <= i < j < q.len() ==> (#[trigger] q[i]).timestamp.total_nanos() <= (
        #[trigger] q[j]).timestamp.total_nanos()
}

/// The number of queued packets made before `t`.
pub open spec fn older_count(q: Seq<QueuedPacket>, t: UtcTime) -> nat {
    q.filter(|e: QueuedPacket| e.timestamp.total_nanos() < t.total_nanos()).len()
}

/// The packet is due at `now`: more than the holding time has passed since it was made.
pub open spec fn is_due(p: QueuedPacket, now: UtcTime) -> bool {
    now.total_nanos() - p.timestamp.total_nanos() > PACKET_BUF_TIME_IN_QUEUE_NANOS
}

/// What asking the queue `q` for a packet at `now` gives: the front packet and the rest,
/// where the front packet is due; otherwise nothing, and the queue as it was.
pub open spec fn recv_outcome(q: Seq<QueuedPacket>, now: UtcTime) -> (Option<QueuedPacket>, Seq<QueuedPacket>) {
    if q.len() > 0 && is_due(q[0], now) {
        (Some(q[0]), q.drop_first())
    } else {
        (None, q)
    }
}

/// Receiving side of the voice network: the packets of the current protocol version that
/// arrived, in time order.
#[derive(Debug)]
pub struct VoiceNet {
    current_packet_version: u32,
    incoming_packet_buf: VecDeque<QueuedPacket>,
}

/// Where packets with timestamps below `t` form a prefix of length `idx`, the packets
/// older than `t` number `idx`.
proof fn lemma_older_prefix(q: Seq<QueuedPacket>, t: UtcTime, idx: int)
    requires
        0 <= idx <= q.len(),
        forall|k: int| 0 <= k < idx ==> (#[trigger] q[k]).timestamp.total_nanos() < t.total_nanos(),
        forall|k: int|
            idx <= k < q.len() ==> (#[trigger] q[k]).timestamp.total_nanos() >= t.total_nanos(),
    ensures
        older_count(q, t) == idx,
    decreases q.len(),
{
    let pred = |e: QueuedPacket| e.timestamp.total_nanos() < t.total_nanos();
    if q.len() > 0 {
        let p = q.drop_last();
        if idx == q.len() {
            lemma_older_prefix(p, t, idx - 1);
            assert(pred(q.last()));
        } else {
            lemma_older_prefix(p, t, idx);
            assert(!pred(q.last()));
        }
        reveal_with_fuel(Seq::filter, 2);
        assert(q.drop_last() == p);
    }
}

impl VoiceNet {
    #[verifier::type_invariant]
    spec fn inv(self) -> bool {
        time_ordered(self.incoming_packet_buf@)
    }

    /// The packets waiting, front first.
    pub closed spec fn queue(self) -> Seq<QueuedPacket> {
        self.incoming_packet_buf@
    }

    /// The protocol version whose packets are accepted.
    pub closed spec fn version(self) -> u32 {
        self.current_packet_version
    }

    /// An empty queue that accepts packets of `current_packet_version`.
    pub fn new(current_packet_version: u32) -> (v: VoiceNet)
        ensures
            v.version() == current_packet_version,
            v.queue() == Seq::<QueuedPacket>::empty(),
            time_ordered(v.queue()),
    {
        VoiceNet { current_packet_version, incoming_packet_buf: VecDeque::with_capacity(1024) }
    }

    /// Takes in a packet that arrived from `src_addr`.
    ///
    /// A packet of another version is dropped. Otherwise it goes behind the queued packets
    /// made before it, into the queue's time order; a packet made no later than every
    /// queued packet is dropped as too old, unless the queue is empty.
    pub fn read_packet(&mut self, packet: Packet, src_addr: SocketAddr) -> (r: Result<(), ()>)
        ensures
            final(self).version() == old(self).version(),
            time_ordered(final(self).queue()),
            ({
                let idx = older_count(old(self).queue(), packet.header@.timestamp) as int;
                if packet.header@.version == old(self).version() && (idx > 0 || old(
                    self,
                ).queue().len() == 0) {
                    &&& r is Ok
                    &&& final(self).queue() == old(self).queue().insert(
                        idx,
                        QueuedPacket {
                            timestamp: packet.header@.timestamp,
                            src: src_addr,
                            payload: packet.payload,
                        },
                    )
                } else {
                    &&& r is Err
                    &&& final(self).queue() == old(self).queue()
                }
            }),
    {
        proof {
            use_type_invariant(&*self);
        }
        if packet.header.version() != self.current_packet_version {
            return Err(());
        }
        let ts = packet.header.timestamp();
        let mut buf: VecDeque<QueuedPacket> = VecDeque::new();
        std::mem::swap(&mut buf, &mut self.incoming_packet_buf);
        let ghost q = buf@;
        // Binary search for the first packet not made before `ts`.
        let mut lo: usize = 0;
        let mut hi: usize = buf.len();
        while lo < hi
            invariant
                buf@ == q,
                time_ordered(q),
                ts.wf(),
                0 <= lo <= hi <= q.len(),
                forall|k: int| 0 <= k < lo ==> (#[trigger] q[k]).timestamp.total_nanos() < ts.total_nanos(),
                forall|k: int|
                    hi <= k < q.len() ==> (#[trigger] q[k]).timestamp.total_nanos() >= ts.total_nanos(),
            decreases hi - lo,
        {
            let mid = lo + (hi - lo) / 2;
            if buf[mid].timestamp.lt(&ts) {
                assert forall|k: int| 0 <= k <= mid implies (#[trigger] q[k]).timestamp.total_nanos()
                    < ts.total_nanos() by {
                    assert(q[k].timestamp.total_nanos() <= q[mid as int].timestamp.total_nanos());
                }
                lo = mid + 1;
            } else {
                assert forall|k: int| mid <= k < q.len() implies (
                #[trigger] q[k]).timestamp.total_nanos() >= ts.total_nanos() by {
                    assert(q[mid as int].timestamp.total_nanos() <= q[k].timestamp.total_nanos());
                }
                hi = mid;
            }
        }
        proof {
            lemma_older_prefix(q, ts, lo as int);
        }
        if lo > 0 || buf.len() == 0 {
            let entry = QueuedPacket { timestamp: ts, src: src_addr, payload: packet.payload };
            buf.insert(lo, entry);
            proof {
                let n = buf@;
                assert forall|i: int, j: int| 0 <= i < j < n.len() implies (
                #[trigger] n[i]).timestamp.total_nanos() <= (#[trigger] n[j]).timestamp.total_nanos() by {
                    if j < lo {
                        assert(n[i] == q[i] && n[j] == q[j]);
                    } else if j == lo {
                        assert(n[i] == q[i]);
                    } else if i < lo {
                        assert(n[j] == q[j - 1]);
                        assert(n[i] == q[i]);
                        assert(q[i].timestamp.total_nanos() < ts.total_nanos());
                    } else if i == lo {
                        assert(n[j] == q[j - 1]);
                    } else {
                        assert(n[i] == q[i - 1] && n[j] == q[j - 1]);
                    }
                }
                assert forall|i: int| 0 <= i < n.len() implies (#[trigger] n[i]).timestamp.wf() by {
                    if i < lo {
                        assert(n[i] == q[i]);
                    } else if i > lo {
                        assert(n[i] == q[i - 1]);
                    }
                }
            }
            self.incoming_packet_buf = buf;
            Ok(())
        } else {
            self.incoming_packet_buf = buf;
            Err(())
        }
    }

    /// Hands out the packet at the front of the queue where it is due at `now`; otherwise
    /// the queue stays as it is and the result is `None`.
    pub fn recv_at(&mut self, now: UtcTime) -> (r: Option<QueuedPacket>)
        requires
            now.wf(),
        ensures
            final(self).version() == old(self).version(),
            time_ordered(final(self).queue()),
            old(self).queue().len() > 0 && is_due(old(self).queue()[0], now) ==> r == Some(
                old(self).queue()[0],
            ) && final(self).queue() == old(self).queue().drop_first(),
            !(old(self).queue().len() > 0 && is_due(old(self).queue()[0], now)) ==> r is None
                && final(self).queue() == old(self).queue(),
            (r, final(self).queue()) == recv_outcome(old(self).queue(), now),
    {
        proof {
            use_type_invariant(&*self);
        }
        let mut buf: VecDeque<QueuedPacket> = VecDeque::new();
        std::mem::swap(&mut buf, &mut self.incoming_packet_buf);
        let ghost q = buf@;
        let front = match buf.pop_front() {
            Some(p) => p,
            None => {
                self.incoming_packet_buf = buf;
                return None;
            },
        };
        proof {
            assert(front.timestamp.wf());
        }
        let age_nanos: i128 = (now.secs as i128 - front.timestamp.secs as i128) * 1_000_000_000
            + (now.nanos as i128 - front.timestamp.nanos as i128);
        if age_nanos > PACKET_BUF_TIME_IN_QUEUE_NANOS as i128 {
            proof {
                let n = buf@;
                assert(n =~= q.drop_first());
                assert forall|i: int| 0 <= i < n.len() implies (#[trigger] n[i]).timestamp.wf() by {
                    assert(n[i] == q[i + 1]);
                }
                assert forall|i: int, j: int| 0 <= i < j < n.len() implies (
                #[trigger] n[i]).timestamp.total_nanos() <= (#[trigger] n[j]).timestamp.total_nanos() by {
                    assert(n[i] == q[i + 1] && n[j] == q[j + 1]);
                }
            }
            self.incoming_packet_buf = buf;
            Some(front)
        } else {
            buf.push_front(front);
            assert(buf@ =~= q);
            self.incoming_packet_buf = buf;
            None
        }
    }

    /// Hands out the packet at the front of the queue where it is due now (see
    /// [`VoiceNet::recv_at`]); what the clock says is not stated, so either outcome may come.
    /// Where the clock cannot be read, nothing is handed out.
    pub fn recv(&mut self) -> (r: Option<QueuedPacket>)
        ensures
            final(self).version() == old(self).version(),
            time_ordered(final(self).queue()),
            exists|t: UtcTime|
                t.wf() && (r, final(self).queue()) == #[trigger] recv_outcome(old(self).queue(), t),
            r matches Some(p) ==> old(self).queue().len() > 0 && p == old(self).queue()[0]
                && final(self).queue() == old(self).queue().drop_first(),
            r is None ==> final(self).queue() == old(self).queue(),
    {
        proof {
            use_type_invariant(&*self);
        }
        match crate::time::now() {
            Some(now) => self.recv_at(now),
            None => {
                proof {
                    let q = self.queue();
                    let t = if q.len() > 0 {
                        q[0].timestamp
                    } else {
                        UtcTime { secs: 0, nanos: 0 }
                    };
                    assert(recv_outcome(q, t) == (None::<QueuedPacket>, q));
                }
                None
            },
        }
    }
}

} // verus!
