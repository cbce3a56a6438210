//! Per-peer LRDP state.
//!
//! One record per observed remote peer: the next expected inbound sequence
//! number, the next outbound sequence number, optional timestamps of the
//! last send and the last receive, and a first-in-first-out queue of
//! outstanding outbound packets awaiting acknowledgement. Packets are
//! enqueued in strictly increasing modulo-8 order; a packet remains in the
//! queue until it is acknowledged (cumulatively, up to and including its
//! sequence number); the queue's head is the retransmission candidate.

use crate::lrdp_packet::LrdpPacket;
use crate::lrdp_packet::PacketModel;
use std::collections::VecDeque;
use vstd::arithmetic::div_mod::lemma_add_mod_noop;
use vstd::arithmetic::div_mod::lemma_add_mod_noop_right;
use vstd::arithmetic::div_mod::lemma_small_mod;
use vstd::prelude::*;

verus! {

/// The maximum sequence number possible.
pub const MAX_SEQ: u8 = 8;

/// The errors that the per-peer operations can report.
#[derive(Debug, Clone)]
pub enum ClientError {
    /// The client received an acknowledgement number that it did not expect
    /// to receive. This most likely happens when the remote state is very far
    /// out of sync with the local state. In this situation there isn't much
    /// that can be done other than to bail.
    WrongAck(u8),
    /// The client received a sequence number that it did not expect to
    /// receive. The first element of this tuple is the received sequence
    /// number and the second element is the expected sequence number.
    WrongSeq(u8, u8),
    /// The receiver has acknowledged all of the data in the client's send
    /// queue, and there is no more data to send. This is caused when the
    /// client does not hear an ACK and thus retransmits the latest packet
    /// even though the receiver is expecting the next packet in the sequence.
    Exhausted,
}

/// The mathematical model of a per-peer record.
#[verifier::ext_equal]
pub struct ClientModel {
    pub addr: u64,
    pub remote_seq: u8,
    pub local_seq: u8,
    pub last_recv: Option<u64>,
    pub last_send: Option<u64>,
    pub send_queue: Seq<PacketModel>,
}

impl ClientModel {
    /// Well-formedness: the two cursors are in the 3-bit space, and the
    /// queued sequence numbers run in increasing modulo-8 order, ending just
    /// before the next outbound number. The queue's length is not bounded
    /// here: the sender may outrun the 8-slot window, and the operations
    /// below still do what their contracts say.
    pub open spec fn wf(self) -> bool {
        &&& self.local_seq < 8
        &&& self.remote_seq < 8
        &&& forall|i: int|
            0 <= i < self.send_queue.len() ==> (#[trigger] self.send_queue[i].seq_num
                + self.send_queue.len() - i) % 8 == self.local_seq
    }
}

/// The fresh record for a peer: both cursors at zero, nothing sent or
/// received yet, an empty send queue.
pub open spec fn spec_new_client(addr: u64) -> ClientModel {
    ClientModel {
        addr,
        remote_seq: 0,
        local_seq: 0,
        last_recv: None,
        last_send: None,
        send_queue: Seq::empty(),
    }
}

/// Whether some queued packet carries the sequence number `n`.
pub open spec fn seq_in_queue(q: Seq<PacketModel>, n: u8) -> bool {
    exists|i: int| 0 <= i < q.len() && q[i].seq_num == n
}

/// The first index whose packet carries the sequence number `n` (the queue
/// length when there is none).
pub open spec fn first_match(q: Seq<PacketModel>, n: u8) -> int
    decreases q.len(),
{
    if q.len() == 0 {
        0
    } else if q[0].seq_num == n {
        0
    } else {
        1 + first_match(q.skip(1), n)
    }
}

/// What `ClientState::ack` does: the state after the call and the result.
pub open spec fn spec_ack(m: ClientModel, ack_num: u8) -> (ClientModel, Result<
    (),
    ClientError,
>) {
    if seq_in_queue(m.send_queue, ack_num) {
        (
            ClientModel {
                send_queue: m.send_queue.skip(first_match(m.send_queue, ack_num) + 1),
                ..m
            },
            Ok(()),
        )
    } else if ack_num == m.local_seq {
        (ClientModel { send_queue: Seq::empty(), ..m }, Err(ClientError::Exhausted))
    } else {
        (m, Err(ClientError::WrongAck(ack_num)))
    }
}

/// What `ClientState::recv` does: the state after the call and the result.
pub open spec fn spec_recv(m: ClientModel, seq_num: u8) -> (ClientModel, Result<
    (),
    ClientError,
>) {
    if seq_num == m.remote_seq {
        (ClientModel { remote_seq: ((m.remote_seq + 1) % (MAX_SEQ as int)) as u8, ..m }, Ok(()))
    } else {
        (m, Err(ClientError::WrongSeq(seq_num, m.remote_seq)))
    }
}

/// What `ClientState::enqueue` does: the state after the call and the result.
pub open spec fn spec_enqueue(m: ClientModel, p: PacketModel) -> (ClientModel, Result<
    (),
    ClientError,
>) {
    if p.seq_num != m.local_seq {
        (m, Err(ClientError::WrongSeq(p.seq_num, m.local_seq)))
    } else {
        (
            ClientModel {
                send_queue: m.send_queue.push(p),
                local_seq: ((m.local_seq + 1) % (MAX_SEQ as int)) as u8,
                ..m
            },
            Ok(()),
        )
    }
}

/// The first index with sequence number `n` is sound: it lies in the queue,
/// it carries `n`, and nothing before it does.
pub proof fn lemma_first_match(q: Seq<PacketModel>, n: u8)
    requires
        seq_in_queue(q, n),
    ensures
        0 <= first_match(q, n) < q.len(),
        q[first_match(q, n)].seq_num == n,
        forall|j: int| 0 <= j < first_match(q, n) ==> q[j].seq_num != n,
    decreases q.len(),
{
    if q.len() > 0 && q[0].seq_num != n {
        let i = choose|i: int| 0 <= i < q.len() && q[i].seq_num == n;
        assert(q.skip(1)[i - 1] == q[i]);
        lemma_first_match(q.skip(1), n);
        assert(forall|j: int|
            0 <= j < first_match(q.skip(1), n) ==> q.skip(1)[j].seq_num != n);
        assert(forall|j: int|
            1 <= j < first_match(q, n) ==> q[j].seq_num == q.skip(1)[j - 1].seq_num);
    }
}

/// The packet models that a queue of packets holds, in order.
pub open spec fn queue_view(q: Seq<LrdpPacket>) -> Seq<PacketModel> {
    Seq::new(q.len(), |i: int| q[i]@)
}

/// The state associated with a client connected over an LRDP socket.
pub struct ClientState {
    /// The address of this client.
    addr: u64,
    /// The sequence number of the received data.
    remote_seq: u8,
    /// The sequence number of the sent data.
    local_seq: u8,
    /// The last time something was received by this client.
    pub last_recv: Option<u64>,
    /// The last time something was sent to this client.
    pub last_send: Option<u64>,
    /// Packets which are waiting to be sent, or have been sent and not yet
    /// acknowledged.
    send_queue: VecDeque<LrdpPacket>,
}

impl View for ClientState {
    type V = ClientModel;

    closed spec fn view(&self) -> ClientModel {
        ClientModel {
            addr: self.addr,
            remote_seq: self.remote_seq,
            local_seq: self.local_seq,
            last_recv: self.last_recv,
            last_send: self.last_send,
            send_queue: queue_view(self.send_queue@),
        }
    }
}

impl ClientState {
    /// Creates a new client state associated with the given `addr`.
    pub fn new(addr: u64) -> (r: Self)
        ensures
            r@ == spec_new_client(addr),
            r@.wf(),
    {
        let r = Self {
            addr,
            remote_seq: 0,
            local_seq: 0,
            last_recv: None,
            last_send: None,
            send_queue: VecDeque::with_capacity(8),
        };
        assert(r@ =~= spec_new_client(addr));
        r
    }

    /// Acknowledges all of the packets up to and including the one with the
    /// sequence number of `ack_num`. When `ack_num` is in the queue, the head
    /// of the queue up to and including that packet is dropped. When it is
    /// the local cursor instead, the peer has acknowledged past everything
    /// sent: the queue is drained and `Exhausted` comes back. Any other
    /// number is `WrongAck`.
    pub fn ack(&mut self, ack_num: u8) -> (r: Result<(), ClientError>)
        ensures
            final(self)@ == spec_ack(old(self)@, ack_num).0,
            r == spec_ack(old(self)@, ack_num).1,
    {
        let ghost m0 = self@;
        // find the first queued packet carrying the acked number, if any.
        let mut idx: usize = 0;
        let mut found = false;
        while idx < self.send_queue.len() && !found
            invariant
                0 <= idx <= self.send_queue@.len(),
                self@ == m0,
                forall|j: int| 0 <= j < idx ==> m0.send_queue[j].seq_num != ack_num,
                found ==> idx < m0.send_queue.len() && m0.send_queue[idx as int].seq_num
                    == ack_num,
            decreases self.send_queue@.len() - idx + (if found { 0int } else { 1int }),
        {
            if self.send_queue[idx].seq_num() == ack_num {
                found = true;
            } else {
                idx = idx + 1;
            }
        }
        if !found {
            assert(!seq_in_queue(m0.send_queue, ack_num));
            // if the receiver was expecting the next number in the sequence,
            // then this client is just exhausted.
            if ack_num == self.local_seq {
                // drain the queue.
                while self.send_queue.len() > 0
                    invariant
                        self@ == (ClientModel { send_queue: queue_view(self.send_queue@), ..m0 }),
                    decreases self.send_queue@.len(),
                {
                    self.send_queue.pop_front();
                }
                assert(queue_view(self.send_queue@) =~= Seq::<PacketModel>::empty());
                assert(self@ =~= spec_ack(m0, ack_num).0);
                Err(ClientError::Exhausted)
            } else {
                Err(ClientError::WrongAck(ack_num))
            }
        } else {
            proof {
                lemma_first_match(m0.send_queue, ack_num);
                assert(first_match(m0.send_queue, ack_num) == idx);
            }
            // remove all packets until we reach the acked one.
            let ghost rawq0 = self.send_queue@;
            let qlen = self.send_queue.len();
            assert(idx < qlen);
            let mut k: usize = 0;
            while k <= idx
                invariant
                    0 <= k <= idx + 1,
                    idx < qlen,
                    idx < m0.send_queue.len(),
                    m0.send_queue == queue_view(rawq0),
                    self.send_queue@ == rawq0.skip(k as int),
                    self@ == (ClientModel { send_queue: queue_view(self.send_queue@), ..m0 }),
                decreases idx + 1 - k,
            {
                proof {
                    assert(rawq0.skip(k as int).len() == rawq0.len() - k);
                }
                self.send_queue.pop_front();
                proof {
                    assert(self.send_queue@ =~= rawq0.skip(k + 1));
                }
                k = k + 1;
            }
            proof {
                assert(queue_view(self.send_queue@) =~= m0.send_queue.skip(idx + 1));
                assert(self@ =~= spec_ack(m0, ack_num).0);
            }
            Ok(())
        }
    }

    /// Returns the packet at the front of the send queue: the retransmission
    /// candidate.
    pub fn next_packet(&self) -> (r: Option<&LrdpPacket>)
        ensures
            match r {
                Some(p) => self@.send_queue.len() > 0 && p@ == self@.send_queue[0],
                None => self@.send_queue.len() == 0,
            },
    {
        if self.send_queue.len() == 0 {
            None
        } else {
            Some(&self.send_queue[0])
        }
    }

    /// Tries to receive the given sequence number. If the received sequence
    /// number is not the expected one, `ClientError::WrongSeq` will be
    /// returned; otherwise the expected inbound number advances by one,
    /// modulo 8.
    pub fn recv(&mut self, seq_num: u8) -> (r: Result<(), ClientError>)
        requires
            old(self)@.wf(),
        ensures
            final(self)@ == spec_recv(old(self)@, seq_num).0,
            r == spec_recv(old(self)@, seq_num).1,
            final(self)@.wf(),
    {
        let ghost m0 = self@;
        if seq_num == self.remote_seq {
            self.remote_seq = (self.remote_seq + 1) % MAX_SEQ;
            assert(self@ =~= spec_recv(m0, seq_num).0);
            Ok(())
        } else {
            Err(ClientError::WrongSeq(seq_num, self.remote_seq))
        }
    }

    /// Returns the next local sequence number.
    pub fn next_seq_num(&self) -> (r: u8)
        ensures
            r == self@.local_seq,
    {
        self.local_seq
    }

    /// Tries to add the `packet` to this client state's send queue. If the
    /// sequence number of the packet is not the expected one,
    /// `ClientError::WrongSeq` is returned; otherwise the packet joins the
    /// tail of the queue and the next outbound number advances by one,
    /// modulo 8.
    pub fn enqueue(&mut self, packet: LrdpPacket) -> (r: Result<(), ClientError>)
        requires
            old(self)@.wf(),
        ensures
            final(self)@ == spec_enqueue(old(self)@, packet@).0,
            r == spec_enqueue(old(self)@, packet@).1,
            final(self)@.wf(),
    {
        let ghost m0 = self@;
        if packet.seq_num() != self.local_seq {
            Err(ClientError::WrongSeq(packet.seq_num(), self.local_seq))
        } else {
            let ghost pm = packet@;
            self.send_queue.push_back(packet);
            self.local_seq = (self.local_seq + 1) % MAX_SEQ;
            proof {
                assert(queue_view(self.send_queue@) =~= m0.send_queue.push(pm));
                assert(self@ =~= spec_enqueue(m0, pm).0);
                lemma_enqueue_preserves_wf(m0, pm);
            }
            Ok(())
        }
    }
}

/// Enqueuing the packet the cursor asks for keeps the record well-formed.
pub proof fn lemma_enqueue_preserves_wf(m: ClientModel, p: PacketModel)
    requires
        m.wf(),
        p.seq_num == m.local_seq,
    ensures
        spec_enqueue(m, p).0.wf(),
{
    let m1 = spec_enqueue(m, p).0;
    let q = m.send_queue;
    let q1 = m1.send_queue;
    assert forall|i: int| 0 <= i < q1.len() implies (#[trigger] q1[i].seq_num + q1.len() - i) % 8
        == m1.local_seq by {
        if i < q.len() {
            assert((q[i].seq_num + q.len() - i) % 8 == m.local_seq);
            lemma_add_mod_noop(q[i].seq_num + q.len() - i, 1, 8);
            assert((m.local_seq + 1) % 8 == m1.local_seq);
            assert(q1[i] == q[i]);
        } else {
            assert(q1[i] == p);
            lemma_add_mod_noop(p.seq_num as int, 1, 8);
        }
    }
}

/// A cumulative acknowledgement keeps the record well-formed: what remains
/// of the queue is a suffix, and its progression still ends at the cursor.
pub proof fn lemma_ack_preserves_wf(m: ClientModel, ack_num: u8)
    requires
        m.wf(),
    ensures
        spec_ack(m, ack_num).0.wf(),
{
    let m1 = spec_ack(m, ack_num).0;
    if seq_in_queue(m.send_queue, ack_num) {
        let i = first_match(m.send_queue, ack_num);
        lemma_first_match(m.send_queue, ack_num);
        let q = m.send_queue;
        let q1 = m1.send_queue;
        assert forall|j: int| 0 <= j < q1.len() implies (#[trigger] q1[j].seq_num + q1.len()
            - j) % 8 == m1.local_seq by {
            assert(q1[j] == q[i + 1 + j]);
            assert((q[i + 1 + j].seq_num + q.len() - (i + 1 + j)) % 8 == m.local_seq);
        }
    }
}

/// The record after enqueuing a whole run of packets, first to last.
pub open spec fn spec_enqueue_all(m: ClientModel, ps: Seq<PacketModel>) -> ClientModel
    decreases ps.len(),
{
    if ps.len() == 0 {
        m
    } else {
        spec_enqueue_all(spec_enqueue(m, ps[0]).0, ps.skip(1))
    }
}

/// Whether every enqueue in a whole run of packets succeeds.
pub open spec fn spec_enqueue_all_ok(m: ClientModel, ps: Seq<PacketModel>) -> bool
    decreases ps.len(),
{
    ps.len() == 0 || (spec_enqueue(m, ps[0]).1 is Ok && spec_enqueue_all_ok(
        spec_enqueue(m, ps[0]).0,
        ps.skip(1),
    ))
}

/// Sequence monotonicity, the positive half: enqueuing packets whose
/// sequence numbers follow the local cursor in modulo-8 order succeeds at
/// every step, whatever the run's length, and appends the run to the queue
/// in order. (The negative half is `spec_enqueue` itself: a packet whose
/// number is not the cursor fails with `WrongSeq` and changes nothing.)
pub proof fn lemma_enqueue_in_order(m: ClientModel, ps: Seq<PacketModel>)
    requires
        m.wf(),
        forall|i: int|
            0 <= i < ps.len() ==> (#[trigger] ps[i].seq_num) == (m.local_seq + i) % 8,
    ensures
        spec_enqueue_all_ok(m, ps),
        spec_enqueue_all(m, ps).send_queue == m.send_queue + ps,
        spec_enqueue_all(m, ps).wf(),
    decreases ps.len(),
{
    if ps.len() == 0 {
        assert(m.send_queue + ps =~= m.send_queue);
    } else {
        lemma_small_mod(m.local_seq as nat, 8);
        assert(ps[0].seq_num == m.local_seq);
        let m1 = spec_enqueue(m, ps[0]).0;
        lemma_enqueue_preserves_wf(m, ps[0]);
        assert forall|i: int|
            0 <= i < ps.skip(1).len() implies (#[trigger] ps.skip(1)[i].seq_num) == (m1.local_seq
            + i) % 8 by {
            assert(ps.skip(1)[i] == ps[i + 1]);
            assert(ps[i + 1].seq_num == (m.local_seq + i + 1) % 8);
            lemma_add_mod_noop(m.local_seq + 1, i, 8);
            lemma_add_mod_noop_right((m.local_seq + 1) % 8, i, 8);
        }
        lemma_enqueue_in_order(m1, ps.skip(1));
        assert(m1.send_queue + ps.skip(1) =~= m.send_queue + ps);
    }
}

/// Cumulative acknowledgement: with packets numbered `0..=k` queued,
/// acknowledging `j <= k` succeeds and removes exactly the packets numbered
/// `0..=j`, leaving the rest in order.
pub proof fn lemma_cumulative_ack(m: ClientModel, j: u8)
    requires
        forall|i: int| 0 <= i < m.send_queue.len() ==> (#[trigger] m.send_queue[i].seq_num) == i,
        j < m.send_queue.len(),
    ensures
        spec_ack(m, j).1 is Ok,
        spec_ack(m, j).0.send_queue == m.send_queue.skip(j + 1),
{
    let q = m.send_queue;
    assert(q[j as int].seq_num == j);
    assert(seq_in_queue(q, j));
    lemma_first_match(q, j);
    let fm = first_match(q, j);
    assert(q[fm].seq_num == fm);
    assert(fm == j);
}

/// Acknowledging one past the end: with packets numbered `0..=k` queued and
/// `k + 1 < 8`, acknowledging `k + 1` (the number the peer expects next,
/// which equals the local cursor) drains the queue and reports `Exhausted`.
/// With `k == 7` the cursor has wrapped to `0`, a number still in the queue,
/// so that acknowledgement is cumulative instead.
pub proof fn lemma_ack_exhausted(m: ClientModel, k: u8)
    requires
        m.wf(),
        m.send_queue.len() == k + 1,
        forall|i: int| 0 <= i < m.send_queue.len() ==> (#[trigger] m.send_queue[i].seq_num) == i,
        k < 7,
    ensures
        spec_ack(m, (k + 1) as u8).1 == Err::<(), ClientError>(ClientError::Exhausted),
        spec_ack(m, (k + 1) as u8).0.send_queue == Seq::<PacketModel>::empty(),
{
    let q = m.send_queue;
    assert((q[0].seq_num + q.len() - 0) % 8 == m.local_seq);
    lemma_small_mod((k + 1) as nat, 8);
    assert(m.local_seq == k + 1);
    assert(!seq_in_queue(q, (k + 1) as u8)) by {
        assert(forall|i: int| 0 <= i < q.len() ==> (#[trigger] q[i].seq_num) < k + 1);
    }
}

/// Whether a peer's head packet is due for retransmission at time `now`:
/// something was sent at least `delay` milliseconds ago and the send queue
/// still holds an unacknowledged packet.
pub open spec fn spec_due(m: ClientModel, now: u64, delay: u64) -> bool {
    &&& m.last_send is Some
    &&& m.last_send->0 + delay <= now
    &&& m.send_queue.len() > 0
}

impl ClientState {
    /// Records that something was transmitted to this peer at time `now`.
    pub fn set_last_send(&mut self, now: u64)
        ensures
            final(self)@ == (ClientModel { last_send: Some(now), ..old(self)@ }),
            old(self)@.wf() ==> final(self)@.wf(),
    {
        self.last_send = Some(now);
        assert(self@ =~= (ClientModel { last_send: Some(now), ..old(self)@ }));
    }

    /// The retransmission step for this peer at time `now`: when the head of
    /// the send queue has waited at least `delay` milliseconds since the last
    /// transmission, hand back its wire bytes to be sent again and record the
    /// new send time; otherwise change and return nothing.
    pub fn resend_due(&mut self, now: u64, delay: u64) -> (r: Option<Vec<u8>>)
        ensures
            spec_due(old(self)@, now, delay) ==> r is Some && r->0@ == crate::lrdp_packet::spec_encode(
                old(self)@.send_queue[0],
            ) && final(self)@ == (ClientModel { last_send: Some(now), ..old(self)@ }),
            !spec_due(old(self)@, now, delay) ==> r is None && final(self)@ == old(self)@,
            old(self)@.wf() ==> final(self)@.wf(),
    {
        let due_time = match self.last_send {
            Some(t) => t <= now && now - t >= delay,
            None => false,
        };
        if due_time {
            let bytes = match self.next_packet() {
                Some(packet) => Some(packet.as_buffer()),
                None => None,
            };
            match bytes {
                Some(b) => {
                    self.last_send = Some(now);
                    assert(self@ =~= (ClientModel { last_send: Some(now), ..old(self)@ }));
                    Some(b)
                },
                None => None,
            }
        } else {
            None
        }
    }
}

} // verus!
