//! The SRDP socket engine.
//!
//! A socket runs two activities over one UDP endpoint besides the caller's
//! own sends: an ingress that reads datagrams and mutates protocol state,
//! and a retransmitter that wakes periodically, flushes the delayed
//! acknowledgement and resends stale Important packets. This module holds
//! every decision those activities make, as functions from the socket state
//! and a received datagram (or a clock reading) to the next state and a
//! list of actions. The caller performs the actions: it hands `Deliver`
//! payloads to the application and writes `Send` bytes to the wire, in
//! order.
//!
//! Peers are identified by plain 64-bit tokens; the caller keeps the map
//! between tokens and socket addresses.

use crate::srdp_packet::encode_important;
use crate::srdp_packet::SrdpFrame;
use crate::srdp_packet::spec_encode_frame;
use crate::srdp_packet::FrameModel;
use crate::srdp_packet::ACK_FLAG;
use crate::srdp_packet::ID_MASK;
use std::collections::VecDeque;
use vstd::arithmetic::div_mod::lemma_add_mod_noop;
use vstd::arithmetic::div_mod::lemma_add_mod_noop_right;
use vstd::arithmetic::div_mod::lemma_small_mod;
use vstd::prelude::*;

verus! {

/// How many packet ids the pool holds; ids and the inbound sequence number
/// live in the 6-bit space below this bound.
pub const ID_COUNT: u8 = 64;

/// How many round-trip-time samples the ring keeps.
pub const RTT_SAMPLES: usize = 10;

/// The round-trip time, in milliseconds, that seeds the ring before any
/// sample is measured.
pub const INITIAL_RTT: u64 = 100;

/// How many recently received Important ids are remembered to suppress
/// duplicate deliveries.
pub const RECENT_CAP: usize = 16;

/// A datagram at the public boundary: the caller chooses the reliability
/// mode of each send.
pub enum Packet {
    Important(Vec<u8>),
    Normal(Vec<u8>),
}

/// An Important packet awaiting acknowledgement.
pub struct UnackedPacket {
    id: u8,
    data: Vec<u8>,
    addr: u64,
    last_sent: u64,
    first_sent: u64,
}

/// The mathematical model of an unacknowledged packet.
#[verifier::ext_equal]
pub struct UnackedModel {
    pub id: u8,
    pub data: Seq<u8>,
    pub addr: u64,
    pub last_sent: u64,
    pub first_sent: u64,
}

impl View for UnackedPacket {
    type V = UnackedModel;

    closed spec fn view(&self) -> UnackedModel {
        UnackedModel {
            id: self.id,
            data: self.data@,
            addr: self.addr,
            last_sent: self.last_sent,
            first_sent: self.first_sent,
        }
    }
}

impl UnackedPacket {
    /// A packet first sent now, to be tracked until its id is acknowledged.
    pub fn new(id: u8, data: Vec<u8>, addr: u64, now: u64) -> (r: Self)
        ensures
            r@ == (UnackedModel { id, data: data@, addr, last_sent: now, first_sent: now }),
    {
        Self { id, data, addr, last_sent: now, first_sent: now }
    }

    /// The wire bytes of this packet: an Important frame under its id.
    pub fn as_bytes(&self) -> (r: Vec<u8>)
        ensures
            r@ == spec_encode_frame(
                FrameModel::Important { id: self@.id, payload: self@.data },
            ),
    {
        encode_important(self.id, self.data.as_slice())
    }
}

/// The delayed-acknowledgement record: whether an ACK is owed, when it was
/// scheduled, the id it will carry, and the peer it goes to.
pub struct AckInfo {
    should_ack: bool,
    time: u64,
    ack_number: u8,
    addr: Option<u64>,
}

/// The mathematical model of the delayed-acknowledgement record.
#[verifier::ext_equal]
pub struct AckInfoModel {
    pub should_ack: bool,
    pub time: u64,
    pub ack_number: u8,
    pub addr: Option<u64>,
}

impl View for AckInfo {
    type V = AckInfoModel;

    closed spec fn view(&self) -> AckInfoModel {
        AckInfoModel {
            should_ack: self.should_ack,
            time: self.time,
            ack_number: self.ack_number,
            addr: self.addr,
        }
    }
}

/// The record with no acknowledgement owed.
pub open spec fn spec_new_ack_info() -> AckInfoModel {
    AckInfoModel { should_ack: false, time: 0, ack_number: 0, addr: None }
}

impl AckInfo {
    /// A record with no acknowledgement owed.
    pub fn new() -> (r: Self)
        ensures
            r@ == spec_new_ack_info(),
    {
        Self { should_ack: false, time: 0, ack_number: 0, addr: None }
    }

    /// The single header byte of the ACK this record will send.
    pub fn as_header(&self) -> (r: [u8; 1])
        ensures
            r@ == spec_encode_frame(FrameModel::Ack { id: self@.ack_number }),
    {
        let r = [(self.ack_number & ID_MASK) | ACK_FLAG];
        assert(r@ =~= spec_encode_frame(FrameModel::Ack { id: self@.ack_number }));
        r
    }
}

/// The models of the unacknowledged queue, in send order.
pub open spec fn unacked_view(q: Seq<UnackedPacket>) -> Seq<UnackedModel> {
    Seq::new(q.len(), |i: int| q[i]@)
}

/// The ids of the queued packets, in send order.
pub open spec fn unacked_ids(q: Seq<UnackedModel>) -> Seq<u8> {
    Seq::new(q.len(), |i: int| q[i].id)
}

/// The mathematical model of one SRDP socket's state.
#[verifier::ext_equal]
pub struct SrdpModel {
    /// The packet ids still available, oldest returned first.
    pub ids: Seq<u8>,
    /// The Important packets sent and not yet acknowledged, in send order.
    pub unacked: Seq<UnackedModel>,
    /// The last measured round-trip times, in milliseconds, oldest first.
    pub send_times: Seq<u64>,
    /// The next inbound Important id expected, modulo 64.
    pub seq_number: u8,
    /// The most recently accepted inbound ids, oldest first.
    pub recent_ids: Seq<u8>,
    /// The delayed-acknowledgement record.
    pub ack_info: AckInfoModel,
}

impl SrdpModel {
    /// Well-formedness. Every id, in the pool or in flight, lives in the
    /// 6-bit space; no id is in two places at once, and together the pool
    /// and the unacknowledged queue own all 64. The ring always holds
    /// exactly ten samples. The remembered inbound ids are the ones
    /// accepted most recently: they run in increasing modulo-64 order and
    /// end just before the expected sequence number. An owed
    /// acknowledgement always has a peer to go to.
    pub open spec fn wf(self) -> bool {
        &&& self.send_times.len() == RTT_SAMPLES
        &&& self.seq_number < 64
        &&& forall|i: int| 0 <= i < self.ids.len() ==> self.ids[i] < 64
        &&& forall|i: int, j: int| 0 <= i < j < self.ids.len() ==> self.ids[i] != self.ids[j]
        &&& forall|i: int| 0 <= i < self.unacked.len() ==> (#[trigger] self.unacked[i]).id < 64
        &&& forall|i: int, j: int|
            0 <= i < j < self.unacked.len() ==> self.unacked[i].id != self.unacked[j].id
        &&& forall|i: int, j: int|
            0 <= i < self.ids.len() && 0 <= j < self.unacked.len() ==> #[trigger] self.ids[i]
                != (#[trigger] self.unacked[j]).id
        &&& self.ids.len() + self.unacked.len() == 64
        &&& self.recent_ids.len() <= RECENT_CAP
        &&& forall|i: int| 0 <= i < self.recent_ids.len() ==> self.recent_ids[i] < 64
        &&& forall|i: int|
            0 <= i < self.recent_ids.len() ==> (#[trigger] self.recent_ids[i]
                + (self.recent_ids.len() - i)) % 64 == self.seq_number
        &&& (self.ack_info.should_ack ==> self.ack_info.addr is Some)
    }
}

/// The state a freshly bound socket starts with: all 64 ids available in
/// order, nothing in flight, the ring seeded with the initial sample,
/// expecting inbound id 0, nothing remembered, no acknowledgement owed.
pub open spec fn spec_new_srdp() -> SrdpModel {
    SrdpModel {
        ids: Seq::new(ID_COUNT as nat, |i: int| i as u8),
        unacked: Seq::empty(),
        send_times: Seq::new(RTT_SAMPLES as nat, |i: int| INITIAL_RTT),
        seq_number: 0,
        recent_ids: Seq::empty(),
        ack_info: spec_new_ack_info(),
    }
}

/// One SRDP socket's protocol state.
pub struct SrdpState {
    ids: VecDeque<u8>,
    unacked: VecDeque<UnackedPacket>,
    send_times: VecDeque<u64>,
    seq_number: u8,
    recent_ids: VecDeque<u8>,
    ack_info: AckInfo,
}

impl View for SrdpState {
    type V = SrdpModel;

    closed spec fn view(&self) -> SrdpModel {
        SrdpModel {
            ids: self.ids@,
            unacked: unacked_view(self.unacked@),
            send_times: self.send_times@,
            seq_number: self.seq_number,
            recent_ids: self.recent_ids@,
            ack_info: self.ack_info@,
        }
    }
}

/// The state after an Important send: the oldest available id leaves the
/// pool and the packet joins the tail of the unacknowledged queue, first
/// and last sent now.
pub open spec fn spec_send_important(m: SrdpModel, data: Seq<u8>, addr: u64, now: u64) -> SrdpModel {
    SrdpModel {
        ids: m.ids.skip(1),
        unacked: m.unacked.push(
            UnackedModel { id: m.ids[0], data, addr, last_sent: now, first_sent: now },
        ),
        ..m
    }
}

/// An Important send keeps the state well-formed: the id only moves from
/// the pool to the queue.
pub proof fn lemma_send_important_wf(m: SrdpModel, data: Seq<u8>, addr: u64, now: u64)
    requires
        m.wf(),
        m.ids.len() > 0,
    ensures
        spec_send_important(m, data, addr, now).wf(),
{
    let m1 = spec_send_important(m, data, addr, now);
    assert forall|i: int, j: int|
        0 <= i < j < m1.unacked.len() implies m1.unacked[i].id != m1.unacked[j].id by {
        if j < m.unacked.len() {
        } else {
            assert(m1.unacked[j].id == m.ids[0]);
            assert(m.ids[0] != m.unacked[i].id);
        }
    }
    assert forall|i: int, j: int|
        0 <= i < m1.ids.len() && 0 <= j < m1.unacked.len() implies #[trigger] m1.ids[i] != (
    #[trigger] m1.unacked[j]).id by {
        assert(m1.ids[i] == m.ids[i + 1]);
        if j < m.unacked.len() {
        } else {
            assert(m1.unacked[j].id == m.ids[0]);
        }
    }
    assert(forall|i: int| 0 <= i < m1.unacked.len() ==> (#[trigger] m1.unacked[i]).id < 64);
}

impl SrdpState {
    /// The state of a freshly bound socket.
    pub fn new() -> (r: Self)
        ensures
            r@ == spec_new_srdp(),
            r@.wf(),
    {
        let mut ids: VecDeque<u8> = VecDeque::new();
        let mut i: u8 = 0;
        while i < ID_COUNT
            invariant
                0 <= i <= ID_COUNT,
                ids@.len() == i as int,
                forall|j: int| 0 <= j < i ==> ids@[j] == j as u8,
            decreases ID_COUNT - i,
        {
            ids.push_back(i);
            i = i + 1;
        }
        let mut send_times: VecDeque<u64> = VecDeque::with_capacity(RTT_SAMPLES);
        let mut k: usize = 0;
        while k < RTT_SAMPLES
            invariant
                0 <= k <= RTT_SAMPLES,
                send_times@.len() == k as int,
                forall|j: int| 0 <= j < k ==> send_times@[j] == INITIAL_RTT,
            decreases RTT_SAMPLES - k,
        {
            send_times.push_back(INITIAL_RTT);
            k = k + 1;
        }
        let r = Self {
            ids,
            unacked: VecDeque::new(),
            send_times,
            seq_number: 0,
            recent_ids: VecDeque::new(),
            ack_info: AckInfo::new(),
        };
        proof {
            assert(r@.ids =~= spec_new_srdp().ids);
            assert(r@.send_times =~= spec_new_srdp().send_times);
            assert(r@.unacked =~= spec_new_srdp().unacked);
            assert(r@.recent_ids =~= spec_new_srdp().recent_ids);
            assert(r@ =~= spec_new_srdp());
        }
        r
    }

    /// The egress step. A Normal datagram needs no state: its wire bytes
    /// come back at once. An Important datagram takes the oldest available
    /// id, joins the unacknowledged queue with both timestamps at `now`,
    /// and its wire bytes come back; with the pool empty nothing changes
    /// and `None` says the caller must wait for an acknowledgement to free
    /// an id.
    pub fn send_to(&mut self, packet: Packet, addr: u64, now: u64) -> (r: Option<Vec<u8>>)
        requires
            old(self)@.wf(),
        ensures
            final(self)@.wf(),
            match packet {
                Packet::Normal(data) => r is Some && r->0@ == spec_encode_frame(
                    FrameModel::Normal { payload: data@ },
                ) && final(self)@ == old(self)@,
                Packet::Important(data) => {
                    if old(self)@.ids.len() > 0 {
                        &&& r is Some
                        &&& r->0@ == spec_encode_frame(
                            FrameModel::Important { id: old(self)@.ids[0], payload: data@ },
                        )
                        &&& final(self)@ == spec_send_important(old(self)@, data@, addr, now)
                    } else {
                        r is None && final(self)@ == old(self)@
                    }
                },
            },
    {
        let ghost m0 = self@;
        match packet {
            // normal packet can just be sent, with an empty header in front
            // of the data.
            Packet::Normal(data) => Some(crate::srdp_packet::encode_normal(data.as_slice())),
            Packet::Important(data) => {
                let ghost d = data@;
                // take an ID from the pool, if one is free.
                match self.ids.pop_front() {
                    Some(id) => {
                        // add the packet to the unacked queue, then send it.
                        let unacked = UnackedPacket::new(id, data, addr, now);
                        let bytes = unacked.as_bytes();
                        self.unacked.push_back(unacked);
                        proof {
                            assert(self@.unacked =~= spec_send_important(m0, d, addr, now).unacked);
                            assert(self@ =~= spec_send_important(m0, d, addr, now));
                            lemma_send_important_wf(m0, d, addr, now);
                        }
                        Some(bytes)
                    },
                    None => None,
                }
            },
        }
    }
}

/// One thing the caller must do after an ingress or retransmitter step.
pub enum SrdpAction {
    /// Hand `payload` to the application as the next datagram from `peer`.
    Deliver { payload: Vec<u8>, peer: u64 },
    /// Write `bytes` to the wire, addressed to `peer`.
    Send { bytes: Vec<u8>, peer: u64 },
}

/// The mathematical model of an action.
#[verifier::ext_equal]
pub enum SrdpActionModel {
    Deliver { payload: Seq<u8>, peer: u64 },
    Send { bytes: Seq<u8>, peer: u64 },
}

impl View for SrdpAction {
    type V = SrdpActionModel;

    open spec fn view(&self) -> SrdpActionModel {
        match self {
            SrdpAction::Deliver { payload, peer } => SrdpActionModel::Deliver {
                payload: payload@,
                peer: *peer,
            },
            SrdpAction::Send { bytes, peer } => SrdpActionModel::Send {
                bytes: bytes@,
                peer: *peer,
            },
        }
    }
}

/// The models of a list of actions, in order.
pub open spec fn acts_view(s: Seq<SrdpAction>) -> Seq<SrdpActionModel> {
    Seq::new(s.len(), |i: int| s[i]@)
}

/// `a - b`, stopping at zero: the milliseconds elapsed between two clock
/// readings, whatever order they come in.
pub open spec fn sat_sub(a: u64, b: u64) -> u64 {
    if a >= b {
        (a - b) as u64
    } else {
        0
    }
}

/// The length of the longest prefix of the queue whose ids are strictly
/// below `bound`.
pub open spec fn spec_drain_lt(q: Seq<UnackedModel>, bound: u8) -> int
    decreases q.len(),
{
    if q.len() == 0 {
        0
    } else if q[0].id < bound {
        1 + spec_drain_lt(q.skip(1), bound)
    } else {
        0
    }
}

/// The length of the longest prefix of the queue whose ids are at most
/// `bound`.
pub open spec fn spec_drain_le(q: Seq<UnackedModel>, bound: u8) -> int
    decreases q.len(),
{
    if q.len() == 0 {
        0
    } else if q[0].id <= bound {
        1 + spec_drain_le(q.skip(1), bound)
    } else {
        0
    }
}

/// The first index whose packet carries `id` (the queue length when there
/// is none).
pub open spec fn spec_find_id(q: Seq<UnackedModel>, id: u8) -> int
    decreases q.len(),
{
    if q.len() == 0 {
        0
    } else if q[0].id == id {
        0
    } else {
        1 + spec_find_id(q.skip(1), id)
    }
}

/// The prefix below `bound` is sound: it lies in the queue, everything in
/// it is below the bound, and the first packet after it is not.
pub proof fn lemma_drain_lt(q: Seq<UnackedModel>, bound: u8)
    ensures
        0 <= spec_drain_lt(q, bound) <= q.len(),
        forall|i: int| 0 <= i < spec_drain_lt(q, bound) ==> (#[trigger] q[i]).id < bound,
        spec_drain_lt(q, bound) < q.len() ==> q[spec_drain_lt(q, bound)].id >= bound,
    decreases q.len(),
{
    if q.len() > 0 && q[0].id < bound {
        lemma_drain_lt(q.skip(1), bound);
        assert(forall|i: int| 1 <= i < spec_drain_lt(q, bound) ==> q[i] == q.skip(1)[i - 1]);
        if spec_drain_lt(q, bound) < q.len() {
            assert(q[spec_drain_lt(q, bound)] == q.skip(1)[spec_drain_lt(q.skip(1), bound)]);
        }
    }
}

/// The prefix at most `bound` is sound, in the same way.
pub proof fn lemma_drain_le(q: Seq<UnackedModel>, bound: u8)
    ensures
        0 <= spec_drain_le(q, bound) <= q.len(),
        forall|i: int| 0 <= i < spec_drain_le(q, bound) ==> (#[trigger] q[i]).id <= bound,
        spec_drain_le(q, bound) < q.len() ==> q[spec_drain_le(q, bound)].id > bound,
    decreases q.len(),
{
    if q.len() > 0 && q[0].id <= bound {
        lemma_drain_le(q.skip(1), bound);
        assert(forall|i: int| 1 <= i < spec_drain_le(q, bound) ==> q[i] == q.skip(1)[i - 1]);
        if spec_drain_le(q, bound) < q.len() {
            assert(q[spec_drain_le(q, bound)] == q.skip(1)[spec_drain_le(q.skip(1), bound)]);
        }
    }
}

/// The first index carrying `id` is sound: nothing before it carries `id`,
/// and it does itself unless `id` is absent altogether.
pub proof fn lemma_find_id(q: Seq<UnackedModel>, id: u8)
    ensures
        0 <= spec_find_id(q, id) <= q.len(),
        forall|i: int| 0 <= i < spec_find_id(q, id) ==> (#[trigger] q[i]).id != id,
        spec_find_id(q, id) < q.len() ==> q[spec_find_id(q, id)].id == id,
    decreases q.len(),
{
    if q.len() > 0 && q[0].id != id {
        lemma_find_id(q.skip(1), id);
        assert(forall|i: int| 1 <= i < spec_find_id(q, id) ==> q[i] == q.skip(1)[i - 1]);
        if spec_find_id(q, id) < q.len() {
            assert(q[spec_find_id(q, id)] == q.skip(1)[spec_find_id(q.skip(1), id)]);
        }
    }
}

/// The state after draining the first `k` packets of the queue: their ids
/// go back to the tail of the pool, in drain order.
pub open spec fn spec_drained(m: SrdpModel, k: int) -> SrdpModel {
    SrdpModel { unacked: m.unacked.skip(k), ids: m.ids + unacked_ids(m.unacked.take(k)), ..m }
}

/// Draining a prefix keeps the state well-formed: ids only move from the
/// queue back into the pool.
pub proof fn lemma_drained_wf(m: SrdpModel, k: int)
    requires
        m.wf(),
        0 <= k <= m.unacked.len(),
    ensures
        spec_drained(m, k).wf(),
{
    let m1 = spec_drained(m, k);
    let moved = unacked_ids(m.unacked.take(k));
    assert(m1.ids.len() == m.ids.len() + k);
    assert forall|i: int| 0 <= i < m1.ids.len() implies m1.ids[i] < 64 by {
        if i >= m.ids.len() {
            assert(m1.ids[i] == m.unacked[i - m.ids.len()].id);
        }
    }
    assert forall|i: int, j: int| 0 <= i < j < m1.ids.len() implies m1.ids[i] != m1.ids[j] by {
        if j >= m.ids.len() {
            assert(m1.ids[j] == m.unacked[j - m.ids.len()].id);
            if i >= m.ids.len() {
                assert(m1.ids[i] == m.unacked[i - m.ids.len()].id);
            }
        }
    }
    assert forall|i: int, j: int|
        0 <= i < m1.ids.len() && 0 <= j < m1.unacked.len() implies #[trigger] m1.ids[i] != (
    #[trigger] m1.unacked[j]).id by {
        assert(m1.unacked[j] == m.unacked[k + j]);
        if i >= m.ids.len() {
            assert(m1.ids[i] == m.unacked[i - m.ids.len()].id);
        }
    }
    assert(forall|i: int| 0 <= i < m1.unacked.len() ==> (#[trigger] m1.unacked[i]).id < 64);
    assert forall|i: int, j: int|
        0 <= i < j < m1.unacked.len() implies m1.unacked[i].id != m1.unacked[j].id by {
        assert(m1.unacked[i] == m.unacked[k + i]);
        assert(m1.unacked[j] == m.unacked[k + j]);
    }
}

/// What the ingress does with an EXPECT carrying `expected`: every
/// unacknowledged packet below it is implicitly acknowledged, its id back
/// in the pool. No delivery and no round-trip sample.
pub open spec fn spec_handle_expect(m: SrdpModel, expected: u8) -> SrdpModel {
    spec_drained(m, spec_drain_lt(m.unacked, expected))
}

/// What the ingress does with an ACK carrying `acked`: the prefix of
/// packets up to and including that id is acknowledged, the ids back in
/// the pool; the packet that carries the id itself contributes a
/// round-trip sample measured from its first transmission, pushed onto the
/// ring as the oldest sample falls out.
pub open spec fn spec_handle_ack(m: SrdpModel, acked: u8, now: u64) -> SrdpModel {
    let k = spec_drain_le(m.unacked, acked);
    let fi = spec_find_id(m.unacked, acked);
    let drained = spec_drained(m, k);
    if fi < k {
        SrdpModel {
            send_times: m.send_times.skip(1).push(sat_sub(now, m.unacked[fi].first_sent)),
            ..drained
        }
    } else {
        drained
    }
}

/// What the ingress does with an Important datagram carrying `id`: an id
/// still in the recent ring is a duplicate and is dropped silently; the
/// expected id is accepted — the cursor advances, the id joins the ring
/// (evicting the oldest when full), the payload is delivered and a delayed
/// acknowledgement is scheduled (or an already scheduled one coalesced
/// onto this id); any other id is answered with an EXPECT carrying the
/// cursor, and nothing is delivered.
pub open spec fn spec_handle_important(
    m: SrdpModel,
    id: u8,
    payload: Seq<u8>,
    addr: u64,
    now: u64,
) -> (SrdpModel, Seq<SrdpActionModel>) {
    if m.recent_ids.contains(id) {
        (m, Seq::empty())
    } else if id == m.seq_number {
        let popped = if m.recent_ids.len() >= RECENT_CAP {
            m.recent_ids.skip(1)
        } else {
            m.recent_ids
        };
        let new_ack = if !m.ack_info.should_ack {
            AckInfoModel { should_ack: true, time: now, ack_number: id, addr: Some(addr) }
        } else {
            AckInfoModel { ack_number: id, ..m.ack_info }
        };
        (
            SrdpModel {
                seq_number: ((m.seq_number + 1) % (ID_COUNT as int)) as u8,
                recent_ids: popped.push(id),
                ack_info: new_ack,
                ..m
            },
            seq![SrdpActionModel::Deliver { payload, peer: addr }],
        )
    } else {
        (
            m,
            seq![
                SrdpActionModel::Send {
                    bytes: spec_encode_frame(FrameModel::Expect { id: m.seq_number }),
                    peer: addr,
                },
            ],
        )
    }
}

/// Accepting the expected Important id keeps the state well-formed.
pub proof fn lemma_handle_important_wf(m: SrdpModel, id: u8, payload: Seq<u8>, addr: u64, now: u64)
    requires
        m.wf(),
    ensures
        spec_handle_important(m, id, payload, addr, now).0.wf(),
{
    let m1 = spec_handle_important(m, id, payload, addr, now).0;
    if !m.recent_ids.contains(id) && id == m.seq_number {
        let r = m.recent_ids;
        let r1 = m1.recent_ids;
        let shift: int = if r.len() >= RECENT_CAP {
            1
        } else {
            0
        };
        assert(r1.len() == r.len() - shift + 1);
        assert forall|i: int| 0 <= i < r1.len() implies (#[trigger] r1[i] + (r1.len() - i)) % 64
            == m1.seq_number by {
            if i < r1.len() - 1 {
                assert(r1[i] == r[i + shift]);
                assert((r[i + shift] + (r.len() - (i + shift))) % 64 == m.seq_number);
                lemma_add_mod_noop(r[i + shift] + (r.len() - (i + shift)), 1, 64);
                lemma_add_mod_noop_right((r[i + shift] + (r.len() - (i + shift))) % 64, 1, 64);
                assert((m.seq_number + 1) % 64 == m1.seq_number);
            } else {
                assert(r1[i] == id);
                lemma_add_mod_noop(id as int, 1, 64);
                lemma_add_mod_noop_right(id as int, 1, 64);
            }
        }
        assert(forall|i: int| 0 <= i < r1.len() ==> r1[i] < 64);
    }
}

impl SrdpState {
    /// Whether `id` is one of the recently accepted inbound ids.
    fn recent_contains(&self, id: u8) -> (r: bool)
        ensures
            r == self@.recent_ids.contains(id),
    {
        let mut i: usize = 0;
        while i < self.recent_ids.len()
            invariant
                0 <= i <= self@.recent_ids.len(),
                self@.recent_ids.len() == self.recent_ids@.len(),
                forall|j: int| 0 <= j < i ==> self@.recent_ids[j] != id,
            decreases self@.recent_ids.len() - i,
        {
            if self.recent_ids[i] == id {
                assert(self@.recent_ids.contains(id));
                return true;
            }
            i = i + 1;
        }
        assert(!self@.recent_ids.contains(id));
        false
    }

    /// The ingress step for one datagram received from `addr` at time
    /// `now`. The buffer is classified by its two top header bits and
    /// consumed as the corresponding transition says: EXPECT and ACK drain
    /// the unacknowledged queue, an Important datagram is delivered once
    /// and in order or answered with an EXPECT, and a Normal datagram is
    /// delivered as it is.
    pub fn handle_datagram(&mut self, buf: &[u8], addr: u64, now: u64) -> (actions: Vec<
        SrdpAction,
    >)
        requires
            old(self)@.wf(),
            buf@.len() >= 1,
        ensures
            final(self)@.wf(),
            match crate::srdp_packet::spec_decode_frame(buf@) {
                FrameModel::Expect { id } => final(self)@ == spec_handle_expect(old(self)@, id)
                    && actions@.len() == 0,
                FrameModel::Ack { id } => final(self)@ == spec_handle_ack(old(self)@, id, now)
                    && actions@.len() == 0,
                FrameModel::Important { id, payload } => final(self)@ == spec_handle_important(
                    old(self)@,
                    id,
                    payload,
                    addr,
                    now,
                ).0 && acts_view(actions@) == spec_handle_important(
                    old(self)@,
                    id,
                    payload,
                    addr,
                    now,
                ).1,
                FrameModel::Normal { payload } => final(self)@ == old(self)@ && acts_view(
                    actions@,
                ) == seq![SrdpActionModel::Deliver { payload, peer: addr }],
            },
    {
        let ghost m0 = self@;
        let frame = crate::srdp_packet::decode_frame(buf);
        let mut actions: Vec<SrdpAction> = Vec::new();
        match frame {
            // an EXPECT: any unacked packets up until but not including the
            // expected one can be removed, their ids made available again.
            SrdpFrame::Expect(expected_id) => {
                let ghost k = spec_drain_lt(m0.unacked, expected_id);
                let ghost raw0 = self.unacked@;
                let ghost ids0 = self.ids@;
                proof {
                    lemma_drain_lt(m0.unacked, expected_id);
                    assert(raw0.skip(0) =~= raw0);
                    assert(unacked_ids(m0.unacked.take(0)) =~= Seq::<u8>::empty());
                    assert(ids0 + unacked_ids(m0.unacked.take(0)) =~= ids0);
                }
                let ghost mut j: int = 0;
                while self.unacked.len() > 0 && self.unacked[0].id < expected_id
                    invariant
                        m0.wf(),
                        k == spec_drain_lt(m0.unacked, expected_id),
                        0 <= k <= m0.unacked.len(),
                        forall|i: int| 0 <= i < k ==> (#[trigger] m0.unacked[i]).id < expected_id,
                        k < m0.unacked.len() ==> m0.unacked[k].id >= expected_id,
                        m0.unacked == unacked_view(raw0),
                        m0.unacked.len() == raw0.len(),
                        0 <= j <= k,
                        self.unacked@ == raw0.skip(j),
                        self.ids@ == ids0 + unacked_ids(m0.unacked.take(j)),
                        self.send_times@ == m0.send_times,
                        self.seq_number == m0.seq_number,
                        self.recent_ids@ == m0.recent_ids,
                        self.ack_info@ == m0.ack_info,
                    decreases self.unacked@.len(),
                {
                    proof {
                        assert(self.unacked@[0] == raw0[j]);
                        assert(unacked_view(raw0)[j] == raw0[j]@);
                        assert(m0.unacked[j] == raw0[j]@);
                        assert(j < k) by {
                            if j >= k {
                                assert(m0.unacked[j].id >= expected_id);
                            }
                        }
                    }
                    let p = match self.unacked.pop_front() {
                        Some(p) => p,
                        None => {
                            proof {
                                assert(false);
                            }
                            return actions;
                        },
                    };
                    // make the id available again.
                    self.ids.push_back(p.id);
                    proof {
                        assert(self.unacked@ =~= raw0.skip(j + 1));
                        assert(p@ == m0.unacked[j]);
                        assert(unacked_ids(m0.unacked.take(j + 1)) =~= unacked_ids(
                            m0.unacked.take(j),
                        ).push(m0.unacked[j].id));
                        assert(self.ids@ =~= ids0 + unacked_ids(m0.unacked.take(j + 1)));
                    }
                    proof {
                        j = j + 1;
                    }
                }
                proof {
                    assert(j == k) by {
                        if j < k {
                            assert(self.unacked@[0] == raw0[j]);
                            assert(unacked_view(raw0)[j] == raw0[j]@);
                            assert(m0.unacked[j].id < expected_id);
                        }
                    }
                    assert forall|i: int|
                        0 <= i < unacked_view(self.unacked@).len() implies unacked_view(
                        self.unacked@,
                    )[i] == m0.unacked.skip(k)[i] by {
                        assert(unacked_view(self.unacked@)[i] == self.unacked@[i]@);
                        assert(self.unacked@[i] == raw0[k + i]);
                        assert(unacked_view(raw0)[k + i] == raw0[k + i]@);
                    }
                    assert(unacked_view(self.unacked@) =~= m0.unacked.skip(k));
                    assert(self@ =~= spec_handle_expect(m0, expected_id));
                    lemma_drained_wf(m0, k);
                }
            },
            // an ACK: remove any unacked packets up until and including the
            // acked one; the acked packet itself yields a round-trip sample.
            SrdpFrame::Ack(acked_id) => {
                let ghost k = spec_drain_le(m0.unacked, acked_id);
                let ghost fi = spec_find_id(m0.unacked, acked_id);
                let ghost raw0 = self.unacked@;
                let ghost ids0 = self.ids@;
                let ghost new_times = m0.send_times.skip(1).push(
                    sat_sub(now, if 0 <= fi < m0.unacked.len() {
                        m0.unacked[fi].first_sent
                    } else {
                        0
                    }),
                );
                proof {
                    lemma_drain_le(m0.unacked, acked_id);
                    lemma_find_id(m0.unacked, acked_id);
                    assert(raw0.skip(0) =~= raw0);
                    assert(unacked_ids(m0.unacked.take(0)) =~= Seq::<u8>::empty());
                    assert(ids0 + unacked_ids(m0.unacked.take(0)) =~= ids0);
                }
                let ghost mut j: int = 0;
                while self.unacked.len() > 0 && self.unacked[0].id <= acked_id
                    invariant
                        m0.wf(),
                        k == spec_drain_le(m0.unacked, acked_id),
                        fi == spec_find_id(m0.unacked, acked_id),
                        0 <= k <= m0.unacked.len(),
                        forall|i: int| 0 <= i < k ==> (#[trigger] m0.unacked[i]).id <= acked_id,
                        k < m0.unacked.len() ==> m0.unacked[k].id > acked_id,
                        0 <= fi <= m0.unacked.len(),
                        forall|i: int| 0 <= i < fi ==> (#[trigger] m0.unacked[i]).id != acked_id,
                        fi < m0.unacked.len() ==> m0.unacked[fi].id == acked_id,
                        new_times == m0.send_times.skip(1).push(
                            sat_sub(now, if 0 <= fi < m0.unacked.len() {
                                m0.unacked[fi].first_sent
                            } else {
                                0
                            }),
                        ),
                        m0.unacked == unacked_view(raw0),
                        m0.unacked.len() == raw0.len(),
                        0 <= j <= k,
                        self.unacked@ == raw0.skip(j),
                        self.ids@ == ids0 + unacked_ids(m0.unacked.take(j)),
                        self.send_times@ == (if fi < j {
                            new_times
                        } else {
                            m0.send_times
                        }),
                        self.seq_number == m0.seq_number,
                        self.recent_ids@ == m0.recent_ids,
                        self.ack_info@ == m0.ack_info,
                    decreases self.unacked@.len(),
                {
                    proof {
                        assert(self.unacked@[0] == raw0[j]);
                        assert(unacked_view(raw0)[j] == raw0[j]@);
                        assert(m0.unacked[j] == raw0[j]@);
                        assert(j < k) by {
                            if j >= k {
                                assert(m0.unacked[j].id > acked_id);
                            }
                        }
                    }
                    let p = match self.unacked.pop_front() {
                        Some(p) => p,
                        None => {
                            proof {
                                assert(false);
                            }
                            return actions;
                        },
                    };
                    // make the id available again.
                    self.ids.push_back(p.id);
                    // when we remove the packet that was actually ACKed,
                    // also push its round trip onto the ring, evicting the
                    // oldest sample.
                    if p.id == acked_id {
                        proof {
                            assert(p@ == m0.unacked[j]);
                            assert(j == fi) by {
                                if j < fi {
                                    assert(m0.unacked[j].id != acked_id);
                                } else if fi < j {
                                    assert(m0.unacked[fi].id == acked_id);
                                    assert(m0.unacked[fi].id != m0.unacked[j].id);
                                }
                            }
                        }
                        let rtt = if now >= p.first_sent {
                            now - p.first_sent
                        } else {
                            0
                        };
                        self.send_times.pop_front();
                        self.send_times.push_back(rtt);
                        proof {
                            assert(rtt == sat_sub(now, m0.unacked[fi].first_sent));
                            assert(self.send_times@ =~= new_times);
                        }
                    } else {
                        proof {
                            assert(p@ == m0.unacked[j]);
                            assert(j != fi);
                        }
                    }
                    proof {
                        assert(self.unacked@ =~= raw0.skip(j + 1));
                        assert(unacked_ids(m0.unacked.take(j + 1)) =~= unacked_ids(
                            m0.unacked.take(j),
                        ).push(m0.unacked[j].id));
                        assert(self.ids@ =~= ids0 + unacked_ids(m0.unacked.take(j + 1)));
                    }
                    proof {
                        j = j + 1;
                    }
                }
                proof {
                    assert(j == k) by {
                        if j < k {
                            assert(self.unacked@[0] == raw0[j]);
                            assert(unacked_view(raw0)[j] == raw0[j]@);
                            assert(m0.unacked[j].id <= acked_id);
                        }
                    }
                    assert forall|i: int|
                        0 <= i < unacked_view(self.unacked@).len() implies unacked_view(
                        self.unacked@,
                    )[i] == m0.unacked.skip(k)[i] by {
                        assert(unacked_view(self.unacked@)[i] == self.unacked@[i]@);
                        assert(self.unacked@[i] == raw0[k + i]);
                        assert(unacked_view(raw0)[k + i] == raw0[k + i]@);
                    }
                    assert(unacked_view(self.unacked@) =~= m0.unacked.skip(k));
                    assert(fi < k ==> fi < m0.unacked.len());
                    assert(self@ =~= spec_handle_ack(m0, acked_id, now));
                    lemma_drained_wf(m0, k);
                    assert(self@.send_times.len() == m0.send_times.len());
                }
            },
            // an Important datagram: deliver it once and in order, or hint
            // at the gap with an EXPECT.
            SrdpFrame::Important(id, payload) => {
                let ghost pv = payload@;
                proof {
                    lemma_handle_important_wf(m0, id, pv, addr, now);
                }
                if self.recent_contains(id) {
                    // a duplicate retransmit of something already
                    // delivered: drop it silently.
                } else if id == self.seq_number {
                    // the expected packet: accept it. Add one to the
                    // sequence number and make sure to wrap.
                    self.seq_number = (self.seq_number + 1) % ID_COUNT;
                    // remember the id, evicting the oldest when full.
                    if self.recent_ids.len() >= RECENT_CAP {
                        self.recent_ids.pop_front();
                    }
                    self.recent_ids.push_back(id);
                    if !self.ack_info.should_ack {
                        // if we weren't going to ack anything, set the
                        // necessary fields.
                        self.ack_info.should_ack = true;
                        self.ack_info.time = now;
                        self.ack_info.ack_number = id;
                        self.ack_info.addr = Some(addr);
                    } else {
                        // otherwise, we received another packet before we
                        // had a chance to send an ACK, so we can just
                        // update the ack number.
                        self.ack_info.ack_number = id;
                    }
                    actions.push(SrdpAction::Deliver { payload, peer: addr });
                    proof {
                        assert(self@ =~= spec_handle_important(m0, id, pv, addr, now).0);
                        assert(acts_view(actions@) =~= spec_handle_important(
                            m0,
                            id,
                            pv,
                            addr,
                            now,
                        ).1);
                    }
                } else {
                    // out of order: answer with what we expect instead.
                    actions.push(
                        SrdpAction::Send {
                            bytes: crate::srdp_packet::encode_expect(self.seq_number),
                            peer: addr,
                        },
                    );
                    proof {
                        assert(acts_view(actions@) =~= spec_handle_important(
                            m0,
                            id,
                            pv,
                            addr,
                            now,
                        ).1);
                    }
                }
            },
            // a Normal datagram: deliver it as it is. No state change.
            SrdpFrame::Normal(payload) => {
                let ghost pv = payload@;
                actions.push(SrdpAction::Deliver { payload, peer: addr });
                proof {
                    assert(acts_view(actions@) =~= seq![
                        SrdpActionModel::Deliver { payload: pv, peer: addr },
                    ]);
                }
            },
        }
        actions
    }
}

/// The least average round-trip time, in milliseconds, that the
/// retransmitter will pace itself by.
pub const MIN_RTT: u64 = 10;

/// The sum of the ring's samples.
pub open spec fn spec_sum(s: Seq<u64>) -> int
    decreases s.len(),
{
    if s.len() == 0 {
        0
    } else {
        s[0] + spec_sum(s.skip(1))
    }
}

/// The ring's sum lies between zero and the ring's length times the
/// largest sample possible.
pub proof fn lemma_sum_bounds(s: Seq<u64>)
    ensures
        0 <= spec_sum(s) <= s.len() * (u64::MAX as int),
    decreases s.len(),
{
    if s.len() > 0 {
        lemma_sum_bounds(s.skip(1));
    }
}

/// The average round-trip time the retransmitter paces itself by: the mean
/// of the ring's samples, and never below `MIN_RTT`.
pub open spec fn spec_avg_rtt(m: SrdpModel) -> int {
    if m.send_times.len() == 0 {
        MIN_RTT as int
    } else {
        let avg = spec_sum(m.send_times) / (m.send_times.len() as int);
        if avg < MIN_RTT as int {
            MIN_RTT as int
        } else {
            avg
        }
    }
}

/// What the tick does with the delayed-acknowledgement record: once more
/// than a third of the average round-trip time has passed since an
/// acknowledgement was scheduled, one cumulative ACK goes to the recorded
/// peer and the schedule is cleared; otherwise nothing happens.
pub open spec fn spec_flush_ack(m: SrdpModel, now: u64) -> (SrdpModel, Seq<SrdpActionModel>) {
    if m.ack_info.should_ack && sat_sub(now, m.ack_info.time) > spec_avg_rtt(m) / 3 {
        (
            SrdpModel { ack_info: AckInfoModel { should_ack: false, ..m.ack_info }, ..m },
            seq![
                SrdpActionModel::Send {
                    bytes: spec_encode_frame(FrameModel::Ack { id: m.ack_info.ack_number }),
                    peer: m.ack_info.addr->0,
                },
            ],
        )
    } else {
        (m, Seq::empty())
    }
}

/// One unacknowledged packet after the tick: sent again now when at least
/// the average round-trip time has passed since its last transmission. The
/// first-sent timestamp never moves: round trips are measured end to end
/// from the original transmission.
pub open spec fn spec_retx_packet(u: UnackedModel, now: u64, avg: int) -> UnackedModel {
    if sat_sub(now, u.last_sent) >= avg {
        UnackedModel { last_sent: now, ..u }
    } else {
        u
    }
}

/// The resends the tick performs: for every packet whose last transmission
/// is at least the average round-trip time old, its wire bytes again, in
/// send order.
pub open spec fn spec_retx_actions(q: Seq<UnackedModel>, now: u64, avg: int) -> Seq<
    SrdpActionModel,
>
    decreases q.len(),
{
    if q.len() == 0 {
        Seq::empty()
    } else {
        (if sat_sub(now, q[0].last_sent) >= avg {
            seq![
                SrdpActionModel::Send {
                    bytes: spec_encode_frame(
                        FrameModel::Important { id: q[0].id, payload: q[0].data },
                    ),
                    peer: q[0].addr,
                },
            ]
        } else {
            Seq::empty()
        }) + spec_retx_actions(q.skip(1), now, avg)
    }
}

/// What one retransmitter tick at time `now` does: the delayed
/// acknowledgement is flushed if its deadline passed, then every stale
/// unacknowledged packet is resent and restamped.
pub open spec fn spec_tick(m: SrdpModel, now: u64) -> (SrdpModel, Seq<SrdpActionModel>) {
    let avg = spec_avg_rtt(m);
    let flushed = spec_flush_ack(m, now);
    (
        SrdpModel {
            unacked: Seq::new(m.unacked.len(), |i: int| spec_retx_packet(m.unacked[i], now, avg)),
            ..flushed.0
        },
        flushed.1 + spec_retx_actions(m.unacked, now, avg),
    )
}

impl SrdpState {
    /// The average round-trip time over the ring, in milliseconds, never
    /// below `MIN_RTT`.
    fn avg_rtt(&self) -> (r: u128)
        requires
            self@.wf(),
        ensures
            r == spec_avg_rtt(self@),
    {
        let ghost s = self@.send_times;
        proof {
            lemma_sum_bounds(s);
        }
        let mut sum: u128 = 0;
        let mut k: usize = 0;
        proof {
            assert(s.skip(0) =~= s);
        }
        while k < self.send_times.len()
            invariant
                self@.send_times == s,
                self.send_times@ == s,
                s.len() == RTT_SAMPLES,
                0 <= k <= s.len(),
                spec_sum(s) == sum + spec_sum(s.skip(k as int)),
                0 <= sum <= k * (u64::MAX as int),
            decreases s.len() - k,
        {
            proof {
                lemma_sum_bounds(s.skip(k as int));
                lemma_sum_bounds(s.skip(k + 1));
                assert(s.skip(k as int)[0] == s[k as int]);
                assert(s.skip(k as int).skip(1) =~= s.skip(k + 1));
            }
            sum = sum + (self.send_times[k] as u128);
            k = k + 1;
        }
        proof {
            assert(s.skip(s.len() as int) =~= Seq::<u64>::empty());
        }
        let avg = sum / (RTT_SAMPLES as u128);
        // don't go lower than the floor.
        if avg < (MIN_RTT as u128) {
            MIN_RTT as u128
        } else {
            avg
        }
    }

    /// The retransmitter's step at time `now`: flush the delayed
    /// acknowledgement once more than a third of the average round-trip
    /// time has passed since it was scheduled, then resend every
    /// unacknowledged packet whose last transmission is at least the
    /// average round-trip time old, restamping its last-sent time.
    pub fn tick(&mut self, now: u64) -> (actions: Vec<SrdpAction>)
        requires
            old(self)@.wf(),
        ensures
            final(self)@.wf(),
            final(self)@ == spec_tick(old(self)@, now).0,
            acts_view(actions@) == spec_tick(old(self)@, now).1,
    {
        let ghost m0 = self@;
        let avg = self.avg_rtt();
        let ghost gavg = spec_avg_rtt(m0);
        let mut actions: Vec<SrdpAction> = Vec::new();
        // check if we need to ack anything.
        if self.ack_info.should_ack {
            let elapsed = if now >= self.ack_info.time {
                now - self.ack_info.time
            } else {
                0
            };
            if (elapsed as u128) > avg / 3 {
                // send the ack to the recorded peer, then clear the
                // schedule.
                let header = self.ack_info.as_header();
                let peer = match self.ack_info.addr {
                    Some(a) => a,
                    None => {
                        proof {
                            assert(false);
                        }
                        return actions;
                    },
                };
                let mut bytes: Vec<u8> = Vec::new();
                bytes.push(header[0]);
                proof {
                    assert(bytes@ =~= spec_encode_frame(
                        FrameModel::Ack { id: m0.ack_info.ack_number },
                    ));
                }
                actions.push(SrdpAction::Send { bytes, peer });
                self.ack_info.should_ack = false;
            }
        }
        proof {
            assert(self@ =~= spec_flush_ack(m0, now).0);
            assert(acts_view(actions@) =~= spec_flush_ack(m0, now).1);
        }
        let ghost mflush = self@;
        let ghost flush_acts = acts_view(actions@);
        // go through the unacked packets and resend the stale ones.
        proof {
            assert(m0.unacked.skip(0) =~= m0.unacked);
            assert(flush_acts + spec_retx_actions(m0.unacked, now, gavg) =~= spec_tick(
                m0,
                now,
            ).1);
        }
        let mut i: usize = 0;
        while i < self.unacked.len()
            invariant
                0 <= i <= m0.unacked.len(),
                gavg == spec_avg_rtt(m0),
                avg == gavg,
                self@.unacked.len() == m0.unacked.len(),
                self@.unacked.len() == self.unacked@.len(),
                self@ == (SrdpModel { unacked: self@.unacked, ..mflush }),
                mflush == (SrdpModel { unacked: m0.unacked, ..mflush }),
                forall|j: int|
                    0 <= j < i ==> self@.unacked[j] == spec_retx_packet(
                        m0.unacked[j],
                        now,
                        gavg,
                    ),
                forall|j: int| i <= j < m0.unacked.len() ==> self@.unacked[j] == m0.unacked[j],
                spec_tick(m0, now).1 == acts_view(actions@) + spec_retx_actions(
                    m0.unacked.skip(i as int),
                    now,
                    gavg,
                ),
            decreases m0.unacked.len() - i,
        {
            let ghost acts0 = acts_view(actions@);
            let ghost rawc = self.unacked@;
            let ghost uv0 = self@.unacked;
            let mut p = match self.unacked.remove(i) {
                Some(p) => p,
                None => {
                    proof {
                        assert(false);
                    }
                    return actions;
                },
            };
            proof {
                assert(uv0[i as int] == rawc[i as int]@);
                assert(p@ == m0.unacked[i as int]);
            }
            // check if the average RTT has elapsed since the last send.
            let elapsed = if now >= p.last_sent {
                now - p.last_sent
            } else {
                0
            };
            if (elapsed as u128) >= avg {
                // send again and restamp.
                actions.push(SrdpAction::Send { bytes: p.as_bytes(), peer: p.addr });
                p.last_sent = now;
            }
            let ghost pf = p@;
            self.unacked.insert(i, p);
            proof {
                assert(pf == spec_retx_packet(m0.unacked[i as int], now, gavg));
                assert(self.unacked@ =~= rawc.update(i as int, p));
                assert forall|j: int| 0 <= j < self@.unacked.len() implies self@.unacked[j] == (
                if j == i {
                    pf
                } else {
                    uv0[j]
                }) by {
                    assert(self@.unacked[j] == self.unacked@[j]@);
                    if j != i {
                        assert(self.unacked@[j] == rawc[j]);
                        assert(uv0[j] == rawc[j]@);
                    }
                }
                assert(m0.unacked.skip(i as int).skip(1) =~= m0.unacked.skip(i + 1));
                assert(m0.unacked.skip(i as int)[0] == m0.unacked[i as int]);
                let head_acts = if sat_sub(now, m0.unacked[i as int].last_sent) >= gavg {
                    seq![
                        SrdpActionModel::Send {
                            bytes: spec_encode_frame(
                                FrameModel::Important {
                                    id: m0.unacked[i as int].id,
                                    payload: m0.unacked[i as int].data,
                                },
                            ),
                            peer: m0.unacked[i as int].addr,
                        },
                    ]
                } else {
                    Seq::<SrdpActionModel>::empty()
                };
                assert(acts_view(actions@) =~= acts0 + head_acts);
                assert(spec_retx_actions(m0.unacked.skip(i as int), now, gavg) == head_acts
                    + spec_retx_actions(m0.unacked.skip(i + 1), now, gavg));
                assert((acts0 + head_acts) + spec_retx_actions(m0.unacked.skip(i + 1), now, gavg)
                    =~= acts0 + (head_acts + spec_retx_actions(m0.unacked.skip(i + 1), now, gavg)));
            }
            i = i + 1;
        }
        proof {
            assert(m0.unacked.skip(m0.unacked.len() as int) =~= Seq::<UnackedModel>::empty());
            assert(acts_view(actions@) + Seq::<SrdpActionModel>::empty() =~= acts_view(actions@));
            assert(self@.unacked =~= spec_tick(m0, now).0.unacked);
            assert(self@ =~= spec_tick(m0, now).0);
        }
        actions
    }
}

/// Duplicate suppression: an Important id that is still among the recently
/// accepted ones — the last sixteen received — is dropped silently: nothing
/// is delivered, nothing is sent, and the state does not change.
pub proof fn lemma_duplicate_dropped(m: SrdpModel, id: u8, payload: Seq<u8>, addr: u64, now: u64)
    requires
        m.recent_ids.contains(id),
    ensures
        spec_handle_important(m, id, payload, addr, now) == (m, Seq::<SrdpActionModel>::empty()),
{
}

/// An accepted Important id is remembered: after a delivery, the id sits in
/// the recent ring.
pub proof fn lemma_accept_remembered(m: SrdpModel, id: u8, payload: Seq<u8>, addr: u64, now: u64)
    requires
        !m.recent_ids.contains(id),
        id == m.seq_number,
    ensures
        spec_handle_important(m, id, payload, addr, now).0.recent_ids.contains(id),
{
    let r1 = spec_handle_important(m, id, payload, addr, now).0.recent_ids;
    assert(r1[r1.len() - 1] == id);
}

/// At-most-once delivery: when the same Important id arrives twice in a
/// row, the first receipt that delivers leaves the second to be dropped
/// silently — the payload reaches the application exactly once.
pub proof fn lemma_at_most_once(
    m: SrdpModel,
    id: u8,
    p1: Seq<u8>,
    p2: Seq<u8>,
    addr: u64,
    t1: u64,
    t2: u64,
)
    requires
        m.wf(),
    ensures
        ({
            let first = spec_handle_important(m, id, p1, addr, t1);
            let second = spec_handle_important(first.0, id, p2, addr, t2);
            first.1 == seq![SrdpActionModel::Deliver { payload: p1, peer: addr }] ==> second
                == (first.0, Seq::<SrdpActionModel>::empty())
        }),
{
    let first = spec_handle_important(m, id, p1, addr, t1);
    if first.1 == seq![SrdpActionModel::Deliver { payload: p1, peer: addr }] {
        assert(first.1.len() == 1);
        if m.recent_ids.contains(id) {
            assert(first.1.len() == 0);
        }
        assert(id == m.seq_number) by {
            if id != m.seq_number {
                assert(first.1[0] is Send);
            }
        }
        lemma_accept_remembered(m, id, p1, addr, t1);
        lemma_duplicate_dropped(first.0, id, p2, addr, t2);
    }
}

/// A gap hints with EXPECT: an Important id that is neither the expected
/// one nor a remembered duplicate is answered with an EXPECT carrying the
/// expected id; nothing is delivered and nothing advances.
pub proof fn lemma_gap_triggers_expect(m: SrdpModel, id: u8, payload: Seq<u8>, addr: u64, now: u64)
    requires
        id != m.seq_number,
        !m.recent_ids.contains(id),
    ensures
        spec_handle_important(m, id, payload, addr, now) == (
            m,
            seq![
                SrdpActionModel::Send {
                    bytes: spec_encode_frame(FrameModel::Expect { id: m.seq_number }),
                    peer: addr,
                },
            ],
        ),
{
}

/// The state after feeding a run of Important datagrams that arrive in
/// exactly the expected order: each one carries the id the receiver
/// expects at that moment.
pub open spec fn spec_feed_in_order(m: SrdpModel, payloads: Seq<Seq<u8>>, addr: u64, now: u64) -> (
    SrdpModel,
    Seq<SrdpActionModel>,
)
    decreases payloads.len(),
{
    if payloads.len() == 0 {
        (m, Seq::empty())
    } else {
        let step = spec_handle_important(m, m.seq_number, payloads[0], addr, now);
        let rest = spec_feed_in_order(step.0, payloads.skip(1), addr, now);
        (rest.0, step.1 + rest.1)
    }
}

/// The expected id is never a remembered duplicate: the ring holds only
/// the ids accepted in the sixteen steps before the cursor, all distinct
/// from it modulo 64.
pub proof fn lemma_expected_not_recent(m: SrdpModel)
    requires
        m.wf(),
    ensures
        !m.recent_ids.contains(m.seq_number),
{
    if m.recent_ids.contains(m.seq_number) {
        let i = choose|i: int|
            0 <= i < m.recent_ids.len() && m.recent_ids[i] == m.seq_number;
        let k = m.recent_ids.len() - i;
        assert((m.seq_number + k) % 64 == m.seq_number);
        assert(1 <= k <= RECENT_CAP);
        if m.seq_number + k < 64 {
            lemma_small_mod((m.seq_number + k) as nat, 64);
        } else {
            vstd::arithmetic::div_mod::lemma_mod_sub_multiples_vanish(
                (m.seq_number + k) as int,
                64,
            );
            assert((m.seq_number + k) % 64 == (m.seq_number + k - 64) % 64);
            lemma_small_mod((m.seq_number + k - 64) as nat, 64);
        }
    }
}

/// In-order delivery: a sender transmitting Important datagrams without
/// loss — so that each arrives carrying the id the receiver expects — has
/// every payload delivered, exactly once each, in send order, and nothing
/// else done to the application.
pub proof fn lemma_in_order_delivery(m: SrdpModel, payloads: Seq<Seq<u8>>, addr: u64, now: u64)
    requires
        m.wf(),
    ensures
        spec_feed_in_order(m, payloads, addr, now).1 == Seq::new(
            payloads.len(),
            |i: int| SrdpActionModel::Deliver { payload: payloads[i], peer: addr },
        ),
        spec_feed_in_order(m, payloads, addr, now).0.wf(),
    decreases payloads.len(),
{
    let out = spec_feed_in_order(m, payloads, addr, now);
    if payloads.len() == 0 {
        assert(out.1 =~= Seq::new(
            payloads.len(),
            |i: int| SrdpActionModel::Deliver { payload: payloads[i], peer: addr },
        ));
    } else {
        lemma_expected_not_recent(m);
        let step = spec_handle_important(m, m.seq_number, payloads[0], addr, now);
        lemma_handle_important_wf(m, m.seq_number, payloads[0], addr, now);
        lemma_in_order_delivery(step.0, payloads.skip(1), addr, now);
        let rest = spec_feed_in_order(step.0, payloads.skip(1), addr, now);
        assert forall|i: int| 0 <= i < payloads.len() implies (step.1 + rest.1)[i] == (
        SrdpActionModel::Deliver { payload: payloads[i], peer: addr }) by {
            if i > 0 {
                assert((step.1 + rest.1)[i] == rest.1[i - 1]);
                assert(rest.1[i - 1] == SrdpActionModel::Deliver {
                    payload: payloads.skip(1)[i - 1],
                    peer: addr,
                });
                assert(payloads.skip(1)[i - 1] == payloads[i]);
            }
        }
        assert(out.1 =~= Seq::new(
            payloads.len(),
            |i: int| SrdpActionModel::Deliver { payload: payloads[i], peer: addr },
        ));
    }
}

/// Cumulative acknowledgement drains a prefix: with three packets
/// outstanding in send order and their ids increasing, an ACK of the
/// middle id returns the first two ids to the pool, in order, and leaves
/// the third packet unacknowledged.
pub proof fn lemma_cumulative_ack_drains_prefix(m: SrdpModel, now: u64)
    requires
        m.wf(),
        m.unacked.len() == 3,
        m.unacked[0].id < m.unacked[1].id < m.unacked[2].id,
    ensures
        ({
            let m1 = spec_handle_ack(m, m.unacked[1].id, now);
            &&& m1.unacked == seq![m.unacked[2]]
            &&& m1.ids == m.ids + seq![m.unacked[0].id, m.unacked[1].id]
        }),
{
    let q = m.unacked;
    let b = q[1].id;
    assert(q.skip(1)[0] == q[1]);
    assert(q.skip(1).skip(1) =~= q.skip(2));
    assert(q.skip(2)[0] == q[2]);
    assert(q.skip(2).skip(1) =~= q.skip(3));
    assert(spec_drain_le(q.skip(2), b) == 0);
    assert(spec_drain_le(q.skip(1), b) == 1);
    assert(spec_drain_le(q, b) == 2);
    assert(spec_find_id(q.skip(1), b) == 0);
    assert(spec_find_id(q, b) == 1);
    let m1 = spec_handle_ack(m, b, now);
    assert(m1.unacked =~= seq![q[2]]);
    assert(unacked_ids(q.take(2)) =~= seq![q[0].id, q[1].id]);
    assert(m1.ids =~= m.ids + seq![q[0].id, q[1].id]);
}

} // verus!
