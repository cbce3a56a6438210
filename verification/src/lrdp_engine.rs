//! The LRDP socket engine.
//!
//! A socket runs three activities over one UDP endpoint: a reader that
//! pulls datagrams off the wire, a handler that classifies each datagram
//! and mutates per-peer state, and a retransmitter that wakes periodically
//! and resends stale heads of send queues. This module holds every decision
//! those activities make, as functions from the table of per-peer records
//! and a received datagram (or a clock reading) to the next table and a
//! list of actions. The caller performs the actions: it hands `Deliver`
//! payloads to the application and writes `Send` bytes to the wire, in
//! order.
//!
//! Peers are identified by plain 64-bit tokens; the caller keeps the map
//! between tokens and socket addresses.

use crate::client_state::spec_ack;
use crate::client_state::spec_due;
use crate::client_state::spec_enqueue;
use crate::client_state::spec_new_client;
use crate::client_state::spec_recv;
use crate::client_state::ClientError;
use crate::client_state::ClientModel;
use crate::client_state::ClientState;
use crate::lrdp_packet::spec_decode;
use crate::lrdp_packet::spec_encode;
use crate::lrdp_packet::LrdpPacket;
use crate::lrdp_packet::PacketModel;
use vstd::prelude::*;

verus! {

/// The minimum number of milliseconds which can elapse before a client will
/// retransmit an unacknowledged packet.
pub const RESEND_DELAY: u64 = 300;

/// One thing the caller must do after a handler or retransmitter step.
pub enum LrdpAction {
    /// Hand `payload` to the application as the next datagram from `peer`.
    Deliver { payload: Vec<u8>, peer: u64 },
    /// Write `bytes` to the wire, addressed to `peer`.
    Send { bytes: Vec<u8>, peer: u64 },
}

/// The mathematical model of an action.
#[verifier::ext_equal]
pub enum ActionModel {
    Deliver { payload: Seq<u8>, peer: u64 },
    Send { bytes: Seq<u8>, peer: u64 },
}

impl View for LrdpAction {
    type V = ActionModel;

    open spec fn view(&self) -> ActionModel {
        match self {
            LrdpAction::Deliver { payload, peer } => ActionModel::Deliver {
                payload: payload@,
                peer: *peer,
            },
            LrdpAction::Send { bytes, peer } => ActionModel::Send { bytes: bytes@, peer: *peer },
        }
    }
}

/// The models of a list of actions, in order.
pub open spec fn acts_view(s: Seq<LrdpAction>) -> Seq<ActionModel> {
    Seq::new(s.len(), |i: int| s[i]@)
}

/// A pure acknowledgement packet: ACK flag only, carrying `n`.
pub open spec fn spec_pure_ack(n: u8) -> PacketModel {
    PacketModel { has_ack: true, has_data: false, ack_num: n, seq_num: 0, data: Seq::empty() }
}

/// A pure data packet: DATA flag only, carrying `seq_num` and the payload.
pub open spec fn spec_data_packet(seq_num: u8, data: Seq<u8>) -> PacketModel {
    PacketModel { has_ack: false, has_data: true, ack_num: 0, seq_num, data }
}

/// The first index of the entry for `addr` (the length when there is none).
pub open spec fn table_index(s: Seq<(u64, ClientModel)>, addr: u64) -> int
    decreases s.len(),
{
    if s.len() == 0 {
        0
    } else if s[0].0 == addr {
        0
    } else {
        1 + table_index(s.skip(1), addr)
    }
}

/// Whether the table has an entry for `addr`.
pub open spec fn table_contains(s: Seq<(u64, ClientModel)>, addr: u64) -> bool {
    exists|i: int| 0 <= i < s.len() && s[i].0 == addr
}

/// The record that the table holds for `addr`.
pub open spec fn table_get(s: Seq<(u64, ClientModel)>, addr: u64) -> ClientModel {
    s[table_index(s, addr)].1
}

/// The table with the record for `addr` replaced (or appended, for a peer
/// not seen before).
pub open spec fn table_put(s: Seq<(u64, ClientModel)>, addr: u64, m: ClientModel) -> Seq<
    (u64, ClientModel),
> {
    if table_contains(s, addr) {
        s.update(table_index(s, addr), (addr, m))
    } else {
        s.push((addr, m))
    }
}

/// The table without the record for `addr`.
pub open spec fn table_remove(s: Seq<(u64, ClientModel)>, addr: u64) -> Seq<(u64, ClientModel)> {
    if table_contains(s, addr) {
        s.remove(table_index(s, addr))
    } else {
        s
    }
}

/// Distinct peers, each record well-formed.
pub open spec fn table_wf(s: Seq<(u64, ClientModel)>) -> bool {
    &&& forall|i: int, j: int| 0 <= i < j < s.len() ==> s[i].0 != s[j].0
    &&& forall|i: int| 0 <= i < s.len() ==> (#[trigger] s[i].1).wf()
}

/// The first index of `addr` is sound: it lies in the table, it carries
/// `addr`, and nothing before it does.
pub proof fn lemma_table_index(s: Seq<(u64, ClientModel)>, addr: u64)
    requires
        table_contains(s, addr),
    ensures
        0 <= table_index(s, addr) < s.len(),
        s[table_index(s, addr)].0 == addr,
        forall|j: int| 0 <= j < table_index(s, addr) ==> s[j].0 != addr,
    decreases s.len(),
{
    if s.len() > 0 && s[0].0 != addr {
        let i = choose|i: int| 0 <= i < s.len() && s[i].0 == addr;
        assert(s.skip(1)[i - 1] == s[i]);
        lemma_table_index(s.skip(1), addr);
        assert(forall|j: int| 0 <= j < table_index(s.skip(1), addr) ==> s.skip(1)[j].0 != addr);
        assert(forall|j: int| 1 <= j < table_index(s, addr) ==> s[j].0 == s.skip(1)[j - 1].0);
    }
}

/// What the handler does with one decoded packet from `peer`, given that
/// peer's record: the record afterwards (`None` when the peer is dropped)
/// and the actions to perform. An acknowledgement is consumed first; a
/// `WrongAck` drops the peer and ends the step. Data is consumed next: an
/// in-order sequence number is delivered and acknowledged; any other is
/// answered with a pure ACK carrying the expected number, so the sender can
/// resynchronise.
pub open spec fn spec_handle_packet(m0: ClientModel, p: PacketModel, peer: u64) -> (
    Option<ClientModel>,
    Seq<ActionModel>,
) {
    let after_ack = if p.has_ack {
        spec_ack(m0, p.ack_num)
    } else {
        (m0, Ok(()))
    };
    let m1 = after_ack.0;
    if after_ack.1 matches Err(ClientError::WrongAck(_)) {
        (None, Seq::empty())
    } else if p.has_data {
        let after_recv = spec_recv(m1, p.seq_num);
        if after_recv.1 is Ok {
            (
                Some(after_recv.0),
                seq![
                    ActionModel::Deliver { payload: p.data, peer },
                    ActionModel::Send { bytes: spec_encode(spec_pure_ack(p.seq_num)), peer },
                ],
            )
        } else {
            (
                Some(m1),
                seq![ActionModel::Send { bytes: spec_encode(spec_pure_ack(m1.remote_seq)), peer }],
            )
        }
    } else {
        (Some(m1), Seq::empty())
    }
}

/// The record a peer holds after the egress step: the data packet built on
/// the local cursor joins the send queue, the cursor advances, and the send
/// time is `now`.
pub open spec fn spec_send_client(m0: ClientModel, data: Seq<u8>, now: u64) -> ClientModel {
    spec_enqueue(
        ClientModel { last_send: Some(now), ..m0 },
        spec_data_packet(m0.local_seq, data),
    ).0
}

/// The record a peer holds after a retransmitter tick at time `now`.
pub open spec fn spec_tick_client(m: ClientModel, now: u64) -> ClientModel {
    if spec_due(m, now, RESEND_DELAY) {
        ClientModel { last_send: Some(now), ..m }
    } else {
        m
    }
}

/// The sends a retransmitter tick performs at time `now`: for every peer
/// whose head packet is due, that packet's wire bytes again, in table order.
pub open spec fn spec_tick_actions(s: Seq<(u64, ClientModel)>, now: u64) -> Seq<ActionModel>
    decreases s.len(),
{
    if s.len() == 0 {
        Seq::empty()
    } else {
        (if spec_due(s[0].1, now, RESEND_DELAY) {
            seq![ActionModel::Send { bytes: spec_encode(s[0].1.send_queue[0]), peer: s[0].0 }]
        } else {
            Seq::empty()
        }) + spec_tick_actions(s.skip(1), now)
    }
}

/// The table of per-peer records that one LRDP socket keeps, in the order
/// the peers were first seen.
pub struct ClientTable {
    entries: Vec<(u64, ClientState)>,
}

impl View for ClientTable {
    type V = Seq<(u64, ClientModel)>;

    closed spec fn view(&self) -> Seq<(u64, ClientModel)> {
        Seq::new(self.entries@.len(), |i: int| (self.entries@[i].0, self.entries@[i].1@))
    }
}

impl ClientTable {
    /// Distinct peers, each record well-formed.
    pub open spec fn wf(&self) -> bool {
        table_wf(self@)
    }

    /// An empty table.
    pub fn new() -> (r: Self)
        ensures
            r@ == Seq::<(u64, ClientModel)>::empty(),
            r.wf(),
    {
        let r = ClientTable { entries: Vec::new() };
        assert(r@ =~= Seq::<(u64, ClientModel)>::empty());
        r
    }

    /// Whether the table holds a record for `peer`.
    pub fn contains(&self, peer: u64) -> (r: bool)
        ensures
            r == table_contains(self@, peer),
    {
        self.find_index(peer).is_some()
    }

    /// The position of the record for `peer`, if the table holds one.
    fn find_index(&self, peer: u64) -> (r: Option<usize>)
        ensures
            match r {
                Some(i) => table_contains(self@, peer) && i == table_index(self@, peer),
                None => !table_contains(self@, peer),
            },
    {
        let mut i: usize = 0;
        while i < self.entries.len()
            invariant
                0 <= i <= self@.len(),
                self@.len() == self.entries@.len(),
                forall|j: int| 0 <= j < i ==> self@[j].0 != peer,
            decreases self@.len() - i,
        {
            if self.entries[i].0 == peer {
                proof {
                    assert(self@[i as int].0 == peer);
                    lemma_table_index(self@, peer);
                }
                return Some(i);
            }
            i = i + 1;
        }
        None
    }

    /// Finds the record for `peer`, creating a fresh one when the peer has
    /// not been seen before, and returns its position.
    fn find_or_create(&mut self, peer: u64) -> (i: usize)
        requires
            old(self).wf(),
        ensures
            final(self).wf(),
            table_contains(final(self)@, peer),
            i == table_index(final(self)@, peer),
            table_contains(old(self)@, peer) ==> final(self)@ == old(self)@,
            !table_contains(old(self)@, peer) ==> final(self)@ == old(self)@.push(
                (peer, spec_new_client(peer)),
            ),
    {
        let ghost t0 = self@;
        match self.find_index(peer) {
            Some(i) => i,
            None => {
                let i = self.entries.len();
                self.entries.push((peer, ClientState::new(peer)));
                proof {
                    assert(self@ =~= t0.push((peer, spec_new_client(peer))));
                    assert(self@[i as int].0 == peer);
                    lemma_table_index(self@, peer);
                    assert(forall|j: int| 0 <= j < i ==> self@[j] == t0[j]);
                    assert(table_index(self@, peer) == i);
                }
                i
            },
        }
    }
}

/// An owned copy of a byte vector.
fn clone_bytes(v: &Vec<u8>) -> (r: Vec<u8>)
    ensures
        r@ == v@,
{
    let r = v.clone();
    proof {
        assert(r@ =~= v@);
    }
    r
}

impl ClientTable {
    /// A borrow of the record for `peer`, if the table holds one.
    pub fn client(&self, peer: u64) -> (r: Option<&ClientState>)
        ensures
            match r {
                Some(c) => table_contains(self@, peer) && c@ == table_get(self@, peer),
                None => !table_contains(self@, peer),
            },
    {
        match self.find_index(peer) {
            Some(i) => {
                proof {
                    lemma_table_index(self@, peer);
                }
                Some(&self.entries[i].1)
            },
            None => None,
        }
    }

    /// The handler's step for one datagram received from `peer`. An empty
    /// datagram is the close sentinel: the peer's record is removed and
    /// nothing else happens. Anything else is decoded and consumed as
    /// `spec_handle_packet` says, on the peer's record (a fresh one, for a
    /// peer not seen before): acknowledgements drain the send queue, a
    /// `WrongAck` drops the peer, in-order data is delivered and
    /// acknowledged, and out-of-order data is answered with a pure ACK
    /// carrying the expected sequence number.
    pub fn handle_datagram(&mut self, peer: u64, buf: &[u8]) -> (actions: Vec<LrdpAction>)
        requires
            old(self).wf(),
        ensures
            final(self).wf(),
            buf@.len() == 0 ==> final(self)@ == table_remove(old(self)@, peer) && actions@.len()
                == 0,
            buf@.len() >= 1 ==> ({
                let m0 = if table_contains(old(self)@, peer) {
                    table_get(old(self)@, peer)
                } else {
                    spec_new_client(peer)
                };
                let step = spec_handle_packet(m0, spec_decode(buf@), peer);
                &&& acts_view(actions@) == step.1
                &&& final(self)@ == (match step.0 {
                    Some(m) => table_put(old(self)@, peer, m),
                    None => table_remove(old(self)@, peer),
                })
            }),
    {
        let ghost t0 = self@;
        // check if we know about this client yet; if not, create a new state
        // for it.
        let idx = self.find_or_create(peer);
        let ghost t1 = self@;
        let ghost m0 = table_get(t1, peer);
        proof {
            lemma_table_index(t1, peer);
            if table_contains(t0, peer) {
                lemma_table_index(t0, peer);
            }
            assert(t1[idx as int] == (peer, m0));
            assert(m0.wf());
            assert(m0 == if table_contains(t0, peer) {
                table_get(t0, peer)
            } else {
                spec_new_client(peer)
            });
        }

        // if no data was received then this is a "closing" packet, so we can
        // drop this client and move on.
        if buf.len() == 0 {
            self.entries.remove(idx);
            proof {
                assert(self@ =~= t1.remove(idx as int));
                if table_contains(t0, peer) {
                    assert(self@ =~= table_remove(t0, peer));
                } else {
                    assert(t1.remove(idx as int) =~= t0);
                }
            }
            return Vec::new();
        }
        let packet = LrdpPacket::from_buffer(buf);
        let ghost p = spec_decode(buf@);
        let ghost step = spec_handle_packet(m0, p, peer);

        let mut entry = self.entries.remove(idx);
        proof {
            assert(entry.0 == peer && entry.1@ == t1[idx as int].1);
        }
        let mut dropped = false;

        // check if this packet is ACKing anything. If the client sent us a
        // bad value then drop it.
        if packet.has_ack() {
            match entry.1.ack(packet.ack_num()) {
                Err(ClientError::WrongAck(_)) => {
                    dropped = true;
                },
                _ => {},
            }
            proof {
                crate::client_state::lemma_ack_preserves_wf(m0, p.ack_num);
            }
        }

        let mut actions: Vec<LrdpAction> = Vec::new();
        // check for any data, unless the peer was just dropped.
        if !dropped && packet.has_data() {
            match entry.1.recv(packet.seq_num()) {
                Ok(_) => {
                    // emit the payload, then ack the data.
                    actions.push(
                        LrdpAction::Deliver { payload: clone_bytes(packet.data()), peer },
                    );
                    let ack_packet = LrdpPacket::create(Vec::new(), Some(packet.seq_num()), None);
                    actions.push(LrdpAction::Send { bytes: ack_packet.as_buffer(), peer });
                    proof {
                        assert(acts_view(actions@) =~= step.1);
                    }
                },
                // if the seq number is wrong then correct the sender: send an
                // ack with the expected number.
                Err(ClientError::WrongSeq(_, expected)) => {
                    let ack_packet = LrdpPacket::create(Vec::new(), Some(expected), None);
                    actions.push(LrdpAction::Send { bytes: ack_packet.as_buffer(), peer });
                    proof {
                        assert(acts_view(actions@) =~= step.1);
                    }
                },
                // for any other error just drop this client. (`recv` reports
                // only `WrongSeq`, so this arm is provably never taken.)
                Err(_) => {
                    dropped = true;
                },
            }
        }
        if !dropped {
            let ghost mf = entry.1@;
            self.entries.insert(idx, entry);
            proof {
                assert(self@ =~= t1.update(idx as int, (peer, mf)));
                if table_contains(t0, peer) {
                    assert(self@ =~= table_put(t0, peer, mf));
                } else {
                    assert(t1.update(idx as int, (peer, mf)) =~= t0.push((peer, mf)));
                }
                assert(step.0 == Some(mf));
            }
        } else {
            proof {
                assert(self@ =~= t1.remove(idx as int));
                if table_contains(t0, peer) {
                    assert(self@ =~= table_remove(t0, peer));
                } else {
                    assert(t1.remove(idx as int) =~= t0);
                }
            }
        }
        proof {
            if acts_view(actions@).len() == 0 {
                assert(acts_view(actions@) =~= Seq::<ActionModel>::empty());
            }
        }
        actions
    }

    /// The egress step: builds the DATA packet that carries `data` to `peer`
    /// under the peer's next outbound sequence number, queues it for
    /// acknowledgement tracking, records the send time, and returns the wire
    /// bytes to transmit. A peer not seen before gets a fresh record first.
    pub fn send_to(&mut self, peer: u64, data: &[u8], now: u64) -> (bytes: Vec<u8>)
        requires
            old(self).wf(),
        ensures
            final(self).wf(),
            ({
                let m0 = if table_contains(old(self)@, peer) {
                    table_get(old(self)@, peer)
                } else {
                    spec_new_client(peer)
                };
                &&& bytes@ == spec_encode(spec_data_packet(m0.local_seq, data@))
                &&& final(self)@ == table_put(old(self)@, peer, spec_send_client(m0, data@, now))
            }),
    {
        let ghost t0 = self@;
        let idx = self.find_or_create(peer);
        let ghost t1 = self@;
        let ghost m0 = table_get(t1, peer);
        proof {
            lemma_table_index(t1, peer);
            if table_contains(t0, peer) {
                lemma_table_index(t0, peer);
            }
            assert(t1[idx as int] == (peer, m0));
            assert(m0.wf());
        }
        let mut entry = self.entries.remove(idx);

        // queue the packet and send it.
        let payload = vstd::slice::slice_to_vec(data);
        let seq_num = entry.1.next_seq_num();
        let packet = LrdpPacket::create(payload, None, Some(seq_num));
        let bytes = packet.as_buffer();
        entry.1.set_last_send(now);
        let enq = entry.1.enqueue(packet);
        proof {
            assert(enq is Ok);
            assert(entry.1@ == spec_send_client(m0, data@, now));
        }
        let ghost mf = entry.1@;
        self.entries.insert(idx, entry);
        proof {
            assert(self@ =~= t1.update(idx as int, (peer, mf)));
            if table_contains(t0, peer) {
                assert(self@ =~= table_put(t0, peer, mf));
            } else {
                assert(t1.update(idx as int, (peer, mf)) =~= t0.push((peer, mf)));
            }
        }
        bytes
    }

    /// The retransmitter's step at time `now`: every peer whose head packet
    /// has waited at least `RESEND_DELAY` milliseconds since its last
    /// transmission has that packet's bytes sent again and its send time set
    /// to `now`; every other record is untouched.
    pub fn tick(&mut self, now: u64) -> (actions: Vec<LrdpAction>)
        requires
            old(self).wf(),
        ensures
            final(self).wf(),
            final(self)@.len() == old(self)@.len(),
            forall|i: int|
                0 <= i < old(self)@.len() ==> final(self)@[i] == (
                old(self)@[i].0,
                spec_tick_client(old(self)@[i].1, now),
                ),
            acts_view(actions@) == spec_tick_actions(old(self)@, now),
    {
        let ghost t0 = self@;
        let mut actions: Vec<LrdpAction> = Vec::new();
        proof {
            assert(t0.skip(0) =~= t0);
            assert(acts_view(actions@) =~= Seq::<ActionModel>::empty());
            assert(acts_view(actions@) + spec_tick_actions(t0, now) =~= spec_tick_actions(
                t0,
                now,
            ));
        }
        let mut i: usize = 0;
        while i < self.entries.len()
            invariant
                0 <= i <= t0.len(),
                self@.len() == t0.len(),
                self@.len() == self.entries@.len(),
                table_wf(t0),
                forall|j: int| 0 <= j < i ==> self@[j] == (t0[j].0, spec_tick_client(t0[j].1, now)),
                forall|j: int| i <= j < t0.len() ==> self@[j] == t0[j],
                spec_tick_actions(t0, now) == acts_view(actions@) + spec_tick_actions(
                    t0.skip(i as int),
                    now,
                ),
            decreases t0.len() - i,
        {
            let ghost acts0 = acts_view(actions@);
            let ghost tcur = self@;
            let mut entry = self.entries.remove(i);
            proof {
                assert(entry.0 == t0[i as int].0 && entry.1@ == t0[i as int].1);
            }
            match entry.1.resend_due(now, RESEND_DELAY) {
                Some(bytes) => {
                    actions.push(LrdpAction::Send { bytes, peer: entry.0 });
                },
                None => {},
            }
            let ghost mf = entry.1@;
            self.entries.insert(i, entry);
            proof {
                assert(mf == spec_tick_client(t0[i as int].1, now));
                assert(self@ =~= tcur.update(i as int, (t0[i as int].0, mf)));
                assert(t0.skip(i as int).skip(1) =~= t0.skip(i + 1));
                assert(t0.skip(i as int)[0] == t0[i as int]);
                let head_acts = if spec_due(t0[i as int].1, now, RESEND_DELAY) {
                    seq![
                        ActionModel::Send {
                            bytes: spec_encode(t0[i as int].1.send_queue[0]),
                            peer: t0[i as int].0,
                        },
                    ]
                } else {
                    Seq::<ActionModel>::empty()
                };
                assert(acts_view(actions@) =~= acts0 + head_acts);
                assert(spec_tick_actions(t0.skip(i as int), now) == head_acts
                    + spec_tick_actions(t0.skip(i + 1), now));
                assert((acts0 + head_acts) + spec_tick_actions(t0.skip(i + 1), now) =~= acts0 + (
                head_acts + spec_tick_actions(t0.skip(i + 1), now)));
            }
            i = i + 1;
        }
        proof {
            assert(t0.skip(t0.len() as int) =~= Seq::<(u64, ClientModel)>::empty());
            assert(acts_view(actions@) + Seq::<ActionModel>::empty() =~= acts_view(actions@));
        }
        actions
    }
}

/// Resynchronisation: when a datagram carries data whose sequence number is
/// not the one the receiver expects (and its acknowledgement half, if any,
/// does not drop the peer), the handler's actions are exactly one send of a
/// pure ACK carrying the expected sequence number, before anything else is
/// read.
pub proof fn lemma_resynchronisation(m0: ClientModel, p: PacketModel, peer: u64)
    requires
        p.has_data,
        !(p.has_ack && spec_ack(m0, p.ack_num).1 matches Err(ClientError::WrongAck(_))),
        p.seq_num != (if p.has_ack {
            spec_ack(m0, p.ack_num).0
        } else {
            m0
        }).remote_seq,
    ensures
        ({
            let expected = (if p.has_ack {
                spec_ack(m0, p.ack_num).0
            } else {
                m0
            }).remote_seq;
            spec_handle_packet(m0, p, peer).1 == seq![
                ActionModel::Send { bytes: spec_encode(spec_pure_ack(expected)), peer },
            ]
        }),
{
}

/// The state and actions after a run of pure DATA packets that arrive in
/// exactly the expected order: each one carries the sequence number the
/// receiver expects at that moment.
pub open spec fn spec_feed_in_order(m: ClientModel, payloads: Seq<Seq<u8>>, peer: u64) -> (
    ClientModel,
    Seq<ActionModel>,
)
    decreases payloads.len(),
{
    if payloads.len() == 0 {
        (m, Seq::empty())
    } else {
        let step = spec_handle_packet(
            m,
            spec_data_packet(m.remote_seq, payloads[0]),
            peer,
        );
        let rest = spec_feed_in_order(step.0->0, payloads.skip(1), peer);
        (rest.0, step.1 + rest.1)
    }
}

/// In-order delivery: a peer whose DATA packets arrive in exactly the
/// expected sequence has every payload delivered in send order, each
/// followed at once by the pure ACK that confirms it — two actions per
/// packet, nothing else.
pub proof fn lemma_lrdp_in_order_delivery(m: ClientModel, payloads: Seq<Seq<u8>>, peer: u64)
    requires
        m.wf(),
    ensures
        spec_feed_in_order(m, payloads, peer).1 == Seq::new(
            2 * payloads.len(),
            |j: int|
                if j % 2 == 0 {
                    ActionModel::Deliver { payload: payloads[j / 2], peer }
                } else {
                    ActionModel::Send {
                        bytes: spec_encode(spec_pure_ack(((m.remote_seq + j / 2) % 8) as u8)),
                        peer,
                    }
                },
        ),
        spec_feed_in_order(m, payloads, peer).0.wf(),
    decreases payloads.len(),
{
    let out = spec_feed_in_order(m, payloads, peer);
    let shape = Seq::new(
        2 * payloads.len(),
        |j: int|
            if j % 2 == 0 {
                ActionModel::Deliver { payload: payloads[j / 2], peer }
            } else {
                ActionModel::Send {
                    bytes: spec_encode(spec_pure_ack(((m.remote_seq + j / 2) % 8) as u8)),
                    peer,
                }
            },
    );
    if payloads.len() == 0 {
        assert(out.1 =~= shape);
    } else {
        let p = spec_data_packet(m.remote_seq, payloads[0]);
        let step = spec_handle_packet(m, p, peer);
        let m1 = step.0->0;
        assert(m1 == spec_recv(m, m.remote_seq).0);
        assert(m1.wf()) by {
            vstd::arithmetic::div_mod::lemma_mod_bound(m.remote_seq + 1, 8);
        }
        lemma_lrdp_in_order_delivery(m1, payloads.skip(1), peer);
        let rest = spec_feed_in_order(m1, payloads.skip(1), peer);
        assert(step.1.len() == 2);
        assert forall|j: int| 0 <= j < 2 * payloads.len() implies out.1[j] == shape[j] by {
            if j == 0 {
            } else if j == 1 {
                vstd::arithmetic::div_mod::lemma_small_mod(m.remote_seq as nat, 8);
            } else {
                assert(out.1[j] == rest.1[j - 2]);
                let h = j / 2;
                assert(j == 2 * h + (if j % 2 == 0 { 0int } else { 1int }));
                assert((j - 2) / 2 == h - 1 && (j - 2) % 2 == j % 2) by {
                    vstd::arithmetic::div_mod::lemma_fundamental_div_mod_converse(
                        j - 2,
                        2,
                        h - 1,
                        j % 2,
                    );
                }
                assert(payloads.skip(1)[h - 1] == payloads[h]);
                if j % 2 != 0 {
                    assert(rest.1[j - 2] == (ActionModel::Send {
                        bytes: spec_encode(
                            spec_pure_ack(((m1.remote_seq + (h - 1)) % 8) as u8),
                        ),
                        peer,
                    }));
                    assert(((m1.remote_seq + (h - 1)) % 8) == ((m.remote_seq + h) % 8)) by {
                        vstd::arithmetic::div_mod::lemma_add_mod_noop(
                            m.remote_seq + 1,
                            h - 1,
                            8,
                        );
                        vstd::arithmetic::div_mod::lemma_add_mod_noop_right(
                            (m.remote_seq + 1) % 8,
                            h - 1,
                            8,
                        );
                    }
                }
            }
        }
        assert(out.1 =~= shape);
    }
}

} // verus!
