//! Two experimental reliable datagram transports layered on top of
//! unreliable datagram delivery.
//!
//! - LRDP ("Lightweight Reliable Datagram Protocol"): a per-peer
//!   stop-and-wait protocol with a 3-bit modulo-8 sequence space,
//!   packet-granular acknowledgements and time-based retransmission.
//! - SRDP ("Semi-Reliable Datagram Protocol"): a per-socket mixed-mode
//!   protocol with unreliable ("Normal") and reliable ("Important")
//!   datagrams, a fixed pool of 64 packet ids, a measured round-trip
//!   time for retransmission pacing, delayed cumulative ACKs and
//!   "EXPECT" negative acknowledgements.
//!
//! This crate holds the protocol engines themselves: the wire framing,
//! the per-peer and per-socket state, and the decision logic that the
//! ingress, retransmission and egress activities run. The engines are
//! pure state machines over plain values; a caller owns the actual UDP
//! endpoint and threads, performs each returned action, and feeds every
//! received datagram (together with a millisecond clock reading) back in.

pub mod client_state;
pub mod lrdp_engine;
pub mod lrdp_packet;
pub mod payload;
pub mod srdp_engine;
pub mod srdp_packet;
