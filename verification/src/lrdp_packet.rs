//! Wire framing for LRDP.
//!
//! An LRDP datagram is one header byte followed by an optional payload.
//! The header bit layout, most significant bit first, is `D A s s s a a a`:
//! `D` is the DATA flag, `A` the ACK flag, `sss` the 3-bit sequence number
//! and `aaa` the 3-bit acknowledgement number. A payload follows the header
//! if and only if `D` is set.

use vstd::prelude::*;

verus! {

/// The bitmask for the DATA flag in a packet.
pub const DATA_FLAG: u8 = 0x80;
/// The bitmask for the ACK flag in a packet.
pub const ACK_FLAG: u8 = 0x40;
/// The bitmask for the sequence number in a packet.
pub const SEQ_MASK: u8 = 0x38;
/// The bitmask for the acknowledgement number in a packet.
pub const ACK_MASK: u8 = 0x07;

/// The mathematical model of an LRDP packet: the two flags, the two 3-bit
/// fields and the payload bytes.
#[verifier::ext_equal]
pub struct PacketModel {
    pub has_ack: bool,
    pub has_data: bool,
    pub ack_num: u8,
    pub seq_num: u8,
    pub data: Seq<u8>,
}

impl PacketModel {
    /// A packet that encoding can represent faithfully: the 3-bit fields are
    /// in range, and a field that the flags leave unused is zero (the header
    /// byte has no room to carry it).
    pub open spec fn wf(self) -> bool {
        &&& self.ack_num < 8
        &&& self.seq_num < 8
        &&& !self.has_ack ==> self.ack_num == 0
        &&& !self.has_data ==> self.seq_num == 0 && self.data.len() == 0
    }
}

/// The header byte that `spec_encode` gives a packet: flag bits, then the
/// acknowledgement number in the low three bits when ACK is set, and the
/// sequence number in the next three bits when DATA is set.
pub open spec fn spec_header_byte(m: PacketModel) -> u8 {
    let with_ack: u8 = if m.has_ack {
        ACK_FLAG | (m.ack_num & ACK_MASK)
    } else {
        0
    };
    if m.has_data {
        with_ack | DATA_FLAG | ((m.seq_num << 3) & SEQ_MASK)
    } else {
        with_ack
    }
}

/// The bytes that carry a packet on the wire: the header byte, then the
/// payload if and only if the DATA flag is set.
pub open spec fn spec_encode(m: PacketModel) -> Seq<u8> {
    seq![spec_header_byte(m)] + if m.has_data {
        m.data
    } else {
        Seq::empty()
    }
}

/// The packet that a received buffer of length at least one denotes. Any
/// header bit pattern is legal; semantic validation belongs to the state
/// machine that consumes the packet.
pub open spec fn spec_decode(buf: Seq<u8>) -> PacketModel {
    PacketModel {
        has_ack: buf[0] & ACK_FLAG == ACK_FLAG,
        has_data: buf[0] & DATA_FLAG == DATA_FLAG,
        ack_num: buf[0] & ACK_MASK,
        seq_num: (buf[0] & SEQ_MASK) >> 3,
        data: buf.skip(1),
    }
}

/// A packet which conforms to the LRDP protocol.
pub struct LrdpPacket {
    has_ack: bool,
    has_data: bool,
    ack_num: u8,
    seq_num: u8,
    data: Vec<u8>,
}

impl View for LrdpPacket {
    type V = PacketModel;

    closed spec fn view(&self) -> PacketModel {
        PacketModel {
            has_ack: self.has_ack,
            has_data: self.has_data,
            ack_num: self.ack_num,
            seq_num: self.seq_num,
            data: self.data@,
        }
    }
}

impl LrdpPacket {
    /// Create an LRDP packet from a received buffer.
    pub fn from_buffer(buf: &[u8]) -> (r: Self)
        requires
            buf@.len() >= 1,
        ensures
            r@ == spec_decode(buf@),
    {
        let head: u8 = buf[0];
        let has_ack = head & ACK_FLAG == ACK_FLAG;
        let has_data = head & DATA_FLAG == DATA_FLAG;
        let ack_num = head & ACK_MASK;
        let seq_num = (head & SEQ_MASK) >> 3;
        let mut data: Vec<u8> = Vec::new();
        let mut i: usize = 1;
        while i < buf.len()
            invariant
                1 <= i <= buf@.len(),
                data@ == buf@.subrange(1, i as int),
            decreases buf@.len() - i,
        {
            data.push(buf[i]);
            assert(data@ =~= buf@.subrange(1, i + 1));
            i = i + 1;
        }
        let r = Self { has_ack, has_data, ack_num, seq_num, data };
        assert(r@ =~= spec_decode(buf@)) by {
            assert(buf@.subrange(1, buf@.len() as int) =~= buf@.skip(1));
        }
        r
    }

    /// Create an LRDP packet from the given data and other details.
    ///
    /// + If `ack_num` is not `None`, this packet's ACK bit will be set.
    /// + If `seq_num` is not `None`, this packet's DATA bit will be set.
    pub fn create(data: Vec<u8>, ack_num: Option<u8>, seq_num: Option<u8>) -> (r: Self)
        ensures
            r@.has_ack == ack_num is Some,
            r@.has_data == seq_num is Some,
            r@.ack_num == (if ack_num is Some { ack_num->0 } else { 0u8 }),
            r@.seq_num == (if seq_num is Some { seq_num->0 } else { 0u8 }),
            r@.data == data@,
    {
        Self {
            has_ack: ack_num.is_some(),
            ack_num: ack_num.unwrap_or(0),
            has_data: seq_num.is_some(),
            seq_num: seq_num.unwrap_or(0),
            data,
        }
    }

    /// Turn the packet into a buffer which can be sent over the network.
    pub fn as_buffer(&self) -> (r: Vec<u8>)
        ensures
            r@ == spec_encode(self@),
    {
        let header: u8 = if self.has_ack {
            ACK_FLAG | (self.ack_num & ACK_MASK)
        } else {
            0
        };
        let header: u8 = if self.has_data {
            header | DATA_FLAG | ((self.seq_num << 3) & SEQ_MASK)
        } else {
            header
        };
        let mut buf: Vec<u8> = Vec::new();
        buf.push(header);
        // extend with data if needed.
        if self.has_data {
            let mut i: usize = 0;
            while i < self.data.len()
                invariant
                    i <= self.data@.len(),
                    buf@ == seq![spec_header_byte(self@)] + self.data@.subrange(0, i as int),
                decreases self.data@.len() - i,
            {
                buf.push(self.data[i]);
                assert(buf@ =~= seq![spec_header_byte(self@)] + self.data@.subrange(
                    0,
                    i + 1,
                ));
                i = i + 1;
            }
            assert(self.data@.subrange(0, self.data@.len() as int) =~= self.data@);
        }
        assert(buf@ =~= spec_encode(self@));
        buf
    }

    /// Whether or not this packet's ACK bit is set.
    pub fn has_ack(&self) -> (r: bool)
        ensures
            r == self@.has_ack,
    {
        self.has_ack
    }

    /// Whether or not this packet's DATA bit is set.
    pub fn has_data(&self) -> (r: bool)
        ensures
            r == self@.has_data,
    {
        self.has_data
    }

    /// The ACK number of this packet.
    pub fn ack_num(&self) -> (r: u8)
        ensures
            r == self@.ack_num,
    {
        self.ack_num
    }

    /// The SEQ number of this packet.
    pub fn seq_num(&self) -> (r: u8)
        ensures
            r == self@.seq_num,
    {
        self.seq_num
    }

    /// The data in this packet.
    pub fn data(&self) -> (r: &Vec<u8>)
        ensures
            r@ == self@.data,
    {
        &self.data
    }
}

/// Framing round trip: decoding an encoded packet gives back the packet, for
/// every choice of flags, in-range fields and payload bytes.
pub proof fn lemma_lrdp_round_trip(m: PacketModel)
    requires
        m.wf(),
    ensures
        spec_decode(spec_encode(m)) == m,
{
    let h = spec_header_byte(m);
    let a = m.ack_num;
    let s = m.seq_num;
    if m.has_ack && m.has_data {
        assert((0x40u8 | (a & 0x07)) | 0x80u8 | ((s << 3) & 0x38) == h);
        assert({
            let hh = (0x40u8 | (a & 0x07)) | 0x80u8 | ((s << 3) & 0x38);
            hh & 0x40u8 == 0x40u8 && hh & 0x80u8 == 0x80u8 && hh & 0x07u8 == a && (hh & 0x38u8)
                >> 3 == s
        }) by (bit_vector)
            requires
                a < 8 && s < 8,
        ;
    } else if m.has_ack {
        assert(0x40u8 | (a & 0x07) == h);
        assert({
            let hh = 0x40u8 | (a & 0x07);
            hh & 0x40u8 == 0x40u8 && hh & 0x80u8 != 0x80u8 && hh & 0x07u8 == a && (hh & 0x38u8)
                >> 3 == 0
        }) by (bit_vector)
            requires
                a < 8,
        ;
    } else if m.has_data {
        assert(0u8 | 0x80u8 | ((s << 3) & 0x38) == h);
        assert({
            let hh = 0u8 | 0x80u8 | ((s << 3) & 0x38);
            hh & 0x40u8 != 0x40u8 && hh & 0x80u8 == 0x80u8 && hh & 0x07u8 == 0 && (hh & 0x38u8)
                >> 3 == s
        }) by (bit_vector)
            requires
                s < 8,
        ;
    } else {
        assert({
            let hh = 0u8;
            hh & 0x40u8 != 0x40u8 && hh & 0x80u8 != 0x80u8 && hh & 0x07u8 == 0 && (hh & 0x38u8)
                >> 3 == 0
        }) by (bit_vector);
    }
    if m.has_data {
        assert(spec_encode(m).skip(1) =~= m.data);
    } else {
        assert(spec_encode(m).skip(1) =~= m.data);
    }
    assert(spec_decode(spec_encode(m)) =~= m);
}

} // verus!
