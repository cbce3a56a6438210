//! Wire framing for SRDP.
//!
//! An SRDP datagram is one header byte followed by an optional payload.
//! The header bit layout, most significant bit first, is `I A i i i i i i`:
//! `I` is the IMPORTANT flag, `A` the ACK flag, and `iiiiii` a 6-bit packet
//! id. `I=0,A=0` is a Normal datagram and `I=1,A=0` an Important one; both
//! carry a payload after the header. `I=0,A=1` is a pure ACK and `I=1,A=1`
//! the EXPECT signal (a negative acknowledgement hinting at a gap); both
//! are a bare header byte.

use vstd::prelude::*;

verus! {

/// The bitmask for the two flag bits of a header byte.
pub const FLAG_MASK: u8 = 0xC0;
/// The bitmask for the 6-bit packet id of a header byte.
pub const ID_MASK: u8 = 0x3F;
/// The bitmask for the IMPORTANT flag.
pub const IMPORTANT_FLAG: u8 = 0x80;
/// The bitmask for the ACK flag.
pub const ACK_FLAG: u8 = 0x40;
/// The bit pattern of the EXPECT signal: both flags at once.
pub const EXPECT_FLAG: u8 = 0xC0;

/// The mathematical model of an SRDP datagram.
#[verifier::ext_equal]
pub enum FrameModel {
    /// An unreliable datagram: no id, delivered when it arrives.
    Normal { payload: Seq<u8> },
    /// A reliable datagram: tracked under its id until acknowledged.
    Important { id: u8, payload: Seq<u8> },
    /// A cumulative acknowledgement of every outstanding id up to and
    /// including `id`.
    Ack { id: u8 },
    /// The hint that the receiver still expects `id`: everything below it
    /// has arrived.
    Expect { id: u8 },
}

impl FrameModel {
    /// A frame that encoding can represent faithfully: its id fits the
    /// 6-bit field.
    pub open spec fn wf(self) -> bool {
        match self {
            FrameModel::Normal { .. } => true,
            FrameModel::Important { id, .. } => id < 64,
            FrameModel::Ack { id } => id < 64,
            FrameModel::Expect { id } => id < 64,
        }
    }
}

/// The header byte that `spec_encode_frame` gives a frame.
pub open spec fn spec_frame_header(f: FrameModel) -> u8 {
    match f {
        FrameModel::Normal { .. } => 0,
        FrameModel::Important { id, .. } => (id & ID_MASK) | IMPORTANT_FLAG,
        FrameModel::Ack { id } => (id & ID_MASK) | ACK_FLAG,
        FrameModel::Expect { id } => EXPECT_FLAG | (id & ID_MASK),
    }
}

/// The bytes that carry a frame on the wire: the header byte, then the
/// payload for the two datagram forms.
pub open spec fn spec_encode_frame(f: FrameModel) -> Seq<u8> {
    seq![spec_frame_header(f)] + match f {
        FrameModel::Normal { payload } => payload,
        FrameModel::Important { payload, .. } => payload,
        FrameModel::Ack { .. } => Seq::empty(),
        FrameModel::Expect { .. } => Seq::empty(),
    }
}

/// The frame that a received buffer of length at least one denotes,
/// classified by the two top header bits. Any bit pattern is legal.
pub open spec fn spec_decode_frame(buf: Seq<u8>) -> FrameModel {
    let flags = buf[0] & FLAG_MASK;
    let id = buf[0] & ID_MASK;
    if flags & EXPECT_FLAG == EXPECT_FLAG {
        FrameModel::Expect { id }
    } else if flags & ACK_FLAG == ACK_FLAG {
        FrameModel::Ack { id }
    } else if flags & IMPORTANT_FLAG == IMPORTANT_FLAG {
        FrameModel::Important { id, payload: buf.skip(1) }
    } else {
        FrameModel::Normal { payload: buf.skip(1) }
    }
}

/// An SRDP datagram as read off the wire.
pub enum SrdpFrame {
    Normal(Vec<u8>),
    Important(u8, Vec<u8>),
    Ack(u8),
    Expect(u8),
}

impl View for SrdpFrame {
    type V = FrameModel;

    open spec fn view(&self) -> FrameModel {
        match self {
            SrdpFrame::Normal(payload) => FrameModel::Normal { payload: payload@ },
            SrdpFrame::Important(id, payload) => FrameModel::Important {
                id: *id,
                payload: payload@,
            },
            SrdpFrame::Ack(id) => FrameModel::Ack { id: *id },
            SrdpFrame::Expect(id) => FrameModel::Expect { id: *id },
        }
    }
}

/// Copies the payload bytes that follow the header byte.
fn payload_of(buf: &[u8]) -> (r: Vec<u8>)
    requires
        buf@.len() >= 1,
    ensures
        r@ == buf@.skip(1),
{
    let mut data: Vec<u8> = Vec::new();
    let mut i: usize = 1;
    while i < buf.len()
        invariant
            1 <= i <= buf@.len(),
            data@ == buf@.subrange(1, i as int),
        decreases buf@.len() - i,
    {
        data.push(buf[i]);
        assert(data@ =~= buf@.subrange(1, i + 1));
        i = i + 1;
    }
    assert(buf@.subrange(1, buf@.len() as int) =~= buf@.skip(1));
    data
}

/// Reads one received buffer as an SRDP frame.
pub fn decode_frame(buf: &[u8]) -> (r: SrdpFrame)
    requires
        buf@.len() >= 1,
    ensures
        r@ == spec_decode_frame(buf@),
{
    let head: u8 = buf[0];
    let flags = head & FLAG_MASK;
    let id = head & ID_MASK;
    if flags & EXPECT_FLAG == EXPECT_FLAG {
        SrdpFrame::Expect(id)
    } else if flags & ACK_FLAG == ACK_FLAG {
        SrdpFrame::Ack(id)
    } else if flags & IMPORTANT_FLAG == IMPORTANT_FLAG {
        SrdpFrame::Important(id, payload_of(buf))
    } else {
        SrdpFrame::Normal(payload_of(buf))
    }
}

/// Frames a Normal datagram: a zeroed header byte, then the payload, so
/// that receivers can uniformly parse one byte of header.
pub fn encode_normal(data: &[u8]) -> (r: Vec<u8>)
    ensures
        r@ == spec_encode_frame(FrameModel::Normal { payload: data@ }),
{
    let mut buf: Vec<u8> = Vec::new();
    buf.push(0);
    let mut i: usize = 0;
    while i < data.len()
        invariant
            0 <= i <= data@.len(),
            buf@ == seq![0u8] + data@.subrange(0, i as int),
        decreases data@.len() - i,
    {
        buf.push(data[i]);
        assert(buf@ =~= seq![0u8] + data@.subrange(0, i + 1));
        i = i + 1;
    }
    assert(data@.subrange(0, data@.len() as int) =~= data@);
    assert(buf@ =~= spec_encode_frame(FrameModel::Normal { payload: data@ }));
    buf
}

/// Frames an Important datagram under its id.
pub fn encode_important(id: u8, data: &[u8]) -> (r: Vec<u8>)
    ensures
        r@ == spec_encode_frame(FrameModel::Important { id, payload: data@ }),
{
    let mut buf: Vec<u8> = Vec::new();
    buf.push((id & ID_MASK) | IMPORTANT_FLAG);
    let mut i: usize = 0;
    while i < data.len()
        invariant
            0 <= i <= data@.len(),
            buf@ == seq![(id & ID_MASK) | IMPORTANT_FLAG] + data@.subrange(0, i as int),
        decreases data@.len() - i,
    {
        buf.push(data[i]);
        assert(buf@ =~= seq![(id & ID_MASK) | IMPORTANT_FLAG] + data@.subrange(0, i + 1));
        i = i + 1;
    }
    assert(data@.subrange(0, data@.len() as int) =~= data@);
    assert(buf@ =~= spec_encode_frame(FrameModel::Important { id, payload: data@ }));
    buf
}

/// Frames a pure acknowledgement of `id`.
pub fn encode_ack(id: u8) -> (r: Vec<u8>)
    ensures
        r@ == spec_encode_frame(FrameModel::Ack { id }),
{
    let mut buf: Vec<u8> = Vec::new();
    buf.push((id & ID_MASK) | ACK_FLAG);
    assert(buf@ =~= spec_encode_frame(FrameModel::Ack { id }));
    buf
}

/// Frames the EXPECT signal carrying `id`.
pub fn encode_expect(id: u8) -> (r: Vec<u8>)
    ensures
        r@ == spec_encode_frame(FrameModel::Expect { id }),
{
    let mut buf: Vec<u8> = Vec::new();
    buf.push(EXPECT_FLAG | (id & ID_MASK));
    assert(buf@ =~= spec_encode_frame(FrameModel::Expect { id }));
    buf
}

/// Framing round trip: decoding an encoded frame gives back the frame, for
/// every form, in-range id and payload bytes.
pub proof fn lemma_srdp_round_trip(f: FrameModel)
    requires
        f.wf(),
    ensures
        spec_decode_frame(spec_encode_frame(f)) == f,
{
    match f {
        FrameModel::Normal { payload } => {
            assert({
                let hh = 0u8;
                (hh & 0xC0) & 0xC0u8 != 0xC0u8 && (hh & 0xC0) & 0x40u8 != 0x40u8 && (hh & 0xC0)
                    & 0x80u8 != 0x80u8
            }) by (bit_vector);
            assert(spec_encode_frame(f).skip(1) =~= payload);
        },
        FrameModel::Important { id, payload } => {
            assert({
                let hh = (id & 0x3F) | 0x80u8;
                (hh & 0xC0) & 0xC0u8 != 0xC0u8 && (hh & 0xC0) & 0x40u8 != 0x40u8 && (hh & 0xC0)
                    & 0x80u8 == 0x80u8 && hh & 0x3Fu8 == id
            }) by (bit_vector)
                requires
                    id < 64,
            ;
            assert(spec_encode_frame(f).skip(1) =~= payload);
        },
        FrameModel::Ack { id } => {
            assert({
                let hh = (id & 0x3F) | 0x40u8;
                (hh & 0xC0) & 0xC0u8 != 0xC0u8 && (hh & 0xC0) & 0x40u8 == 0x40u8 && hh & 0x3Fu8
                    == id
            }) by (bit_vector)
                requires
                    id < 64,
            ;
        },
        FrameModel::Expect { id } => {
            assert({
                let hh = 0xC0u8 | (id & 0x3F);
                (hh & 0xC0) & 0xC0u8 == 0xC0u8 && hh & 0x3Fu8 == id
            }) by (bit_vector)
                requires
                    id < 64,
            ;
        },
    }
}

} // verus!
