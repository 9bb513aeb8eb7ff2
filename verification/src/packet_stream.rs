//! The packet stream: the inflated bytes of a replay, cut into frames.
//!
//! A frame is a twelve-byte header and a payload:
//!
//! ```text
//! u32  payload length, header not counted
//! u32  packet type
//! f32  seconds since the start of the battle
//! ..   payload
//! ```
//!
//! All three header fields are little-endian.

use crate::error::FormatError;
use crate::reader::le_u32;
use crate::reader::u32_le_at;
use crate::reader::ByteReader;
use vstd::prelude::*;

verus! {

/// The size of a frame header, in bytes.
pub const HEADER_SIZE: u32 = 12;

/// One packet of the stream.
#[derive(Debug, Clone, PartialEq, Eq)]
pub struct Packet {
    pub payload: Vec<u8>,
    pub packet_type: u32,
    /// Seconds since the start of the battle, as the bits of an IEEE 754
    /// single-precision number.
    pub time_bits: u32,
    /// The size of the whole frame, header included, modulo 2^32.
    pub length: u32,
}

/// A packet as plain values.
pub struct PacketView {
    pub payload: Seq<u8>,
    pub packet_type: u32,
    pub time_bits: u32,
    pub length: u32,
}

impl View for Packet {
    type V = PacketView;

    open spec fn view(&self) -> PacketView {
        PacketView {
            payload: self.payload@,
            packet_type: self.packet_type,
            time_bits: self.time_bits,
            length: self.length,
        }
    }
}

/// The type of the packets that update an entity.
pub const ENTITY_UPDATE: u32 = 0x07;

/// The type of the packets that call a method of an entity.
pub const ENTITY_METHOD: u32 = 0x08;

/// True for a packet that starts with the identifier of an entity and a
/// second identifier: one of the two entity packet types, with a payload of
/// eight bytes or more.
pub open spec fn names_entity(packet: PacketView) -> bool {
    (packet.packet_type == ENTITY_UPDATE || packet.packet_type == ENTITY_METHOD)
        && packet.payload.len() >= 8
}

impl Packet {
    /// The identifier of the entity that an entity packet is about: the
    /// first four bytes of its payload.
    pub fn entity_id(&self) -> (r: Option<u32>)
        ensures
            match r {
                Some(id) => names_entity(self@) && id as int == le_u32(self@.payload.subrange(0, 4)),
                None => !names_entity(self@),
            },
    {
        if (self.packet_type == ENTITY_UPDATE || self.packet_type == ENTITY_METHOD)
            && self.payload.len() >= 8 {
            u32_le_at(self.payload.as_slice(), 0)
        } else {
            None
        }
    }

    /// The second identifier of an entity packet, bytes four to eight of
    /// its payload: for a method call, the identifier of the method.
    pub fn sub_type(&self) -> (r: Option<u32>)
        ensures
            match r {
                Some(id) => names_entity(self@) && id as int == le_u32(self@.payload.subrange(4, 8)),
                None => !names_entity(self@),
            },
    {
        if (self.packet_type == ENTITY_UPDATE || self.packet_type == ENTITY_METHOD)
            && self.payload.len() >= 8 {
            u32_le_at(self.payload.as_slice(), 4)
        } else {
            None
        }
    }
}

/// The payload length that the frame at the front of `s` declares.
pub open spec fn payload_len(s: Seq<u8>) -> int {
    le_u32(s.subrange(0, 4))
}

/// True when `s` starts with a whole frame: a header and as many payload
/// bytes as the header declares.
pub open spec fn starts_with_frame(s: Seq<u8>) -> bool {
    s.len() >= 12 && s.len() - 12 >= payload_len(s)
}

/// The packet that the frame at the front of `s` holds.
pub open spec fn first_packet(s: Seq<u8>) -> PacketView {
    PacketView {
        payload: s.subrange(12, 12 + payload_len(s)),
        packet_type: le_u32(s.subrange(4, 8)) as u32,
        time_bits: le_u32(s.subrange(8, 12)) as u32,
        length: ((payload_len(s) + 12) % 0x1_0000_0000) as u32,
    }
}

/// What follows the frame at the front of `s`.
pub open spec fn after_first_packet(s: Seq<u8>) -> Seq<u8> {
    s.skip(12 + payload_len(s))
}

/// The items that a stream over `s` yields, in order: one packet for each
/// whole frame, and a final truncation error where the bytes end inside a
/// frame.
pub open spec fn packets(s: Seq<u8>) -> Seq<Result<PacketView, FormatError>>
    decreases s.len(),
{
    if s.len() == 0 {
        Seq::empty()
    } else if !starts_with_frame(s) {
        seq![Err(FormatError::Truncated)]
    } else {
        seq![Ok(first_packet(s))] + packets(after_first_packet(s))
    }
}

/// The items of `v` as plain values.
pub open spec fn item_views(v: Seq<Result<Packet, FormatError>>) -> Seq<
    Result<PacketView, FormatError>,
> {
    Seq::new(
        v.len(),
        |i: int|
            match v[i] {
                Ok(p) => Ok(p@),
                Err(e) => Err(e),
            },
    )
}

/// A frame that declares no payload is a packet like any other: its
/// payload is empty and its size is that of the header.
pub proof fn lemma_empty_frame_is_a_packet(s: Seq<u8>)
    requires
        s.len() >= 12,
        payload_len(s) == 0,
    ensures
        packets(s).len() >= 1,
        packets(s)[0] == Ok::<PacketView, FormatError>(
            PacketView {
                payload: Seq::empty(),
                packet_type: le_u32(s.subrange(4, 8)) as u32,
                time_bits: le_u32(s.subrange(8, 12)) as u32,
                length: 12,
            },
        ),
        packets(s) == seq![packets(s)[0]] + packets(s.skip(12)),
{
    assert(s.subrange(12, 12 + payload_len(s)) == Seq::<u8>::empty());
}

/// A frame that declares more payload than is left gives a truncation
/// error, and nothing after it.
pub proof fn lemma_short_frame_ends_stream(s: Seq<u8>)
    requires
        s.len() >= 12,
        payload_len(s) > s.len() - 12,
    ensures
        packets(s) == seq![Err::<PacketView, FormatError>(FormatError::Truncated)],
{
}

/// An error is the last item of a stream: every item before the last one
/// is a packet, and the only error there can be is a truncation.
pub proof fn lemma_error_is_last(s: Seq<u8>, i: int)
    requires
        0 <= i < packets(s).len(),
        packets(s)[i].is_err(),
    ensures
        i == packets(s).len() - 1,
        packets(s)[i] == Err::<PacketView, FormatError>(FormatError::Truncated),
    decreases s.len(),
{
    if s.len() > 0 && starts_with_frame(s) {
        let rest = after_first_packet(s);
        assert(packets(s) == seq![Ok::<PacketView, FormatError>(first_packet(s))] + packets(rest));
        assert(i > 0);
        assert(packets(s)[i] == packets(rest)[i - 1]);
        lemma_error_is_last(rest, i - 1);
    }
}

/// A forward-only, one-pass source of packets over an owned buffer.
pub struct PacketStream {
    reader: ByteReader,
}

impl PacketStream {
    /// The bytes that no frame has been cut from yet.
    pub closed spec fn remaining(&self) -> Seq<u8> {
        self.reader.remaining()
    }

    /// A stream over the inflated packet bytes of a replay.
    pub fn new(data: Vec<u8>) -> (stream: Self)
        ensures
            stream.remaining() == data@,
    {
        PacketStream { reader: ByteReader::new(data) }
    }

    /// The next item of the stream: `None` at the end of the buffer, a
    /// packet for a whole frame, and a truncation error where the buffer
    /// ends inside a frame. After an error nothing is left to read.
    pub fn next(&mut self) -> (item: Option<Result<Packet, FormatError>>)
        ensures
            old(self).remaining().len() == 0 ==> item.is_none() && final(self).remaining()
                == old(self).remaining(),
            old(self).remaining().len() > 0 && !starts_with_frame(old(self).remaining()) ==> {
                &&& item == Some(Err::<Packet, FormatError>(FormatError::Truncated))
                &&& final(self).remaining() == Seq::<u8>::empty()
            },
            starts_with_frame(old(self).remaining()) ==> {
                &&& item matches Some(Ok(packet))
                &&& packet@ == first_packet(old(self).remaining())
                &&& final(self).remaining() == after_first_packet(old(self).remaining())
            },
    {
        if self.reader.at_end() {
            return None;
        }
        Some(self.read_packet())
    }

    /// Every item that is left in the stream, in order. Where the bytes end
    /// inside a frame, the truncation error is the last item.
    pub fn read_all(&mut self) -> (items: Vec<Result<Packet, FormatError>>)
        ensures
            item_views(items@) == packets(old(self).remaining()),
            final(self).remaining() == Seq::<u8>::empty(),
    {
        let ghost start = self.remaining();
        let mut items: Vec<Result<Packet, FormatError>> = Vec::new();
        assert(item_views(items@) + packets(start) == packets(start));
        while !self.reader.at_end()
            invariant
                item_views(items@) + packets(self.remaining()) == packets(start),
            decreases self.remaining().len(),
        {
            let ghost before = self.remaining();
            let ghost collected = items@;
            match self.next() {
                Some(item) => {
                    items.push(item);
                    proof {
                        let view = item_views(items@).last();
                        assert(item_views(items@) == item_views(collected).push(view));
                        assert(packets(before) == seq![view] + packets(self.remaining()));
                        assert(item_views(items@) + packets(self.remaining()) == item_views(
                            collected,
                        ) + packets(before));
                    }
                },
                None => {},
            }
        }
        assert(item_views(items@) + packets(self.remaining()) == item_views(items@));
        items
    }

    /// Reads one frame from a buffer that is not at its end.
    fn read_packet(&mut self) -> (r: Result<Packet, FormatError>)
        ensures
            !starts_with_frame(old(self).remaining()) ==> {
                &&& r == Err::<Packet, FormatError>(FormatError::Truncated)
                &&& final(self).remaining() == Seq::<u8>::empty()
            },
            starts_with_frame(old(self).remaining()) ==> {
                &&& r matches Ok(packet)
                &&& packet@ == first_packet(old(self).remaining())
                &&& final(self).remaining() == after_first_packet(old(self).remaining())
            },
    {
        let ghost s = self.reader.remaining();
        let payload_len = match self.reader.read_u32_le() {
            Some(v) => v,
            None => {
                return Err(FormatError::Truncated);
            },
        };
        let packet_type = match self.reader.read_u32_le() {
            Some(v) => v,
            None => {
                return Err(FormatError::Truncated);
            },
        };
        let time_bits = match self.reader.read_u32_le() {
            Some(v) => v,
            None => {
                return Err(FormatError::Truncated);
            },
        };
        proof {
            assert(s.take(4) == s.subrange(0, 4));
            assert(s.skip(4).take(4) == s.subrange(4, 8));
            assert(s.skip(4).skip(4).take(4) == s.subrange(8, 12));
            assert(self.reader.remaining() == s.skip(12));
        }
        let payload = match self.reader.read_exact(payload_len as usize) {
            Some(bytes) => bytes,
            None => {
                return Err(FormatError::Truncated);
            },
        };
        proof {
            assert(s.skip(12).take(payload_len as int) == s.subrange(12, 12 + payload_len));
            assert(s.skip(12).skip(payload_len as int) == s.skip(12 + payload_len));
        }
        Ok(Packet { payload, packet_type, time_bits, length: payload_len.wrapping_add(HEADER_SIZE) })
    }
}

} // verus!
