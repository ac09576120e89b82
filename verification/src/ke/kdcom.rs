//! The wire framing of the kernel-debugger protocol.
//!
//! A packet is a 16-byte little-endian header, `byte_count` payload bytes and one
//! [`PACKET_TRAILER`] byte:
//!
//! ```text
//!   +0x00 u32 PacketLeader   (data: 0x30303030, control: 0x69696969)
//!   +0x04 u16 PacketType
//!   +0x06 u16 ByteCount      (payload length)
//!   +0x08 u32 PacketId
//!   +0x0c u32 Checksum       (sum of payload bytes)
//! ```
//!
//! Control packets (acknowledge, resend, reset) are a header alone.
use crate::bytes::{
    bytes16, bytes32, get16, get32, lemma_bytes16, lemma_bytes32, lemma_get16_in, lemma_get32_in,
    u16le, u32le,
};
use vstd::prelude::*;
use vstd::slice::slice_subrange;

verus! {

/// Leader of a data packet: four `'0'` bytes.
pub const PACKET_LEADER: u32 = 0x3030_3030;

/// Leader of a control packet: four `'i'` bytes.
pub const CONTROL_PACKET_LEADER: u32 = 0x6969_6969;

/// The byte that ends a data packet.
pub const PACKET_TRAILER: u8 = 0xAA;

/// The byte that forces a break-in.
pub const BREAKIN_BYTE: u8 = 0x62;

/// Size of the header.
pub const HEADER_LEN: usize = 16;

/// Initial data-packet id; the two ends toggle the low bit with each packet.
pub const INITIAL_PACKET_ID: u32 = 0x8080_0000;

/// The id of a sync exchange.
pub const SYNC_PACKET_ID: u32 = 0x0000_0800;

/// Packet types.
#[derive(Clone, Copy, PartialEq, Eq, Debug, Structural)]
pub enum PacketType {
    Unused,
    StateChange32,
    StateManipulate,
    DebugIo,
    Acknowledge,
    Resend,
    Reset,
    StateChange64,
}

impl PacketType {
    /// The type's number on the wire.
    pub open spec fn number(self) -> u16 {
        match self {
            PacketType::Unused => 0,
            PacketType::StateChange32 => 1,
            PacketType::StateManipulate => 2,
            PacketType::DebugIo => 3,
            PacketType::Acknowledge => 4,
            PacketType::Resend => 5,
            PacketType::Reset => 6,
            PacketType::StateChange64 => 7,
        }
    }

    /// The type's number on the wire.
    pub fn code(self) -> (n: u16)
        ensures
            n == self.number(),
    {
        match self {
            PacketType::Unused => 0,
            PacketType::StateChange32 => 1,
            PacketType::StateManipulate => 2,
            PacketType::DebugIo => 3,
            PacketType::Acknowledge => 4,
            PacketType::Resend => 5,
            PacketType::Reset => 6,
            PacketType::StateChange64 => 7,
        }
    }

    /// The type with a number, if there is one.
    pub fn from_u16(v: u16) -> (r: Option<PacketType>)
        ensures
            r == typed(v),
    {
        match v {
            0 => Some(PacketType::Unused),
            1 => Some(PacketType::StateChange32),
            2 => Some(PacketType::StateManipulate),
            3 => Some(PacketType::DebugIo),
            4 => Some(PacketType::Acknowledge),
            5 => Some(PacketType::Resend),
            6 => Some(PacketType::Reset),
            7 => Some(PacketType::StateChange64),
            _ => None,
        }
    }
}

/// The type with a number, if there is one.
pub open spec fn typed(v: u16) -> Option<PacketType> {
    if v == 0 {
        Some(PacketType::Unused)
    } else if v == 1 {
        Some(PacketType::StateChange32)
    } else if v == 2 {
        Some(PacketType::StateManipulate)
    } else if v == 3 {
        Some(PacketType::DebugIo)
    } else if v == 4 {
        Some(PacketType::Acknowledge)
    } else if v == 5 {
        Some(PacketType::Resend)
    } else if v == 6 {
        Some(PacketType::Reset)
    } else if v == 7 {
        Some(PacketType::StateChange64)
    } else {
        None
    }
}

/// The sum of some bytes.
pub open spec fn byte_sum(data: Seq<u8>) -> int
    decreases data.len(),
{
    if data.len() == 0 {
        0
    } else {
        byte_sum(data.drop_last()) + data.last()
    }
}

/// The checksum of a payload: its byte sum modulo 2^32.
pub open spec fn sum32(data: Seq<u8>) -> u32 {
    (byte_sum(data) % 0x1_0000_0000) as u32
}

/// A header.
#[verifier::opaque]
pub open spec fn header(leader: u32, kind: PacketType, count: u16, id: u32, sum: u32) -> Seq<u8> {
    bytes32(leader) + bytes16(kind.number()) + bytes16(count) + bytes32(id) + bytes32(sum)
}

/// A data packet on the wire. The length field holds 16 bits of the payload's
/// length.
pub open spec fn data_packet(kind: PacketType, id: u32, payload: Seq<u8>) -> Seq<u8> {
    header(PACKET_LEADER, kind, (payload.len() % 0x1_0000) as u16, id, sum32(payload)) + payload
        + seq![PACKET_TRAILER]
}

/// A control packet on the wire.
pub open spec fn control_packet(kind: PacketType, id: u32) -> Seq<u8> {
    header(CONTROL_PACKET_LEADER, kind, 0, id, 0)
}

/// Sum-of-bytes checksum of a payload.
pub fn checksum(data: &[u8]) -> (sum: u32)
    ensures
        sum == sum32(data@),
{
    let mut sum: u32 = 0;
    let mut i: usize = 0;
    assert(data@.take(0) =~= Seq::empty());
    while i < data.len()
        invariant
            i <= data@.len(),
            sum == byte_sum(data@.take(i as int)) % 0x1_0000_0000,
        decreases data@.len() - i,
    {
        proof {
            let next = data@.take(i + 1);
            assert(next.drop_last() =~= data@.take(i as int));
            assert(next.last() == data@[i as int]);
        }
        sum = sum.wrapping_add(data[i] as u32);
        i = i + 1;
    }
    assert(data@.take(i as int) =~= data@);
    sum
}

fn push16(p: &mut Vec<u8>, v: u16)
    ensures
        final(p)@ == old(p)@ + bytes16(v),
{
    let ghost before = p@;
    p.push((v % 0x100) as u8);
    p.push((v / 0x100) as u8);
    assert(p@ =~= before + bytes16(v));
}

fn push32(p: &mut Vec<u8>, v: u32)
    ensures
        final(p)@ == old(p)@ + bytes32(v),
{
    let ghost before = p@;
    push16(p, (v % 0x1_0000) as u16);
    push16(p, (v / 0x1_0000) as u16);
    assert(p@ =~= before + bytes32(v));
}

fn push_header(leader: u32, kind: PacketType, count: u16, id: u32, sum: u32) -> (p: Vec<u8>)
    ensures
        p@ == header(leader, kind, count, id, sum),
{
    let mut p: Vec<u8> = Vec::new();
    push32(&mut p, leader);
    push16(&mut p, kind.code());
    push16(&mut p, count);
    push32(&mut p, id);
    push32(&mut p, sum);
    proof {
        reveal(header);
    }
    assert(p@ =~= header(leader, kind, count, id, sum));
    p
}

/// Encode a data packet: header, payload and trailer.
pub fn encode(kind: PacketType, id: u32, payload: &[u8]) -> (p: Vec<u8>)
    ensures
        p@ == data_packet(kind, id, payload@),
{
    let count: u16 = (payload.len() % 0x1_0000) as u16;
    let mut p: Vec<u8> = push_header(PACKET_LEADER, kind, count, id, checksum(payload));
    p.extend_from_slice(payload);
    p.push(PACKET_TRAILER);
    assert(p@ =~= data_packet(kind, id, payload@));
    p
}

/// Encode a control packet: a header with the control leader, no payload, no
/// trailer and a zero checksum.
pub fn encode_control(kind: PacketType, id: u32) -> (p: Vec<u8>)
    ensures
        p@ == control_packet(kind, id),
{
    push_header(CONTROL_PACKET_LEADER, kind, 0, id, 0)
}

/// A decoded packet.
#[derive(Clone, PartialEq, Eq, Debug)]
pub struct Packet {
    pub kind: PacketType,
    pub id: u32,
    pub control: bool,
    pub payload: Vec<u8>,
}

/// A decoded packet as a value.
#[verifier::ext_equal]
pub struct PacketValue {
    pub kind: PacketType,
    pub id: u32,
    pub control: bool,
    pub payload: Seq<u8>,
}

impl View for Packet {
    type V = PacketValue;

    open spec fn view(&self) -> PacketValue {
        PacketValue {
            kind: self.kind,
            id: self.id,
            control: self.control,
            payload: self.payload@,
        }
    }
}

/// What pulling one packet from the front of a buffer leaves and gives.
pub open spec fn decoded(buf: Seq<u8>) -> (Seq<u8>, Option<PacketValue>)
    decreases buf.len(),
{
    if buf.len() < HEADER_LEN {
        (buf, None)
    } else {
        let leader = get32(buf, 0);
        let kind = typed(get16(buf, 4) as u16);
        let id = get32(buf, 8) as u32;
        if leader == CONTROL_PACKET_LEADER {
            match kind {
                Some(kind) => (
                    buf.skip(HEADER_LEN as int),
                    Some(PacketValue { kind, id, control: true, payload: Seq::empty() }),
                ),
                None => decoded(buf.skip(HEADER_LEN as int)),
            }
        } else if leader != PACKET_LEADER {
            decoded(buf.skip(1))
        } else {
            let count = get16(buf, 6);
            let end = HEADER_LEN + count;
            if buf.len() <= end {
                (buf, None)
            } else {
                let payload = buf.subrange(HEADER_LEN as int, end);
                let rest = buf.skip(end + 1);
                let good = buf[end] == PACKET_TRAILER && sum32(payload) == get32(buf, 12);
                if good && kind is Some {
                    (rest, Some(PacketValue { kind: kind->Some_0, id, control: false, payload }))
                } else {
                    decoded(rest)
                }
            }
        }
    }
}

/// Incremental decoder: feed received bytes, pull complete packets.
pub struct Decoder {
    pub buf: Vec<u8>,
}

impl Decoder {
    /// A decoder that has received nothing.
    pub fn new() -> (d: Self)
        ensures
            d.buf@ == Seq::<u8>::empty(),
    {
        Decoder { buf: Vec::new() }
    }

    /// Feed received bytes.
    pub fn push(&mut self, bytes: &[u8])
        ensures
            final(self).buf@ == old(self).buf@ + bytes@,
    {
        self.buf.extend_from_slice(bytes);
    }

    fn skip(&mut self, n: usize)
        requires
            n <= old(self).buf@.len(),
        ensures
            final(self).buf@ == old(self).buf@.skip(n as int),
    {
        let rest: Vec<u8> = self.buf.split_off(n);
        self.buf = rest;
    }

    /// Try to pull one complete packet from the front of the buffer. A data
    /// packet with a bad trailer, checksum or type is dropped, and so is a
    /// control packet of an unknown type; on a bad leader one byte is dropped at
    /// a time. None means that more bytes are needed.
    pub fn next_packet(&mut self) -> (r: Option<Packet>)
        ensures
            ({
                let (rest, p) = decoded(old(self).buf@);
                &&& final(self).buf@ == rest
                &&& match r {
                    Some(q) => p == Some(q@),
                    None => p is None,
                }
            }),
    {
        let ghost before = self.buf@;
        loop
            invariant
                decoded(self.buf@) == decoded(before),
                before == old(self).buf@,
            decreases self.buf@.len(),
        {
            let n: usize = self.buf.len();
            if n < HEADER_LEN {
                return None;
            }
            let leader: u32 = match u32le(&self.buf, 0) {
                Some(v) => v,
                None => 0,
            };
            let kind_number: u16 = match u16le(&self.buf, 4) {
                Some(v) => v,
                None => 0,
            };
            let count: usize = match u16le(&self.buf, 6) {
                Some(v) => v as usize,
                None => 0,
            };
            let id: u32 = match u32le(&self.buf, 8) {
                Some(v) => v,
                None => 0,
            };
            let sum: u32 = match u32le(&self.buf, 12) {
                Some(v) => v,
                None => 0,
            };
            let kind: Option<PacketType> = PacketType::from_u16(kind_number);
            if leader == CONTROL_PACKET_LEADER {
                let k: PacketType = match kind {
                    Some(k) => k,
                    None => {
                        self.skip(HEADER_LEN);
                        continue ;
                    },
                };
                self.skip(HEADER_LEN);
                let packet = Packet { kind: k, id, control: true, payload: Vec::new() };
                assert(packet@.payload =~= Seq::<u8>::empty());
                return Some(packet);
            }
            if leader != PACKET_LEADER {
                self.skip(1);
                continue ;
            }
            if n <= HEADER_LEN + count {
                return None;
            }
            let mut payload: Vec<u8> = Vec::new();
            payload.extend_from_slice(slice_subrange(&self.buf, HEADER_LEN, HEADER_LEN + count));
            let trailer: u8 = self.buf[HEADER_LEN + count];
            let good: bool = trailer == PACKET_TRAILER && checksum(&payload) == sum;
            assert(payload@ =~= self.buf@.subrange(HEADER_LEN as int, HEADER_LEN + count));
            self.skip(HEADER_LEN + count + 1);
            match kind {
                Some(k) => {
                    if good {
                        let packet = Packet { kind: k, id, control: false, payload };
                        return Some(packet);
                    }
                },
                None => {},
            }
        }
    }
}

impl Default for Decoder {
    fn default() -> (d: Self)
        ensures
            d.buf@ == Seq::<u8>::empty(),
    {
        Decoder::new()
    }
}

// ---------------------------------------------------------------------------
// Laws
// ---------------------------------------------------------------------------
proof fn lemma_typed(kind: PacketType)
    ensures
        typed(kind.number()) == Some(kind),
{
}

proof fn lemma_header_len(leader: u32, kind: PacketType, count: u16, id: u32, sum: u32)
    ensures
        header(leader, kind, count, id, sum).len() == HEADER_LEN,
{
    reveal(header);
    lemma_bytes32(leader);
    lemma_bytes16(kind.number());
    lemma_bytes16(count);
    lemma_bytes32(id);
    lemma_bytes32(sum);
}

/// The fields of a header read back.
proof fn lemma_header(
    buf: Seq<u8>,
    leader: u32,
    kind: PacketType,
    count: u16,
    id: u32,
    sum: u32,
)
    requires
        buf.len() >= HEADER_LEN,
        buf.take(HEADER_LEN as int) == header(leader, kind, count, id, sum),
    ensures
        get32(buf, 0) == leader,
        get16(buf, 4) == kind.number(),
        get16(buf, 6) == count,
        get32(buf, 8) == id,
        get32(buf, 12) == sum,
{
    reveal(header);
    let h = header(leader, kind, count, id, sum);
    lemma_bytes32(leader);
    lemma_bytes16(kind.number());
    lemma_bytes16(count);
    lemma_bytes32(id);
    lemma_bytes32(sum);
    assert forall|i: int| 0 <= i < HEADER_LEN implies buf[i] == #[trigger] h[i] by {
        assert(buf.take(HEADER_LEN as int)[i] == h[i]);
    }
    assert forall|k: int| 0 <= k < 4 implies buf[0 + k] == #[trigger] bytes32(leader)[k] by {
        assert(h[k] == bytes32(leader)[k]);
    }
    assert forall|k: int| 0 <= k < 2 implies buf[4 + k] == #[trigger] bytes16(kind.number())[k] by {
        assert(h[4 + k] == bytes16(kind.number())[k]);
    }
    assert forall|k: int| 0 <= k < 2 implies buf[6 + k] == #[trigger] bytes16(count)[k] by {
        assert(h[6 + k] == bytes16(count)[k]);
    }
    assert forall|k: int| 0 <= k < 4 implies buf[8 + k] == #[trigger] bytes32(id)[k] by {
        assert(h[8 + k] == bytes32(id)[k]);
    }
    assert forall|k: int| 0 <= k < 4 implies buf[12 + k] == #[trigger] bytes32(sum)[k] by {
        assert(h[12 + k] == bytes32(sum)[k]);
    }
    lemma_get32_in(buf, 0, bytes32(leader));
    lemma_get16_in(buf, 4, bytes16(kind.number()));
    lemma_get16_in(buf, 6, bytes16(count));
    lemma_get32_in(buf, 8, bytes32(id));
    lemma_get32_in(buf, 12, bytes32(sum));
}

/// A header's fields determine its bytes.
proof fn lemma_header_from_fields(buf: Seq<u8>, kind: PacketType)
    requires
        buf.len() >= HEADER_LEN,
        get16(buf, 4) == kind.number(),
    ensures
        buf.take(HEADER_LEN as int) == header(
            get32(buf, 0) as u32,
            kind,
            get16(buf, 6) as u16,
            get32(buf, 8) as u32,
            get32(buf, 12) as u32,
        ),
{
    let h = header(
        get32(buf, 0) as u32,
        kind,
        get16(buf, 6) as u16,
        get32(buf, 8) as u32,
        get32(buf, 12) as u32,
    );
    reveal(header);
    lemma_field32(buf, 0);
    lemma_field16(buf, 4);
    lemma_field16(buf, 6);
    lemma_field32(buf, 8);
    lemma_field32(buf, 12);
    assert(buf.take(HEADER_LEN as int) =~= buf.subrange(0, 4) + buf.subrange(4, 6) + buf.subrange(
        6,
        8,
    ) + buf.subrange(8, 12) + buf.subrange(12, 16));
}

proof fn lemma_field16(buf: Seq<u8>, o: int)
    requires
        0 <= o,
        o + 2 <= buf.len(),
    ensures
        buf.subrange(o, o + 2) == bytes16(get16(buf, o) as u16),
{
    assert(buf.subrange(o, o + 2) =~= bytes16(get16(buf, o) as u16));
}

proof fn lemma_field32(buf: Seq<u8>, o: int)
    requires
        0 <= o,
        o + 4 <= buf.len(),
    ensures
        buf.subrange(o, o + 4) == bytes32(get32(buf, o) as u32),
{
    lemma_field16(buf, o);
    lemma_field16(buf, o + 2);
    let v = get32(buf, o) as u32;
    assert(v % 0x1_0000 == get16(buf, o));
    assert(v / 0x1_0000 == get16(buf, o + 2));
    assert(buf.subrange(o, o + 4) =~= buf.subrange(o, o + 2) + buf.subrange(o + 2, o + 4));
}

/// A data packet at the front of the buffer decodes to what was encoded, whatever
/// follows it, and nothing else is consumed.
pub proof fn data_packets_round_trip(kind: PacketType, id: u32, payload: Seq<u8>, rest: Seq<u8>)
    requires
        payload.len() < 0x1_0000,
    ensures
        decoded(data_packet(kind, id, payload) + rest) == (
            rest,
            Some(PacketValue { kind, id, control: false, payload }),
        ),
{
    let wire = data_packet(kind, id, payload);
    let buf = wire + rest;
    let n = payload.len() as int;
    lemma_header_len(PACKET_LEADER, kind, n as u16, id, sum32(payload));
    let h = header(PACKET_LEADER, kind, n as u16, id, sum32(payload));
    assert(h.len() == HEADER_LEN);
    assert(wire.len() == HEADER_LEN + n + 1);
    assert(buf.take(HEADER_LEN as int) =~= h);
    lemma_header(buf, PACKET_LEADER, kind, n as u16, id, sum32(payload));
    lemma_typed(kind);
    assert(buf.subrange(HEADER_LEN as int, HEADER_LEN + n) =~= payload);
    assert(buf[HEADER_LEN + n] == PACKET_TRAILER);
    assert(buf.skip(HEADER_LEN + n + 1) =~= rest);
}

/// A control packet at the front of the buffer decodes to what was encoded.
pub proof fn control_packets_round_trip(kind: PacketType, id: u32, rest: Seq<u8>)
    ensures
        decoded(control_packet(kind, id) + rest) == (
            rest,
            Some(PacketValue { kind, id, control: true, payload: Seq::empty() }),
        ),
{
    let wire = control_packet(kind, id);
    let buf = wire + rest;
    lemma_header_len(CONTROL_PACKET_LEADER, kind, 0, id, 0);
    assert(wire.len() == HEADER_LEN);
    assert(buf.take(HEADER_LEN as int) =~= wire);
    lemma_header(buf, CONTROL_PACKET_LEADER, kind, 0, id, 0);
    lemma_typed(kind);
    assert(buf.skip(HEADER_LEN as int) =~= rest);
}

/// A packet that has arrived in part is neither returned nor lost: the decoder
/// waits for the rest.
pub proof fn a_partial_packet_waits(kind: PacketType, id: u32, payload: Seq<u8>, n: int)
    requires
        payload.len() < 0x1_0000,
        0 <= n < data_packet(kind, id, payload).len(),
    ensures
        decoded(data_packet(kind, id, payload).take(n)) == (
            data_packet(kind, id, payload).take(n),
            None::<PacketValue>,
        ),
{
    let wire = data_packet(kind, id, payload);
    let len = payload.len() as int;
    let buf = wire.take(n);
    lemma_header_len(PACKET_LEADER, kind, len as u16, id, sum32(payload));
    let h = header(PACKET_LEADER, kind, len as u16, id, sum32(payload));
    assert(h.len() == HEADER_LEN);
    assert(wire.len() == HEADER_LEN + len + 1);
    if n >= HEADER_LEN {
        assert(buf.take(HEADER_LEN as int) =~= h);
        lemma_header(buf, PACKET_LEADER, kind, len as u16, id, sum32(payload));
    }
}

/// No packet starts at position `k` of a buffer.
pub open spec fn no_leader_at(buf: Seq<u8>, k: int) -> bool {
    get32(buf, k) != PACKET_LEADER && get32(buf, k) != CONTROL_PACKET_LEADER
}

/// Bytes in front of a packet that start none are skipped.
pub proof fn leading_garbage_is_skipped(buf: Seq<u8>, j: int)
    requires
        0 <= j,
        j + HEADER_LEN <= buf.len(),
        forall|k: int| 0 <= k < j ==> #[trigger] no_leader_at(buf, k),
    ensures
        decoded(buf) == decoded(buf.skip(j)),
    decreases j,
{
    if j == 0 {
        assert(buf.skip(0) =~= buf);
    } else {
        let next = buf.skip(1);
        assert(no_leader_at(buf, 0));
        assert forall|k: int| 0 <= k < j - 1 implies #[trigger] no_leader_at(next, k) by {
            assert(no_leader_at(buf, k + 1));
            assert(get32(next, k) == get32(buf, k + 1));
        }
        leading_garbage_is_skipped(next, j - 1);
        assert(next.skip(j - 1) =~= buf.skip(j));
    }
}

/// Whatever the buffer holds, a data packet that comes out stood in it as a
/// well-formed encoding, right before the bytes that are left: corrupt packets
/// never decode.
pub proof fn only_well_formed_packets_decode(buf: Seq<u8>)
    ensures
        ({
            let (rest, p) = decoded(buf);
            p matches Some(v) ==> !v.control ==> ends_with(
                buf,
                data_packet(v.kind, v.id, v.payload) + rest,
            )
        }),
    decreases buf.len(),
{
    if buf.len() >= HEADER_LEN {
        let leader = get32(buf, 0);
        let kind = typed(get16(buf, 4) as u16);
        if leader == CONTROL_PACKET_LEADER {
            if kind is None {
                only_well_formed_packets_decode(buf.skip(HEADER_LEN as int));
                lemma_packet_after(buf, HEADER_LEN as int);
            }
        } else if leader != PACKET_LEADER {
            only_well_formed_packets_decode(buf.skip(1));
            lemma_packet_after(buf, 1);
        } else {
            let count = get16(buf, 6);
            let end = HEADER_LEN + count;
            if buf.len() > end {
                let payload = buf.subrange(HEADER_LEN as int, end);
                let rest = buf.skip(end + 1);
                let good = buf[end] == PACKET_TRAILER && sum32(payload) == get32(buf, 12);
                if good && kind is Some {
                    lemma_good_packet(buf, kind->Some_0);
                } else {
                    only_well_formed_packets_decode(rest);
                    lemma_packet_after(buf, end + 1);
                }
            }
        }
    }
}

/// The buffer is too short for the packet it starts with: it has no full header, or
/// not all of a data packet's payload and trailer.
pub open spec fn incomplete(buf: Seq<u8>) -> bool {
    buf.len() < HEADER_LEN || (get32(buf, 0) == PACKET_LEADER && buf.len() <= HEADER_LEN + get16(
        buf,
        6,
    ))
}

/// When nothing comes out, more bytes are needed: all that is left is the start of a
/// packet.
pub proof fn nothing_means_more_bytes_are_needed(buf: Seq<u8>)
    requires
        decoded(buf).1 is None,
    ensures
        incomplete(decoded(buf).0),
    decreases buf.len(),
{
    if buf.len() >= HEADER_LEN {
        let leader = get32(buf, 0);
        if leader == CONTROL_PACKET_LEADER {
            nothing_means_more_bytes_are_needed(buf.skip(HEADER_LEN as int));
        } else if leader != PACKET_LEADER {
            nothing_means_more_bytes_are_needed(buf.skip(1));
        } else {
            let end = HEADER_LEN + get16(buf, 6);
            if buf.len() > end {
                nothing_means_more_bytes_are_needed(buf.skip(end + 1));
            }
        }
    }
}

proof fn lemma_good_packet(buf: Seq<u8>, kind: PacketType)
    requires
        buf.len() > HEADER_LEN + get16(buf, 6),
        get32(buf, 0) == PACKET_LEADER,
        get16(buf, 4) == kind.number(),
        buf[HEADER_LEN + get16(buf, 6)] == PACKET_TRAILER,
        get32(buf, 12) == sum32(buf.subrange(HEADER_LEN as int, HEADER_LEN + get16(buf, 6))),
    ensures
        ({
            let end = HEADER_LEN + get16(buf, 6);
            ends_with(
                buf,
                data_packet(
                    kind,
                    get32(buf, 8) as u32,
                    buf.subrange(HEADER_LEN as int, end),
                ) + buf.skip(end + 1),
            )
        }),
{
    let end = HEADER_LEN + get16(buf, 6);
    let payload = buf.subrange(HEADER_LEN as int, end);
    lemma_header_from_fields(buf, kind);
    let h = buf.take(HEADER_LEN as int);
    assert(data_packet(kind, get32(buf, 8) as u32, payload) == h + payload + seq![PACKET_TRAILER]);
    assert(h + payload + seq![PACKET_TRAILER] + buf.skip(end + 1) =~= buf);
    assert(buf.skip(0) =~= buf);
}

proof fn lemma_packet_after(buf: Seq<u8>, j: int)
    requires
        0 <= j <= buf.len(),
    ensures
        ({
            let (rest, p) = decoded(buf.skip(j));
            p matches Some(v) ==> ends_with(
                buf.skip(j),
                data_packet(v.kind, v.id, v.payload) + rest,
            ) ==> ends_with(buf, data_packet(v.kind, v.id, v.payload) + rest)
        }),
{
    let (rest, p) = decoded(buf.skip(j));
    if let Some(v) = p {
        let tail = data_packet(v.kind, v.id, v.payload) + rest;
        if ends_with(buf.skip(j), tail) {
            let k = choose|k: int|
                0 <= k <= buf.skip(j).len() && #[trigger] buf.skip(j).skip(k) == tail;
            assert(buf.skip(j + k) =~= buf.skip(j).skip(k));
        }
    }
}

/// `tail` is what a buffer ends with.
pub open spec fn ends_with(buf: Seq<u8>, tail: Seq<u8>) -> bool {
    exists|k: int| 0 <= k <= buf.len() && #[trigger] buf.skip(k) == tail
}

/// A packet of data is its leader, its type, its length, its number and the sum of its bytes,
/// then the bytes and a trailer.
pub proof fn a_data_packet_is_laid_out(kind: PacketType, id: u32, payload: Seq<u8>)
    requires
        payload.len() <= 0xFFFF,
    ensures
        ({
            let p = data_packet(kind, id, payload);
            &&& p.len() == 17 + payload.len()
            &&& get32(p, 0) == 0x3030_3030
            &&& get16(p, 4) == kind.number()
            &&& get16(p, 6) == payload.len()
            &&& get32(p, 8) == id
            &&& get32(p, 12) == byte_sum(payload) % 0x1_0000_0000
            &&& p.subrange(16, 16 + payload.len() as int) == payload
            &&& p.last() == 0xAA
        }),
{
    let count = (payload.len() % 0x1_0000) as u16;
    let p = data_packet(kind, id, payload);
    lemma_header_len(PACKET_LEADER, kind, count, id, sum32(payload));
    assert(p.take(16) =~= header(PACKET_LEADER, kind, count, id, sum32(payload)));
    lemma_header(p, PACKET_LEADER, kind, count, id, sum32(payload));
    assert(p.subrange(16, 16 + payload.len() as int) =~= payload);
}

/// A control packet is a header alone, with a leader of its own.
pub proof fn a_control_packet_is_laid_out(kind: PacketType, id: u32)
    ensures
        ({
            let p = control_packet(kind, id);
            &&& p.len() == 16
            &&& get32(p, 0) == 0x6969_6969
            &&& get16(p, 4) == kind.number()
            &&& get16(p, 6) == 0
            &&& get32(p, 8) == id
            &&& get32(p, 12) == 0
        }),
{
    let p = control_packet(kind, id);
    lemma_header_len(CONTROL_PACKET_LEADER, kind, 0, id, 0);
    assert(p.take(16) =~= p);
    lemma_header(p, CONTROL_PACKET_LEADER, kind, 0, id, 0);
}

/// Sums add up: that of two runs of bytes is that of the first and that of the second.
pub proof fn sums_add_up(a: Seq<u8>, b: Seq<u8>, c: u8)
    ensures
        byte_sum(a + b) == byte_sum(a) + byte_sum(b),
        byte_sum(seq![c]) == c,
        byte_sum(Seq::empty()) == 0,
    decreases b.len(),
{
    reveal_with_fuel(byte_sum, 2);
    assert(seq![c].drop_last() =~= Seq::<u8>::empty());
    if b.len() == 0 {
        assert(a + b =~= a);
    } else {
        sums_add_up(a, b.drop_last(), c);
        assert((a + b).drop_last() =~= a + b.drop_last());
        assert((a + b).last() == b.last());
    }
}

/// The types of packets go by their numbers, both ways.
pub proof fn packet_types_go_by_their_numbers(kind: PacketType)
    ensures
        typed(kind.number()) == Some(kind),
        PacketType::StateManipulate.number() == 2,
        PacketType::DebugIo.number() == 3,
        PacketType::Acknowledge.number() == 4,
        PacketType::Resend.number() == 5,
        PacketType::Reset.number() == 6,
        PacketType::StateChange64.number() == 7,
{
}

} // verus!
