use vstd::prelude::*;
use vstd::string::StringSliceAdditionalSpecFns;
use vstd::utf8::valid_utf8;

use crate::frame::{frame_needed, frame_packet, le24, packet_bytes, Frame, HEADER_LEN};

verus! {

/// The only protocol version whose handshake layout is understood.
pub const PROTOCOL_VERSION: u8 = 10;

/// Bytes taken by the fixed-size fields that follow the server version:
/// connection id (4), auth plugin data part 1 (8), filler (1), lower
/// capability flags (2), character set (1), status flags (2) and upper
/// capability flags (2).
pub const FIXED_FIELDS_LEN: usize = 20;

/// Length of the first chunk of auth plugin data.
pub const AUTH_DATA_PART1_LEN: usize = 8;

/// The unsigned little-endian integer held by `b[i..i + 2]`.
pub open spec fn le16(b: Seq<u8>, i: int) -> int {
    b[i] as int + 256 * (b[i + 1] as int)
}

/// The unsigned little-endian integer held by `b[i..i + 4]`.
pub open spec fn le32(b: Seq<u8>, i: int) -> int {
    b[i] as int + 256 * (b[i + 1] as int) + 65536 * (b[i + 2] as int) + 16777216 * (b[i + 3]
        as int)
}

/// The two little-endian bytes of `x`.
pub open spec fn le16_bytes(x: u16) -> Seq<u8> {
    seq![(x % 256) as u8, (x / 256) as u8]
}

/// The four little-endian bytes of `x`.
pub open spec fn le32_bytes(x: u32) -> Seq<u8> {
    seq![(x % 256) as u8, ((x / 256) % 256) as u8, ((x / 65536) % 256) as u8, (x / 16777216) as u8]
}

/// The full 32-bit capability set, rebuilt from its two 16-bit halves.
pub open spec fn capability_flags_of(lower: u16, upper: u16) -> u32 {
    ((upper as u32) << 16u32) | (lower as u32)
}

/// Why a handshake could not be read.
#[derive(Debug, Clone, Copy, PartialEq, Eq, Structural)]
pub enum HandshakeError {
    /// The stream does not yet hold a whole packet; this many more bytes are
    /// needed before trying again.
    Incomplete(usize),
    /// The packet's payload ends inside a fixed-size field.
    TruncatedPayload,
    /// The server version has no NUL terminator, or is not UTF-8.
    InvalidServerVersion,
    /// The first payload byte is a protocol version other than 10.
    UnsupportedProtocolVersion,
}

/// The server's handshake. The server version and the opaque byte fields
/// borrow from the payload they were read from.
#[derive(Debug, Clone, Copy)]
pub struct Handshake<'a> {
    pub protocol_version: u8,
    /// Server version, without its NUL terminator.
    pub server_version: &'a str,
    pub connection_id: u32,
    /// The first 8 bytes of auth plugin data, verbatim.
    pub auth_plugin_data_part1: &'a [u8],
    pub capability_flags_lower: u16,
    pub character_set: u8,
    pub status_flags: u16,
    pub capability_flags_upper: u16,
    /// Everything after the upper capability flags, kept undecoded: auth
    /// plugin data length, reserved bytes, auth plugin data part 2 and auth
    /// plugin name, as far as the server sent them.
    pub trailing: &'a [u8],
}

/// A handshake as plain values; the server version as its UTF-8 bytes.
pub struct HandshakeView {
    pub protocol_version: u8,
    pub server_version: Seq<u8>,
    pub connection_id: u32,
    pub auth_plugin_data_part1: Seq<u8>,
    pub capability_flags_lower: u16,
    pub character_set: u8,
    pub status_flags: u16,
    pub capability_flags_upper: u16,
    pub trailing: Seq<u8>,
}

impl<'a> View for Handshake<'a> {
    type V = HandshakeView;

    open spec fn view(&self) -> HandshakeView {
        HandshakeView {
            protocol_version: self.protocol_version,
            server_version: self.server_version.spec_bytes(),
            connection_id: self.connection_id,
            auth_plugin_data_part1: self.auth_plugin_data_part1@,
            capability_flags_lower: self.capability_flags_lower,
            character_set: self.character_set,
            status_flags: self.status_flags,
            capability_flags_upper: self.capability_flags_upper,
            trailing: self.trailing@,
        }
    }
}

impl HandshakeView {
    /// What a server can send: version 10, a UTF-8 server version without
    /// NUL bytes, and 8 bytes of auth plugin data part 1.
    pub open spec fn wf(&self) -> bool {
        &&& self.protocol_version == PROTOCOL_VERSION
        &&& valid_utf8(self.server_version)
        &&& forall|i: int| 0 <= i < self.server_version.len() ==> self.server_version[i] != 0
        &&& self.auth_plugin_data_part1.len() == AUTH_DATA_PART1_LEN
    }
}

/// `z` is the position of the NUL that ends the server version in `p`.
pub open spec fn is_version_end(p: Seq<u8>, z: int) -> bool {
    &&& 1 <= z < p.len()
    &&& p[z] == 0
    &&& forall|i: int| 1 <= i < z ==> p[i] != 0
}

/// The fields of a payload whose server version ends at `z` and which is
/// long enough for every fixed-size field.
pub open spec fn fields_at(p: Seq<u8>, z: int) -> HandshakeView {
    let f = z + 1;
    HandshakeView {
        protocol_version: p[0],
        server_version: p.subrange(1, z),
        connection_id: le32(p, f) as u32,
        auth_plugin_data_part1: p.subrange(f + 4, f + 12),
        capability_flags_lower: le16(p, f + 13) as u16,
        character_set: p[f + 15],
        status_flags: le16(p, f + 16) as u16,
        capability_flags_upper: le16(p, f + 18) as u16,
        trailing: p.subrange(f + FIXED_FIELDS_LEN, p.len() as int),
    }
}

/// The handshake that payload `p` holds, or why it holds none.
pub open spec fn handshake_of(p: Seq<u8>) -> Result<HandshakeView, HandshakeError> {
    if p.len() == 0 {
        Err(HandshakeError::TruncatedPayload)
    } else if p[0] != PROTOCOL_VERSION {
        Err(HandshakeError::UnsupportedProtocolVersion)
    } else if !(exists|z: int| is_version_end(p, z)) {
        Err(HandshakeError::InvalidServerVersion)
    } else {
        let z = choose|z: int| is_version_end(p, z);
        if !valid_utf8(p.subrange(1, z)) {
            Err(HandshakeError::InvalidServerVersion)
        } else if p.len() < z + 1 + FIXED_FIELDS_LEN {
            Err(HandshakeError::TruncatedPayload)
        } else {
            Ok(fields_at(p, z))
        }
    }
}

/// The payload bytes of handshake `h`, with `filler` in the ignored byte.
pub open spec fn handshake_bytes(h: HandshakeView, filler: u8) -> Seq<u8> {
    seq![h.protocol_version] + h.server_version + seq![0u8] + le32_bytes(h.connection_id)
        + h.auth_plugin_data_part1 + seq![filler] + le16_bytes(h.capability_flags_lower) + seq![
        h.character_set,
    ] + le16_bytes(h.status_flags) + le16_bytes(h.capability_flags_upper) + h.trailing
}

/// Relies on std::str::from_utf8: it succeeds exactly on well-formed UTF-8
/// and then returns a `str` over the very same bytes.
#[verifier::external_body]
fn str_from_utf8<'a>(b: &'a [u8]) -> (r: Option<&'a str>)
    ensures
        r.is_some() <==> valid_utf8(b@),
        r matches Some(s) ==> s.spec_bytes() == b@,
{
    std::str::from_utf8(b).ok()
}

fn read_u16_le(b: &[u8], i: usize) -> (r: u16)
    requires
        i + 2 <= b@.len(),
    ensures
        r as int == le16(b@, i as int),
{
    b[i] as u16 + 256 * (b[i + 1] as u16)
}

fn read_u32_le(b: &[u8], i: usize) -> (r: u32)
    requires
        i + 4 <= b@.len(),
    ensures
        r as int == le32(b@, i as int),
{
    b[i] as u32 + 256 * (b[i + 1] as u32) + 65536 * (b[i + 2] as u32) + 16777216 * (b[i
        + 3] as u32)
}

/// Rebuilds the 32-bit capability set from its lower and upper halves.
pub fn combine_capability_flags(lower: u16, upper: u16) -> (r: u32)
    ensures
        r == capability_flags_of(lower, upper),
        r as int == upper as int * 65536 + lower as int,
{
    let l = lower as u32;
    let u = upper as u32;
    proof {
        assert((u << 16u32) | l == u * 65536 + l) by (bit_vector)
            requires
                l <= 0xffff,
                u <= 0xffff,
        ;
    }
    (u << 16) | l
}

/// Decodes `payload` as a protocol version 10 handshake. The payload is
/// taken as complete, so running out of bytes is `TruncatedPayload`.
pub fn decode_handshake<'a>(payload: &'a [u8]) -> (r: Result<Handshake<'a>, HandshakeError>)
    ensures
        match r {
            Ok(h) => handshake_of(payload@) == Ok::<HandshakeView, HandshakeError>(h@),
            Err(e) => handshake_of(payload@) == Err::<HandshakeView, HandshakeError>(e),
        },
{
    let ghost p = payload@;
    if payload.len() == 0 {
        return Err(HandshakeError::TruncatedPayload);
    }
    if payload[0] != PROTOCOL_VERSION {
        return Err(HandshakeError::UnsupportedProtocolVersion);
    }
    let mut z: usize = 1;
    while z < payload.len() && payload[z] != 0
        invariant
            1 <= z <= payload@.len(),
            forall|i: int| 1 <= i < z ==> payload@[i] != 0,
        decreases payload@.len() - z,
    {
        z = z + 1;
    }
    if z == payload.len() {
        assert(!(exists|k: int| is_version_end(p, k))) by {
            if exists|k: int| is_version_end(p, k) {
                let k = choose|k: int| is_version_end(p, k);
                assert(p[k] != 0);
            }
        }
        return Err(HandshakeError::InvalidServerVersion);
    }
    assert(is_version_end(p, z as int));
    assert forall|k: int| is_version_end(p, k) implies k == z by {
        if k < z {
            assert(p[k] != 0);
        } else if k > z {
            assert(p[z as int] != 0);
        }
    }
    let text = vstd::slice::slice_subrange(payload, 1, z);
    let server_version = match str_from_utf8(text) {
        Some(s) => s,
        None => {
            return Err(HandshakeError::InvalidServerVersion);
        },
    };
    if payload.len() - (z + 1) < FIXED_FIELDS_LEN {
        return Err(HandshakeError::TruncatedPayload);
    }
    let f: usize = z + 1;
    let h = Handshake {
        protocol_version: payload[0],
        server_version,
        connection_id: read_u32_le(payload, f),
        auth_plugin_data_part1: vstd::slice::slice_subrange(payload, f + 4, f + 12),
        capability_flags_lower: read_u16_le(payload, f + 13),
        character_set: payload[f + 15],
        status_flags: read_u16_le(payload, f + 16),
        capability_flags_upper: read_u16_le(payload, f + 18),
        trailing: vstd::slice::slice_subrange(payload, f + FIXED_FIELDS_LEN, payload.len()),
    };
    assert(h@ == fields_at(p, z as int));
    Ok(h)
}

impl<'a> Handshake<'a> {
    /// The full 32-bit capability set: the upper half shifted left by 16
    /// bits, or-ed with the lower half.
    pub fn capability_flags(&self) -> (r: u32)
        ensures
            r == capability_flags_of(self.capability_flags_lower, self.capability_flags_upper),
    {
        combine_capability_flags(self.capability_flags_lower, self.capability_flags_upper)
    }
}

/// The payload of the packet at the front of `s`, when `s` holds all of it.
pub open spec fn packet_payload(s: Seq<u8>) -> Seq<u8> {
    s.subrange(HEADER_LEN as int, HEADER_LEN + le24(s, 0))
}

/// What reading a handshake packet from the front of stream `s` gives.
pub open spec fn parse_outcome(s: Seq<u8>) -> Result<HandshakeView, HandshakeError> {
    if frame_needed(s) > 0 {
        Err(HandshakeError::Incomplete(frame_needed(s) as usize))
    } else {
        handshake_of(packet_payload(s))
    }
}

/// Reads the handshake packet at the front of `*bytes`: frames it, then
/// decodes its payload. On success `*bytes` moves past the packet; on any
/// error, `Incomplete` included, it is left as it was, so the call can be
/// made again once more bytes have arrived.
pub fn parse_handshake<'a>(bytes: &mut &'a [u8]) -> (r: Result<Handshake<'a>, HandshakeError>)
    ensures
        match r {
            Ok(h) => {
                &&& parse_outcome(old(bytes)@) == Ok::<HandshakeView, HandshakeError>(h@)
                &&& final(bytes)@ == old(bytes)@.subrange(
                    HEADER_LEN + le24(old(bytes)@, 0),
                    old(bytes)@.len() as int,
                )
            },
            Err(e) => {
                &&& parse_outcome(old(bytes)@) == Err::<HandshakeView, HandshakeError>(e)
                &&& final(bytes)@ == old(bytes)@
            },
        },
{
    let stream: &'a [u8] = *bytes;
    match frame_packet(stream) {
        Frame::Incomplete(n) => Err(HandshakeError::Incomplete(n)),
        Frame::Complete(packet) => {
            let h = decode_handshake(packet.payload)?;
            let consumed = packet.wire_len();
            *bytes = vstd::slice::slice_subrange(stream, consumed, stream.len());
            Ok(h)
        },
    }
}

proof fn lemma_le16_bytes(x: u16)
    ensures
        le16(le16_bytes(x), 0) == x as int,
{
}

proof fn lemma_le32_bytes(x: u32)
    ensures
        le32(le32_bytes(x), 0) == x as int,
{
}

/// Where each field of `h` stands in its encoding.
proof fn lemma_handshake_layout(h: HandshakeView, filler: u8)
    ensures
        ({
            let p = handshake_bytes(h, filler);
            let z: int = 1 + h.server_version.len() as int;
            let f: int = z + 1;
            &&& p.len() == f + h.auth_plugin_data_part1.len() + 12 + h.trailing.len()
            &&& p[0] == h.protocol_version
            &&& p.subrange(1, z) == h.server_version
            &&& p[z] == 0
            &&& p.subrange(f, f + 4) == le32_bytes(h.connection_id)
            &&& p.subrange(f + 4, f + 4 + h.auth_plugin_data_part1.len())
                == h.auth_plugin_data_part1
            &&& h.auth_plugin_data_part1.len() == 8 ==> {
                &&& p.subrange(f + 13, f + 15) == le16_bytes(h.capability_flags_lower)
                &&& p[f + 15] == h.character_set
                &&& p.subrange(f + 16, f + 18) == le16_bytes(h.status_flags)
                &&& p.subrange(f + 18, f + 20) == le16_bytes(h.capability_flags_upper)
                &&& p.subrange(f + 20, p.len() as int) == h.trailing
            }
        }),
{
    let sv = h.server_version;
    let q0 = seq![h.protocol_version] + sv + seq![0u8];
    let q1 = q0 + le32_bytes(h.connection_id);
    let q2 = q1 + h.auth_plugin_data_part1;
    let q3 = q2 + seq![filler];
    let q4 = q3 + le16_bytes(h.capability_flags_lower);
    let q5 = q4 + seq![h.character_set];
    let q6 = q5 + le16_bytes(h.status_flags);
    let q7 = q6 + le16_bytes(h.capability_flags_upper);
    let p = q7 + h.trailing;
    assert(p == handshake_bytes(h, filler));
    let z: int = 1 + sv.len() as int;
    let f: int = z + 1;
    let a: int = h.auth_plugin_data_part1.len() as int;
    assert(p.subrange(0, q7.len() as int) =~= q7);
    assert(p.subrange(q7.len() as int, p.len() as int) =~= h.trailing);
    assert(q7.subrange(0, q6.len() as int) =~= q6);
    assert(q7.subrange(q6.len() as int, q7.len() as int) =~= le16_bytes(h.capability_flags_upper));
    assert(q6.subrange(0, q5.len() as int) =~= q5);
    assert(q6.subrange(q5.len() as int, q6.len() as int) =~= le16_bytes(h.status_flags));
    assert(q5.subrange(0, q4.len() as int) =~= q4);
    assert(q4.subrange(0, q3.len() as int) =~= q3);
    assert(q4.subrange(q3.len() as int, q4.len() as int) =~= le16_bytes(h.capability_flags_lower));
    assert(q3.subrange(0, q2.len() as int) =~= q2);
    assert(q2.subrange(0, q1.len() as int) =~= q1);
    assert(q2.subrange(q1.len() as int, q2.len() as int) =~= h.auth_plugin_data_part1);
    assert(q1.subrange(0, q0.len() as int) =~= q0);
    assert(q1.subrange(q0.len() as int, q1.len() as int) =~= le32_bytes(h.connection_id));
    assert(q0.subrange(1, z) =~= sv);
    assert(p.subrange(1, z) =~= sv);
    assert(p.subrange(f, f + 4) =~= le32_bytes(h.connection_id));
    assert(p.subrange(f + 4, f + 4 + a) =~= h.auth_plugin_data_part1);
    if a == 8 {
        assert(p.subrange(f + 13, f + 15) =~= le16_bytes(h.capability_flags_lower));
        assert(p.subrange(f + 16, f + 18) =~= le16_bytes(h.status_flags));
        assert(p.subrange(f + 18, f + 20) =~= le16_bytes(h.capability_flags_upper));
        assert(p.subrange(f + 20, p.len() as int) =~= h.trailing);
    }
}

/// Encoding a handshake, wrapping it in a packet and putting any bytes after
/// that packet gives a stream from which the packet is framed back whole,
/// and whose payload decodes to the very same handshake.
pub proof fn lemma_round_trip(h: HandshakeView, filler: u8, sequence_id: u8, rest: Seq<u8>)
    requires
        h.wf(),
        handshake_bytes(h, filler).len() < 0x100_0000,
    ensures
        frame_needed(packet_bytes(sequence_id, handshake_bytes(h, filler)) + rest) == 0,
        le24(packet_bytes(sequence_id, handshake_bytes(h, filler)) + rest, 0) == handshake_bytes(
            h,
            filler,
        ).len(),
        (packet_bytes(sequence_id, handshake_bytes(h, filler)) + rest)[3] == sequence_id,
        packet_payload(packet_bytes(sequence_id, handshake_bytes(h, filler)) + rest)
            == handshake_bytes(h, filler),
        parse_outcome(packet_bytes(sequence_id, handshake_bytes(h, filler)) + rest) == Ok::<
            HandshakeView,
            HandshakeError,
        >(h),
{
    let p = handshake_bytes(h, filler);
    let s = packet_bytes(sequence_id, p) + rest;
    assert(le24(s, 0) == p.len());
    assert(packet_payload(s) =~= p);
    lemma_decode_encoded(h, filler);
}

proof fn lemma_decode_encoded(h: HandshakeView, filler: u8)
    requires
        h.wf(),
    ensures
        handshake_of(handshake_bytes(h, filler)) == Ok::<HandshakeView, HandshakeError>(h),
{
    let p = handshake_bytes(h, filler);
    let sv = h.server_version;
    let z: int = 1 + sv.len() as int;
    let f: int = z + 1;
    lemma_handshake_layout(h, filler);
    assert forall|i: int| 1 <= i < z implies p[i] != 0 by {
        assert(p.subrange(1, z)[i - 1] == sv[i - 1]);
    }
    assert(is_version_end(p, z));
    assert forall|k: int| is_version_end(p, k) implies k == z by {
        if k < z {
            assert(p.subrange(1, z)[k - 1] == sv[k - 1]);
        } else if k > z {
            assert(p[z] == 0);
        }
    }
    lemma_le32_bytes(h.connection_id);
    lemma_le16_bytes(h.capability_flags_lower);
    lemma_le16_bytes(h.status_flags);
    lemma_le16_bytes(h.capability_flags_upper);
    let c = p.subrange(f, f + 4);
    assert(le32(p, f) == le32(c, 0));
    let l = p.subrange(f + 13, f + 15);
    assert(le16(p, f + 13) == le16(l, 0));
    let t = p.subrange(f + 16, f + 18);
    assert(le16(p, f + 16) == le16(t, 0));
    let u = p.subrange(f + 18, f + 20);
    assert(le16(p, f + 18) == le16(u, 0));
    let g = fields_at(p, z);
    assert(g.auth_plugin_data_part1 =~= h.auth_plugin_data_part1);
    assert(g == h);
}

/// Once a whole packet has arrived, a version 10 payload whose server
/// version is ASCII text that runs to the end with no NUL is rejected as an
/// invalid server version, not reported as incomplete.
pub proof fn lemma_unterminated_version(s: Seq<u8>)
    requires
        frame_needed(s) == 0,
        packet_payload(s).len() >= 1,
        packet_payload(s)[0] == PROTOCOL_VERSION,
        forall|i: int|
            1 <= i < packet_payload(s).len() ==> 0 < #[trigger] packet_payload(s)[i] < 128,
    ensures
        parse_outcome(s) == Err::<HandshakeView, HandshakeError>(
            HandshakeError::InvalidServerVersion,
        ),
{
    let p = packet_payload(s);
    if exists|z: int| is_version_end(p, z) {
        let z = choose|z: int| is_version_end(p, z);
        assert(p[z] != 0);
    }
}

} // verus!
