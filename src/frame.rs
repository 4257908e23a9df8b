use vstd::prelude::*;

verus! {

/// Size of a packet header: a 3-byte payload length and a 1-byte sequence id.
pub const HEADER_LEN: usize = 4;

/// The unsigned little-endian integer held by `b[i..i + 3]`.
pub open spec fn le24(b: Seq<u8>, i: int) -> int {
    b[i] as int + 256 * (b[i + 1] as int) + 65536 * (b[i + 2] as int)
}

/// How many more bytes `s` must receive before a whole packet can be cut
/// from its front; zero when one can be cut now.
pub open spec fn frame_needed(s: Seq<u8>) -> int {
    if s.len() < HEADER_LEN {
        HEADER_LEN - s.len()
    } else if s.len() < HEADER_LEN + le24(s, 0) {
        HEADER_LEN + le24(s, 0) - s.len()
    } else {
        0
    }
}

/// The bytes on the wire of a packet with sequence id `sequence_id` that
/// carries `payload`.
pub open spec fn packet_bytes(sequence_id: u8, payload: Seq<u8>) -> Seq<u8> {
    seq![
        (payload.len() % 256) as u8,
        ((payload.len() / 256) % 256) as u8,
        ((payload.len() / 65536) % 256) as u8,
        sequence_id,
    ] + payload
}

/// One framed packet. Its payload borrows from the stream it was cut from.
#[derive(Debug, Clone, Copy)]
pub struct Packet<'a> {
    /// Declared payload length; the wire field is 24 bits wide.
    pub payload_length: u32,
    pub sequence_id: u8,
    pub payload: &'a [u8],
}

impl<'a> Packet<'a> {
    /// The payload is exactly as long as the header declares.
    pub open spec fn wf(&self) -> bool {
        &&& self.payload@.len() == self.payload_length as int
        &&& self.payload_length < 0x100_0000
    }

    /// Number of stream bytes the packet occupies, header included.
    pub fn wire_len(&self) -> (r: usize)
        requires
            self.wf(),
        ensures
            r == HEADER_LEN + self.payload_length,
    {
        HEADER_LEN + self.payload.len()
    }
}

/// Outcome of framing: a whole packet, or the number of bytes still missing.
#[derive(Debug, Clone, Copy)]
pub enum Frame<'a> {
    Complete(Packet<'a>),
    Incomplete(usize),
}

/// Cuts the packet at the front of `stream`: a 3-byte little-endian payload
/// length, a 1-byte sequence id, then that many payload bytes. Nothing is
/// taken from `stream`; when it is too short the result says how many more
/// bytes to wait for, and the same call can be made again on a longer buffer.
pub fn frame_packet<'a>(stream: &'a [u8]) -> (r: Frame<'a>)
    ensures
        match r {
            Frame::Incomplete(n) => frame_needed(stream@) > 0 && n == frame_needed(stream@),
            Frame::Complete(p) => {
                &&& frame_needed(stream@) == 0
                &&& p.wf()
                &&& p.payload_length == le24(stream@, 0)
                &&& p.sequence_id == stream@[3]
                &&& p.payload@ == stream@.subrange(
                    HEADER_LEN as int,
                    HEADER_LEN + le24(stream@, 0),
                )
            },
        },
{
    if stream.len() < HEADER_LEN {
        return Frame::Incomplete(HEADER_LEN - stream.len());
    }
    let length: u32 = stream[0] as u32 + 256 * (stream[1] as u32) + 65536 * (stream[2] as u32);
    let sequence_id = stream[3];
    let available: usize = stream.len() - HEADER_LEN;
    if available < length as usize {
        return Frame::Incomplete(length as usize - available);
    }
    let end: usize = HEADER_LEN + length as usize;
    let payload = vstd::slice::slice_subrange(stream, HEADER_LEN, end);
    Frame::Complete(Packet { payload_length: length, sequence_id, payload })
}


/// Bytes that arrive after an incomplete packet only shorten the wait: the
/// header already read stays the same, and the count of missing bytes drops
/// by the number that came, down to zero.
pub proof fn lemma_incomplete_retry(s: Seq<u8>, more: Seq<u8>)
    requires
        frame_needed(s) > 0,
    ensures
        more.len() < frame_needed(s) ==> frame_needed(s + more) > 0,
        s.len() >= HEADER_LEN ==> {
            &&& le24(s + more, 0) == le24(s, 0)
            &&& (s + more)[3] == s[3]
            &&& frame_needed(s + more) == if more.len() >= frame_needed(s) {
                0
            } else {
                frame_needed(s) - more.len()
            }
        },
{
}

} // verus!
