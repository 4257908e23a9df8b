use protocolparser::{frame_packet, Frame};

#[test]
fn two_bytes_are_incomplete() {
    let stream = [0x01u8, 0x00];
    match frame_packet(&stream) {
        Frame::Incomplete(n) => assert_eq!(n, 2),
        Frame::Complete(_) => panic!("framed a packet from two bytes"),
    }
}

#[test]
fn empty_stream_needs_a_header() {
    match frame_packet(&[]) {
        Frame::Incomplete(n) => assert_eq!(n, 4),
        Frame::Complete(_) => panic!("framed a packet from nothing"),
    }
}

#[test]
fn zero_length_packet_frames() {
    let stream = [0x00u8, 0x00, 0x00, 0x05];
    match frame_packet(&stream) {
        Frame::Complete(p) => {
            assert_eq!(p.payload_length, 0);
            assert_eq!(p.sequence_id, 5);
            assert!(p.payload.is_empty());
            assert_eq!(p.wire_len(), 4);
        }
        Frame::Incomplete(_) => panic!("an empty payload is complete"),
    }
}

#[test]
fn short_payload_is_incomplete_then_frames_on_retry() {
    let mut stream = vec![0x03u8, 0x00, 0x00, 0x07, 0xaa, 0xbb];
    match frame_packet(&stream) {
        Frame::Incomplete(n) => assert_eq!(n, 1),
        Frame::Complete(_) => panic!("payload is one byte short"),
    }
    assert_eq!(stream.len(), 6);
    stream.push(0xcc);
    stream.push(0xdd);
    match frame_packet(&stream) {
        Frame::Complete(p) => {
            assert_eq!(p.payload_length, 3);
            assert_eq!(p.sequence_id, 7);
            assert_eq!(p.payload, &[0xaa, 0xbb, 0xcc][..]);
            assert_eq!(p.wire_len(), 7);
        }
        Frame::Incomplete(_) => panic!("the whole packet is there"),
    }
}

#[test]
fn length_is_little_endian_24_bit() {
    let mut stream = vec![0x02u8, 0x01, 0x00, 0x00];
    stream.extend(std::iter::repeat(0x5a).take(0x0102));
    match frame_packet(&stream[..stream.len() - 1]) {
        Frame::Incomplete(n) => assert_eq!(n, 1),
        Frame::Complete(_) => panic!("payload is one byte short"),
    }
    match frame_packet(&stream) {
        Frame::Complete(p) => {
            assert_eq!(p.payload_length, 258);
            assert_eq!(p.payload.len(), 258);
        }
        Frame::Incomplete(_) => panic!("the whole packet is there"),
    }
}

#[test]
fn large_declared_length_reports_missing_bytes() {
    let stream = [0xffu8, 0xff, 0xff, 0x00, 0x01];
    match frame_packet(&stream) {
        Frame::Incomplete(n) => assert_eq!(n, 0xff_ffff - 1),
        Frame::Complete(_) => panic!("payload is missing"),
    }
}
