use bytes::{Bytes, BytesMut};
use nevy::webtransport::session::{
    frame_bidi_stream_header, frame_datagram, frame_uni_stream_header, parse_datagram,
    parse_stream_header, read_varint, varint_len, write_varint, SessionState, WebTransportSession,
    WT_STREAM_BIDI, WT_STREAM_UNI,
};

#[test]
fn test_varint_roundtrip() {
    let test_values = [0u64, 63, 64, 16383, 16384, 1_073_741_823, 1_073_741_824];

    for value in test_values {
        let mut buf = BytesMut::new();
        write_varint(&mut buf, value);
        let mut bytes = buf.freeze();
        let decoded = read_varint(&mut bytes).unwrap();
        assert_eq!(value, decoded, "Failed for value {}", value);
    }
}

#[test]
fn test_frame_bidi_stream() {
    let header = frame_bidi_stream_header(42);
    assert_eq!(header[0], WT_STREAM_BIDI);
}

#[test]
fn test_frame_datagram() {
    let framed = frame_datagram(5, b"hello");
    let (session_id, payload) = parse_datagram(framed).unwrap();
    assert_eq!(session_id, 5);
    assert_eq!(&payload[..], b"hello");
}

#[test]
fn varint_bytes_are_big_endian() {
    let mut buf = BytesMut::new();
    write_varint(&mut buf, 494_878_333);
    assert_eq!(&buf[..], &[0x9d, 0x7f, 0x3e, 0x7d]);
    let mut buf = BytesMut::new();
    write_varint(&mut buf, 151_288_809_941_952_652);
    assert_eq!(&buf[..], &[0xc2, 0x19, 0x7c, 0x5e, 0xff, 0x14, 0xe8, 0x8c]);
    let mut buf = BytesMut::new();
    write_varint(&mut buf, 15293);
    write_varint(&mut buf, 37);
    assert_eq!(&buf[..], &[0x7b, 0xbd, 0x25]);
}

#[test]
fn varint_lengths() {
    for (value, len) in [
        (0, 1),
        (63, 1),
        (64, 2),
        (16383, 2),
        (16384, 4),
        (1_073_741_823, 4),
        (1_073_741_824, 8),
        (u64::MAX, 8),
    ] {
        let mut buf = BytesMut::new();
        write_varint(&mut buf, value);
        assert_eq!(buf.len(), len);
        assert_eq!(varint_len(value), len);
    }
}

#[test]
fn only_62_bits_are_written() {
    let mut buf = BytesMut::new();
    write_varint(&mut buf, (1 << 62) + (1 << 61) + 7);
    let mut bytes = buf.freeze();
    assert_eq!(read_varint(&mut bytes), Some((1 << 61) + 7));
}

#[test]
fn reading_takes_only_the_varint() {
    let mut bytes = Bytes::from(vec![0x40, 0x41, 9, 8]);
    assert_eq!(read_varint(&mut bytes), Some(0x41));
    assert_eq!(&bytes[..], &[9, 8]);
}

#[test]
fn an_incomplete_varint_is_left_alone() {
    let mut bytes = Bytes::from(vec![0x80, 1, 2]);
    assert_eq!(read_varint(&mut bytes), None);
    assert_eq!(&bytes[..], &[0x80, 1, 2]);
    let mut bytes = Bytes::new();
    assert_eq!(read_varint(&mut bytes), None);
}

#[test]
fn stream_headers() {
    assert_eq!(&frame_uni_stream_header(42)[..], &[WT_STREAM_UNI, 42]);
    assert_eq!(&frame_bidi_stream_header(300)[..], &[WT_STREAM_BIDI, 0x41, 0x2c]);
}

#[test]
fn stream_types_are_varints() {
    assert_eq!(
        parse_stream_header(&[0x40, 0x54, 3, 1, 2]),
        Some((0x54, 3, 3))
    );
    assert_eq!(parse_stream_header(&[0x40, 0x54]), None);
    assert_eq!(parse_stream_header(&[0x40]), None);
    assert_eq!(parse_stream_header(&[]), None);
    // The type byte of a framed header is the start of a longer integer.
    assert_eq!(parse_stream_header(&frame_bidi_stream_header(0)), None);
}

#[test]
fn datagrams_without_a_session_id() {
    assert!(parse_datagram(Bytes::new()).is_none());
    assert!(parse_datagram(Bytes::from(vec![0x40])).is_none());
    let (session_id, payload) = parse_datagram(Bytes::from(vec![7])).unwrap();
    assert_eq!(session_id, 7);
    assert!(payload.is_empty());
}

#[test]
fn new_sessions() {
    let session = WebTransportSession::new();
    assert_eq!(session.session_id, 0);
    assert_eq!(session.request_stream_id, None);
    assert_eq!(session.state, SessionState::AwaitingSettings);
    assert_eq!(session, WebTransportSession::default());
}
