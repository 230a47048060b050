use bytes::Bytes;
use nevy::webtransport::h3::{
    connect_parts, encode_connect_request, encode_connect_response, parse_connect_request,
    parse_connect_response, response_status, H3ControlStream, H3Error, H3Settings,
    H3_STREAM_CONTROL,
};
use nevy::webtransport::header::HeaderField;

fn field(name: &str, value: &[u8]) -> HeaderField {
    HeaderField {
        name: name.as_bytes().to_vec(),
        value: value.to_vec(),
    }
}

/// A HEADERS frame made by the packer itself.
fn headers_frame(fields: &[(&str, &str)]) -> Vec<u8> {
    let fields: Vec<_> = fields
        .iter()
        .map(|(name, value)| qpack::HeaderField::new(*name, *value))
        .collect();
    let mut block = Vec::new();
    qpack::encode_stateless(&mut block, &fields).unwrap();
    assert!(block.len() < 64);
    let mut frame = vec![1, block.len() as u8];
    frame.extend(block);
    frame
}

#[test]
fn test_settings_frame() {
    let frame = H3ControlStream::create_settings_frame();
    // Should start with control stream type byte
    assert_eq!(frame[0], H3_STREAM_CONTROL);
}

#[test]
fn test_settings_roundtrip() {
    let frame = H3ControlStream::create_settings_frame();

    let mut control = H3ControlStream::new();
    let result = control.process_received(frame);
    assert!(result.is_ok());
    assert!(result.unwrap());
    assert!(control.settings_received);
    assert!(control.peer_settings.enable_webtransport);
    assert!(control.peer_settings.enable_datagrams);
    assert!(control.peer_settings.enable_connect_protocol);
}

#[test]
fn settings_frame_bytes() {
    assert_eq!(
        &H3ControlStream::create_settings_frame()[..],
        &[0, 4, 13, 1, 0, 7, 0, 8, 1, 0x33, 1, 0xab, 0x60, 0x37, 0x42, 1][..]
    );
}

#[test]
fn settings_come_in_pieces() {
    let frame = H3ControlStream::create_settings_frame();
    for len in 1..frame.len() {
        let mut control = H3ControlStream::new();
        assert_eq!(control.process_received(frame.slice(..len)), Ok(false));
        assert!(!control.settings_received);
        assert_eq!(control.process_received(frame.slice(len..)), Ok(true));
        assert!(control.peer_settings.supports_webtransport());
    }
}

#[test]
fn malformed_settings() {
    let mut control = H3ControlStream::new();
    // The second setting has no value. The first one counts.
    let result = control.process_received(Bytes::from(vec![0, 4, 3, 0x33, 1, 8]));
    assert_eq!(result, Err(H3Error::FrameError));
    assert!(!control.settings_received);
    assert!(control.peer_settings.enable_datagrams);
    assert!(!control.peer_settings.enable_connect_protocol);
}

#[test]
fn unknown_frames_and_settings_are_skipped() {
    let mut control = H3ControlStream::default();
    assert_eq!(
        control.process_received(Bytes::from(vec![0, 0x21, 2, 9, 9])),
        Ok(false)
    );
    assert_eq!(
        control.process_received(Bytes::from(vec![4, 4, 0x21, 5, 7, 3])),
        Ok(true)
    );
    assert_eq!(
        control.peer_settings,
        H3Settings {
            qpack_blocked_streams: 3,
            ..H3Settings::default()
        }
    );
    assert!(!control.peer_settings.supports_webtransport());
    // Each call takes one frame, and the last value of a setting counts.
    assert_eq!(
        control.process_received(Bytes::from(vec![4, 2, 7, 4, 4, 2, 7, 5])),
        Ok(true)
    );
    assert_eq!(control.peer_settings.qpack_blocked_streams, 4);
    assert_eq!(control.process_received(Bytes::new()), Ok(true));
    assert_eq!(control.peer_settings.qpack_blocked_streams, 5);
}

#[test]
fn support_needs_datagrams() {
    let settings = H3Settings {
        enable_webtransport: true,
        ..H3Settings::default()
    };
    assert!(!settings.supports_webtransport());
    let settings = H3Settings {
        enable_datagrams: true,
        ..settings
    };
    assert!(settings.supports_webtransport());
}

#[test]
fn requests_are_read_as_written() {
    for (authority, path) in [
        ("127.0.0.1:443", "/game"),
        ("", ""),
        ("h\u{e4}user.example", "/\u{1f30d}?x=1"),
    ] {
        let frame = encode_connect_request(authority, path).unwrap();
        assert_eq!(frame[0], 1);
        let (read_authority, read_path, protocol) = parse_connect_request(&frame).unwrap();
        assert_eq!(read_authority, authority);
        assert_eq!(read_path, path);
        assert_eq!(protocol, "webtransport");
    }
}

#[test]
fn long_requests_are_refused() {
    let path = "x".repeat(16384);
    let frame = encode_connect_request("", &path).unwrap();
    assert_eq!(parse_connect_request(&frame), Err(H3Error::QpackError));
}

#[test]
fn what_follows_a_request_is_ignored() {
    let mut frame = encode_connect_request("a", "/").unwrap().to_vec();
    frame.extend([1, 2, 3]);
    assert_eq!(
        parse_connect_request(&frame),
        Ok((
            "a".to_string(),
            "/".to_string(),
            "webtransport".to_string()
        ))
    );
}

#[test]
fn what_follows_a_frame_may_be_long() {
    let request = encode_connect_request("a", "/").unwrap();
    let mut data = vec![0; 0x2000_0000];
    data[..request.len()].copy_from_slice(&request);
    assert!(parse_connect_request(&data).is_ok());
    let response = encode_connect_response().unwrap();
    data[..response.len()].copy_from_slice(&response);
    assert_eq!(parse_connect_response(&data), Ok(200));
}

#[test]
fn texts_that_the_coder_does_not_take() {
    let long = "x".repeat(0x800_0001);
    assert_eq!(encode_connect_request("a", &long), Err(H3Error::QpackError));
    assert_eq!(encode_connect_request(&long, "/"), Err(H3Error::QpackError));
}

#[test]
fn requests_that_are_not_frames() {
    assert_eq!(parse_connect_request(&[]), Err(H3Error::FrameError));
    assert_eq!(parse_connect_request(&[1]), Err(H3Error::FrameError));
    assert_eq!(parse_connect_request(&[1, 5, 0, 0]), Err(H3Error::FrameError));
    assert_eq!(
        parse_connect_request(&[4, 0]),
        Err(H3Error::InvalidConnectResponse)
    );
    assert_eq!(parse_connect_request(&[4]), Err(H3Error::InvalidConnectResponse));
    assert_eq!(parse_connect_request(&[1, 1, 0]), Err(H3Error::QpackError));
}

#[test]
fn requests_with_missing_fields() {
    let whole = [
        (":method", "CONNECT"),
        (":protocol", "webtransport"),
        (":authority", "a"),
        (":path", "/p"),
    ];
    assert!(parse_connect_request(&headers_frame(&whole)).is_ok());
    for left_out in 0..whole.len() {
        let mut fields = whole.to_vec();
        fields.remove(left_out);
        assert_eq!(
            parse_connect_request(&headers_frame(&fields)),
            Err(H3Error::InvalidConnectResponse)
        );
    }
    let mut fields = whole.to_vec();
    fields[0].1 = "GET";
    assert_eq!(
        parse_connect_request(&headers_frame(&fields)),
        Err(H3Error::InvalidConnectResponse)
    );
}

#[test]
fn the_last_field_of_a_name_counts() {
    let fields = vec![
        field(":path", b"/first"),
        field(":method", b"GET"),
        field(":method", b"CONNECT"),
        field(":protocol", b"webtransport"),
        field(":authority", b"a"),
        field(":path", b"/last"),
        field("other", b"x"),
    ];
    let (authority, path, protocol) = connect_parts(&fields).unwrap();
    assert_eq!(
        (authority.as_str(), path.as_str(), protocol.as_str()),
        ("a", "/last", "webtransport")
    );
}

#[test]
fn values_must_be_texts() {
    let fields = vec![
        field(":method", b"CONNECT"),
        field(":protocol", b"webtransport"),
        field(":authority", b"a"),
        field(":path", b"/"),
        field("other", &[0xff]),
    ];
    assert_eq!(connect_parts(&fields), Err(H3Error::InvalidConnectResponse));
}

#[test]
fn status_codes() {
    let status = |text: &[u8]| response_status(&vec![field(":status", text)]);
    assert_eq!(status(b"200"), Ok(200));
    assert_eq!(status(b"+404"), Ok(404));
    assert_eq!(status(b"00065535"), Ok(65535));
    assert_eq!(status(b"65536"), Err(H3Error::InvalidConnectResponse));
    assert_eq!(
        status(b"99999999999999999999"),
        Err(H3Error::InvalidConnectResponse)
    );
    for text in [&b""[..], b"+", b"-1", b"2x", b" 200", b"++2", &[0xff]] {
        assert_eq!(status(text), Err(H3Error::InvalidConnectResponse));
    }
    assert_eq!(
        response_status(&vec![]),
        Err(H3Error::InvalidConnectResponse)
    );
    assert_eq!(
        response_status(&vec![
            field("x", b"1"),
            field(":status", b"403"),
            field(":status", b"200")
        ]),
        Ok(403)
    );
}

#[test]
fn responses_are_frames_with_a_status() {
    let frame = encode_connect_response().unwrap();
    assert_eq!(frame[..], headers_frame(&[(":status", "200")])[..]);
}

#[test]
fn responses_are_read_as_written() {
    let mut frame = encode_connect_response().unwrap().to_vec();
    assert_eq!(parse_connect_response(&frame), Ok(200));
    frame.extend([1, 2, 3]);
    assert_eq!(parse_connect_response(&frame), Ok(200));
    let refusal = headers_frame(&[(":status", "404")]);
    assert_eq!(parse_connect_response(&refusal), Ok(404));
}

#[test]
fn long_responses_are_refused() {
    let field = |len: usize| {
        let value = "x".repeat(len);
        let fields = [
            qpack::HeaderField::new(":status", "200"),
            qpack::HeaderField::new("y", value.as_str()),
        ];
        let mut block = Vec::new();
        qpack::encode_stateless(&mut block, &fields).unwrap();
        assert!(block.len() >= 64 && block.len() < 16384);
        let mut frame = vec![1, 0x40 | (block.len() >> 8) as u8, block.len() as u8];
        frame.extend(block);
        frame
    };
    // The status takes 42 bytes, and the other field 33 more than its value.
    assert_eq!(parse_connect_response(&field(16384 - 75)), Ok(200));
    assert_eq!(
        parse_connect_response(&field(16384 - 74)),
        Err(H3Error::QpackError)
    );
}

#[test]
fn responses_with_rare_symbols() {
    // They take up to 30 bits each, so that the block is longer than the field is large.
    let rare: String = "\u{1}\u{2}\u{3}\u{4}\u{5}".repeat(40);
    let fields = [(":status", "404"), ("x", rare.as_str())];
    let packed: Vec<_> = fields
        .iter()
        .map(|(name, value)| qpack::HeaderField::new(*name, *value))
        .collect();
    let mut block = Vec::new();
    qpack::encode_stateless(&mut block, &packed).unwrap();
    assert!(block.len() >= 64 && block.len() < 16384);
    let mut frame = vec![1, 0x40 | (block.len() >> 8) as u8, block.len() as u8];
    frame.extend(block);
    assert_eq!(parse_connect_response(&frame), Ok(404));
}

#[test]
fn responses_that_are_not_frames() {
    assert_eq!(parse_connect_response(&[]), Err(H3Error::FrameError));
    assert_eq!(parse_connect_response(&[1, 9, 0]), Err(H3Error::FrameError));
    assert_eq!(
        parse_connect_response(&[0, 0]),
        Err(H3Error::InvalidConnectResponse)
    );
    assert_eq!(parse_connect_response(&[1, 0]), Err(H3Error::QpackError));
    // An empty block has no status.
    assert_eq!(
        parse_connect_response(&[1, 2, 0, 0]),
        Err(H3Error::InvalidConnectResponse)
    );
}
