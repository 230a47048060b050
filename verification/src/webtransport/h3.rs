//! The HTTP/3 layer below WebTransport: the control stream with its SETTINGS, and the CONNECT
//! request and response that establish a session.
use super::header::{
    decode_fields, encode_fields, field_views, fields_size, first_value, last_value,
    lemma_utf8_injective, qpack_block, qpack_fields, same_bytes, text_field, utf8_text,
    values_by_name, FieldView, HeaderField, MAX_BLOCK_LEN, MAX_TEXT_LEN,
};
use super::session::{
    big_endian, big_endian_value, peek_varint, quic_varint, quic_varint_at_start, quic_varint_in_part,
    quic_varint_len, quic_varint_round_trip, write_varint,
};
use crate::chunk::{as_slice, buffered, chunk, consume, held, put_u8};
use bytes::{Bytes, BytesMut};
use vstd::prelude::*;
use vstd::slice::{slice_subrange, slice_to_vec};
use vstd::utf8::{decode_utf8, encode_utf8, valid_utf8};

verus! {

/// Type of a frame that holds header fields.
pub const H3_FRAME_HEADERS: u64 = 0x01;

/// Type of a frame that holds settings.
pub const H3_FRAME_SETTINGS: u64 = 0x04;

/// First byte of a control stream.
pub const H3_STREAM_CONTROL: u8 = 0x00;

pub const H3_SETTINGS_QPACK_MAX_TABLE_CAPACITY: u64 = 0x01;

pub const H3_SETTINGS_QPACK_BLOCKED_STREAMS: u64 = 0x07;

pub const H3_SETTINGS_ENABLE_CONNECT_PROTOCOL: u64 = 0x08;

pub const H3_SETTINGS_H3_DATAGRAM: u64 = 0x33;

pub const H3_SETTINGS_ENABLE_WEBTRANSPORT: u64 = 0x2b603742;

/// The largest size of the header fields of a CONNECT request or response.
pub const MAX_FIELDS_SIZE: u64 = 16384;

/// Reasons why a frame is refused.
#[derive(Debug, Clone, Copy, PartialEq, Eq, Structural)]
pub enum H3Error {
    /// A frame could not be parsed.
    FrameError,
    /// Not a valid CONNECT request or response.
    InvalidConnectResponse,
    /// QPACK encoding or decoding failed.
    QpackError,
}

/// HTTP/3 settings of the peer.
#[derive(Debug, Clone, Copy, PartialEq, Eq, Structural)]
pub struct H3Settings {
    pub qpack_max_table_capacity: u64,
    pub qpack_blocked_streams: u64,
    pub enable_connect_protocol: bool,
    pub enable_datagrams: bool,
    pub enable_webtransport: bool,
}

/// The settings of a peer that has sent none.
pub open spec fn no_settings() -> H3Settings {
    H3Settings {
        qpack_max_table_capacity: 0,
        qpack_blocked_streams: 0,
        enable_connect_protocol: false,
        enable_datagrams: false,
        enable_webtransport: false,
    }
}

impl Default for H3Settings {
    /// The settings of a peer that has sent none.
    fn default() -> (settings: Self)
        ensures
            settings == no_settings(),
    {
        H3Settings {
            qpack_max_table_capacity: 0,
            qpack_blocked_streams: 0,
            enable_connect_protocol: false,
            enable_datagrams: false,
            enable_webtransport: false,
        }
    }
}

impl H3Settings {
    /// Whether the peer supports WebTransport.
    ///
    /// `enable_connect_protocol` is not asked for: browsers leave it out, and send only
    /// `enable_webtransport` and `enable_datagrams`.
    pub fn supports_webtransport(&self) -> (supported: bool)
        ensures
            supported == (self.enable_webtransport && self.enable_datagrams),
    {
        self.enable_webtransport && self.enable_datagrams
    }
}

/// The receiving side of a control stream.
#[derive(Debug)]
pub struct H3ControlStream {
    /// Whether the SETTINGS of the peer have been received.
    pub settings_received: bool,
    /// The settings of the peer.
    pub peer_settings: H3Settings,
    /// Data that has not been parsed.
    pub recv_buffer: BytesMut,
}

/// What a control stream has received.
pub struct ControlView {
    pub settings_received: bool,
    pub peer_settings: H3Settings,
    pub unparsed: Seq<u8>,
}

impl View for H3ControlStream {
    type V = ControlView;

    open spec fn view(&self) -> ControlView {
        ControlView {
            settings_received: self.settings_received,
            peer_settings: self.peer_settings,
            unparsed: buffered(self.recv_buffer),
        }
    }
}

/// A control stream that has received nothing.
pub open spec fn new_control() -> ControlView {
    ControlView {
        settings_received: false,
        peer_settings: no_settings(),
        unparsed: Seq::empty(),
    }
}

/// Settings after one of them has been set. Unknown ones are ignored.
pub open spec fn with_setting(settings: H3Settings, id: nat, value: nat) -> H3Settings {
    if id == H3_SETTINGS_QPACK_MAX_TABLE_CAPACITY {
        H3Settings { qpack_max_table_capacity: value as u64, ..settings }
    } else if id == H3_SETTINGS_QPACK_BLOCKED_STREAMS {
        H3Settings { qpack_blocked_streams: value as u64, ..settings }
    } else if id == H3_SETTINGS_ENABLE_CONNECT_PROTOCOL {
        H3Settings { enable_connect_protocol: value != 0, ..settings }
    } else if id == H3_SETTINGS_H3_DATAGRAM {
        H3Settings { enable_datagrams: value != 0, ..settings }
    } else if id == H3_SETTINGS_ENABLE_WEBTRANSPORT {
        H3Settings { enable_webtransport: value != 0, ..settings }
    } else {
        settings
    }
}

/// Settings after the payload of a SETTINGS frame, and whether the payload is well formed: a
/// sequence of pairs of an id and a value. The pairs before a malformed one count.
pub open spec fn with_settings(settings: H3Settings, payload: Seq<u8>) -> (H3Settings, bool)
    decreases payload.len(),
{
    if payload.len() == 0 {
        (settings, true)
    } else {
        match quic_varint_at_start(payload) {
            None => (settings, false),
            Some((id, first)) => match quic_varint_at_start(payload.skip(first as int)) {
                None => (settings, false),
                Some((value, second)) => if 0 < first + second <= payload.len() {
                    with_settings(
                        with_setting(settings, id, value),
                        payload.skip((first + second) as int),
                    )
                } else {
                    (settings, false)
                },
            },
        }
    }
}

/// The frame at the start of `data`, if all of it is there: its type, its payload, and what
/// follows.
pub open spec fn frame_at_start(data: Seq<u8>) -> Option<(nat, Seq<u8>, Seq<u8>)> {
    match quic_varint_at_start(data) {
        None => None,
        Some((frame_type, first)) => match quic_varint_at_start(data.skip(first as int)) {
            None => None,
            Some((len, second)) => {
                let body = data.skip((first + second) as int);
                if body.len() < len {
                    None
                } else {
                    Some((frame_type, body.take(len as int), body.skip(len as int)))
                }
            },
        },
    }
}

/// The effect of data received on the control stream, and the answer. A leading type byte is
/// dropped as long as no settings have been received, then at most one frame is taken.
pub open spec fn control_received(control: ControlView, data: Seq<u8>) -> (
    ControlView,
    Result<bool, H3Error>,
) {
    let all = control.unparsed + data;
    let rest = if !control.settings_received && all.len() > 0 && all[0] == H3_STREAM_CONTROL {
        all.skip(1)
    } else {
        all
    };
    match frame_at_start(rest) {
        None => (ControlView { unparsed: rest, ..control }, Ok(false)),
        Some((frame_type, payload, after)) => if frame_type == H3_FRAME_SETTINGS {
            let (peer_settings, valid) = with_settings(control.peer_settings, payload);
            if valid {
                (ControlView { settings_received: true, peer_settings, unparsed: after }, Ok(true))
            } else {
                (
                    ControlView { peer_settings, unparsed: after, ..control },
                    Err(H3Error::FrameError),
                )
            }
        } else {
            (ControlView { unparsed: after, ..control }, Ok(false))
        },
    }
}

/// A frame of a type that holds a payload.
pub open spec fn frame(frame_type: u64, payload: Seq<u8>) -> Seq<u8> {
    quic_varint(frame_type) + quic_varint(payload.len() as u64) + payload
}

/// A setting in the payload of a SETTINGS frame.
pub open spec fn setting(id: u64, value: u64) -> Seq<u8> {
    quic_varint(id) + quic_varint(value)
}

/// The settings that are sent: no dynamic table, no blocked streams, and all that WebTransport
/// needs.
pub open spec fn sent_settings() -> Seq<u8> {
    setting(H3_SETTINGS_QPACK_MAX_TABLE_CAPACITY, 0) + setting(H3_SETTINGS_QPACK_BLOCKED_STREAMS, 0)
        + setting(H3_SETTINGS_ENABLE_CONNECT_PROTOCOL, 1) + setting(H3_SETTINGS_H3_DATAGRAM, 1)
        + setting(H3_SETTINGS_ENABLE_WEBTRANSPORT, 1)
}

/// What the sending side of a control stream starts with.
pub open spec fn control_preface() -> Seq<u8> {
    seq![H3_STREAM_CONTROL] + frame(H3_FRAME_SETTINGS, sent_settings())
}

/// Appends a frame.
fn put_frame(buf: &mut BytesMut, frame_type: u64, payload: &[u8])
    ensures
        buffered(*final(buf)) == buffered(*old(buf)) + frame(frame_type, payload@),
{
    write_varint(buf, frame_type);
    write_varint(buf, payload.len() as u64);
    buf.extend_from_slice(payload);
    assert(buffered(*buf) =~= buffered(*old(buf)) + frame(frame_type, payload@));
}

/// Appends a setting.
fn put_setting(buf: &mut BytesMut, id: u64, value: u64)
    ensures
        buffered(*final(buf)) == buffered(*old(buf)) + setting(id, value),
{
    write_varint(buf, id);
    write_varint(buf, value);
    assert(buffered(*buf) =~= buffered(*old(buf)) + setting(id, value));
}

/// The frame at the start of a slice: its type, and where its payload starts and ends.
fn split_frame(data: &[u8]) -> (frame: Option<(u64, usize, usize)>)
    ensures
        match frame {
            None => frame_at_start(data@) is None,
            Some((frame_type, start, end)) => start <= end <= data@.len() && frame_at_start(data@)
                == Some(
                (
                    frame_type as nat,
                    data@.subrange(start as int, end as int),
                    data@.skip(end as int),
                ),
            ),
        },
{
    let (frame_type, first) = match peek_varint(data) {
        None => {
            return None;
        },
        Some(varint) => varint,
    };
    let rest = slice_subrange(data, first, data.len());
    assert(rest@ =~= data@.skip(first as int));
    let (len, second) = match peek_varint(rest) {
        None => {
            return None;
        },
        Some(varint) => varint,
    };
    let start: usize = first + second;
    let ghost body = data@.skip(start as int);
    if ((data.len() - start) as u64) < len {
        return None;
    }
    let end: usize = start + len as usize;
    assert(body.take(len as int) =~= data@.subrange(start as int, end as int));
    assert(body.skip(len as int) =~= data@.skip(end as int));
    Some((frame_type, start, end))
}

impl H3ControlStream {
    /// Creates the state of a control stream.
    pub fn new() -> (control: Self)
        ensures
            control@ == new_control(),
    {
        H3ControlStream {
            settings_received: false,
            peer_settings: H3Settings::default(),
            recv_buffer: BytesMut::new(),
        }
    }

    /// Creates the type byte of the control stream and the SETTINGS frame that follows it.
    ///
    /// They are written to a new unidirectional stream.
    pub fn create_settings_frame() -> (data: Bytes)
        ensures
            chunk(data) == control_preface(),
    {
        let mut payload = BytesMut::new();
        put_setting(&mut payload, H3_SETTINGS_QPACK_MAX_TABLE_CAPACITY, 0);
        put_setting(&mut payload, H3_SETTINGS_QPACK_BLOCKED_STREAMS, 0);
        put_setting(&mut payload, H3_SETTINGS_ENABLE_CONNECT_PROTOCOL, 1);
        put_setting(&mut payload, H3_SETTINGS_H3_DATAGRAM, 1);
        put_setting(&mut payload, H3_SETTINGS_ENABLE_WEBTRANSPORT, 1);
        assert(buffered(payload) =~= sent_settings());

        let mut buf = BytesMut::new();
        put_u8(&mut buf, H3_STREAM_CONTROL);
        put_frame(&mut buf, H3_FRAME_SETTINGS, held(&payload));
        assert(buffered(buf) =~= control_preface());
        buf.freeze()
    }

    /// Processes data received on the control stream.
    ///
    /// Returns `Ok(true)` if SETTINGS were received.
    pub fn process_received(&mut self, data: Bytes) -> (result: Result<bool, H3Error>)
        ensures
            (final(self)@, result) == control_received(old(self)@, chunk(data)),
    {
        self.recv_buffer.extend_from_slice(as_slice(&data));

        if !self.settings_received && self.recv_buffer.len() > 0 {
            if held(&self.recv_buffer)[0] == H3_STREAM_CONTROL {
                consume(&mut self.recv_buffer, 1);
            }
        }
        let ghost rest = buffered(self.recv_buffer);
        let (frame_type, start, end) = match split_frame(held(&self.recv_buffer)) {
            None => {
                return Ok(false);
            },
            Some(frame) => frame,
        };
        let payload = slice_to_vec(slice_subrange(held(&self.recv_buffer), start, end));
        consume(&mut self.recv_buffer, end);
        if frame_type == H3_FRAME_SETTINGS {
            if self.parse_settings(payload.as_slice()) {
                self.settings_received = true;
                Ok(true)
            } else {
                Err(H3Error::FrameError)
            }
        } else {
            Ok(false)
        }
    }

    /// Takes over the settings in the payload of a SETTINGS frame, up to the first malformed one.
    /// Returns whether there was none.
    fn parse_settings(&mut self, data: &[u8]) -> (valid: bool)
        ensures
            (final(self).peer_settings, valid) == with_settings(old(self).peer_settings, data@),
            final(self).settings_received == old(self).settings_received,
            final(self).recv_buffer == old(self).recv_buffer,
    {
        let mut position: usize = 0;
        assert(data@.skip(0) =~= data@);
        while position < data.len()
            invariant
                position <= data@.len(),
                with_settings(self.peer_settings, data@.skip(position as int)) == with_settings(
                    old(self).peer_settings,
                    data@,
                ),
                self.settings_received == old(self).settings_received,
                self.recv_buffer == old(self).recv_buffer,
            decreases data@.len() - position,
        {
            let rest = slice_subrange(data, position, data.len());
            assert(rest@ =~= data@.skip(position as int));
            let (id, first) = match peek_varint(rest) {
                None => {
                    return false;
                },
                Some(varint) => varint,
            };
            let after_id = slice_subrange(rest, first, rest.len());
            assert(after_id@ =~= rest@.skip(first as int));
            let (value, second) = match peek_varint(after_id) {
                None => {
                    return false;
                },
                Some(varint) => varint,
            };
            if id == H3_SETTINGS_QPACK_MAX_TABLE_CAPACITY {
                self.peer_settings.qpack_max_table_capacity = value;
            } else if id == H3_SETTINGS_QPACK_BLOCKED_STREAMS {
                self.peer_settings.qpack_blocked_streams = value;
            } else if id == H3_SETTINGS_ENABLE_CONNECT_PROTOCOL {
                self.peer_settings.enable_connect_protocol = value != 0;
            } else if id == H3_SETTINGS_H3_DATAGRAM {
                self.peer_settings.enable_datagrams = value != 0;
            } else if id == H3_SETTINGS_ENABLE_WEBTRANSPORT {
                self.peer_settings.enable_webtransport = value != 0;
            }
            position = position + first + second;
            assert(rest@.skip(first + second) =~= data@.skip(position as int));
        }
        true
    }
}

impl Default for H3ControlStream {
    /// Creates the state of a control stream.
    fn default() -> (control: Self)
        ensures
            control@ == new_control(),
    {
        H3ControlStream::new()
    }
}

/// The header fields of a CONNECT request for WebTransport.
pub open spec fn request_fields(authority: Seq<char>, path: Seq<char>) -> Seq<FieldView> {
    seq![
        (encode_utf8(":method"@), encode_utf8("CONNECT"@)),
        (encode_utf8(":protocol"@), encode_utf8("webtransport"@)),
        (encode_utf8(":scheme"@), encode_utf8("https"@)),
        (encode_utf8(":authority"@), encode_utf8(authority)),
        (encode_utf8(":path"@), encode_utf8(path)),
    ]
}

/// The header fields of a successful CONNECT response.
pub open spec fn response_fields() -> Seq<FieldView> {
    seq![(encode_utf8(":status"@), encode_utf8("200"@))]
}

/// The HEADERS frame for some fields, or the error of the coder.
pub open spec fn headers_frame(fields: Seq<FieldView>) -> Result<Seq<u8>, H3Error> {
    match qpack_block(fields) {
        Some(block) => Ok(frame(H3_FRAME_HEADERS, block)),
        None => Err(H3Error::QpackError),
    }
}

/// The bytes of a result.
pub open spec fn chunk_result(result: Result<Bytes, H3Error>) -> Result<Seq<u8>, H3Error> {
    match result {
        Ok(bytes) => Ok(chunk(bytes)),
        Err(error) => Err(error),
    }
}

/// Packs fields into a HEADERS frame. Unpacking the block in the frame gives back the fields.
fn encode_headers(fields: &Vec<HeaderField>) -> (data: Result<Bytes, H3Error>)
    requires
        forall|i: int|
            0 <= i < fields@.len() ==> #[trigger] fields@[i].name@.len() <= MAX_TEXT_LEN
                && fields@[i].value@.len() <= MAX_TEXT_LEN,
    ensures
        chunk_result(data) == headers_frame(field_views(fields@)),
        qpack_block(field_views(fields@)) matches Some(block) ==> forall|max_size: u64|
            fields_size(field_views(fields@)) <= max_size ==> #[trigger] qpack_fields(
                block,
                max_size,
            ) == Some(field_views(fields@)),
        qpack_block(field_views(fields@)) matches Some(block) ==> block.len() <= 4 * fields_size(
            field_views(fields@),
        ) + 2,
{
    match encode_fields(fields) {
        Err(_) => Err(H3Error::QpackError),
        Ok(block) => {
            let mut buf = BytesMut::new();
            put_frame(&mut buf, H3_FRAME_HEADERS, block.as_slice());
            assert(buffered(buf) =~= frame(H3_FRAME_HEADERS, block@));
            Ok(buf.freeze())
        },
    }
}

/// The HEADERS frame of a CONNECT request, or the error of the coder, which does not take a text of
/// more than 128 megabytes.
pub open spec fn encoded_request(authority: Seq<char>, path: Seq<char>) -> Result<
    Seq<u8>,
    H3Error,
> {
    if encode_utf8(authority).len() > MAX_TEXT_LEN || encode_utf8(path).len() > MAX_TEXT_LEN {
        Err(H3Error::QpackError)
    } else {
        headers_frame(request_fields(authority, path))
    }
}

/// Encodes a CONNECT request that asks for a WebTransport session.
///
/// Returns the HEADERS frame to send on a bidirectional stream that the client opened. The peer
/// reads the authority and the path in it, whatever follows it on the stream, unless the fields
/// are larger than it accepts.
pub fn encode_connect_request(authority: &str, path: &str) -> (data: Result<Bytes, H3Error>)
    ensures
        chunk_result(data) == encoded_request(authority@, path@),
        data matches Ok(data) ==> fields_size(request_fields(authority@, path@)) <= MAX_FIELDS_SIZE
            ==> forall|rest: Seq<u8>| #[trigger]
            connect_request(chunk(data) + rest) == Ok::<_, H3Error>(
                (authority@, path@, "webtransport"@),
            ),
{
    if authority.as_bytes().len() > MAX_TEXT_LEN || path.as_bytes().len() > MAX_TEXT_LEN {
        return Err(H3Error::QpackError);
    }
    proof {
        lemma_literal_lengths();
    }
    let mut fields: Vec<HeaderField> = Vec::new();
    fields.push(text_field(":method", "CONNECT"));
    fields.push(text_field(":protocol", "webtransport"));
    fields.push(text_field(":scheme", "https"));
    fields.push(text_field(":authority", authority));
    fields.push(text_field(":path", path));
    assert(field_views(fields@) =~= request_fields(authority@, path@));
    let data = encode_headers(&fields);
    proof {
        if data is Ok && fields_size(request_fields(authority@, path@)) <= MAX_FIELDS_SIZE {
            let block = qpack_block(request_fields(authority@, path@))->0;
            lemma_request_parts(authority@, path@);
            assert forall|rest: Seq<u8>| #[trigger]
                connect_request(chunk(data->Ok_0) + rest) == Ok::<_, H3Error>(
                    (authority@, path@, "webtransport"@),
                ) by {
                lemma_headers_block(block, rest);
            }
        }
    }
    data
}

/// Encodes a successful CONNECT response.
///
/// Returns the HEADERS frame to send as the response to a CONNECT request. The peer reads the
/// status 200 in it, whatever follows it on the stream.
pub fn encode_connect_response() -> (data: Result<Bytes, H3Error>)
    ensures
        chunk_result(data) == headers_frame(response_fields()),
        data matches Ok(data) ==> forall|rest: Seq<u8>| #[trigger]
            connect_response(chunk(data) + rest) == Ok::<u16, H3Error>(200),
{
    proof {
        lemma_literal_lengths();
    }
    let mut fields: Vec<HeaderField> = Vec::new();
    fields.push(text_field(":status", "200"));
    assert(field_views(fields@) =~= response_fields());
    let data = encode_headers(&fields);
    proof {
        if data is Ok {
            let block = qpack_block(response_fields())->0;
            lemma_response_status();
            assert forall|rest: Seq<u8>| #[trigger]
                connect_response(chunk(data->Ok_0) + rest) == Ok::<u16, H3Error>(200) by {
                lemma_headers_block(block, rest);
            }
        }
    }
    data
}

/// The fields that a block unpacks to, if they are not larger than a request or a response may be.
/// No block of half a gigabyte is that small.
pub open spec fn unpacked(block: Seq<u8>) -> Option<Seq<FieldView>> {
    if block.len() > MAX_BLOCK_LEN {
        None
    } else {
        qpack_fields(block, MAX_FIELDS_SIZE)
    }
}

/// Unpacks a block of header fields.
fn unpack(block: &[u8]) -> (fields: Option<Vec<HeaderField>>)
    ensures
        match fields {
            Some(fields) => unpacked(block@) == Some(field_views(fields@)),
            None => unpacked(block@) is None,
        },
{
    if block.len() > MAX_BLOCK_LEN {
        return None;
    }
    match decode_fields(block, MAX_FIELDS_SIZE) {
        Err(_) => None,
        Ok(fields) => Some(fields),
    }
}

/// The block in the HEADERS frame that data starts with, or why there is none.
pub open spec fn headers_block(data: Seq<u8>) -> Result<Seq<u8>, H3Error> {
    match quic_varint_at_start(data) {
        None => Err(H3Error::FrameError),
        Some((frame_type, _)) => if frame_type != H3_FRAME_HEADERS {
            Err(H3Error::InvalidConnectResponse)
        } else {
            match frame_at_start(data) {
                None => Err(H3Error::FrameError),
                Some((_, block, _)) => Ok(block),
            }
        },
    }
}

/// Finds the block in the HEADERS frame at the start of a slice: where it starts and ends.
fn find_headers_block(data: &[u8]) -> (block: Result<(usize, usize), H3Error>)
    ensures
        match block {
            Ok((start, end)) => start <= end <= data@.len() && headers_block(data@) == Ok::<
                _,
                H3Error,
            >(data@.subrange(start as int, end as int)),
            Err(error) => headers_block(data@) == Err::<Seq<u8>, _>(error),
        },
{
    match peek_varint(data) {
        None => {
            return Err(H3Error::FrameError);
        },
        Some((frame_type, _)) => {
            if frame_type != H3_FRAME_HEADERS {
                return Err(H3Error::InvalidConnectResponse);
            }
        },
    }
    match split_frame(data) {
        None => Err(H3Error::FrameError),
        Some((_, start, end)) => Ok((start, end)),
    }
}

/// The number that decimal digits stand for.
pub open spec fn decimal(digits: Seq<u8>) -> nat
    decreases digits.len(),
{
    if digits.len() == 0 {
        0
    } else {
        decimal(digits.drop_last()) * 10 + (digits.last() - 48) as nat
    }
}

/// Whether a text is made of decimal digits alone.
pub open spec fn all_digits(text: Seq<u8>) -> bool {
    forall|i: int| 0 <= i < text.len() ==> 48 <= #[trigger] text[i] <= 57
}

/// A text without the plus sign that it may start with.
pub open spec fn without_plus(text: Seq<u8>) -> Seq<u8> {
    if text.len() > 0 && text[0] == 43 {
        text.skip(1)
    } else {
        text
    }
}

/// The status code that a text stands for: decimal digits, after a plus sign or not, that make a
/// number of 16 bits.
pub open spec fn status_code(text: Seq<u8>) -> Option<u16> {
    let digits = without_plus(text);
    if digits.len() > 0 && all_digits(digits) && decimal(digits) <= u16::MAX {
        Some(decimal(digits) as u16)
    } else {
        None
    }
}

/// The status in the fields of a CONNECT response.
pub open spec fn status_of(fields: Seq<FieldView>) -> Result<u16, H3Error> {
    match first_value(fields, encode_utf8(":status"@)) {
        None => Err(H3Error::InvalidConnectResponse),
        Some(text) => match status_code(text) {
            None => Err(H3Error::InvalidConnectResponse),
            Some(status) => Ok(status),
        },
    }
}

/// The status that a CONNECT response carries.
pub open spec fn connect_response(data: Seq<u8>) -> Result<u16, H3Error> {
    match headers_block(data) {
        Err(error) => Err(error),
        Ok(block) => match unpacked(block) {
            None => Err(H3Error::QpackError),
            Some(fields) => status_of(fields),
        },
    }
}

/// Reads a status code.
fn parse_status(text: &[u8]) -> (status: Option<u16>)
    ensures
        status == status_code(text@),
{
    let start: usize = if text.len() > 0 && text[0] == 43 {
        1
    } else {
        0
    };
    let ghost digits = without_plus(text@);
    assert(digits =~= text@.skip(start as int));
    if start == text.len() {
        return None;
    }
    let mut value: u32 = 0;
    let mut i: usize = start;
    assert(digits.take(0) =~= Seq::empty());
    while i < text.len()
        invariant
            start <= i <= text@.len(),
            digits == text@.skip(start as int),
            digits == without_plus(text@),
            forall|j: int| 0 <= j < i - start ==> 48 <= #[trigger] digits[j] <= 57,
            value == decimal(digits.take(i - start)),
            value <= u16::MAX,
        decreases text@.len() - i,
    {
        let digit: u8 = text[i];
        assert(digit == digits[i - start]);
        if digit < 48 || digit > 57 {
            return None;
        }
        assert(digits.take(i + 1 - start).drop_last() =~= digits.take(i - start));
        value = value * 10 + (digit - 48) as u32;
        i = i + 1;
        if value > 65535 {
            proof {
                if all_digits(digits) {
                    lemma_decimal_grows(digits, i - start);
                }
            }
            return None;
        }
    }
    assert(digits.take(i - start) =~= digits);
    Some(value as u16)
}

/// More digits make no smaller number.
proof fn lemma_decimal_grows(digits: Seq<u8>, len: int)
    requires
        0 <= len <= digits.len(),
        all_digits(digits),
    ensures
        decimal(digits.take(len)) <= decimal(digits),
    decreases digits.len() - len,
{
    if len < digits.len() {
        assert(digits.take(len + 1).drop_last() =~= digits.take(len));
        lemma_decimal_grows(digits, len + 1);
    } else {
        assert(digits.take(len) =~= digits);
    }
}

/// Finds the status in the fields of a CONNECT response.
pub fn response_status(fields: &Vec<HeaderField>) -> (status: Result<u16, H3Error>)
    ensures
        status == status_of(field_views(fields@)),
{
    let name = ":status".as_bytes();
    let ghost views = field_views(fields@);
    let mut i: usize = 0;
    assert(views.skip(0) =~= views);
    while i < fields.len()
        invariant
            i <= fields@.len(),
            views == field_views(fields@),
            name@ == encode_utf8(":status"@),
            first_value(views, name@) == first_value(views.skip(i as int), name@),
        decreases fields@.len() - i,
    {
        assert(views.skip(i as int)[0] == fields@[i as int]@);
        assert(views.skip(i as int).skip(1) =~= views.skip(i + 1));
        if same_bytes(fields[i].name.as_slice(), name) {
            return match parse_status(fields[i].value.as_slice()) {
                None => Err(H3Error::InvalidConnectResponse),
                Some(status) => Ok(status),
            };
        }
        i = i + 1;
    }
    Err(H3Error::InvalidConnectResponse)
}

/// Parses a CONNECT response to extract the status code.
pub fn parse_connect_response(data: &[u8]) -> (status: Result<u16, H3Error>)
    ensures
        status == connect_response(data@),
{
    let (start, end) = match find_headers_block(data) {
        Err(error) => {
            return Err(error);
        },
        Ok(block) => block,
    };
    match unpack(slice_subrange(data, start, end)) {
        None => Err(H3Error::QpackError),
        Some(fields) => response_status(&fields),
    }
}

/// Authority, path and protocol in the fields of a CONNECT request: all values are texts, the
/// method is `CONNECT`, and the last field of a name counts.
pub open spec fn request_parts(fields: Seq<FieldView>) -> Result<
    (Seq<char>, Seq<char>, Seq<char>),
    H3Error,
> {
    if (exists|i: int| 0 <= i < fields.len() && !valid_utf8(#[trigger] fields[i].1)) || last_value(
        fields,
        encode_utf8(":method"@),
    ) != Some(encode_utf8("CONNECT"@)) {
        Err(H3Error::InvalidConnectResponse)
    } else {
        match (
            last_value(fields, encode_utf8(":authority"@)),
            last_value(fields, encode_utf8(":path"@)),
            last_value(fields, encode_utf8(":protocol"@)),
        ) {
            (Some(authority), Some(path), Some(protocol)) => Ok(
                (decode_utf8(authority), decode_utf8(path), decode_utf8(protocol)),
            ),
            _ => Err(H3Error::InvalidConnectResponse),
        }
    }
}

/// Authority, path and protocol of a CONNECT request.
pub open spec fn connect_request(data: Seq<u8>) -> Result<
    (Seq<char>, Seq<char>, Seq<char>),
    H3Error,
> {
    match headers_block(data) {
        Err(error) => Err(error),
        Ok(block) => match unpacked(block) {
            None => Err(H3Error::QpackError),
            Some(fields) => request_parts(fields),
        },
    }
}

/// The texts of a result.
pub open spec fn text_result(result: Result<(String, String, String), H3Error>) -> Result<
    (Seq<char>, Seq<char>, Seq<char>),
    H3Error,
> {
    match result {
        Ok((authority, path, protocol)) => Ok((authority@, path@, protocol@)),
        Err(error) => Err(error),
    }
}

/// The text that an optional value stands for.
spec fn text_of(value: Option<Seq<u8>>) -> Option<Seq<char>> {
    match value {
        Some(value) => Some(decode_utf8(value)),
        None => None,
    }
}

spec fn optional_text(text: Option<String>) -> Option<Seq<char>> {
    match text {
        Some(text) => Some(text@),
        None => None,
    }
}

/// Finds authority, path and protocol in the fields of a CONNECT request.
pub fn connect_parts(fields: &Vec<HeaderField>) -> (parts: Result<
    (String, String, String),
    H3Error,
>)
    ensures
        text_result(parts) == request_parts(field_views(fields@)),
{
    let method_name = ":method".as_bytes();
    let protocol_name = ":protocol".as_bytes();
    let authority_name = ":authority".as_bytes();
    let path_name = ":path".as_bytes();
    let mut connect: bool = false;
    let mut protocol: Option<String> = None;
    let mut authority: Option<String> = None;
    let mut path: Option<String> = None;
    let ghost views = field_views(fields@);
    proof {
        lemma_distinct_names();
        assert(views.take(0) =~= Seq::empty());
    }
    let mut i: usize = 0;
    while i < fields.len()
        invariant
            i <= fields@.len(),
            views == field_views(fields@),
            method_name@ == encode_utf8(":method"@),
            protocol_name@ == encode_utf8(":protocol"@),
            authority_name@ == encode_utf8(":authority"@),
            path_name@ == encode_utf8(":path"@),
            distinct_names(),
            forall|j: int| 0 <= j < i ==> valid_utf8(#[trigger] views[j].1),
            connect == (last_value(views.take(i as int), method_name@) == Some(
                encode_utf8("CONNECT"@),
            )),
            optional_text(protocol) == text_of(last_value(views.take(i as int), protocol_name@)),
            optional_text(authority) == text_of(last_value(views.take(i as int), authority_name@)),
            optional_text(path) == text_of(last_value(views.take(i as int), path_name@)),
        decreases fields@.len() - i,
    {
        let name = fields[i].name.as_slice();
        let value = fields[i].value.as_slice();
        assert(views[i as int] == (name@, value@));
        assert(views.take(i + 1).drop_last() =~= views.take(i as int));
        assert(views.take(i + 1).last() == views[i as int]);
        let text = match utf8_text(slice_to_vec(value)) {
            None => {
                assert(!valid_utf8(views[i as int].1));
                return Err(H3Error::InvalidConnectResponse);
            },
            Some(text) => text,
        };
        if same_bytes(name, method_name) {
            connect = same_bytes(value, "CONNECT".as_bytes());
        } else if same_bytes(name, protocol_name) {
            protocol = Some(text);
        } else if same_bytes(name, authority_name) {
            authority = Some(text);
        } else if same_bytes(name, path_name) {
            path = Some(text);
        }
        i = i + 1;
    }
    assert(views.take(i as int) =~= views);
    if !connect {
        return Err(H3Error::InvalidConnectResponse);
    }
    match (authority, path, protocol) {
        (Some(authority), Some(path), Some(protocol)) => Ok((authority, path, protocol)),
        _ => Err(H3Error::InvalidConnectResponse),
    }
}

/// Parses an incoming CONNECT request.
/// Returns its authority, path and protocol if it is valid.
pub fn parse_connect_request(data: &[u8]) -> (parts: Result<(String, String, String), H3Error>)
    ensures
        text_result(parts) == connect_request(data@),
{
    let (start, end) = match find_headers_block(data) {
        Err(error) => {
            return Err(error);
        },
        Ok(block) => block,
    };
    match unpack(slice_subrange(data, start, end)) {
        None => Err(H3Error::QpackError),
        Some(fields) => connect_parts(&fields),
    }
}

/// The names that a CONNECT request is read by differ.
spec fn distinct_names() -> bool {
    let method = encode_utf8(":method"@);
    let protocol = encode_utf8(":protocol"@);
    let authority = encode_utf8(":authority"@);
    let path = encode_utf8(":path"@);
    &&& method != protocol && method != authority && method != path
    &&& protocol != authority && protocol != path
    &&& authority != path
}

proof fn lemma_distinct_names()
    ensures
        distinct_names(),
{
    reveal_strlit(":method");
    reveal_strlit(":protocol");
    reveal_strlit(":authority");
    reveal_strlit(":path");
    lemma_utf8_injective(":method"@, ":protocol"@);
    lemma_utf8_injective(":method"@, ":authority"@);
    lemma_utf8_injective(":method"@, ":path"@);
    lemma_utf8_injective(":protocol"@, ":authority"@);
    lemma_utf8_injective(":protocol"@, ":path"@);
    lemma_utf8_injective(":authority"@, ":path"@);
}

/// The texts of which CONNECT requests and responses are made are short.
proof fn lemma_literal_lengths()
    ensures
        encode_utf8(":method"@).len() <= 64,
        encode_utf8("CONNECT"@).len() <= 64,
        encode_utf8(":protocol"@).len() <= 64,
        encode_utf8("webtransport"@).len() <= 64,
        encode_utf8(":scheme"@).len() <= 64,
        encode_utf8("https"@).len() <= 64,
        encode_utf8(":authority"@).len() <= 64,
        encode_utf8(":path"@).len() <= 64,
        encode_utf8(":status"@).len() <= 64,
        encode_utf8("200"@).len() <= 64,
{
    reveal_strlit(":method");
    reveal_strlit("CONNECT");
    reveal_strlit(":protocol");
    reveal_strlit("webtransport");
    reveal_strlit(":scheme");
    reveal_strlit("https");
    reveal_strlit(":authority");
    reveal_strlit(":path");
    reveal_strlit(":status");
    reveal_strlit("200");
    lemma_utf8_len(":method"@);
    lemma_utf8_len("CONNECT"@);
    lemma_utf8_len(":protocol"@);
    lemma_utf8_len("webtransport"@);
    lemma_utf8_len(":scheme"@);
    lemma_utf8_len("https"@);
    lemma_utf8_len(":authority"@);
    lemma_utf8_len(":path"@);
    lemma_utf8_len(":status"@);
    lemma_utf8_len("200"@);
}

/// A character takes at most four bytes.
proof fn lemma_utf8_len(text: Seq<char>)
    ensures
        encode_utf8(text).len() <= 4 * text.len(),
    decreases text.len(),
{
    if text.len() > 0 {
        lemma_utf8_len(text.drop_first());
    }
}

/// The block of a HEADERS frame is found at the start of data that starts with the frame.
proof fn lemma_headers_block(block: Seq<u8>, rest: Seq<u8>)
    requires
        block.len() < 0x4000_0000_0000_0000,
    ensures
        headers_block(frame(H3_FRAME_HEADERS, block) + rest) == Ok::<_, H3Error>(block),
{
    lemma_frame(H3_FRAME_HEADERS, block, rest);
    let data = frame(H3_FRAME_HEADERS, block) + rest;
    let behind = quic_varint(block.len() as u64) + block + rest;
    quic_varint_round_trip(H3_FRAME_HEADERS, behind);
    assert(data =~= quic_varint(H3_FRAME_HEADERS) + behind);
}

/// A frame is found at the start of data that starts with it.
pub proof fn lemma_frame(frame_type: u64, payload: Seq<u8>, rest: Seq<u8>)
    requires
        frame_type < 0x4000_0000_0000_0000,
        payload.len() < 0x4000_0000_0000_0000,
    ensures
        frame_at_start(frame(frame_type, payload) + rest) == Some(
            (frame_type as nat, payload, rest),
        ),
{
    let data = frame(frame_type, payload) + rest;
    let len = quic_varint(payload.len() as u64);
    let first = quic_varint_len(frame_type);
    let second = quic_varint_len(payload.len() as u64);
    quic_varint_round_trip(frame_type, len + payload + rest);
    quic_varint_round_trip(payload.len() as u64, payload + rest);
    assert(data =~= quic_varint(frame_type) + (len + payload + rest));
    assert(data.skip(first as int) =~= len + (payload + rest));
    let body = data.skip((first + second) as int);
    assert(body =~= payload + rest);
    assert(body.take(payload.len() as int) =~= payload);
    assert(body.skip(payload.len() as int) =~= rest);
}

/// The fields of a successful response are small, and carry the status 200.
proof fn lemma_response_status()
    ensures
        fields_size(response_fields()) <= 42,
        status_of(response_fields()) == Ok::<u16, H3Error>(200),
{
    broadcast use vstd::utf8::is_ascii_chars_encode_utf8;

    reveal_strlit(":status");
    reveal_strlit("200");
    assert(vstd::utf8::is_ascii_chars(":status"@));
    assert(vstd::utf8::is_ascii_chars("200"@));
    let fields = response_fields();
    assert(fields.drop_last() =~= Seq::empty());
    assert(fields_size(fields.drop_last()) == 0);
    let digits = encode_utf8("200"@);
    assert("200"@[0] == '2' && "200"@[1] == '0' && "200"@[2] == '0');
    assert(digits =~= seq![50u8, 48, 48]);
    assert(digits.drop_last() =~= seq![50u8, 48]);
    assert(digits.drop_last().drop_last() =~= seq![50u8]);
    assert(digits.drop_last().drop_last().drop_last() =~= Seq::empty());
    reveal_with_fuel(decimal, 4);
    assert(decimal(digits) == 200);
}

/// The fields of a request are read as they were written.
proof fn lemma_request_parts(authority: Seq<char>, path: Seq<char>)
    ensures
        request_parts(request_fields(authority, path)) == Ok::<_, H3Error>(
            (authority, path, "webtransport"@),
        ),
{
    broadcast use vstd::utf8::encode_utf8_valid_utf8, vstd::utf8::encode_utf8_decode_utf8;

    let fields = request_fields(authority, path);
    lemma_distinct_names();
    reveal_strlit(":scheme");
    reveal_strlit(":method");
    reveal_strlit(":protocol");
    assert(":scheme"@[1] != ":method"@[1]);
    lemma_utf8_injective(":scheme"@, ":method"@);
    lemma_utf8_injective(":scheme"@, ":protocol"@);
    reveal_with_fuel(last_value, 6);
    assert(fields.drop_last() =~= fields.take(4));
    assert(fields.take(4).drop_last() =~= fields.take(3));
    assert(fields.take(3).drop_last() =~= fields.take(2));
    assert(fields.take(2).drop_last() =~= fields.take(1));
    assert forall|i: int| 0 <= i < fields.len() implies valid_utf8(#[trigger] fields[i].1) by {
        assert(i == 0 || i == 1 || i == 2 || i == 3 || i == 4);
    }
    assert(last_value(fields, encode_utf8(":path"@)) == Some(encode_utf8(path)));
    assert(last_value(fields, encode_utf8(":authority"@)) == Some(encode_utf8(authority)));
    assert(last_value(fields, encode_utf8(":protocol"@)) == Some(encode_utf8("webtransport"@)));
    assert(last_value(fields, encode_utf8(":method"@)) == Some(encode_utf8("CONNECT"@)));
}

/// A fresh control stream that receives what a control stream is started with knows the settings
/// of the peer, and that the peer supports WebTransport.
pub proof fn settings_round_trip()
    ensures
        ({
            let (control, result) = control_received(new_control(), control_preface());
            &&& result == Ok::<bool, H3Error>(true)
            &&& control.settings_received
            &&& control.unparsed == Seq::<u8>::empty()
            &&& control.peer_settings == H3Settings {
                qpack_max_table_capacity: 0,
                qpack_blocked_streams: 0,
                enable_connect_protocol: true,
                enable_datagrams: true,
                enable_webtransport: true,
            }
        }),
{
    let payload = sent_settings();
    lemma_setting(H3_SETTINGS_ENABLE_WEBTRANSPORT, 1, Seq::empty());
    let tail1 = setting(H3_SETTINGS_ENABLE_WEBTRANSPORT, 1);
    assert(tail1 + Seq::<u8>::empty() =~= tail1);
    let tail2 = setting(H3_SETTINGS_H3_DATAGRAM, 1) + tail1;
    lemma_setting(H3_SETTINGS_H3_DATAGRAM, 1, tail1);
    let tail3 = setting(H3_SETTINGS_ENABLE_CONNECT_PROTOCOL, 1) + tail2;
    lemma_setting(H3_SETTINGS_ENABLE_CONNECT_PROTOCOL, 1, tail2);
    let tail4 = setting(H3_SETTINGS_QPACK_BLOCKED_STREAMS, 0) + tail3;
    lemma_setting(H3_SETTINGS_QPACK_BLOCKED_STREAMS, 0, tail3);
    lemma_setting(H3_SETTINGS_QPACK_MAX_TABLE_CAPACITY, 0, tail4);
    assert(payload =~= setting(H3_SETTINGS_QPACK_MAX_TABLE_CAPACITY, 0) + tail4);
    reveal_with_fuel(with_settings, 6);
    assert(payload.len() < 100);
    lemma_frame(H3_FRAME_SETTINGS, payload, Seq::empty());
    let whole = frame(H3_FRAME_SETTINGS, payload);
    assert(whole + Seq::<u8>::empty() =~= whole);
    assert((Seq::empty() + control_preface()).skip(1) =~= whole);
}

/// The first setting of a payload is taken over before the rest.
proof fn lemma_setting(id: u64, value: u64, rest: Seq<u8>)
    requires
        id < 0x4000_0000_0000_0000,
        value < 0x4000_0000_0000_0000,
    ensures
        setting(id, value).len() == quic_varint_len(id) + quic_varint_len(value),
        forall|settings: H3Settings| #[trigger]
            with_settings(settings, setting(id, value) + rest) == with_settings(
                with_setting(settings, id as nat, value as nat),
                rest,
            ),
{
    let payload = setting(id, value) + rest;
    quic_varint_round_trip(id, quic_varint(value) + rest);
    quic_varint_round_trip(value, rest);
    assert(payload =~= quic_varint(id) + (quic_varint(value) + rest));
    assert(payload.skip(quic_varint_len(id) as int) =~= quic_varint(value) + rest);
    assert(payload.skip((quic_varint_len(id) + quic_varint_len(value)) as int) =~= rest);
}

/// A part of a frame is not a frame.
proof fn lemma_part_of_frame(frame_type: u64, payload: Seq<u8>, len: int)
    requires
        frame_type < 0x4000_0000_0000_0000,
        payload.len() < 0x4000_0000_0000_0000,
        0 <= len < frame(frame_type, payload).len(),
    ensures
        frame_at_start(frame(frame_type, payload).take(len)) is None,
{
    let length = payload.len() as u64;
    let whole = frame(frame_type, payload);
    let part = whole.take(len);
    let after_type = quic_varint(length) + payload;
    let first = quic_varint_len(frame_type) as int;
    let second = quic_varint_len(length) as int;
    quic_varint_round_trip(frame_type, after_type);
    quic_varint_round_trip(length, payload);
    assert(whole =~= quic_varint(frame_type) + after_type);
    quic_varint_in_part(frame_type, after_type, len);
    if len >= first {
        quic_varint_in_part(length, payload, len - first);
        assert(part.skip(first) =~= after_type.take(len - first));
    }
}

/// The settings of the peer may come in pieces: nothing is known before the last piece has come,
/// and then the same is known as if they had come at once.
pub proof fn settings_in_pieces(len: int)
    requires
        0 < len < control_preface().len(),
    ensures
        ({
            let preface = control_preface();
            let (middle, first) = control_received(new_control(), preface.take(len));
            let (last, second) = control_received(middle, preface.skip(len));
            &&& first == Ok::<bool, H3Error>(false)
            &&& !middle.settings_received
            &&& (last, second) == control_received(new_control(), preface)
        }),
{
    let payload = sent_settings();
    let preface = control_preface();
    let whole = frame(H3_FRAME_SETTINGS, payload);
    lemma_setting(H3_SETTINGS_QPACK_MAX_TABLE_CAPACITY, 0, Seq::empty());
    lemma_setting(H3_SETTINGS_QPACK_BLOCKED_STREAMS, 0, Seq::empty());
    lemma_setting(H3_SETTINGS_ENABLE_CONNECT_PROTOCOL, 1, Seq::empty());
    lemma_setting(H3_SETTINGS_H3_DATAGRAM, 1, Seq::empty());
    lemma_setting(H3_SETTINGS_ENABLE_WEBTRANSPORT, 1, Seq::empty());
    assert(payload.len() < 100);
    let none = Seq::<u8>::empty();
    assert(none + preface.take(len) =~= preface.take(len));
    assert(none + preface =~= preface);
    assert(preface.skip(1) =~= whole);
    assert(preface.take(len).skip(1) =~= whole.take(len - 1));
    lemma_part_of_frame(H3_FRAME_SETTINGS, payload, len - 1);
    assert(whole.take(len - 1) + preface.skip(len) =~= whole);
    reveal_with_fuel(big_endian, 2);
    assert(quic_varint(H3_FRAME_SETTINGS)[0] == 4);
    assert(whole[0] == 4);
}

/// The payload of a SETTINGS frame that holds pairs of an id and a value.
pub open spec fn settings_payload(settings: Seq<(u64, u64)>) -> Seq<u8>
    decreases settings.len(),
{
    if settings.len() == 0 {
        Seq::empty()
    } else {
        quic_varint(settings[0].0) + quic_varint(settings[0].1) + settings_payload(settings.skip(1))
    }
}

/// The value that was given last for an id.
pub open spec fn last_setting(settings: Seq<(u64, u64)>, id: u64) -> Option<u64>
    decreases settings.len(),
{
    if settings.len() == 0 {
        None
    } else if settings.last().0 == id {
        Some(settings.last().1)
    } else {
        last_setting(settings.drop_last(), id)
    }
}

/// Whether a setting is on after some settings, where it was on or off before.
pub open spec fn switched(settings: Seq<(u64, u64)>, id: u64, before: bool) -> bool {
    match last_setting(settings, id) {
        Some(value) => value != 0,
        None => before,
    }
}

/// The first of some settings counts only if none of the others has its id.
proof fn lemma_first_setting(settings: Seq<(u64, u64)>, id: u64)
    requires
        settings.len() > 0,
    ensures
        last_setting(settings, id) == match last_setting(settings.skip(1), id) {
            Some(value) => Some(value),
            None => if settings[0].0 == id {
                Some(settings[0].1)
            } else {
                None
            },
        },
    decreases settings.len(),
{
    if settings.len() > 1 {
        let front = settings.drop_last();
        lemma_first_setting(front, id);
        assert(settings.skip(1).drop_last() =~= front.skip(1));
        assert(settings.skip(1).last() == settings.last());
    } else {
        assert(settings.drop_last() =~= Seq::empty());
        assert(settings.skip(1) =~= Seq::empty());
    }
}

/// The payload of a SETTINGS frame sets what its pairs say.
proof fn lemma_settings_payload(before: H3Settings, settings: Seq<(u64, u64)>)
    requires
        forall|i: int|
            0 <= i < settings.len() ==> (#[trigger] settings[i]).0 < 0x4000_0000_0000_0000
                && settings[i].1 < 0x4000_0000_0000_0000,
    ensures
        ({
            let (after, valid) = with_settings(before, settings_payload(settings));
            &&& valid
            &&& after.enable_datagrams == switched(settings, 0x33, before.enable_datagrams)
            &&& after.enable_webtransport == switched(
                settings,
                0x2b603742,
                before.enable_webtransport,
            )
            &&& after.enable_connect_protocol == switched(
                settings,
                0x08,
                before.enable_connect_protocol,
            )
            &&& after.qpack_max_table_capacity == match last_setting(settings, 0x01) {
                Some(value) => value,
                None => before.qpack_max_table_capacity,
            }
            &&& after.qpack_blocked_streams == match last_setting(settings, 0x07) {
                Some(value) => value,
                None => before.qpack_blocked_streams,
            }
        }),
    decreases settings.len(),
{
    if settings.len() > 0 {
        let (id, value) = settings[0];
        let rest = settings.skip(1);
        assert forall|i: int| 0 <= i < rest.len() implies (#[trigger] rest[i]).0
            < 0x4000_0000_0000_0000 && rest[i].1 < 0x4000_0000_0000_0000 by {
            assert(rest[i] == settings[i + 1]);
        }
        lemma_setting(id, value, settings_payload(rest));
        assert(settings_payload(settings) == setting(id, value) + settings_payload(rest));
        lemma_settings_payload(with_setting(before, id as nat, value as nat), rest);
        lemma_first_setting(settings, 0x33);
        lemma_first_setting(settings, 0x2b603742);
        lemma_first_setting(settings, 0x08);
        lemma_first_setting(settings, 0x01);
        lemma_first_setting(settings, 0x07);
    }
}

/// A control stream that receives a SETTINGS frame, after its type byte, knows of each setting the
/// value that was given last, whatever else the frame holds, and keeps what follows the frame.
pub proof fn settings_are_taken_over(
    control: ControlView,
    settings: Seq<(u64, u64)>,
    rest: Seq<u8>,
)
    requires
        !control.settings_received,
        control.unparsed.len() == 0,
        settings_payload(settings).len() < 0x4000_0000_0000_0000,
        forall|i: int|
            0 <= i < settings.len() ==> (#[trigger] settings[i]).0 < 0x4000_0000_0000_0000
                && settings[i].1 < 0x4000_0000_0000_0000,
    ensures
        ({
            let payload = settings_payload(settings);
            let data = seq![0u8, 4u8] + quic_varint(payload.len() as u64) + payload + rest;
            let before = control.peer_settings;
            let (after, result) = control_received(control, data);
            &&& result == Ok::<bool, H3Error>(true)
            &&& after.settings_received
            &&& after.unparsed == rest
            &&& after.peer_settings.enable_datagrams == switched(
                settings,
                0x33,
                before.enable_datagrams,
            )
            &&& after.peer_settings.enable_webtransport == switched(
                settings,
                0x2b603742,
                before.enable_webtransport,
            )
            &&& after.peer_settings.enable_connect_protocol == switched(
                settings,
                0x08,
                before.enable_connect_protocol,
            )
            &&& after.peer_settings.qpack_max_table_capacity == match last_setting(
                settings,
                0x01,
            ) {
                Some(value) => value,
                None => before.qpack_max_table_capacity,
            }
            &&& after.peer_settings.qpack_blocked_streams == match last_setting(settings, 0x07) {
                Some(value) => value,
                None => before.qpack_blocked_streams,
            }
        }),
{
    let payload = settings_payload(settings);
    let data = seq![0u8, 4u8] + quic_varint(payload.len() as u64) + payload + rest;
    lemma_settings_payload(control.peer_settings, settings);
    lemma_frame(4, payload, rest);
    reveal_with_fuel(big_endian, 2);
    assert(quic_varint(4) =~= seq![4u8]);
    assert((control.unparsed + data).skip(1) =~= frame(4, payload) + rest);
}

/// A frame of another type is dropped: it says nothing, and what follows it is kept.
pub proof fn other_frames_are_dropped(
    control: ControlView,
    frame_type: u64,
    payload: Seq<u8>,
    rest: Seq<u8>,
)
    requires
        control.unparsed.len() == 0,
        frame_type != 4,
        0 < frame_type < 0x4000_0000_0000_0000,
        payload.len() < 0x4000_0000_0000_0000,
    ensures
        ({
            let data = quic_varint(frame_type) + quic_varint(payload.len() as u64) + payload + rest;
            let (after, result) = control_received(control, data);
            &&& result == Ok::<bool, H3Error>(false)
            &&& after == (ControlView { unparsed: rest, ..control })
        }),
{
    let data = frame(frame_type, payload) + rest;
    lemma_frame(frame_type, payload, rest);
    assert(control.unparsed + data =~= data);
    lemma_varint_starts(frame_type);
    assert(data[0] == quic_varint(frame_type)[0]);
}

/// Of the integers, only zero starts with a zero byte.
proof fn lemma_varint_starts(value: u64)
    requires
        0 < value < 0x4000_0000_0000_0000,
    ensures
        quic_varint(value).len() > 0,
        quic_varint(value)[0] != 0,
{
    quic_varint_round_trip(value, Seq::empty());
    let bytes = quic_varint(value);
    assert(bytes + Seq::<u8>::empty() =~= bytes);
    if bytes[0] == 0 {
        assert((quic_varint_at_start(bytes)->0).1 == 1);
        assert(bytes.take(1).update(0, 0) =~= seq![0u8]);
        reveal_with_fuel(big_endian_value, 2);
        assert(seq![0u8].drop_last() =~= Seq::empty());
        assert(big_endian_value(seq![0u8]) == 0);
    }
}

/// Data of a control stream that is no whole frame is kept, and nothing is known from it. What has
/// been received in pieces is read as if it had come at once.
pub proof fn pieces_are_joined(control: ControlView, first: Seq<u8>, second: Seq<u8>)
    requires
        !control.settings_received,
        control.unparsed.len() == 0,
        first.len() > 1,
        first[0] == 0,
        first[1] != 0,
        frame_at_start(first.skip(1)) is None,
    ensures
        ({
            let (middle, answer) = control_received(control, first);
            &&& answer == Ok::<bool, H3Error>(false)
            &&& middle.settings_received == control.settings_received
            &&& middle.peer_settings == control.peer_settings
            &&& control_received(middle, second) == control_received(control, first + second)
        }),
{
    assert(control.unparsed + first =~= first);
    assert(control.unparsed + (first + second) =~= first + second);
    assert((first + second).skip(1) =~= first.skip(1) + second);
    let rest = first.skip(1) + second;
    assert(rest[0] == first[1]);
}

/// A status of three digits is the number that they make, with a plus sign in front of them or not,
/// and a text that holds anything but digits is none.
pub proof fn statuses_are_numbers(hundreds: u8, tens: u8, ones: u8, text: Seq<u8>, place: int)
    requires
        hundreds <= 9,
        tens <= 9,
        ones <= 9,
    ensures
        ({
            let digits = seq![(48 + hundreds) as u8, (48 + tens) as u8, (48 + ones) as u8];
            let number = (100 * hundreds + 10 * tens + ones) as u16;
            &&& status_code(digits) == Some(number)
            &&& status_code(seq![43u8] + digits) == Some(number)
        }),
        0 < place < text.len() && !(48 <= text[place] <= 57) ==> status_code(text) is None,
        text.len() > 0 && text[0] != 43 && !(48 <= text[0] <= 57) ==> status_code(text) is None,
        status_code(Seq::empty()) is None,
        status_code(seq![43u8]) is None,
{
    let digits = seq![(48 + hundreds) as u8, (48 + tens) as u8, (48 + ones) as u8];
    assert(digits.drop_last() =~= seq![(48 + hundreds) as u8, (48 + tens) as u8]);
    assert(digits.drop_last().drop_last() =~= seq![(48 + hundreds) as u8]);
    assert(digits.drop_last().drop_last().drop_last() =~= Seq::empty());
    reveal_with_fuel(decimal, 4);
    assert(decimal(digits) == 100 * hundreds + 10 * tens + ones);
    assert((seq![43u8] + digits).skip(1) =~= digits);
    assert(seq![43u8].skip(1) =~= Seq::empty());
    if 0 < place < text.len() && !(48 <= text[place] <= 57) {
        let rest = without_plus(text);
        if text[0] == 43 {
            assert(rest[place - 1] == text[place]);
        } else {
            assert(rest[place] == text[place]);
        }
    }
}

/// The status of a response is what its first field of that name says, and without one there is
/// none.
pub proof fn status_is_that_of_the_field(
    before: Seq<FieldView>,
    text: Seq<u8>,
    after: Seq<FieldView>,
)
    requires
        forall|i: int|
            0 <= i < before.len() ==> (#[trigger] before[i]).0 != encode_utf8(":status"@),
    ensures
        status_of(before + seq![(encode_utf8(":status"@), text)] + after) == match status_code(
            text,
        ) {
            Some(status) => Ok(status),
            None => Err(H3Error::InvalidConnectResponse),
        },
        status_of(before) == Err::<u16, _>(H3Error::InvalidConnectResponse),
{
    let name = encode_utf8(":status"@);
    let fields = before + seq![(name, text)] + after;
    values_by_name(fields, name);
    values_by_name(before, name);
    assert(fields[before.len() as int] == (name, text));
    if let Some(value) = first_value(fields, name) {
        let i = choose|i: int|
            0 <= i < fields.len() && #[trigger] fields[i] == (name, value) && forall|j: int|
                0 <= j < i ==> (#[trigger] fields[j]).0 != name;
        if i < before.len() {
            assert(before[i] == fields[i]);
        }
        assert(i == before.len());
    }
    if let Some(value) = first_value(before, name) {
        let i = choose|i: int|
            0 <= i < before.len() && #[trigger] before[i] == (name, value) && forall|j: int|
                0 <= j < i ==> (#[trigger] before[j]).0 != name;
        assert(before[i].0 == name);
    }
}

/// A CONNECT request names its method, protocol, authority and path, and is read by these names.
/// Other fields do not matter as long as they hold texts, and a request that lacks one of the names,
/// or has another method, is none.
pub proof fn requests_are_read_by_names(
    fields: Seq<FieldView>,
    authority: Seq<char>,
    path: Seq<char>,
    protocol: Seq<char>,
)
    requires
        forall|i: int| 0 <= i < fields.len() ==> valid_utf8(#[trigger] fields[i].1),
    ensures
        last_value(fields, encode_utf8(":method"@)) == Some(encode_utf8("CONNECT"@)) && last_value(
            fields,
            encode_utf8(":authority"@),
        ) == Some(encode_utf8(authority)) && last_value(fields, encode_utf8(":path"@)) == Some(
            encode_utf8(path),
        ) && last_value(fields, encode_utf8(":protocol"@)) == Some(encode_utf8(protocol))
            ==> request_parts(fields) == Ok::<_, H3Error>((authority, path, protocol)),
        last_value(fields, encode_utf8(":method"@)) != Some(encode_utf8("CONNECT"@)) || last_value(
            fields,
            encode_utf8(":authority"@),
        ) is None || last_value(fields, encode_utf8(":path"@)) is None || last_value(
            fields,
            encode_utf8(":protocol"@),
        ) is None ==> request_parts(fields) == Err::<(Seq<char>, Seq<char>, Seq<char>), _>(
            H3Error::InvalidConnectResponse,
        ),
        ({
            let sent = request_fields(authority, path);
            &&& sent.len() == 5
            &&& sent[0] == (encode_utf8(":method"@), encode_utf8("CONNECT"@))
            &&& sent[1] == (encode_utf8(":protocol"@), encode_utf8("webtransport"@))
            &&& sent[2] == (encode_utf8(":scheme"@), encode_utf8("https"@))
            &&& sent[3] == (encode_utf8(":authority"@), encode_utf8(authority))
            &&& sent[4] == (encode_utf8(":path"@), encode_utf8(path))
        }),
{
    broadcast use vstd::utf8::encode_utf8_valid_utf8, vstd::utf8::encode_utf8_decode_utf8;

}

/// A block of fields is sent in one frame: the byte of its type, its length and the block.
pub proof fn blocks_are_framed(fields: Seq<FieldView>)
    ensures
        headers_frame(fields) == match qpack_block(fields) {
            Some(block) => Ok(seq![1u8] + quic_varint(block.len() as u64) + block),
            None => Err(H3Error::QpackError),
        },
        control_preface() == seq![0u8, 4u8] + quic_varint(sent_settings().len() as u64)
            + sent_settings(),
        sent_settings() == settings_payload(
            seq![(0x01u64, 0u64), (0x07u64, 0u64), (0x08u64, 1u64), (0x33u64, 1u64), (
                0x2b603742u64,
                1u64,
            )],
        ),
{
    reveal_with_fuel(big_endian, 2);
    assert(quic_varint(1) =~= seq![1u8]);
    assert(quic_varint(4) =~= seq![4u8]);
    if let Some(block) = qpack_block(fields) {
        assert(frame(H3_FRAME_HEADERS, block) =~= seq![1u8] + quic_varint(block.len() as u64)
            + block);
    }
    assert(control_preface() =~= seq![0u8, 4u8] + quic_varint(sent_settings().len() as u64)
        + sent_settings());
    let settings = seq![(0x01u64, 0u64), (0x07u64, 0u64), (0x08u64, 1u64), (0x33u64, 1u64), (
        0x2b603742u64,
        1u64,
    )];
    reveal_with_fuel(settings_payload, 6);
    assert(settings.skip(1).skip(1) =~= settings.skip(2));
    assert(settings.skip(2).skip(1) =~= settings.skip(3));
    assert(settings.skip(3).skip(1) =~= settings.skip(4));
    assert(settings.skip(4).skip(1) =~= Seq::empty());
    assert(settings.skip(1).skip(1).skip(1).skip(1).skip(1) =~= Seq::empty());
    assert(sent_settings() =~= settings_payload(settings));
}

/// The block of a frame of fields is read as it was sent, whatever follows it. Data that starts with
/// a frame of another type holds no fields, and neither a request nor a response.
pub proof fn only_field_frames_are_read(frame_type: u64, block: Seq<u8>, rest: Seq<u8>)
    requires
        frame_type < 0x4000_0000_0000_0000,
        block.len() < 0x4000_0000_0000_0000,
    ensures
        headers_block(seq![1u8] + quic_varint(block.len() as u64) + block + rest) == Ok::<
            _,
            H3Error,
        >(block),
        frame_type != 1 ==> {
            let data = quic_varint(frame_type) + rest;
            &&& headers_block(data) == Err::<Seq<u8>, _>(H3Error::InvalidConnectResponse)
            &&& connect_request(data) is Err
            &&& connect_response(data) is Err
        },
        connect_request(Seq::empty()) is Err,
        connect_response(Seq::empty()) is Err,
{
    reveal_with_fuel(big_endian, 2);
    assert(quic_varint(1) =~= seq![1u8]);
    let data = seq![1u8] + quic_varint(block.len() as u64) + block + rest;
    assert(data =~= frame(1, block) + rest);
    lemma_frame(1, block, rest);
    quic_varint_round_trip(1, quic_varint(block.len() as u64) + block + rest);
    assert(data =~= quic_varint(1) + (quic_varint(block.len() as u64) + block + rest));
    quic_varint_round_trip(frame_type, rest);
}

/// A request says that it is a CONNECT for WebTransport over HTTPS, then the authority and the path,
/// and it is coded unless one of these has more than 128 megabytes. A response says that the status
/// is 200.
pub proof fn requests_say_what_is_asked_for(authority: Seq<char>, path: Seq<char>)
    ensures
        ({
            let fields = seq![
                (encode_utf8(":method"@), encode_utf8("CONNECT"@)),
                (encode_utf8(":protocol"@), encode_utf8("webtransport"@)),
                (encode_utf8(":scheme"@), encode_utf8("https"@)),
                (encode_utf8(":authority"@), encode_utf8(authority)),
                (encode_utf8(":path"@), encode_utf8(path)),
            ];
            if encode_utf8(authority).len() <= 0x800_0000 && encode_utf8(path).len()
                <= 0x800_0000 {
                encoded_request(authority, path) == match qpack_block(fields) {
                    Some(block) => Ok(seq![1u8] + quic_varint(block.len() as u64) + block),
                    None => Err(H3Error::QpackError),
                }
            } else {
                encoded_request(authority, path) == Err::<Seq<u8>, _>(H3Error::QpackError)
            }
        }),
        headers_frame(response_fields()) == match qpack_block(
            seq![(encode_utf8(":status"@), encode_utf8("200"@))],
        ) {
            Some(block) => Ok(seq![1u8] + quic_varint(block.len() as u64) + block),
            None => Err(H3Error::QpackError),
        },
{
    blocks_are_framed(request_fields(authority, path));
    blocks_are_framed(response_fields());
}

/// A block of fields is unpacked as the coder does, up to 16384 bytes of fields, unless the block is
/// too long for the coder.
pub proof fn blocks_are_unpacked(block: Seq<u8>)
    ensures
        block.len() <= 0x1fff_0000 ==> unpacked(block) == qpack_fields(block, 16384),
        block.len() > 0x1fff_0000 ==> unpacked(block) is None,
{
}

} // verus!
