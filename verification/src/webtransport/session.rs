//! The state of a WebTransport session, and the framing of its streams and datagrams.
use crate::chunk::{advance, as_slice, buffered, chunk, put_u8};
use bytes::{Bytes, BytesMut};
use vstd::prelude::*;

verus! {

/// First byte of a bidirectional stream.
pub const WT_STREAM_BIDI: u8 = 0x41;

/// First byte of a unidirectional stream.
pub const WT_STREAM_UNI: u8 = 0x54;

/// State of a WebTransport session within a connection.
#[derive(Debug, Clone, Copy, PartialEq, Eq, Structural)]
pub enum SessionState {
    /// Waiting for the SETTINGS frame of the peer.
    AwaitingSettings,
    /// SETTINGS received, sending a CONNECT request (client) or waiting for one (server).
    SettingsReceived,
    /// CONNECT sent, awaiting the response (client only).
    AwaitingConnectResponse,
    /// The session is fully established.
    Established,
    /// The session is closing.
    Closing,
    /// The session is closed.
    Closed,
}

impl Default for SessionState {
    /// Nothing has been received of a new session.
    fn default() -> (state: Self)
        ensures
            state == SessionState::AwaitingSettings,
    {
        SessionState::AwaitingSettings
    }
}

/// A WebTransport session within a QUIC connection.
#[derive(Debug, PartialEq, Eq, Structural)]
pub struct WebTransportSession {
    /// Session id: a quarter of the id of the request stream.
    pub session_id: u64,
    /// The QUIC stream that carries the CONNECT request.
    pub request_stream_id: Option<u64>,
    /// Current state of the session.
    pub state: SessionState,
}

/// A session that has not exchanged anything.
pub open spec fn new_session() -> WebTransportSession {
    WebTransportSession {
        session_id: 0,
        request_stream_id: None,
        state: SessionState::AwaitingSettings,
    }
}

impl WebTransportSession {
    /// Creates a session in the initial state.
    pub fn new() -> (session: Self)
        ensures
            session == new_session(),
    {
        WebTransportSession {
            session_id: 0,
            request_stream_id: None,
            state: SessionState::default(),
        }
    }
}

impl Default for WebTransportSession {
    /// Creates a session in the initial state.
    fn default() -> (session: Self)
        ensures
            session == new_session(),
    {
        WebTransportSession::new()
    }
}

/// The number of bytes that a QUIC variable length integer takes.
pub open spec fn quic_varint_len(value: u64) -> nat {
    if value < 64 {
        1
    } else if value < 16384 {
        2
    } else if value < 1_073_741_824 {
        4
    } else {
        8
    }
}

/// What the two high bits of an integer of `len` bytes add to it.
pub open spec fn length_mark(len: nat) -> nat {
    if len == 1 {
        0
    } else if len == 2 {
        0x4000
    } else if len == 4 {
        0x8000_0000
    } else {
        0xc000_0000_0000_0000
    }
}

/// The low `len` bytes of `word`, most significant first.
pub open spec fn big_endian(word: nat, len: nat) -> Seq<u8>
    decreases len,
{
    if len == 0 {
        Seq::empty()
    } else {
        big_endian(word / 256, (len - 1) as nat).push((word % 256) as u8)
    }
}

/// The integer whose bytes, most significant first, are `bytes`.
pub open spec fn big_endian_value(bytes: Seq<u8>) -> nat
    decreases bytes.len(),
{
    if bytes.len() == 0 {
        0
    } else {
        big_endian_value(bytes.drop_last()) * 256 + bytes.last() as nat
    }
}

/// The bytes of a QUIC variable length integer. Only the low 62 bits of `value` are kept.
pub open spec fn quic_varint(value: u64) -> Seq<u8> {
    let len = quic_varint_len(value);
    big_endian(length_mark(len) + value as nat % 0x4000_0000_0000_0000, len)
}

/// The QUIC variable length integer at the start of `bytes` and the number of bytes that it takes,
/// if all of them are there.
pub open spec fn quic_varint_at_start(bytes: Seq<u8>) -> Option<(nat, nat)> {
    if bytes.len() == 0 {
        None
    } else {
        let len = quic_varint_width(bytes[0]);
        if bytes.len() < len {
            None
        } else {
            Some((big_endian_value(bytes.take(len as int).update(0, bytes[0] % 64)), len))
        }
    }
}

/// The number of bytes of an integer that starts with `first`.
pub open spec fn quic_varint_width(first: u8) -> nat {
    if first < 64 {
        1
    } else if first < 128 {
        2
    } else if first < 192 {
        4
    } else {
        8
    }
}

/// Appends the low `len` bytes of `word`, most significant first.
fn put_big_endian(buf: &mut BytesMut, word: u64, len: usize)
    ensures
        buffered(*final(buf)) == buffered(*old(buf)) + big_endian(word as nat, len as nat),
    decreases len,
{
    if len > 0 {
        put_big_endian(buf, word / 256, len - 1);
        put_u8(buf, (word % 256) as u8);
        assert(buffered(*buf) =~= buffered(*old(buf)) + big_endian(word as nat, len as nat));
    } else {
        assert(buffered(*buf) =~= buffered(*old(buf)) + big_endian(word as nat, len as nat));
    }
}

/// Writes a QUIC variable length integer to a buffer.
pub fn write_varint(buf: &mut BytesMut, value: u64)
    ensures
        buffered(*final(buf)) == buffered(*old(buf)) + quic_varint(value),
{
    if value < 64 {
        put_big_endian(buf, value, 1);
    } else if value < 16384 {
        put_big_endian(buf, 0x4000 + value, 2);
    } else if value < 1_073_741_824 {
        put_big_endian(buf, 0x8000_0000 + value, 4);
    } else {
        put_big_endian(buf, 0xc000_0000_0000_0000 + value % 0x4000_0000_0000_0000, 8);
    }
}

/// Reads the QUIC variable length integer at the start of a slice, and says how many bytes it took.
pub(crate) fn peek_varint(data: &[u8]) -> (varint: Option<(u64, usize)>)
    ensures
        varint matches Some((value, len)) ==> quic_varint_at_start(data@) == Some(
            (value as nat, len as nat),
        ) && 1 <= len <= data@.len(),
        varint is None <==> quic_varint_at_start(data@) is None,
{
    if data.len() == 0 {
        return None;
    }
    let first: u8 = data[0];
    let len: usize = if first < 64 {
        1
    } else if first < 128 {
        2
    } else if first < 192 {
        4
    } else {
        8
    };
    if data.len() < len {
        return None;
    }
    let ghost low = |n: int| data@.take(n).update(0, first % 64);
    let mut value: u64 = (first % 64) as u64;
    let mut used: usize = 1;
    let mut bound: u64 = 64;
    proof {
        assert(low(1).drop_last() =~= Seq::empty());
        reveal_with_fuel(big_endian_value, 2);
    }
    while used < len
        invariant
            1 <= used <= len <= data@.len(),
            len <= 8,
            first == data@[0],
            low == |n: int| data@.take(n).update(0, first % 64),
            value == big_endian_value(low(used as int)),
            value < bound,
            used == 1 ==> bound == 64,
            used == 2 ==> bound == 0x4000,
            used == 3 ==> bound == 0x40_0000,
            used == 4 ==> bound == 0x4000_0000,
            used == 5 ==> bound == 0x40_0000_0000,
            used == 6 ==> bound == 0x4000_0000_0000,
            used == 7 ==> bound == 0x40_0000_0000_0000,
            used == 8 ==> bound == 0x4000_0000_0000_0000,
        decreases len - used,
    {
        proof {
            assert(low(used + 1).drop_last() =~= low(used as int));
        }
        value = value * 256 + data[used] as u64;
        bound = bound * 256;
        used = used + 1;
    }
    Some((value, len))
}

/// Reads a QUIC variable length integer from a buffer.
/// Returns `None`, and takes nothing, if the buffer does not have enough data.
pub fn read_varint(buf: &mut Bytes) -> (value: Option<u64>)
    ensures
        match (value, quic_varint_at_start(chunk(*old(buf)))) {
            (Some(value), Some((read, len))) => value == read && chunk(*final(buf)) == chunk(
                *old(buf),
            ).skip(len as int),
            (None, None) => chunk(*final(buf)) == chunk(*old(buf)),
            _ => false,
        },
{
    let (value, len) = match peek_varint(as_slice(buf)) {
        None => {
            return None;
        },
        Some(varint) => varint,
    };
    advance(buf, len);
    Some(value)
}

/// The encoded length of a QUIC variable length integer.
pub fn varint_len(value: u64) -> (len: usize)
    ensures
        len == quic_varint_len(value),
        len == quic_varint(value).len(),
{
    proof {
        lemma_big_endian_len(
            length_mark(quic_varint_len(value)) + value as nat % 0x4000_0000_0000_0000,
            quic_varint_len(value),
        );
    }
    if value < 64 {
        1
    } else if value < 16384 {
        2
    } else if value < 1_073_741_824 {
        4
    } else {
        8
    }
}

proof fn lemma_big_endian_len(word: nat, len: nat)
    ensures
        big_endian(word, len).len() == len,
    decreases len,
{
    if len > 0 {
        lemma_big_endian_len(word / 256, (len - 1) as nat);
    }
}

/// The header of a stream: a byte that names its kind, then the id of the session.
pub open spec fn stream_header(kind: u8, session_id: u64) -> Seq<u8> {
    seq![kind] + quic_varint(session_id)
}

/// Frames the start of a bidirectional WebTransport stream: `0x41`, then the session id.
pub fn frame_bidi_stream_header(session_id: u64) -> (header: Bytes)
    ensures
        chunk(header) == stream_header(WT_STREAM_BIDI, session_id),
{
    let mut buf = BytesMut::new();
    put_u8(&mut buf, WT_STREAM_BIDI);
    write_varint(&mut buf, session_id);
    assert(buffered(buf) =~= stream_header(WT_STREAM_BIDI, session_id));
    buf.freeze()
}

/// Frames the start of a unidirectional WebTransport stream: `0x54`, then the session id.
pub fn frame_uni_stream_header(session_id: u64) -> (header: Bytes)
    ensures
        chunk(header) == stream_header(WT_STREAM_UNI, session_id),
{
    let mut buf = BytesMut::new();
    put_u8(&mut buf, WT_STREAM_UNI);
    write_varint(&mut buf, session_id);
    assert(buffered(buf) =~= stream_header(WT_STREAM_UNI, session_id));
    buf.freeze()
}

/// Frames a datagram: the session id, then the payload.
pub fn frame_datagram(session_id: u64, data: &[u8]) -> (framed: Bytes)
    ensures
        chunk(framed) == quic_varint(session_id) + data@,
{
    let mut buf = BytesMut::new();
    write_varint(&mut buf, session_id);
    buf.extend_from_slice(data);
    assert(buffered(buf) =~= quic_varint(session_id) + data@);
    buf.freeze()
}

/// The session id and the payload of a framed datagram.
pub open spec fn datagram_parts(data: Seq<u8>) -> Option<(nat, Seq<u8>)> {
    match quic_varint_at_start(data) {
        Some((session_id, len)) => Some((session_id, data.skip(len as int))),
        None => None,
    }
}

/// Parses a datagram into the session id and the payload.
/// Returns `None` if it does not start with a whole session id.
pub fn parse_datagram(data: Bytes) -> (parts: Option<(u64, Bytes)>)
    ensures
        parts is None <==> datagram_parts(chunk(data)) is None,
        parts matches Some((session_id, payload)) ==> datagram_parts(chunk(data)) == Some(
            (session_id as nat, chunk(payload)),
        ),
{
    let mut data = data;
    match read_varint(&mut data) {
        Some(session_id) => Some((session_id, data)),
        None => None,
    }
}

/// The stream type, the session id and the length of a stream header. The type is an integer of
/// variable length too.
pub open spec fn stream_header_parts(data: Seq<u8>) -> Option<(nat, nat, nat)> {
    match quic_varint_at_start(data) {
        Some((stream_type, first)) => match quic_varint_at_start(data.skip(first as int)) {
            Some((session_id, second)) => Some((stream_type, session_id, first + second)),
            None => None,
        },
        None => None,
    }
}

/// Parses a WebTransport stream header.
/// Returns the stream type, the session id and the number of bytes consumed, or `None` if the
/// header is not complete. The stream type is an integer of variable length.
pub fn parse_stream_header(data: &[u8]) -> (header: Option<(u64, u64, usize)>)
    ensures
        header is None <==> stream_header_parts(data@) is None,
        header matches Some((stream_type, session_id, consumed)) ==> stream_header_parts(data@)
            == Some((stream_type as nat, session_id as nat, consumed as nat)) && consumed
            <= data@.len(),
{
    let (stream_type, first) = match peek_varint(data) {
        Some(varint) => varint,
        None => {
            return None;
        },
    };
    let rest = vstd::slice::slice_subrange(data, first, data.len());
    assert(rest@ =~= data@.skip(first as int));
    match peek_varint(rest) {
        Some((session_id, second)) => Some((stream_type, session_id, first + second)),
        None => None,
    }
}

/// Reading gives back what was written, whatever follows it, and takes what was written. Only 62
/// bits of an integer are written.
pub proof fn quic_varint_round_trip(value: u64, rest: Seq<u8>)
    requires
        value < 0x4000_0000_0000_0000,
    ensures
        quic_varint_at_start(quic_varint(value) + rest) == Some(
            (value as nat, quic_varint_len(value)),
        ),
        quic_varint(value).len() == quic_varint_len(value),
{
    let len = quic_varint_len(value);
    let word = length_mark(len) + value as nat;
    let bytes = quic_varint(value) + rest;
    assert(quic_varint(value) == big_endian(word, len));
    lemma_big_endian_len(word, len);
    assert(bytes.take(len as int) =~= quic_varint(value));
    lemma_big_endian_mark(value as nat, len);
}

/// `256` to the power `n`.
pub open spec fn power256(n: nat) -> nat
    decreases n,
{
    if n == 0 {
        1
    } else {
        256 * power256((n - 1) as nat)
    }
}

/// Without the two high bits of the first byte, a marked word gives back the value.
proof fn lemma_big_endian_mark(value: nat, len: nat)
    requires
        len == 1 ==> value < 0x40,
        len == 2 ==> value < 0x4000,
        len == 4 ==> value < 0x4000_0000,
        len == 8 ==> value < 0x4000_0000_0000_0000,
        len == 1 || len == 2 || len == 4 || len == 8,
    ensures
        quic_varint_width(big_endian(length_mark(len) + value, len)[0]) == len,
        ({
            let bytes = big_endian(length_mark(len) + value, len);
            big_endian_value(bytes.update(0, bytes[0] % 64)) == value
        }),
{
    let bytes = big_endian(length_mark(len) + value, len);
    let mark: nat = if len == 1 {
        0
    } else if len == 2 {
        1
    } else if len == 4 {
        2
    } else {
        3
    };
    reveal_with_fuel(power256, 9);
    let unit = power256((len - 1) as nat);
    if len == 1 {
        assert(mark * 64 == 0);
        assert(mark * 64 * unit == length_mark(len));
    } else if len == 2 {
        assert(unit == 256);
        assert(mark * 64 * unit == length_mark(len));
    } else if len == 4 {
        assert(unit == 0x100_0000);
        assert(mark * 64 == 128);
        assert(mark * 64 * unit == length_mark(len));
    } else {
        assert(unit == 0x100_0000_0000_0000);
        assert(mark * 64 == 192);
        assert(mark * 64 * unit == length_mark(len));
    }
    lemma_mark_first_byte(mark, value, len);
    lemma_big_endian_value(value, len);
    assert(bytes.update(0, bytes[0] % 64) =~= big_endian(value, len));
}

/// A mark above the bits of a value shows in the first byte only.
proof fn lemma_mark_first_byte(mark: nat, value: nat, len: nat)
    requires
        len >= 1,
        mark < 4,
        value < 64 * power256((len - 1) as nat),
    ensures
        big_endian(value, len).len() == len,
        big_endian(value, len)[0] < 64,
        big_endian(mark * 64 * power256((len - 1) as nat) + value, len) == big_endian(
            value,
            len,
        ).update(0, (64 * mark + big_endian(value, len)[0]) as u8),
    decreases len,
{
    let high = mark * 64 * power256((len - 1) as nat);
    let word = high + value;
    lemma_big_endian_len(word, len);
    lemma_big_endian_len(value, len);
    if len == 1 {
        reveal_with_fuel(big_endian, 2);
        assert(power256(0) == 1);
        assert(high == mark * 64) by (nonlinear_arith)
            requires
                high == mark * 64 * 1,
        ;
        assert(big_endian(word, len) =~= seq![word as u8]);
        assert(big_endian(value, len) =~= seq![value as u8]);
        assert(seq![value as u8].update(0, word as u8) =~= seq![word as u8]);
    } else {
        let lower = mark * 64 * power256((len - 2) as nat);
        assert(high == 256 * lower) by (nonlinear_arith)
            requires
                high == mark * 64 * (256 * power256((len - 2) as nat)),
                lower == mark * 64 * power256((len - 2) as nat),
        ;
        assert(word / 256 == lower + value / 256 && word % 256 == value % 256);
        lemma_mark_first_byte(mark, value / 256, (len - 1) as nat);
        assert(big_endian(word, len) =~= big_endian(value, len).update(
            0,
            (64 * mark + big_endian(value, len)[0]) as u8,
        ));
    }
}

/// The bytes of an integer, read back, are the integer.
proof fn lemma_big_endian_value(value: nat, len: nat)
    requires
        value < power256(len),
    ensures
        big_endian_value(big_endian(value, len)) == value,
    decreases len,
{
    if len > 0 {
        lemma_big_endian_value(value / 256, (len - 1) as nat);
        assert(big_endian(value, len).drop_last() =~= big_endian(value / 256, (len - 1) as nat));
    }
}

/// Parsing a framed datagram gives back the session id and the payload.
pub proof fn datagram_round_trip(session_id: u64, payload: Seq<u8>)
    requires
        session_id < 0x4000_0000_0000_0000,
    ensures
        datagram_parts(quic_varint(session_id) + payload) == Some((session_id as nat, payload)),
{
    quic_varint_round_trip(session_id, payload);
    assert((quic_varint(session_id) + payload).skip(quic_varint_len(session_id) as int)
        =~= payload);
}

/// A stream header whose type is written as an integer of variable length is parsed into the type
/// and the session id, and only the header is consumed.
pub proof fn stream_header_round_trip(stream_type: u64, session_id: u64, rest: Seq<u8>)
    requires
        stream_type < 0x4000_0000_0000_0000,
        session_id < 0x4000_0000_0000_0000,
    ensures
        stream_header_parts(quic_varint(stream_type) + quic_varint(session_id) + rest) == Some(
            (
                stream_type as nat,
                session_id as nat,
                quic_varint_len(stream_type) + quic_varint_len(session_id),
            ),
        ),
{
    let data = quic_varint(stream_type) + quic_varint(session_id) + rest;
    quic_varint_round_trip(stream_type, quic_varint(session_id) + rest);
    quic_varint_round_trip(session_id, rest);
    assert(data =~= quic_varint(stream_type) + (quic_varint(session_id) + rest));
    assert(data.skip(quic_varint_len(stream_type) as int) =~= quic_varint(session_id) + rest);
}

/// A stream header gives back the session id that it was framed with, after the byte that names the
/// kind of the stream.
pub proof fn stream_header_session(kind: u8, session_id: u64, rest: Seq<u8>)
    requires
        session_id < 0x4000_0000_0000_0000,
    ensures
        (stream_header(kind, session_id) + rest)[0] == kind,
        quic_varint_at_start((stream_header(kind, session_id) + rest).skip(1)) == Some(
            (session_id as nat, quic_varint_len(session_id)),
        ),
{
    quic_varint_round_trip(session_id, rest);
    assert((stream_header(kind, session_id) + rest).skip(1) =~= quic_varint(session_id) + rest);
}

/// Of the start of some data, an integer is read as soon as all of it is there.
proof fn lemma_varint_in_start(data: Seq<u8>, n: int)
    requires
        0 <= n <= data.len(),
    ensures
        quic_varint_at_start(data.take(n)) == match quic_varint_at_start(data) {
            Some((value, len)) if len <= n => Some((value, len)),
            _ => None,
        },
{
    if n > 0 {
        assert(data.take(n)[0] == data[0]);
        let len = quic_varint_width(data[0]) as int;
        if len <= n {
            assert(data.take(n).take(len) =~= data.take(len));
        }
    }
}

/// Of the start of some data, a stream header is read as soon as all of it is there.
pub proof fn stream_header_in_start(data: Seq<u8>, n: int)
    requires
        0 <= n <= data.len(),
    ensures
        stream_header_parts(data.take(n)) == match stream_header_parts(data) {
            Some((stream_type, session_id, len)) if len <= n => Some(
                (stream_type, session_id, len),
            ),
            _ => None,
        },
{
    lemma_varint_in_start(data, n);
    if let Some((_, first)) = quic_varint_at_start(data) {
        if first <= n {
            assert(data.take(n).skip(first as int) =~= data.skip(first as int).take(n - first));
            lemma_varint_in_start(data.skip(first as int), n - first);
        }
    }
}

/// Of a part of what was written, an integer is read as soon as all of it is there.
pub proof fn quic_varint_in_part(value: u64, rest: Seq<u8>, len: int)
    requires
        value < 0x4000_0000_0000_0000,
        0 <= len <= quic_varint(value).len() + rest.len(),
    ensures
        quic_varint_at_start((quic_varint(value) + rest).take(len)) == if len
            < quic_varint_len(value) {
            None
        } else {
            Some((value as nat, quic_varint_len(value)))
        },
{
    let data = quic_varint(value) + rest;
    let part = data.take(len);
    let width = quic_varint_len(value);
    quic_varint_round_trip(value, rest);
    if len >= width {
        quic_varint_round_trip(value, rest.take(len - width));
        assert(part =~= quic_varint(value) + rest.take(len - width));
    } else if len > 0 {
        assert(part[0] == data[0]);
    }
}

/// An integer takes one, two, four or eight bytes, as few as it fits in. The two high bits of the
/// first byte say how many, and the other bits are those of the integer, the most significant byte
/// first.
pub proof fn integers_are_bytes(value: u64)
    requires
        value < 0x4000_0000_0000_0000,
    ensures
        ({
            let bytes = quic_varint(value);
            let first = bytes[0] as int % 64;
            if value < 0x40 {
                bytes.len() == 1 && bytes[0] == value
            } else if value < 0x4000 {
                bytes.len() == 2 && bytes[0] / 64 == 1 && value == first * 256 + bytes[1]
            } else if value < 0x4000_0000 {
                bytes.len() == 4 && bytes[0] / 64 == 2 && value == ((first * 256 + bytes[1]) * 256
                    + bytes[2]) * 256 + bytes[3]
            } else {
                bytes.len() == 8 && bytes[0] / 64 == 3 && value == ((((((first * 256 + bytes[1])
                    * 256 + bytes[2]) * 256 + bytes[3]) * 256 + bytes[4]) * 256 + bytes[5]) * 256
                    + bytes[6]) * 256 + bytes[7]
            }
        }),
{
    let len = quic_varint_len(value);
    let bytes = quic_varint(value);
    lemma_big_endian_len(length_mark(len) + value as nat, len);
    lemma_big_endian_mark(value as nat, len);
    let plain = bytes.update(0, bytes[0] % 64);
    lemma_bytes_value(plain);
}

/// The integer that bytes stand for, byte by byte.
proof fn lemma_bytes_value(bytes: Seq<u8>)
    ensures
        bytes.len() == 1 ==> big_endian_value(bytes) == bytes[0],
        bytes.len() == 2 ==> big_endian_value(bytes) == bytes[0] * 256 + bytes[1],
        bytes.len() == 4 ==> big_endian_value(bytes) == ((bytes[0] * 256 + bytes[1]) * 256
            + bytes[2]) * 256 + bytes[3],
        bytes.len() == 8 ==> big_endian_value(bytes) == ((((((bytes[0] * 256 + bytes[1]) * 256
            + bytes[2]) * 256 + bytes[3]) * 256 + bytes[4]) * 256 + bytes[5]) * 256 + bytes[6])
            * 256 + bytes[7],
{
    if bytes.len() == 1 || bytes.len() == 2 || bytes.len() == 4 || bytes.len() == 8 {
        lemma_value_step(bytes, bytes.len() as int);
    }
}

/// The integer that the first bytes stand for, one byte after the other.
proof fn lemma_value_step(bytes: Seq<u8>, n: int)
    requires
        0 < n <= bytes.len(),
    ensures
        big_endian_value(bytes.take(0)) == 0,
        big_endian_value(bytes.take(bytes.len() as int)) == big_endian_value(bytes),
        forall|i: int|
            0 < i <= n ==> #[trigger] big_endian_value(bytes.take(i)) == big_endian_value(
                bytes.take(i - 1),
            ) * 256 + bytes[i - 1],
    decreases n,
{
    assert(bytes.take(bytes.len() as int) =~= bytes);
    if n > 1 {
        lemma_value_step(bytes, n - 1);
    }
    assert(bytes.take(n).drop_last() =~= bytes.take(n - 1));
    assert(bytes.take(n).last() == bytes[n - 1]);
}

/// What is not a whole integer is none: an integer is read as soon as all of its bytes are there.
pub proof fn partial_integers_are_none(value: u64, len: int)
    requires
        value < 0x4000_0000_0000_0000,
        0 <= len < quic_varint(value).len(),
    ensures
        quic_varint_at_start(quic_varint(value).take(len)) is None,
        datagram_parts(quic_varint(value).take(len)) is None,
        stream_header_parts(quic_varint(value).take(len)) is None,
{
    quic_varint_in_part(value, Seq::empty(), len);
    quic_varint_round_trip(value, Seq::empty());
    assert(quic_varint(value) + Seq::<u8>::empty() =~= quic_varint(value));
}

} // verus!
