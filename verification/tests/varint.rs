use nevy::varint::{VarInt, VarIntDecoder};

fn var(value: u64) -> VarInt {
    VarInt::from_u64(value).unwrap()
}

#[test]
fn one_byte() {
    let mut decoder = VarIntDecoder::default();

    assert_eq!(decoder.push_byte(0b01111111), Some(var(0b1111111)));
}

#[test]
fn two_byte() {
    let mut decoder = VarIntDecoder::default();

    assert_eq!(decoder.push_byte(0b11111111), None);
    assert_eq!(
        decoder.push_byte(0b01111111),
        Some(var(0b1111111_1111111))
    );
}

#[test]
fn eight_byte() {
    let mut decoder = VarIntDecoder::default();

    assert_eq!(decoder.push_byte(0b11111111), None);
    assert_eq!(decoder.push_byte(0b11111111), None);
    assert_eq!(decoder.push_byte(0b11111111), None);
    assert_eq!(decoder.push_byte(0b11111111), None);
    assert_eq!(decoder.push_byte(0b11111111), None);
    assert_eq!(decoder.push_byte(0b11111111), None);
    assert_eq!(decoder.push_byte(0b11111111), None);
    assert_eq!(
        decoder.push_byte(0b11111111),
        Some(var(
            0b1_1111111_1111111_1111111_1111111_1111111_1111111_1111111_1111111
        ))
    );
}

#[test]
fn overflow() {
    let mut decoder = VarIntDecoder::default();

    assert_eq!(
        decoder.push_bytes(&[
            0b1111_1111,
            0b1111_1111,
            0b1111_1111,
            0b1111_1111,
            0b1111_1111,
            0b1111_1111,
            0b1111_1111,
            0b1111_1111,
            0b1111_1111
        ]),
        (
            Some(var(
                0b1_1111111_1111111_1111111_1111111_1111111_1111111_1111111_1111111
            )),
            8
        )
    );
}

#[test]
fn creation_guard() {
    assert!(
        VarInt::from_u64(0b1_1111111_1111111_1111111_1111111_1111111_1111111_1111111_1111111)
            .is_some()
    );
    assert!(
        VarInt::from_u64(0b10_0000000_0000000_0000000_0000000_0000000_0000000_0000000_0000000)
            .is_none()
    );
}

#[test]
fn encode() {
    let number =
        VarInt::from_u64(0b1_1111110_1111101_1111011_1110111_1101111_1011111_0111111_1111111)
            .unwrap();

    let mut buffer = Vec::<u8>::new();
    number.encode(&mut buffer);

    let mut decoder = VarIntDecoder::default();
    assert_eq!(decoder.push_bytes(&buffer).0, Some(number));
}

#[test]
fn encoding_appends() {
    let mut buffer = vec![9];
    var(300).encode(&mut buffer);
    assert_eq!(buffer, vec![9, 0b1010_1100, 2]);
    var(0).encode(&mut buffer);
    assert_eq!(buffer, vec![9, 0b1010_1100, 2, 0]);
}

#[test]
fn values_come_back_with_their_length() {
    for value in [0, 1, 127, 128, 16383, 16384, (1 << 56) - 1] {
        let mut buffer = Vec::new();
        var(value).encode(&mut buffer);
        let len = buffer.len();
        buffer.push(77);
        let mut decoder = VarIntDecoder::default();
        let (out, taken) = decoder.push_bytes(&buffer);
        assert_eq!(out.unwrap().as_u64(), value);
        assert_eq!(taken, len);
    }
}

#[test]
fn the_largest_values_leave_a_byte_behind() {
    let value = 1 << 56;
    let mut buffer = Vec::new();
    var(value).encode(&mut buffer);
    assert_eq!(buffer.len(), 9);
    let mut decoder = VarIntDecoder::default();
    let (out, taken) = decoder.push_bytes(&buffer);
    assert_eq!(out.unwrap().as_u64(), value);
    assert_eq!(taken, 8);
}

#[test]
fn decoding_in_pieces() {
    let mut buffer = Vec::new();
    var(1_000_000).encode(&mut buffer);
    let mut decoder = VarIntDecoder::default();
    assert_eq!(decoder.push_bytes(&buffer[..1]), (None, 1));
    assert_eq!(decoder.push_bytes(&[]), (None, 0));
    assert_eq!(
        decoder.push_bytes(&buffer[1..]),
        (Some(var(1_000_000)), buffer.len() - 1)
    );
    // The decoder starts over.
    assert_eq!(decoder.push_byte(5), Some(var(5)));
}
