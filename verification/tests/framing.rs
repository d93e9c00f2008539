use robomodules::codec::{Decoder, RawFrame};
use robomodules::directive::{encode_directive_payload, Direction};
use robomodules::message::{write_message, Msg, MsgType};
use robomodules::wire::MAGIC_HEADER;

fn drain(d: &mut Decoder) -> Vec<RawFrame> {
    let mut out = Vec::new();
    while let Some(f) = d.try_decode_one() {
        out.push(f);
    }
    out
}

fn decode_all(bytes: &[u8]) -> Vec<RawFrame> {
    let mut d = Decoder::new();
    d.feed(bytes);
    drain(&mut d)
}

#[test]
fn magic_constant_value() {
    assert_eq!(MAGIC_HEADER, 17380);
    assert_eq!(MAGIC_HEADER.to_be_bytes(), [0x43, 0xE4]);
}

#[test]
fn type_identifiers() {
    assert_eq!(MsgType::LightState.id(), 0);
    assert_eq!(MsgType::PacmanLocation.id(), 1);
    assert_eq!(MsgType::FullState.id(), 2);
    assert_eq!(MsgType::Subscribe.id(), 15000);
}

#[test]
fn type_identifier_round_trip() {
    for t in [
        MsgType::LightState,
        MsgType::PacmanLocation,
        MsgType::FullState,
        MsgType::Subscribe,
    ] {
        assert_eq!(MsgType::from_id(t.id()), Some(t));
    }
}

#[test]
fn unknown_type_identifiers() {
    assert_eq!(MsgType::from_id(3), None);
    assert_eq!(MsgType::from_id(14999), None);
    assert_eq!(MsgType::from_id(17380), None);
    assert_eq!(MsgType::from_id(u16::MAX), None);
}

#[test]
fn write_message_exact_bytes() {
    let bytes = write_message(Msg::LightState(vec![1, 2, 3]));
    assert_eq!(
        bytes,
        vec![0x43, 0xE4, 0, 0, 0, 0, 0, 0, 0, 0, 0, 3, 1, 2, 3]
    );
}

#[test]
fn write_message_subscribe_type_bytes() {
    let bytes = write_message(Msg::Subscribe(vec![8, 0, 16, 0]));
    assert_eq!(
        bytes,
        vec![0x43, 0xE4, 0x3A, 0x98, 0, 0, 0, 0, 0, 0, 0, 4, 8, 0, 16, 0]
    );
}

#[test]
fn round_trip_every_message_type() {
    let cases = [
        (Msg::LightState(vec![10, 20]), 0u16, vec![10u8, 20]),
        (Msg::PacmanLocation(vec![7]), 1, vec![7]),
        (Msg::FullState(vec![1, 2, 3, 4]), 2, vec![1, 2, 3, 4]),
        (Msg::Subscribe(vec![8, 1, 16, 2]), 15000, vec![8, 1, 16, 2]),
    ];
    for (msg, type_id, payload) in cases {
        let frames = decode_all(&write_message(msg));
        assert_eq!(frames.len(), 1);
        assert_eq!(frames[0].type_id, type_id);
        assert_eq!(frames[0].payload, payload);
    }
}

#[test]
fn round_trip_zero_length_payload() {
    let frames = decode_all(&write_message(Msg::FullState(Vec::new())));
    assert_eq!(frames.len(), 1);
    assert_eq!(frames[0].type_id, 2);
    assert_eq!(frames[0].payload, Vec::<u8>::new());
}

#[test]
fn reassembly_is_split_invariant() {
    let mut stream = Vec::new();
    stream.extend_from_slice(&write_message(Msg::LightState(vec![1, 2, 3])));
    stream.extend_from_slice(&write_message(Msg::FullState(Vec::new())));
    stream.extend_from_slice(&write_message(Msg::PacmanLocation(vec![42; 20])));
    let whole = decode_all(&stream);
    assert_eq!(whole.len(), 3);
    for cut in 0..=stream.len() {
        let mut d = Decoder::new();
        d.feed(&stream[..cut]);
        let mut got = drain(&mut d);
        d.feed(&stream[cut..]);
        got.extend(drain(&mut d));
        assert_eq!(got, whole);
    }
}

#[test]
fn reassembly_byte_by_byte() {
    let mut stream = Vec::new();
    stream.extend_from_slice(&write_message(Msg::LightState(vec![9])));
    stream.extend_from_slice(&write_message(Msg::FullState(vec![8, 7])));
    let whole = decode_all(&stream);
    let mut d = Decoder::new();
    let mut got = Vec::new();
    for b in &stream {
        d.feed(&[*b]);
        got.extend(drain(&mut d));
    }
    assert_eq!(got, whole);
}

#[test]
fn resync_discards_whole_buffer() {
    // Two garbage bytes between two frames desynchronise the stream; the
    // decoder discards everything it had buffered, so the second frame,
    // arriving in the same read as the garbage, is lost with it.
    let mut stream = Vec::new();
    stream.extend_from_slice(&write_message(Msg::LightState(vec![1])));
    stream.extend_from_slice(&[0xDE, 0xAD]);
    stream.extend_from_slice(&write_message(Msg::FullState(vec![2])));
    let frames = decode_all(&stream);
    assert_eq!(frames.len(), 1);
    assert_eq!(frames[0].type_id, 0);
    assert_eq!(frames[0].payload, vec![1]);
}

#[test]
fn resync_recovers_for_later_frames() {
    // Once the garbage has been consumed and discarded, the decoder is
    // clean again and the next frame decodes normally.
    let mut d = Decoder::new();
    d.feed(&write_message(Msg::LightState(vec![1])));
    let first = drain(&mut d);
    assert_eq!(first.len(), 1);
    d.feed(&[0xFF; 12]);
    assert_eq!(drain(&mut d), Vec::new());
    d.feed(&write_message(Msg::FullState(vec![5, 6])));
    let second = drain(&mut d);
    assert_eq!(second.len(), 1);
    assert_eq!(second[0].type_id, 2);
    assert_eq!(second[0].payload, vec![5, 6]);
}

#[test]
fn garbage_magic_with_huge_length_is_dropped() {
    // A bogus header is consumed whole; the magic check fires before the
    // announced length can make the decoder wait.
    let mut d = Decoder::new();
    d.feed(&[0xFF; 12]);
    assert_eq!(drain(&mut d), Vec::new());
    d.feed(&write_message(Msg::LightState(vec![3])));
    assert_eq!(drain(&mut d).len(), 1);
}

#[test]
fn incomplete_frame_waits() {
    let bytes = write_message(Msg::FullState(vec![1, 2, 3, 4, 5]));
    let mut d = Decoder::new();
    d.feed(&bytes[..bytes.len() - 1]);
    assert_eq!(drain(&mut d), Vec::new());
    d.feed(&bytes[bytes.len() - 1..]);
    let frames = drain(&mut d);
    assert_eq!(frames.len(), 1);
    assert_eq!(frames[0].payload, vec![1, 2, 3, 4, 5]);
}

#[test]
fn directive_payload_bytes() {
    let payload = encode_directive_payload(Direction::Subscribe, &vec![0, 1, 2]);
    assert_eq!(payload, vec![8, 0, 16, 0, 16, 1, 16, 2]);
    let payload = encode_directive_payload(Direction::Unsubscribe, &vec![2]);
    assert_eq!(payload, vec![8, 1, 16, 2]);
}

#[test]
fn directive_payload_varint_bytes() {
    // 300 = 0b100101100: low seven bits 0101100 with the continuation bit,
    // then 0b10.
    let payload = encode_directive_payload(Direction::Subscribe, &vec![300]);
    assert_eq!(payload, vec![8, 0, 16, 0xAC, 0x02]);
    let payload = encode_directive_payload(Direction::Subscribe, &vec![15000]);
    assert_eq!(payload, vec![8, 0, 16, 0x98, 0x75]);
}

#[test]
fn directive_payload_empty_list() {
    let payload = encode_directive_payload(Direction::Unsubscribe, &Vec::new());
    assert_eq!(payload, vec![8, 1]);
}
