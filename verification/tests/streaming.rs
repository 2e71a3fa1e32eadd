use bird_protocol::packet::{
    PacketRead, PacketReadableError, PacketVariantReadable, SlicePacketRead,
};
use bird_protocol::packet::{PacketReadable, PacketWritable};
use bird_protocol::packet_default::{
    handle_frame, next_protocol_state, read_server_bound, HandshakeNextState, HandshakePacket,
    LoginEncryptionRequest, LoginPluginResponse, LoginStart, LoginStartSignatureData, PacketState,
    ServerBoundPacket, StatusPingRequest,
};
use bird_protocol::packet_json::ProtocolJson;
use bird_protocol::packet_nbt::{skip_tag, ProtocolNbt};
use bird_protocol::read::ReadStreamQueue;
use bird_protocol::write::{prepare_object, OutgoingQueue, WriteMessage};

#[test]
fn frame_dispatch_known_id() {
    // VarInt id 0x00, then a handshake payload.
    let packet = HandshakePacket {
        protocol_version: 758,
        server_address: "localhost".to_string(),
        server_port: 25565,
        next_state: HandshakeNextState::Status,
    };
    let framed = prepare_object(&packet).unwrap();
    let mut queue = ReadStreamQueue::new();
    queue.push_bytes(framed.as_slice());
    let frame = queue.next_packet().unwrap().unwrap();
    let mut read = SlicePacketRead::new(frame.as_slice());
    match read_server_bound(PacketState::Handshake, &mut read).unwrap() {
        ServerBoundPacket::Handshake(p) => assert_eq!(p, packet),
        other => panic!("dispatched to the wrong payload: {:?}", other),
    }
    assert_eq!(read.available(), 0);
}

#[test]
fn frame_dispatch_unknown_id() {
    let bytes = [0x63, 0x00, 0x00];
    let mut read = SlicePacketRead::new(&bytes);
    assert_eq!(
        read_server_bound(PacketState::Status, &mut read).unwrap_err(),
        PacketReadableError::BadPacketId
    );
}

#[test]
fn frame_dispatch_status_ping() {
    let mut bytes = vec![0x01];
    bytes.extend_from_slice(&42i64.to_be_bytes());
    let mut read = SlicePacketRead::new(bytes.as_slice());
    match read_server_bound(PacketState::Status, &mut read).unwrap() {
        ServerBoundPacket::StatusPing(p) => assert_eq!(p, StatusPingRequest { payload: 42 }),
        other => panic!("dispatched to the wrong payload: {:?}", other),
    }
}

#[test]
fn handshake_drives_state() {
    assert_eq!(next_protocol_state(HandshakeNextState::Status), PacketState::Status);
    assert_eq!(next_protocol_state(HandshakeNextState::Login), PacketState::Login);
}

#[test]
fn read_queue_waits_for_whole_frame() {
    let mut queue = ReadStreamQueue::new();
    // Frame: length 3, payload [7, 8, 9]; fed in two pieces.
    queue.push_bytes(&[0x03, 0x07]);
    assert_eq!(queue.next_packet().unwrap(), None);
    queue.push_bytes(&[0x08, 0x09, 0x02, 0x01]);
    assert_eq!(queue.next_packet().unwrap(), Some(vec![7, 8, 9]));
    // The next frame's prefix says 2 bytes but only one has arrived.
    assert_eq!(queue.next_packet().unwrap(), None);
    queue.push_bytes(&[0x05]);
    assert_eq!(queue.next_packet().unwrap(), Some(vec![1, 5]));
    assert_eq!(queue.close(), Vec::<u8>::new());
}

#[test]
fn read_queue_keeps_leftovers() {
    let mut queue = ReadStreamQueue::new();
    queue.push_bytes(&[0x01, 0xaa, 0xbb]);
    assert_eq!(queue.next_packet().unwrap(), Some(vec![0xaa]));
    assert_eq!(queue.close(), vec![0xbb]);
}

#[test]
fn backpressure_holds_the_last_message() {
    let capacity = 4;
    let mut queue = OutgoingQueue::new(capacity);
    for i in 0..capacity {
        queue
            .try_send(WriteMessage::Bytes(vec![i as u8]))
            .unwrap();
    }
    assert_eq!(queue.len(), capacity);
    // The queue is full: the extra message is handed back, nothing dropped.
    let extra = WriteMessage::Bytes(vec![0xee]);
    assert_eq!(queue.try_send(extra.clone()).unwrap_err(), extra);
    assert_eq!(queue.len(), capacity);
    // Delivery is first in, first out.
    for i in 0..capacity {
        assert_eq!(queue.recv().unwrap(), WriteMessage::Bytes(vec![i as u8]));
    }
    assert_eq!(queue.recv(), None);
}

#[test]
fn close_signal_queues_like_any_message() {
    let mut queue = OutgoingQueue::new(2);
    queue.try_send(WriteMessage::Bytes(vec![1])).unwrap();
    queue.try_send(WriteMessage::Close).unwrap();
    assert_eq!(queue.recv().unwrap(), WriteMessage::Bytes(vec![1]));
    assert_eq!(queue.recv().unwrap(), WriteMessage::Close);
}

#[test]
fn json_document_round_trips() {
    let value = serde_json::Value::from(vec![1i32, 2, 3]);
    let mut out = Vec::new();
    ProtocolJson::write_value(&value, &mut out).unwrap();
    let mut read = SlicePacketRead::new(out.as_slice());
    let back = ProtocolJson::read_value(&mut read).unwrap();
    assert_eq!(back, value);
    assert_eq!(read.available(), 0);
}

#[test]
fn json_document_rejects_malformed() {
    // Length prefix 2, then bytes that are not a JSON document.
    let bytes = [0x02, b'{', b'x'];
    let mut read = SlicePacketRead::new(&bytes);
    assert_eq!(
        ProtocolJson::read_value(&mut read).unwrap_err(),
        PacketReadableError::BadJson
    );
}

#[test]
fn nbt_prescan_consumes_exactly_one_document() {
    // Root compound named "" with one byte entry named "a", then trailing
    // bytes of some other field.
    let doc = [0x0a, 0x00, 0x00, 0x01, 0x00, 0x01, b'a', 0x05, 0x00];
    let mut bytes = doc.to_vec();
    bytes.extend_from_slice(&[0xff, 0x42]);
    let mut read = SlicePacketRead::new(bytes.as_slice());
    let span = <ProtocolNbt as PacketVariantReadable<Vec<u8>>>::read_variant(&mut read).unwrap();
    assert_eq!(span, doc.to_vec());
    assert_eq!(read.available(), 2);
    assert_eq!(read.take_byte().unwrap(), 0xff);
}

#[test]
fn nbt_prescan_empty_document() {
    let bytes = [0x00, 0x33];
    let mut read = SlicePacketRead::new(&bytes);
    let span = <ProtocolNbt as PacketVariantReadable<Vec<u8>>>::read_variant(&mut read).unwrap();
    assert_eq!(span, vec![0x00]);
    assert_eq!(read.available(), 1);
}

#[test]
fn nbt_prescan_nested_list() {
    // Root compound: a list of two shorts named "l", then the end tag.
    let doc = [
        0x0a, 0x00, 0x00, // root tag, empty name
        0x09, 0x00, 0x01, b'l', // list entry named "l"
        0x02, 0x00, 0x00, 0x00, 0x02, // element tag short, count 2
        0x12, 0x34, 0x56, 0x78, // two shorts
        0x00, // end of compound
    ];
    let mut bytes = doc.to_vec();
    bytes.push(0x99);
    let mut read = SlicePacketRead::new(bytes.as_slice());
    let span = <ProtocolNbt as PacketVariantReadable<Vec<u8>>>::read_variant(&mut read).unwrap();
    assert_eq!(span, doc.to_vec());
    assert_eq!(read.available(), 1);
}

#[test]
fn nbt_prescan_rejects_unknown_tag() {
    let bytes = [0x0a, 0x00, 0x00, 0x0d, 0x00, 0x00, 0x00];
    let mut read = SlicePacketRead::new(&bytes);
    assert_eq!(
        <ProtocolNbt as PacketVariantReadable<Vec<u8>>>::read_variant(&mut read).unwrap_err(),
        PacketReadableError::BadNbtTag
    );
}

#[test]
fn prepared_frame_carries_id_and_payload() {
    let ping = StatusPingRequest { payload: 0x1122334455667788 };
    let framed = prepare_object(&ping).unwrap();
    // Frame length 9 = id byte + eight payload bytes.
    assert_eq!(framed[0], 9);
    assert_eq!(framed[1], 0x01);
    assert_eq!(&framed[2..], &[0x11, 0x22, 0x33, 0x44, 0x55, 0x66, 0x77, 0x88]);
}

#[test]
fn login_start_round_trips_with_signature() {
    let packet = LoginStart {
        name: "jenya705".to_string(),
        signature_data: Some(LoginStartSignatureData {
            timestamp: 1_650_000_000,
            public_key: vec![1, 2, 3, 4],
            signature: vec![9, 8, 7],
        }),
    };
    let mut out = Vec::new();
    packet.write(&mut out).unwrap();
    let mut bytes = vec![0x00u8];
    bytes.extend_from_slice(out.as_slice());
    let mut framed = SlicePacketRead::new(bytes.as_slice());
    match read_server_bound(PacketState::Login, &mut framed).unwrap() {
        ServerBoundPacket::LoginStart(p) => assert_eq!(p, packet),
        other => panic!("dispatched to the wrong payload: {:?}", other),
    }
    assert_eq!(framed.available(), 0);
}

#[test]
fn login_start_without_signature() {
    let packet = LoginStart { name: "steve".to_string(), signature_data: None };
    let mut out = Vec::new();
    packet.write(&mut out).unwrap();
    let mut read = SlicePacketRead::new(out.as_slice());
    assert_eq!(LoginStart::read(&mut read).unwrap(), packet);
    assert_eq!(read.available(), 0);
}

#[test]
fn handle_frame_moves_the_state() {
    let packet = HandshakePacket {
        protocol_version: 758,
        server_address: "localhost".to_string(),
        server_port: 25565,
        next_state: HandshakeNextState::Login,
    };
    let mut frame = vec![0x00u8];
    let mut body = Vec::new();
    packet.write(&mut body).unwrap();
    frame.extend_from_slice(body.as_slice());
    let (decoded, next) = handle_frame(PacketState::Handshake, frame.as_slice()).unwrap();
    assert_eq!(decoded, ServerBoundPacket::Handshake(packet));
    assert_eq!(next, PacketState::Login);
    // A status query leaves the state where it is.
    let (_, still) = handle_frame(PacketState::Status, &[0x00]).unwrap();
    assert_eq!(still, PacketState::Status);
}

#[test]
fn login_encryption_request_round_trips() {
    let packet = LoginEncryptionRequest {
        server_id: "".to_string(),
        public_key: vec![0x30, 0x82, 0x01, 0x22],
        verify_token: vec![0xde, 0xad, 0xbe, 0xef],
    };
    let mut out = Vec::new();
    packet.write(&mut out).unwrap();
    let mut read = SlicePacketRead::new(out.as_slice());
    assert_eq!(LoginEncryptionRequest::read(&mut read).unwrap(), packet);
    assert_eq!(read.available(), 0);
}

#[test]
fn login_plugin_response_takes_the_frame_tail() {
    let packet = LoginPluginResponse {
        message_id: 5,
        successful: true,
        data: vec![1, 2, 3, 4, 5],
    };
    let mut out = Vec::new();
    packet.write(&mut out).unwrap();
    let mut read = SlicePacketRead::new(out.as_slice());
    assert_eq!(LoginPluginResponse::read(&mut read).unwrap(), packet);
    assert_eq!(read.available(), 0);
}

#[test]
fn skip_tag_with_zero_count_consumes_nothing() {
    let bytes = [0x12, 0x34];
    let mut read = SlicePacketRead::new(&bytes);
    skip_tag(0x02, 0, &mut read).unwrap();
    assert_eq!(read.available(), 2);
    skip_tag(0x02, 1, &mut read).unwrap();
    assert_eq!(read.available(), 0);
}
