use bird_protocol::bytes::{BytesInputQueue, BytesOutputQueue, InputPacketBytesPrepared,
    OutputPacketBytesVec};
use bird_protocol::packet::{PacketReadable, PacketWritable};
use bird_protocol::position::BlockPosition;
use bird_protocol::varnum::{VarInt, VarLong};

#[test]
fn success_block_position_test() {
    let cases = [
        BlockPosition { x: 1, y: 1, z: 1 },
        BlockPosition { x: -321, y: 32, z: -32 },
        BlockPosition { x: -320, y: 32, z: -3123 },
        BlockPosition { x: 321, y: 255, z: -325837 },
    ];
    for case in cases {
        let mut output = BytesOutputQueue::new();
        case.write(&mut output).unwrap();
        let mut input = BytesInputQueue::new_without_slice(output.get_bytes());
        assert_eq!(BlockPosition::read(&mut input).unwrap(), case);
    }
}

#[test]
fn success_compound_test() {
    let mut output = BytesOutputQueue::new();
    0_u32.write(&mut output).unwrap();
    12_u16.write(&mut output).unwrap();
    32_u8.write(&mut output).unwrap();
    VarInt(-1).write(&mut output).unwrap();
    VarLong(32).write(&mut output).unwrap();
    VarLong(-2).write(&mut output).unwrap();
    "some_string".to_string().write(&mut output).unwrap();
    let position = BlockPosition { x: 32321, y: 233, z: -32325 };
    position.write(&mut output).unwrap();
    let mut input = BytesInputQueue::new_without_slice(output.get_bytes());
    assert_eq!(u32::read(&mut input).unwrap(), 0_u32);
    assert_eq!(u16::read(&mut input).unwrap(), 12_u16);
    assert_eq!(u8::read(&mut input).unwrap(), 32_u8);
    assert_eq!(VarInt::read(&mut input).unwrap(), VarInt(-1));
    assert_eq!(VarLong::read(&mut input).unwrap(), VarLong(32));
    assert_eq!(VarLong::read(&mut input).unwrap(), VarLong(-2));
    assert_eq!(String::read(&mut input).unwrap(), "some_string".to_string());
    assert_eq!(BlockPosition::read(&mut input).unwrap(), position);
}

#[test]
fn numbers_test() {
    {
        let mut output = OutputPacketBytesVec::new();
        1_u8.write(&mut output).unwrap();
        2_u16.write(&mut output).unwrap();
        53232323_u32.write(&mut output).unwrap();
        43295438_i32.write(&mut output).unwrap();
        assert_eq!(
            output.data,
            vec![0x01, 0x00, 0x02, 0x03, 0x2c, 0x42, 0xc3, 0x02, 0x94, 0xa2, 0xce]
        );
    }
    {
        let mut input = InputPacketBytesPrepared::from_vec(vec![
            0x03, 0xc3, 0x33, 0x21, 0x49, 0x12, 0x32,
        ]);
        assert_eq!(u8::read(&mut input).unwrap(), 0x03);
        assert_eq!(u32::read(&mut input).unwrap(), 0xc3332149);
        assert_eq!(u16::read(&mut input).unwrap(), 0x1232);
    }
}

#[test]
fn var_numbers_test() {
    let mut output = OutputPacketBytesVec::new();
    VarInt(2097151).write(&mut output).unwrap();
    VarInt(2147483647).write(&mut output).unwrap();
    VarInt(-2147483648).write(&mut output).unwrap();
    VarInt(-1).write(&mut output).unwrap();
    VarLong(9223372036854775807).write(&mut output).unwrap();
    VarLong(-9223372036854775808).write(&mut output).unwrap();
    assert_eq!(
        output.data,
        vec![
            0xff, 0xff, 0x7f,
            0xff, 0xff, 0xff, 0xff, 0x07,
            0x80, 0x80, 0x80, 0x80, 0x08,
            0xff, 0xff, 0xff, 0xff, 0x0f,
            0xff, 0xff, 0xff, 0xff, 0xff, 0xff, 0xff, 0xff, 0x7f,
            0x80, 0x80, 0x80, 0x80, 0x80, 0x80, 0x80, 0x80, 0x80, 0x01
        ]
    );
    let mut input = InputPacketBytesPrepared::from_vec(output.data);
    assert_eq!(VarInt::read(&mut input).unwrap().0, 2097151);
    assert_eq!(VarInt::read(&mut input).unwrap().0, 2147483647);
    assert_eq!(VarInt::read(&mut input).unwrap().0, -2147483648);
    assert_eq!(VarInt::read(&mut input).unwrap().0, -1);
    assert_eq!(VarLong::read(&mut input).unwrap().0, 9223372036854775807);
    assert_eq!(VarLong::read(&mut input).unwrap().0, -9223372036854775808);
}
