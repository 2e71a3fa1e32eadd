use bird_protocol::packet::{
    PacketRead, PacketReadable, PacketReadableError, PacketVariantReadable, PacketVariantWritable,
    PacketWritable, PacketWritableError, SlicePacketRead,
};
use bird_protocol::position::{Angle, BlockPosition, Uuid};
use bird_protocol::strings::{read_bytes_with_limit, CHAT_LIMIT, STRING_LIMIT};
use bird_protocol::varnum::{VarInt, VarLong};

fn var_int_bytes(value: i32) -> Vec<u8> {
    let mut out = Vec::new();
    <VarInt as PacketVariantWritable<i32>>::write_variant(&value, &mut out).unwrap();
    out
}

#[test]
fn var_int_boundary_table() {
    assert_eq!(var_int_bytes(128), vec![0x80, 0x01]);
    assert_eq!(var_int_bytes(255), vec![0xff, 0x01]);
    assert_eq!(var_int_bytes(2147483647), vec![0xff, 0xff, 0xff, 0xff, 0x07]);
    assert_eq!(var_int_bytes(-1), vec![0xff, 0xff, 0xff, 0xff, 0x0f]);
    assert_eq!(var_int_bytes(-2147483648), vec![0x80, 0x80, 0x80, 0x80, 0x08]);
}

#[test]
fn var_int_too_long_fails() {
    let mut read = SlicePacketRead::new(&[0xff, 0xff, 0xff, 0xff, 0xff, 0x01]);
    assert_eq!(
        <VarInt as PacketVariantReadable<i32>>::read_variant(&mut read).unwrap_err(),
        PacketReadableError::BadVarNum
    );
}

#[test]
fn var_long_extremes_round_trip() {
    let mut out = Vec::new();
    <VarLong as PacketVariantWritable<i64>>::write_variant(&9223372036854775807, &mut out)
        .unwrap();
    <VarLong as PacketVariantWritable<i64>>::write_variant(&-9223372036854775808, &mut out)
        .unwrap();
    let mut read = SlicePacketRead::new(out.as_slice());
    assert_eq!(
        <VarLong as PacketVariantReadable<i64>>::read_variant(&mut read).unwrap(),
        9223372036854775807
    );
    assert_eq!(
        <VarLong as PacketVariantReadable<i64>>::read_variant(&mut read).unwrap(),
        -9223372036854775808
    );
    assert_eq!(read.available(), 0);
}

#[test]
fn string_at_limit_round_trips() {
    let s: String = std::iter::repeat('a').take(32767).collect();
    let mut out = Vec::new();
    s.write(&mut out).unwrap();
    let mut read = SlicePacketRead::new(out.as_slice());
    assert_eq!(String::read(&mut read).unwrap(), s);
    assert_eq!(read.available(), 0);
}

#[test]
fn string_over_limit_fails_encode() {
    let s: String = std::iter::repeat('a').take(32768).collect();
    let mut out = Vec::new();
    assert_eq!(s.write(&mut out).unwrap_err(), PacketWritableError::TooBig);
    assert!(out.is_empty());
}

#[test]
fn string_over_limit_fails_decode() {
    // A crafted frame whose VarInt length prefix claims 32768 bytes.
    let mut bytes = var_int_bytes(32768);
    bytes.extend(std::iter::repeat(0x61).take(32768));
    let mut read = SlicePacketRead::new(bytes.as_slice());
    assert_eq!(
        String::read(&mut read).unwrap_err(),
        PacketReadableError::BadStringLimit
    );
}

#[test]
fn string_bad_utf8_fails_decode() {
    let bytes = [0x02, 0xff, 0xfe];
    let mut read = SlicePacketRead::new(&bytes);
    assert_eq!(String::read(&mut read).unwrap_err(), PacketReadableError::BadUtf8);
}

#[test]
fn block_position_round_trips() {
    let cases = [
        BlockPosition { x: 32, y: -32, z: -32195 },
        BlockPosition { x: -1, y: 0, z: 0 },
        BlockPosition { x: 0, y: -1, z: 0 },
        BlockPosition { x: 0, y: 0, z: -1 },
        BlockPosition { x: 1, y: 1, z: 1 },
        BlockPosition { x: -321, y: 32, z: -32 },
        BlockPosition { x: -33554432, y: -2048, z: -33554432 },
        BlockPosition { x: 33554431, y: 2047, z: 33554431 },
    ];
    for case in cases {
        let mut out = Vec::new();
        case.write(&mut out).unwrap();
        assert_eq!(out.len(), 8);
        let mut read = SlicePacketRead::new(out.as_slice());
        assert_eq!(BlockPosition::read(&mut read).unwrap(), case);
    }
}

#[test]
fn block_position_packing_is_exact() {
    // x:26 | z:26 | y:12, with x = 1 placed at bit 38, z = 1 at bit 12,
    // y = 1 at bit 0.
    let mut out = Vec::new();
    BlockPosition { x: 1, y: 1, z: 1 }.write(&mut out).unwrap();
    assert_eq!(out, vec![0x00, 0x00, 0x00, 0x40, 0x00, 0x00, 0x10, 0x01]);
}

#[test]
fn block_position_masks_out_of_range() {
    // The packing is lossy outside the field widths: a coordinate one past
    // its width wraps to the far end of its range.
    let mut out = Vec::new();
    BlockPosition { x: 0x2000000, y: 0x800, z: -0x2000001 }.write(&mut out).unwrap();
    assert_eq!(out.len(), 8);
    let mut read = SlicePacketRead::new(out.as_slice());
    assert_eq!(
        BlockPosition::read(&mut read).unwrap(),
        BlockPosition { x: -0x2000000, y: -0x800, z: 0x1ffffff }
    );
}

#[test]
fn angle_round_trips() {
    for value in [0u8, 1, 64, 128, 255] {
        let mut out = Vec::new();
        Angle(value).write(&mut out).unwrap();
        assert_eq!(out, vec![value]);
        let mut read = SlicePacketRead::new(out.as_slice());
        assert_eq!(Angle::read(&mut read).unwrap(), Angle(value));
    }
}

#[test]
fn uuid_round_trips() {
    let id = Uuid(0x00112233445566778899aabbccddeeff);
    let mut out = Vec::new();
    id.write(&mut out).unwrap();
    assert_eq!(
        out,
        vec![
            0x00, 0x11, 0x22, 0x33, 0x44, 0x55, 0x66, 0x77, 0x88, 0x99, 0xaa, 0xbb, 0xcc, 0xdd,
            0xee, 0xff
        ]
    );
    let mut read = SlicePacketRead::new(out.as_slice());
    assert_eq!(Uuid::read(&mut read).unwrap(), id);
}

#[test]
fn fixed_width_round_trips() {
    let mut out = Vec::new();
    0x1234_u16.write(&mut out).unwrap();
    (-2_i16).write(&mut out).unwrap();
    0xdeadbeef_u32.write(&mut out).unwrap();
    (-123456789_i32).write(&mut out).unwrap();
    0xdeadbeefcafebabe_u64.write(&mut out).unwrap();
    (-1234567890123_i64).write(&mut out).unwrap();
    (3_u128 << 100).write(&mut out).unwrap();
    (-7_i128).write(&mut out).unwrap();
    let mut read = SlicePacketRead::new(out.as_slice());
    assert_eq!(u16::read(&mut read).unwrap(), 0x1234);
    assert_eq!(i16::read(&mut read).unwrap(), -2);
    assert_eq!(u32::read(&mut read).unwrap(), 0xdeadbeef);
    assert_eq!(i32::read(&mut read).unwrap(), -123456789);
    assert_eq!(u64::read(&mut read).unwrap(), 0xdeadbeefcafebabe);
    assert_eq!(i64::read(&mut read).unwrap(), -1234567890123);
    assert_eq!(u128::read(&mut read).unwrap(), 3_u128 << 100);
    assert_eq!(i128::read(&mut read).unwrap(), -7);
    assert_eq!(read.available(), 0);
}

#[test]
fn bool_decodes_any_nonzero_as_true() {
    let mut read = SlicePacketRead::new(&[0x00, 0x01, 0x7f]);
    assert_eq!(bool::read(&mut read).unwrap(), false);
    assert_eq!(bool::read(&mut read).unwrap(), true);
    assert_eq!(bool::read(&mut read).unwrap(), true);
}

#[test]
fn rollback_rewinds_and_guards() {
    let mut read = SlicePacketRead::new(&[1, 2, 3]);
    assert_eq!(read.take_byte().unwrap(), 1);
    read.rollback(1).unwrap();
    assert_eq!(read.take_byte().unwrap(), 1);
    assert_eq!(read.rollback(2).unwrap_err(), PacketReadableError::BadRollback);
}

#[test]
fn chat_limit_admits_larger_documents() {
    // A span longer than the general string ceiling but under the chat one.
    let payload = vec![0x61u8; 40000];
    let mut bytes = var_int_bytes(40000);
    bytes.extend_from_slice(payload.as_slice());
    {
        let mut read = SlicePacketRead::new(bytes.as_slice());
        assert_eq!(
            read_bytes_with_limit(&mut read, STRING_LIMIT).unwrap_err(),
            PacketReadableError::BadStringLimit
        );
    }
    {
        let mut read = SlicePacketRead::new(bytes.as_slice());
        assert_eq!(read_bytes_with_limit(&mut read, CHAT_LIMIT).unwrap(), payload);
        assert_eq!(read.available(), 0);
    }
}
