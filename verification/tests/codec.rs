use bird_protocol::bytes::{BytesInputQueue, BytesOutputQueue};
use bird_protocol::packet::{
    PacketRead, PacketReadable, PacketReadableError, PacketVariantReadable, PacketVariantWritable,
    PacketWritable, SlicePacketRead,
};
use bird_protocol::packet_types::RemainingSlice;
use bird_protocol::types::{LengthProvidedArray, RemainingBytesArray};
use bird_protocol::varnum::{VarInt, VarLong};

#[test]
pub fn packet_read() {
    let mut packet_read = SlicePacketRead::new(&[0, 2, 3]);
    assert_eq!(packet_read.available(), 3);
    assert_eq!(packet_read.is_available(3), true);
    assert_eq!(packet_read.is_available(0), true);
    assert_eq!(packet_read.is_available(4), false);
    assert_eq!(packet_read.take_byte().unwrap(), 0);
    assert_eq!(packet_read.take_slice(2).unwrap(), &[2, 3]);
    assert_eq!(packet_read.available(), 0);
    assert_eq!(packet_read.is_available(1), false);
    assert_eq!(
        match packet_read.take_byte().unwrap_err() {
            PacketReadableError::BytesExceeded => true,
            _ => false,
        },
        true
    );
}

#[test]
fn number_tests() {
    {
        let mut read = SlicePacketRead::new(&[0x32, 0x15, 0x44, 0x32, 0x33, 0x55, 0x18]);
        assert_eq!(u8::read(&mut read).unwrap(), 0x32u8);
        assert_eq!(u16::read(&mut read).unwrap(), 0x1544u16);
        assert_eq!(u32::read(&mut read).unwrap(), 0x32335518u32);
    }
    {
        let mut write = Vec::new();
        0x32u8.write(&mut write).unwrap();
        0x5555u16.write(&mut write).unwrap();
        0x03255213i32.write(&mut write).unwrap();
        assert_eq!(write, &[0x32, 0x55, 0x55, 0x03, 0x25, 0x52, 0x13]);
    }
}

#[test]
fn string_tests() {
    let mut write = Vec::new();
    "jenya705 is good boy".write(&mut write).unwrap();
    "женя705 ис гуд бой".write(&mut write).unwrap();
    let mut read = SlicePacketRead::new(write.as_slice());
    assert_eq!(String::read(&mut read).unwrap(), "jenya705 is good boy");
    assert_eq!(String::read(&mut read).unwrap(), "женя705 ис гуд бой");
}

#[test]
fn var_number_tests() {
    {
        let mut read = SlicePacketRead::new(&[0x80, 0x01, 0xff, 0x01, 0xff, 0xff, 0xff, 0xff, 0x0f]);
        assert_eq!(<VarInt as PacketVariantReadable<i32>>::read_variant(&mut read).unwrap(), 128);
        assert_eq!(<VarInt as PacketVariantReadable<i32>>::read_variant(&mut read).unwrap(), 255);
        assert_eq!(<VarInt as PacketVariantReadable<i32>>::read_variant(&mut read).unwrap(), -1);
    }
    {
        let mut write = Vec::new();
        <VarInt as PacketVariantWritable<i32>>::write_variant(&128, &mut write).unwrap();
        <VarInt as PacketVariantWritable<i32>>::write_variant(&255, &mut write).unwrap();
        <VarInt as PacketVariantWritable<i32>>::write_variant(&-1, &mut write).unwrap();
        assert_eq!(write, &[0x80, 0x01, 0xff, 0x01, 0xff, 0xff, 0xff, 0xff, 0x0f]);
    }
}

#[test]
fn slice_tests() {
    {
        let mut read = SlicePacketRead::new(&[0x80, 0x01, 0xff, 0x01, 0xff, 0xff, 0xff, 0xff, 0x0f]);
        assert_eq!(
            <RemainingSlice<VarInt, i32> as PacketVariantReadable<Vec<i32>>>::read_variant(
                &mut read
            )
            .unwrap(),
            &[128, 255, -1]
        );
    }
    {
        let mut write = Vec::new();
        "hello".write(&mut write).unwrap();
        "bye".write(&mut write).unwrap();
        "yeah".write(&mut write).unwrap();
        let mut read = SlicePacketRead::new(write.as_slice());
        assert_eq!(
            <RemainingSlice<String, String> as PacketVariantReadable<Vec<String>>>::read_variant(
                &mut read
            )
            .unwrap(),
            &["hello", "bye", "yeah"]
        );
    }
}

#[test]
fn success_integer_test() {
    {
        let mut output = BytesOutputQueue::new();
        0xff321233_u32.write(&mut output).unwrap();
        let bytes = output.get_bytes();
        assert_eq!(bytes.len(), 4);
        assert_eq!(bytes[0], 0xff);
        assert_eq!(bytes[1], 0x32);
        assert_eq!(bytes[2], 0x12);
        assert_eq!(bytes[3], 0x33);
    }
    {
        let bytes = vec![0x97, 0x32, 0x11, 0xaa];
        let mut input = BytesInputQueue::new(4, bytes);
        assert_eq!(u32::read(&mut input).unwrap(), 0x973211aa_u32);
    }
    {
        let mut output = BytesOutputQueue::new();
        321953285_i64.write(&mut output).unwrap();
        32194325340956843_u64.write(&mut output).unwrap();
        329853_i32.write(&mut output).unwrap();
        2035936534_u32.write(&mut output).unwrap();
        32474_i16.write(&mut output).unwrap();
        6886_u16.write(&mut output).unwrap();
        244_u8.write(&mut output).unwrap();
        (-120_i8).write(&mut output).unwrap();
        true.write(&mut output).unwrap();
        false.write(&mut output).unwrap();
        let mut input = BytesInputQueue::new_without_slice(output.get_bytes());
        assert_eq!(i64::read(&mut input).unwrap(), 321953285_i64);
        assert_eq!(u64::read(&mut input).unwrap(), 32194325340956843_u64);
        assert_eq!(i32::read(&mut input).unwrap(), 329853_i32);
        assert_eq!(u32::read(&mut input).unwrap(), 2035936534_u32);
        assert_eq!(i16::read(&mut input).unwrap(), 32474_i16);
        assert_eq!(u16::read(&mut input).unwrap(), 6886_u16);
        assert_eq!(u8::read(&mut input).unwrap(), 244_u8);
        assert_eq!(i8::read(&mut input).unwrap(), -120_i8);
        assert_eq!(bool::read(&mut input).unwrap(), true);
        assert_eq!(bool::read(&mut input).unwrap(), false);
    }
}

#[test]
fn success_var_num_test() {
    {
        let mut output = BytesOutputQueue::new();
        VarInt(0).write(&mut output).unwrap();
        let bytes = output.get_bytes();
        assert_eq!(bytes[0], 0);
    }
    {
        let mut output = BytesOutputQueue::new();
        VarInt(2097151).write(&mut output).unwrap();
        let bytes = output.get_bytes();
        assert_eq!(bytes.to_vec(), vec![255, 255, 127]);
    }
    {
        let mut output = BytesOutputQueue::new();
        VarInt(-1).write(&mut output).unwrap();
        let bytes = output.get_bytes();
        assert_eq!(bytes.to_vec(), vec![255, 255, 255, 255, 15]);
    }
    {
        let mut input = BytesInputQueue::new(1, vec![0]);
        assert_eq!(VarInt::read(&mut input).unwrap(), VarInt(0));
    }
    {
        let mut input = BytesInputQueue::new(3, vec![255, 255, 127]);
        assert_eq!(VarInt::read(&mut input).unwrap(), VarInt(2097151));
    }
    {
        let mut input = BytesInputQueue::new(5, vec![255, 255, 255, 255, 15]);
        assert_eq!(VarInt::read(&mut input).unwrap(), VarInt(-1));
    }
    {
        let mut output = BytesOutputQueue::new();
        VarLong(-1).write(&mut output).unwrap();
        assert_eq!(
            output.get_bytes().to_vec(),
            vec![255, 255, 255, 255, 255, 255, 255, 255, 255, 1]
        );
    }
    {
        let mut output = BytesOutputQueue::new();
        VarLong(2147483647).write(&mut output).unwrap();
        assert_eq!(output.get_bytes().to_vec(), vec![255, 255, 255, 255, 7]);
    }
    {
        let mut output = BytesOutputQueue::new();
        VarLong(-2147483648).write(&mut output).unwrap();
        assert_eq!(
            output.get_bytes().to_vec(),
            vec![128, 128, 128, 128, 248, 255, 255, 255, 255, 1]
        );
    }
    {
        let mut output = BytesOutputQueue::new();
        VarInt(32).write(&mut output).unwrap();
        VarInt(-1).write(&mut output).unwrap();
        VarLong(-3231).write(&mut output).unwrap();
        VarLong(-32).write(&mut output).unwrap();
        VarLong(32186094).write(&mut output).unwrap();
        VarLong(-321936749532).write(&mut output).unwrap();
        let mut input = BytesInputQueue::new_without_slice(output.get_bytes());
        assert_eq!(VarInt::read(&mut input).unwrap(), VarInt(32));
        assert_eq!(VarInt::read(&mut input).unwrap(), VarInt(-1));
        assert_eq!(VarLong::read(&mut input).unwrap(), VarLong(-3231));
        assert_eq!(VarLong::read(&mut input).unwrap(), VarLong(-32));
        assert_eq!(VarLong::read(&mut input).unwrap(), VarLong(32186094));
        assert_eq!(VarLong::read(&mut input).unwrap(), VarLong(-321936749532));
    }
}

#[test]
fn success_string_test() {
    {
        let mut output = BytesOutputQueue::new();
        "jenya705 is the best".to_string().write(&mut output).unwrap();
        let mut input = BytesInputQueue::new_without_slice(output.get_bytes());
        assert_eq!(String::read(&mut input).unwrap(), "jenya705 is the best".to_string());
    }
    {
        let mut output = BytesOutputQueue::new();
        "я самый лучший".to_string().write(&mut output).unwrap();
        let mut input = BytesInputQueue::new_without_slice(output.get_bytes());
        assert_eq!(String::read(&mut input).unwrap(), "я самый лучший".to_string());
    }
}

#[test]
fn success_remaining_bytes_array_test() {
    {
        let mut output = BytesOutputQueue::new();
        let value = RemainingBytesArray::new(vec![32_u8, 233_u8, 211_u8]);
        value.write(&mut output).unwrap();
        let mut input = BytesInputQueue::new_without_slice(output.get_bytes());
        assert_eq!(RemainingBytesArray::read(&mut input).unwrap(), value);
    }
    {
        let mut output = BytesOutputQueue::new();
        let value = RemainingBytesArray::new(vec![VarInt(-1), VarInt(325), VarInt(3219538)]);
        value.write(&mut output).unwrap();
        let mut input = BytesInputQueue::new_without_slice(output.get_bytes());
        assert_eq!(RemainingBytesArray::read(&mut input).unwrap(), value);
    }
}

#[test]
fn success_length_provided_array_test() {
    {
        let mut output = BytesOutputQueue::new();
        let value = LengthProvidedArray::<VarInt, i16>::new(vec![
            VarInt(321),
            VarInt(-312325),
            VarInt(328138),
        ]);
        value.write(&mut output).unwrap();
        let mut input = BytesInputQueue::new_without_slice(output.get_bytes());
        assert_eq!(LengthProvidedArray::<VarInt, i16>::read(&mut input).unwrap(), value);
    }
    {
        let mut output = BytesOutputQueue::new();
        let value = LengthProvidedArray::<String, VarInt>::new(vec![
            "hello!".to_string(),
            "poka".to_string(),
            "dadada".to_string(),
        ]);
        value.write(&mut output).unwrap();
        let mut input = BytesInputQueue::new_without_slice(output.get_bytes());
        assert_eq!(LengthProvidedArray::<String, VarInt>::read(&mut input).unwrap(), value);
    }
}
