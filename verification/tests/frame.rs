use windlass::frame::{
    crc16, encode_frame, Frame, LowlevelReader, MessageEncodeError, MESSAGE_LENGTH_MAX,
    MESSAGE_LENGTH_MIN, MESSAGE_LENGTH_PAYLOAD_MAX,
};

fn read_all(reader: &mut LowlevelReader, stream: &[u8]) -> Vec<Frame> {
    let mut frames = Vec::new();
    let mut at = 0;
    while at < stream.len() {
        match reader.start(stream[at]) {
            None => at += 1,
            Some(n) => {
                if at + n > stream.len() {
                    break;
                }
                if let Some(frame) = reader.finish(&stream[at..at + n], at as u64) {
                    frames.push(frame);
                }
                at += n;
            }
        }
    }
    frames
}

#[test]
fn crc_has_the_check_value() {
    assert_eq!(crc16(b"123456789"), 0x6F91);
    assert_eq!(crc16(b""), 0xFFFF);
}

#[test]
fn frames_have_the_expected_bytes() {
    assert_eq!(
        encode_frame(1, &[1, 0, 0x28]),
        Ok(vec![0x08, 0x11, 0x01, 0x00, 0x28, 0x42, 0x24, 0x7E])
    );
    assert_eq!(encode_frame(16, &[]), Ok(vec![0x05, 0x10, 0x9E, 0x81, 0x7E]));
    assert_eq!(encode_frame(0x13, &[0xAA]), Ok(vec![0x06, 0x13, 0xAA, 0x5A, 0x43, 0x7E]));
}

#[test]
fn a_payload_must_fit() {
    assert_eq!(MESSAGE_LENGTH_MIN, 5);
    assert_eq!(MESSAGE_LENGTH_PAYLOAD_MAX, 59);
    let longest = vec![7u8; MESSAGE_LENGTH_PAYLOAD_MAX];
    assert_eq!(encode_frame(3, &longest).map(|f| f.len()), Ok(MESSAGE_LENGTH_MAX));
    let too_long = vec![7u8; MESSAGE_LENGTH_PAYLOAD_MAX + 1];
    assert_eq!(encode_frame(3, &too_long), Err(MessageEncodeError::MessageTooLong));
}

#[test]
fn frames_are_found_in_a_stream() {
    let mut stream = vec![0x33, 0x7E];
    stream.extend(encode_frame(21, &[1, 2, 3]).unwrap());
    stream.extend(encode_frame(22, &[]).unwrap());
    let mut reader = LowlevelReader::new();
    let frames = read_all(&mut reader, &stream);
    assert_eq!(frames.len(), 2);
    assert_eq!((frames[0].sequence, frames[0].payload.as_slice()), (5, &[1u8, 2, 3][..]));
    assert_eq!(frames[0].receive_time, 2);
    assert_eq!((frames[1].sequence, frames[1].payload.len()), (6, 0));
    assert!(reader.synced);
}

#[test]
fn nothing_is_read_before_a_sync_byte() {
    let mut reader = LowlevelReader::new();
    assert!(read_all(&mut reader, &encode_frame(1, &[9]).unwrap()[..5]).is_empty());
    assert!(!reader.synced);
    assert_eq!(reader.start(0x7E), None);
    assert!(reader.synced);
}

#[test]
fn a_length_out_of_range_loses_sync() {
    for length in [0u8, 4, 65, 255] {
        let mut reader = LowlevelReader { synced: true };
        assert_eq!(reader.start(length), None);
        assert!(!reader.synced);
    }
    for length in [5u8, 64] {
        let mut reader = LowlevelReader { synced: true };
        assert_eq!(reader.start(length), Some(length as usize));
        assert!(reader.synced);
    }
}

#[test]
fn a_wrong_checksum_loses_sync() {
    let mut bytes = encode_frame(1, &[1, 2]).unwrap();
    bytes[2] ^= 1;
    let mut reader = LowlevelReader { synced: true };
    assert!(reader.finish(&bytes, 0).is_none());
    assert!(!reader.synced);
}

#[test]
fn a_wrong_destination_loses_sync() {
    let mut bytes = vec![0x05, 0x20];
    let crc = crc16(&bytes);
    bytes.extend([(crc >> 8) as u8, crc as u8, 0x7E]);
    let mut reader = LowlevelReader { synced: true };
    assert!(reader.finish(&bytes, 0).is_none());
    assert!(!reader.synced);
}

#[test]
fn a_reader_finds_frames_again_after_garbage() {
    let mut stream = vec![0x7E, 0x90, 0x01, 0x7E];
    stream.extend(encode_frame(4, &[8]).unwrap());
    let frames = read_all(&mut LowlevelReader::new(), &stream);
    assert_eq!(frames.len(), 1);
    assert_eq!(frames[0].payload, vec![8]);
}
