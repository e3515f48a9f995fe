use std::io::Write;
use windlass::identify::{
    inflate, Identify, IdentifyFetch, IdentifyResponse, IdentifyResponseDataOwned,
    IDENTIFY_PATIENCE,
};
use windlass::encoding::{FieldType, MessageDecodeError};
use windlass::mcu::{encode_command, FetchError, McuConnectionError, SendReceiveError};
use windlass::messages::Message;

fn deflated(data: &[u8]) -> Vec<u8> {
    let mut encoder =
        flate2::write::ZlibEncoder::new(Vec::new(), flate2::Compression::default());
    encoder.write_all(data).unwrap();
    encoder.finish().unwrap()
}

#[test]
fn a_request_has_the_expected_bytes() {
    let request = encode_command(None, Identify::encode(0, 40)).unwrap();
    assert_eq!(request.as_slice(), &[1, 0, 40]);
    let request = encode_command(None, Identify::encode(1000, 40)).unwrap();
    assert_eq!(request.as_slice(), &[1, 0x87, 0x68, 40]);
}

#[test]
fn requests_and_replies_read_back() {
    let message = Identify::encode(123_456, 40);
    let mut data = &message.payload.as_slice()[2..];
    let arguments = Identify::decode(&mut data).unwrap();
    assert_eq!((arguments.offset, arguments.count), (123_456, 40));
    assert!(data.is_empty());
    let arguments = Identify::into_owned(arguments);
    assert_eq!((arguments.offset, arguments.count), (123_456, 40));

    let message = IdentifyResponse::encode(80, &[5, 6, 7]);
    let mut data = &message.payload.as_slice()[2..];
    let arguments = IdentifyResponse::decode(&mut data).unwrap();
    assert_eq!((arguments.offset, arguments.data), (80, &[5u8, 6, 7][..]));
    let arguments = IdentifyResponse::into_owned(arguments);
    assert_eq!((arguments.offset, arguments.data), (80, vec![5, 6, 7]));
}

#[test]
fn a_cut_off_reply_is_an_error() {
    let mut data: &[u8] = &[0, 3, 1, 2];
    assert!(matches!(
        IdentifyResponse::decode(&mut data),
        Err(MessageDecodeError::InsufficientData)
    ));
    let mut data: &[u8] = &[0];
    assert!(matches!(Identify::decode(&mut data), Err(MessageDecodeError::InsufficientData)));
}

#[test]
fn the_two_messages_are_known_without_a_dictionary() {
    assert_eq!(Identify::get_id(None), Some(1));
    assert_eq!(IdentifyResponse::get_id(None), Some(0));
    assert_eq!(Identify::get_name(), "identify");
    assert_eq!(IdentifyResponse::get_name(), "identify_response");
    assert_eq!(Identify::fields(), vec![("offset", FieldType::U32), ("count", FieldType::U8)]);
    assert_eq!(
        IdentifyResponse::fields(),
        vec![("offset", FieldType::U32), ("data", FieldType::ByteArray)]
    );
    let message = Identify::encode(0, 1);
    assert_eq!(message.message_id(None), Some(1));
    assert_eq!(message.message_name(), "identify");
}

#[test]
fn the_whole_data_is_fetched() {
    let source: Vec<u8> = (0..130u32).map(|i| (i * 7) as u8).collect();
    let mut fetch = IdentifyFetch::new();
    let mut turns = 0;
    loop {
        let request = fetch.request();
        let asked = Identify::decode(&mut &request.payload.as_slice()[2..]).unwrap();
        assert_eq!(asked.offset as usize, fetch.data.len());
        assert_eq!(asked.count, 40);
        let from = asked.offset as usize;
        let to = (from + asked.count as usize).min(source.len());
        let reply =
            IdentifyResponseDataOwned { offset: asked.offset, data: source[from..to].to_vec() };
        turns += 1;
        if fetch.step(Ok(reply), 0).unwrap() {
            break;
        }
        assert_eq!(fetch.data, source[..to].to_vec());
    }
    assert_eq!(fetch.data, source);
    assert_eq!(turns, 5);
}

#[test]
fn a_reply_for_another_offset_is_ignored() {
    let mut fetch = IdentifyFetch { data: vec![1, 2, 3] };
    let late = IdentifyResponseDataOwned { offset: 0, data: vec![9] };
    assert!(!fetch.step(Ok(late), u64::MAX).unwrap());
    assert_eq!(fetch.data, vec![1, 2, 3]);
    let empty_elsewhere = IdentifyResponseDataOwned { offset: 2, data: vec![] };
    assert!(!fetch.step(Ok(empty_elsewhere), 0).unwrap());
    let end = IdentifyResponseDataOwned { offset: 3, data: vec![] };
    assert!(fetch.step(Ok(end), 0).unwrap());
}

#[test]
fn errors_count_once_the_patience_is_over() {
    let mut fetch = IdentifyFetch::new();
    assert!(!fetch.step(Err(SendReceiveError::Timeout), 0).unwrap());
    assert!(!fetch.step(Err(SendReceiveError::Timeout), IDENTIFY_PATIENCE).unwrap());
    match fetch.step(Err(SendReceiveError::Timeout), IDENTIFY_PATIENCE + 1) {
        Err(McuConnectionError::DictionaryFetch(FetchError::Exchange(e))) => {
            assert!(matches!(*e, SendReceiveError::Timeout))
        }
        other => panic!("{other:?}"),
    }
}

#[test]
fn data_is_inflated() {
    let data = b"{\"commands\":{\"get_clock\":5}}".repeat(20);
    let mut packed = deflated(&data);
    assert!(packed.len() < data.len());
    assert_eq!(inflate(&packed).unwrap(), data);
    packed.push(b'x');
    assert_eq!(inflate(&packed).unwrap(), data);
}

#[test]
fn bad_data_is_not_inflated() {
    let packed = deflated(b"some data that is cut off");
    for bad in [&packed[..packed.len() - 1], &b"not zlib at all"[..], &[][..]] {
        assert!(matches!(
            inflate(bad),
            Err(McuConnectionError::DictionaryFetch(FetchError::Inflate(_)))
        ));
    }
}
