use std::cell::RefCell;
use std::collections::BTreeMap;
use std::marker::PhantomData;
use std::rc::Rc;
use std::sync::Arc;
use windlass::dictionary::{Dictionary, RawDictionary};
use windlass::encoding::{FieldType, MessageDecodeError};
use windlass::identify::{Identify, IdentifyResponse};
use windlass::mcu::{
    begin_send, decode_reply, encode_command, read_id, verify_command_matches, Exchange, ExchangeEvent,
    ExchangeStep, Handler, HandlerResult, Handlers, McuConnectionError, McuConnectionInner,
    RegisteredResponseHandle, SendReceiveError, MAX_ATTEMPTS,
};
use windlass::messages::{find_id, EncodedMessage, FrontTrimmableBuffer, Message};
use windlass::string_map::StringMap;

type Log = Rc<RefCell<Vec<(u32, Vec<u8>)>>>;

struct Recorder {
    name: u32,
    log: Log,
    stays: bool,
    takes: usize,
}

impl Handler for Recorder {
    fn handle(self, data: &[u8]) -> (Self, HandlerResult, usize) {
        self.log.borrow_mut().push((self.name, data.to_vec()));
        let result =
            if self.stays { HandlerResult::Continue } else { HandlerResult::Deregister };
        let takes = self.takes;
        (self, result, takes)
    }
}

fn recorder(log: &Log, name: u32, stays: bool, takes: usize) -> Recorder {
    Recorder { name, log: log.clone(), stays, takes }
}

fn dictionary() -> Dictionary {
    let mut commands = StringMap::new();
    commands.insert("set_pin oid=%c value=%u".to_string(), 10);
    commands.insert("long_id x=%u".to_string(), 300);
    let mut responses = StringMap::new();
    responses.insert("pin_state oid=%c value=%u".to_string(), 20);
    responses.insert("clock clock=%u".to_string(), 400);
    Dictionary::from_raw_dictionary(RawDictionary {
        config: BTreeMap::new(),
        enumerations: BTreeMap::new(),
        commands,
        responses,
        output: StringMap::new(),
        build_versions: None,
        version: None,
        extra: BTreeMap::new(),
    })
    .unwrap()
}

/// Messages that are declared by their names alone.
struct SetPin;
struct LongId;
struct Unknown;
struct Clock;

impl Message for SetPin {
    type Pod<'a> = (u8, i32);
    type PodOwned = (u8, i32);
    fn get_id(dict: Option<&Dictionary>) -> Option<u16> {
        find_id(None, "set_pin", dict)
    }
    fn get_name() -> &'static str {
        "set_pin"
    }
    fn decode<'a>(input: &mut &'a [u8]) -> Result<(u8, i32), MessageDecodeError> {
        let oid = windlass::encoding::Readable::read(input)?;
        let value = windlass::encoding::Readable::read(input)?;
        Ok((oid, value))
    }
    fn into_owned<'a>(pod: (u8, i32)) -> (u8, i32) {
        pod
    }
    fn fields() -> Vec<(&'static str, FieldType)> {
        vec![("oid", FieldType::U8), ("value", FieldType::I32)]
    }
}

impl Message for LongId {
    type Pod<'a> = u32;
    type PodOwned = u32;
    fn get_id(dict: Option<&Dictionary>) -> Option<u16> {
        find_id(None, "long_id", dict)
    }
    fn get_name() -> &'static str {
        "long_id"
    }
    fn decode<'a>(input: &mut &'a [u8]) -> Result<u32, MessageDecodeError> {
        windlass::encoding::Readable::read(input)
    }
    fn into_owned<'a>(pod: u32) -> u32 {
        pod
    }
    fn fields() -> Vec<(&'static str, FieldType)> {
        vec![("x", FieldType::U32)]
    }
}

impl Message for Unknown {
    type Pod<'a> = ();
    type PodOwned = ();
    fn get_id(dict: Option<&Dictionary>) -> Option<u16> {
        find_id(None, "unknown", dict)
    }
    fn get_name() -> &'static str {
        "unknown"
    }
    fn decode<'a>(_input: &mut &'a [u8]) -> Result<(), MessageDecodeError> {
        Ok(())
    }
    fn into_owned<'a>(_pod: ()) {}
    fn fields() -> Vec<(&'static str, FieldType)> {
        vec![]
    }
}

impl Message for Clock {
    type Pod<'a> = u32;
    type PodOwned = u32;
    fn get_id(dict: Option<&Dictionary>) -> Option<u16> {
        find_id(None, "clock", dict)
    }
    fn get_name() -> &'static str {
        "clock"
    }
    fn decode<'a>(input: &mut &'a [u8]) -> Result<u32, MessageDecodeError> {
        windlass::encoding::Readable::read(input)
    }
    fn into_owned<'a>(pod: u32) -> u32 {
        pod
    }
    fn fields() -> Vec<(&'static str, FieldType)> {
        vec![("clock", FieldType::U32)]
    }
}

fn encoded<M>(arguments: &[u8]) -> EncodedMessage<M> {
    let mut content = vec![0, 0];
    content.extend(arguments);
    EncodedMessage {
        payload: FrontTrimmableBuffer { content, offset: 0 },
        _message_kind: PhantomData,
    }
}

fn connection() -> McuConnectionInner<Recorder> {
    McuConnectionInner { dictionary: Some(Arc::new(dictionary())), handlers: Handlers::new() }
}

#[test]
fn a_handler_is_called_until_it_deregisters() {
    let log = Log::default();
    let mut handlers = Handlers::new();
    handlers.register(7, None, recorder(&log, 1, true, 2));
    handlers.register(8, Some(3), recorder(&log, 2, false, 1));
    let mut data: &[u8] = &[10, 11, 12];
    assert!(handlers.call(7, None, &mut data));
    assert_eq!(data, &[12]);
    assert!(handlers.call(7, None, &mut data));
    assert!(data.is_empty());
    let mut data: &[u8] = &[5, 6];
    assert!(!handlers.call(8, None, &mut data));
    assert!(!handlers.call(8, Some(4), &mut data));
    assert!(handlers.call(8, Some(3), &mut data));
    assert_eq!(data, &[6]);
    assert!(!handlers.call(8, Some(3), &mut data));
    assert_eq!(data, &[6]);
    assert_eq!(
        *log.borrow(),
        vec![(1, vec![10, 11, 12]), (1, vec![12]), (2, vec![5, 6])]
    );
}

#[test]
fn a_registration_replaces_the_one_before() {
    let log = Log::default();
    let mut handlers = Handlers::new();
    let first = handlers.register(7, None, recorder(&log, 1, true, 0));
    let second = handlers.register(7, None, recorder(&log, 2, true, 0));
    assert_eq!(first, RegisteredResponseHandle(0));
    assert_eq!(second, RegisteredResponseHandle(1));
    handlers.remove_handler(7, None, Some(first));
    let mut data: &[u8] = &[1];
    assert!(handlers.call(7, None, &mut data));
    assert_eq!(*log.borrow(), vec![(2, vec![1])]);
    handlers.remove_handler(7, Some(0), Some(second));
    assert!(handlers.call(7, None, &mut data));
    handlers.remove_handler(7, None, Some(second));
    assert!(!handlers.call(7, None, &mut data));
    handlers.register(7, None, recorder(&log, 3, true, 0));
    handlers.remove_handler(7, None, None);
    assert!(!handlers.call(7, None, &mut data));
}

#[test]
fn registration_numbers_wrap_around() {
    let log = Log::default();
    let mut handlers = Handlers::new();
    handlers.next_handler = usize::MAX;
    assert_eq!(
        handlers.register(1, None, recorder(&log, 1, true, 0)),
        RegisteredResponseHandle(usize::MAX)
    );
    assert_eq!(
        handlers.register(1, None, recorder(&log, 1, true, 0)),
        RegisteredResponseHandle(0)
    );
}

#[test]
fn a_settled_handler_stays_or_goes() {
    let log = Log::default();
    let mut handlers = Handlers::new();
    handlers.settle(4, Some(1), 9, recorder(&log, 1, true, 0), HandlerResult::Continue);
    handlers.settle(5, None, 10, recorder(&log, 1, true, 0), HandlerResult::Deregister);
    let mut data: &[u8] = &[];
    assert!(handlers.call(4, Some(1), &mut data));
    assert!(!handlers.call(5, None, &mut data));
    handlers.remove_handler(4, Some(1), Some(RegisteredResponseHandle(9)));
    assert!(!handlers.call(4, Some(1), &mut data));
}

#[test]
fn a_handler_cannot_take_more_than_there_is() {
    let log = Log::default();
    let mut handlers = Handlers::new();
    handlers.register(7, None, recorder(&log, 1, true, 100));
    let mut data: &[u8] = &[1, 2];
    assert!(handlers.call(7, None, &mut data));
    assert!(data.is_empty());
}

#[test]
fn ids_take_one_or_two_bytes() {
    let dict = dictionary();
    let short = encode_command(Some(&dict), encoded::<SetPin>(&[4, 5])).unwrap();
    assert_eq!(short.as_slice(), &[10, 4, 5]);
    let long = encode_command(Some(&dict), encoded::<LongId>(&[6])).unwrap();
    assert_eq!(long.as_slice(), &[0x82, 0x2C, 6]);
    let mut data = long.as_slice();
    assert_eq!(read_id(&mut data), Ok(300));
    assert_eq!(data, &[6]);
    let mut data = short.as_slice();
    assert_eq!(read_id(&mut data), Ok(10));
    let mut cut_off: &[u8] = &[0x82];
    assert_eq!(read_id(&mut cut_off), Err(MessageDecodeError::InsufficientData));
}

#[test]
fn a_message_without_an_id_cannot_be_sent() {
    assert!(matches!(
        encode_command(Some(&dictionary()), encoded::<Unknown>(&[])),
        Err(McuConnectionError::UnknownMessageId("unknown"))
    ));
    assert!(matches!(
        encode_command(None, encoded::<LongId>(&[])),
        Err(McuConnectionError::UnknownMessageId("long_id"))
    ));
}

#[test]
fn messages_go_to_their_handlers() {
    let log = Log::default();
    let mut inner = connection();
    inner.handlers.register(20, Some(1), recorder(&log, 1, true, 0));
    inner.handlers.register(20, Some(2), recorder(&log, 2, false, 99));
    inner.handlers.register(400, None, recorder(&log, 3, true, 1));
    let frame: &[u8] = &[
        20, 1, 50, // object 1
        0x83, 0x10, 60, // clock
        20, 2, 51, // object 2
        20, 3, 52, // object 3, which nobody waits for
        20, 2, 53, // object 2 again, whose handler is gone
    ];
    let mut data = frame;
    inner.parse_frame(&mut data).unwrap();
    assert!(data.is_empty());
    assert_eq!(
        *log.borrow(),
        vec![
            (1, frame[1..].to_vec()),
            (3, frame[5..].to_vec()),
            (2, frame[7..].to_vec()),
        ]
    );
}

#[test]
fn the_same_calls_lead_to_the_same_end() {
    let ends: Vec<_> = (0..2)
        .map(|_| {
            let log = Log::default();
            let mut inner = connection();
            inner.handlers.register(20, Some(2), recorder(&log, 1, false, 2));
            let mut data: &[u8] = &[20, 2, 5, 20, 2, 6, 99, 7];
            let result = format!("{:?}", inner.parse_frame(&mut data));
            let calls = log.borrow().clone();
            (result, data.to_vec(), inner.handlers.handlers.len(), calls)
        })
        .collect();
    assert_eq!(ends[0], ends[1]);
    assert_eq!(ends[0].0, "Err(UnknownCommand(99))");
    assert_eq!(ends[0].2, 0);
}

#[test]
fn an_unknown_command_is_an_error() {
    let mut inner = connection();
    let mut data: &[u8] = &[20, 1, 50, 21, 1];
    assert!(matches!(
        inner.parse_frame(&mut data),
        Err(McuConnectionError::UnknownCommand(21))
    ));
    assert_eq!(data, &[1]);
}

#[test]
fn a_cut_off_frame_is_an_error() {
    let mut inner = connection();
    for frame in [&[20u8, 1][..], &[0x82][..], &[20, 1, 0x80][..]] {
        let mut data = frame;
        assert!(matches!(
            inner.parse_frame(&mut data),
            Err(McuConnectionError::DecodingError(MessageDecodeError::InsufficientData))
        ));
    }
}

#[test]
fn without_a_dictionary_only_raw_handlers_are_called() {
    let log = Log::default();
    let mut inner: McuConnectionInner<Recorder> =
        McuConnectionInner { dictionary: None, handlers: Handlers::new() };
    inner.handlers.register(0, None, recorder(&log, 1, false, 3));
    let mut data: &[u8] = &[5, 6, 0, 1, 2, 3, 0];
    inner.parse_frame(&mut data).unwrap();
    assert!(data.is_empty());
    assert_eq!(*log.borrow(), vec![(1, vec![1, 2, 3, 0])]);
}

#[test]
fn a_message_must_have_the_declared_arguments() {
    let dict = dictionary();
    assert!(verify_command_matches::<LongId>(Some(&dict), false).is_ok());
    match verify_command_matches::<SetPin>(Some(&dict), false) {
        Err(McuConnectionError::CommandMismatch(name, theirs, ours)) => {
            assert_eq!(name, "set_pin");
            assert_eq!(theirs, "oid=%c value=%u");
            assert_eq!(ours, "oid=%c value=%i");
        }
        other => panic!("{other:?}"),
    }
    assert!(verify_command_matches::<SetPin>(Some(&dict), true).is_ok());
    assert!(matches!(
        verify_command_matches::<Unknown>(Some(&dict), false),
        Err(McuConnectionError::UnknownMessageId("unknown"))
    ));
    assert!(verify_command_matches::<Identify>(None, false).is_ok());
    assert!(verify_command_matches::<IdentifyResponse>(None, false).is_ok());
}

#[test]
fn a_response_is_registered_under_its_id() {
    let log = Log::default();
    let mut inner = connection();
    let handle = inner.register_raw_response(Clock, None, recorder(&log, 1, true, 1)).unwrap();
    let mut data: &[u8] = &[0x83, 0x10, 9];
    inner.parse_frame(&mut data).unwrap();
    assert_eq!(*log.borrow(), vec![(1, vec![9])]);
    inner.handlers.remove_handler(400, None, Some(handle));
    assert!(!inner.handlers.call(400, None, &mut data));
    assert!(matches!(
        inner.register_raw_response(Unknown, None, recorder(&log, 1, true, 1)),
        Err(McuConnectionError::UnknownMessageId("unknown"))
    ));
}

#[test]
fn a_request_is_prepared() {
    let log = Log::default();
    let mut inner = connection();
    let buffer = inner
        .begin_exchange(
            encoded::<LongId>(&[1]),
            Clock,
            None,
            recorder(&log, 1, false, 1),
            false,
            false,
        )
        .unwrap();
    assert_eq!(buffer.as_slice(), &[0x82, 0x2C, 1]);
    let mut data: &[u8] = &[];
    assert!(inner.handlers.call(400, None, &mut data));
    match inner.begin_exchange(
        encoded::<SetPin>(&[]),
        Clock,
        None,
        recorder(&log, 2, false, 1),
        false,
        false,
    ) {
        Err(McuConnectionError::CommandMismatch("set_pin", _, _)) => {}
        other => panic!("{other:?}"),
    }
    assert!(!inner.handlers.call(400, None, &mut data));
    assert!(matches!(
        inner.begin_exchange(
            encoded::<LongId>(&[]),
            Unknown,
            None,
            recorder(&log, 3, false, 1),
            true,
            true,
        ),
        Err(McuConnectionError::UnknownMessageId("unknown"))
    ));
}

#[test]
fn a_reply_is_decoded() {
    let mut data: &[u8] = &[0, 2, 8, 9, 1];
    let reply = decode_reply::<IdentifyResponse>(&mut data).unwrap();
    assert_eq!((reply.offset, reply.data), (0, vec![8, 9]));
    assert_eq!(data, &[1]);
    let mut data: &[u8] = &[0, 2, 8];
    assert!(matches!(
        decode_reply::<IdentifyResponse>(&mut data),
        Err(McuConnectionError::DecodingError(MessageDecodeError::InsufficientData))
    ));
}

#[test]
fn a_request_is_sent_until_it_times_out() {
    let mut exchange = Exchange::new();
    let mut sent = 1;
    loop {
        match exchange.step(ExchangeEvent::<u8>::Elapsed) {
            ExchangeStep::Send => sent += 1,
            ExchangeStep::Finish(result) => {
                assert!(matches!(result, Err(SendReceiveError::Timeout)));
                break;
            }
        }
    }
    assert_eq!(sent, MAX_ATTEMPTS);
    assert_eq!(sent, 6);
}

#[test]
fn a_reply_ends_a_request() {
    let mut exchange = Exchange::new();
    assert!(matches!(
        exchange.step(ExchangeEvent::Reply(Ok(5u8))),
        ExchangeStep::Finish(Ok(5))
    ));
    assert!(matches!(
        exchange.step(ExchangeEvent::<u8>::Reply(Err(McuConnectionError::UnknownCommand(3)))),
        ExchangeStep::Finish(Err(SendReceiveError::McuConnection(
            McuConnectionError::UnknownCommand(3)
        )))
    ));
    assert!(matches!(
        exchange.step(ExchangeEvent::<u8>::Dropped),
        ExchangeStep::Finish(Err(SendReceiveError::Timeout))
    ));
    assert_eq!(exchange.attempts, 1);
}

#[test]
fn a_command_is_compared_before_it_is_sent() {
    let dict = dictionary();
    let buffer = begin_send(Some(&dict), encoded::<LongId>(&[6]), false).unwrap();
    assert_eq!(buffer.as_slice(), &[0x82, 0x2C, 6]);
    match begin_send(Some(&dict), encoded::<SetPin>(&[1, 2]), false) {
        Err(McuConnectionError::CommandMismatch(name, theirs, ours)) => {
            assert_eq!(name, "set_pin");
            assert_eq!(theirs, "oid=%c value=%u");
            assert_eq!(ours, "oid=%c value=%i");
        }
        other => panic!("{other:?}"),
    }
    let buffer = begin_send(Some(&dict), encoded::<SetPin>(&[1, 2]), true).unwrap();
    assert_eq!(buffer.as_slice(), &[10, 1, 2]);
    assert!(matches!(
        begin_send(Some(&dict), encoded::<Unknown>(&[]), false),
        Err(McuConnectionError::UnknownMessageId("unknown"))
    ));
    assert!(matches!(
        begin_send(None, encoded::<LongId>(&[]), false),
        Err(McuConnectionError::UnknownMessageId("long_id"))
    ));
    let buffer = begin_send(None, Identify::encode(0, 40), false).unwrap();
    assert_eq!(buffer.as_slice(), &[1, 0, 40]);
}

#[test]
fn a_second_registration_takes_over() {
    let log = Log::default();
    let mut inner = connection();
    let first = inner.register_raw_response(Clock, None, recorder(&log, 1, true, 1)).unwrap();
    inner.register_raw_response(Clock, None, recorder(&log, 2, true, 1)).unwrap();
    for value in [7u8, 8] {
        inner.parse_frame(&mut &[0x83, 0x10, value][..]).unwrap();
        inner.handlers.remove_handler(400, None, Some(first));
    }
    assert_eq!(*log.borrow(), vec![(2, vec![7]), (2, vec![8])]);
    assert_eq!(Rc::strong_count(&log), 2);
}

#[test]
fn all_handlers_are_let_go() {
    let log = Log::default();
    let mut inner = connection();
    inner.handlers.register(20, Some(1), recorder(&log, 1, true, 0));
    inner.handlers.register(400, None, recorder(&log, 2, true, 0));
    inner.handlers.clear();
    assert_eq!(Rc::strong_count(&log), 1);
    let mut data: &[u8] = &[];
    assert!(!inner.handlers.call(400, None, &mut data));
    assert_eq!(
        inner.handlers.register(400, None, recorder(&log, 3, true, 0)),
        RegisteredResponseHandle(2)
    );
}
