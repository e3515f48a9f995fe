//! The host's side of a connection to a microcontroller: who gets the messages that come in, and
//! what is sent.
use crate::dictionary::{Dictionary, DictionaryError};
use crate::encoding::{next_byte, FieldType, MessageDecodeError};
use crate::messages::{
    format_command_args, EncodedMessage, FrontTrimmableBuffer, Message, MessageParser,
};
use crate::text::same_text;
use crate::transport::TransportError;
use std::collections::BTreeMap;
use std::sync::Arc;
use vstd::prelude::*;

verus! {

/// [`serde_json::Error`] is carried through and never looked into.
#[verifier::external_type_specification]
#[verifier::external_body]
pub struct ExJsonError(serde_json::Error);

/// Why the dictionary could not be fetched.
#[derive(Debug)]
pub enum FetchError {
    /// The microcontroller does not answer
    Exchange(Box<SendReceiveError>),
    /// The data cannot be inflated
    Inflate(std::io::Error),
    /// The data is not the expected JSON
    Json(serde_json::Error),
}

/// MCU Connection Errors
#[derive(Debug)]
pub enum McuConnectionError {
    /// Encoding a message was attempted but a command with a matching name doesn't exist in the
    /// dictionary.
    UnknownMessageId(&'static str),
    /// An issue was encountered while decoding the received frame
    DecodingError(MessageDecodeError),
    /// An error was encountered while fetching the dictionary
    DictionaryFetch(FetchError),
    /// An error was encountered while parsing the dictionary
    Dictionary(DictionaryError),
    /// Received an unknown command from the MCU
    UnknownCommand(u16),
    /// There was a mismatch between the command arguments on the remote and local sides.
    CommandMismatch(&'static str, String, String),
    /// There was a transport-level issue
    Transport(TransportError),
}

/// Why a request brought no reply.
#[derive(Debug)]
pub enum SendReceiveError {
    /// No reply came
    Timeout,
    /// The connection failed
    McuConnection(McuConnectionError),
}

// ---------------------------------------------------------------------------
// Handlers
// ---------------------------------------------------------------------------

/// Whether a handler stays registered.
#[derive(Debug, Clone, Copy, PartialEq, Eq, Structural)]
pub enum HandlerResult {
    Continue,
    Deregister,
}

/// Takes the messages of one kind.
pub trait Handler: Sized {
    /// Takes a message off the start of `data`. Returns the handler as it is afterwards, whether it
    /// stays registered, and how many bytes it took.
    fn handle(self, data: &[u8]) -> (Self, HandlerResult, usize);
}

/// What a handler is registered for: a message ID, and the object ID in the message.
#[derive(Debug, Clone, Copy, PartialEq, Eq, Structural)]
pub struct HandlerId(pub u16, pub Option<u8>);

/// Names one registration of a handler.
#[derive(Debug, Clone, Copy, PartialEq, Eq, Structural)]
pub struct RegisteredResponseHandle(pub usize);

/// The key under which the handler for an ID is kept.
pub open spec fn handler_key(id: HandlerId) -> u32 {
    (id.0 * 0x200 + match id.1 {
        Some(oid) => oid + 1,
        None => 0int,
    }) as u32
}

/// Different IDs have different keys.
proof fn handler_keys_differ(a: HandlerId, b: HandlerId)
    requires
        handler_key(a) == handler_key(b),
    ensures
        a == b,
{
}

/// Computes [`handler_key`].
fn key_of(id: HandlerId) -> (r: u32)
    ensures
        r == handler_key(id),
{
    let low: u32 = match id.1 {
        Some(oid) => oid as u32 + 1,
        None => 0,
    };
    id.0 as u32 * 0x200 + low
}

/// The number of the registration that follows number `n`.
pub open spec fn next_number(n: usize) -> usize {
    if n == usize::MAX {
        0
    } else {
        (n + 1) as usize
    }
}

/// What is registered when a handler has taken a message: it is kept as it is afterwards, or it is
/// gone.
pub open spec fn after_call<H>(
    handlers: Map<HandlerId, (usize, H)>,
    id: HandlerId,
    handler: H,
    result: HandlerResult,
) -> Map<HandlerId, (usize, H)> {
    match result {
        HandlerResult::Continue => handlers.insert(id, (handlers[id].0, handler)),
        HandlerResult::Deregister => handlers.remove(id),
    }
}

/// What is registered when the handler for an ID is removed. With a registration given, only that
/// one is removed.
pub open spec fn after_removal<H>(
    handlers: Map<HandlerId, (usize, H)>,
    id: HandlerId,
    registration: Option<RegisteredResponseHandle>,
) -> Map<HandlerId, (usize, H)> {
    match registration {
        Some(RegisteredResponseHandle(n)) => if handlers.dom().contains(id) && handlers[id].0
            == n {
            handlers.remove(id)
        } else {
            handlers
        },
        None => handlers.remove(id),
    }
}

/// A call of a handler: the handler before, what it was given, and what came of it.
pub struct Call<H> {
    pub before: H,
    pub data: Seq<u8>,
    pub after: H,
    pub result: HandlerResult,
    pub taken: usize,
}

/// Whether a call can have come about: the handler can answer so.
pub open spec fn handled<H: Handler>(call: Call<H>) -> bool {
    exists|data: &[u8]|
        data@ == call.data && #[trigger] call_ensures(
            H::handle,
            (call.before, data),
            (call.after, call.result, call.taken),
        )
}

/// What is left of the data when a handler has taken some of it.
pub open spec fn left_by<H>(call: Call<H>) -> Seq<u8> {
    if call.taken <= call.data.len() {
        call.data.skip(call.taken as int)
    } else {
        Seq::empty()
    }
}

/// The registered handlers.
#[derive(Debug)]
pub struct Handlers<H> {
    pub handlers: BTreeMap<u32, (usize, H)>,
    pub next_handler: usize,
}

impl<H> View for Handlers<H> {
    type V = Map<HandlerId, (usize, H)>;

    /// The handlers by what they are registered for, each with the number of its registration.
    open spec fn view(&self) -> Map<HandlerId, (usize, H)> {
        Map::new(
            |id: HandlerId| self.handlers@.dom().contains(handler_key(id)),
            |id: HandlerId| self.handlers@[handler_key(id)],
        )
    }
}

/// The handlers with one registered.
proof fn view_insert<H>(before: Handlers<H>, after: Handlers<H>, id: HandlerId, entry: (usize, H))
    requires
        after.handlers@ == before.handlers@.insert(handler_key(id), entry),
    ensures
        after@ == before@.insert(id, entry),
{
    assert forall|other: HandlerId| #[trigger]
        after@.dom().contains(other) == before@.insert(id, entry).dom().contains(other) by {
        if handler_key(other) == handler_key(id) {
            handler_keys_differ(other, id);
        }
    }
    assert forall|other: HandlerId| #[trigger] after@.dom().contains(other) implies after@[other]
        == before@.insert(id, entry)[other] by {
        if handler_key(other) == handler_key(id) {
            handler_keys_differ(other, id);
        }
    }
    assert(after@ =~= before@.insert(id, entry));
}

/// The handlers with one removed.
proof fn view_remove<H>(before: Handlers<H>, after: Handlers<H>, id: HandlerId)
    requires
        after.handlers@ == before.handlers@.remove(handler_key(id)),
    ensures
        after@ == before@.remove(id),
{
    assert forall|other: HandlerId| #[trigger]
        after@.dom().contains(other) == before@.remove(id).dom().contains(other) by {
        if handler_key(other) == handler_key(id) {
            handler_keys_differ(other, id);
        }
    }
    assert(after@ =~= before@.remove(id));
}

impl<H> Handlers<H> {
    /// No handlers.
    pub fn new() -> (r: Self)
        ensures
            r@ == Map::<HandlerId, (usize, H)>::empty(),
            r.next_handler == 0,
    {
        let r = Handlers { handlers: BTreeMap::new(), next_handler: 0 };
        assert(r@ =~= Map::<HandlerId, (usize, H)>::empty());
        r
    }

    /// Lets all handlers go.
    pub fn clear(&mut self)
        ensures
            final(self)@ == Map::<HandlerId, (usize, H)>::empty(),
            final(self).next_handler == old(self).next_handler,
    {
        self.handlers = BTreeMap::new();
        assert(self@ =~= Map::<HandlerId, (usize, H)>::empty());
    }

    /// Registers a handler, in place of the one that is registered for the same.
    pub fn register(&mut self, command: u16, oid: Option<u8>, handler: H) -> (r:
        RegisteredResponseHandle)
        ensures
            r.0 == old(self).next_handler,
            final(self).next_handler == next_number(old(self).next_handler),
            final(self)@ == old(self)@.insert(HandlerId(command, oid), (r.0, handler)),
    {
        let id = HandlerId(command, oid);
        let uniq: usize = self.next_handler;
        self.next_handler = if uniq == usize::MAX {
            0
        } else {
            uniq + 1
        };
        self.handlers.insert(key_of(id), (uniq, handler));
        proof {
            view_insert(*old(self), *self, id, (uniq, handler));
        }
        RegisteredResponseHandle(uniq)
    }

    /// Keeps a handler that has taken a message, or lets it go. It was taken out for the call.
    pub fn settle(
        &mut self,
        command: u16,
        oid: Option<u8>,
        number: usize,
        handler: H,
        result: HandlerResult,
    )
        ensures
            final(self).next_handler == old(self).next_handler,
            final(self)@ == match result {
                HandlerResult::Continue => old(self)@.insert(
                    HandlerId(command, oid),
                    (number, handler),
                ),
                HandlerResult::Deregister => old(self)@,
            },
    {
        match result {
            HandlerResult::Continue => {
                let id = HandlerId(command, oid);
                self.handlers.insert(key_of(id), (number, handler));
                proof {
                    view_insert(*old(self), *self, id, (number, handler));
                }
            },
            HandlerResult::Deregister => {},
        }
    }

    /// Removes the handler for a message. With a registration given, only that one is removed.
    pub fn remove_handler(
        &mut self,
        command: u16,
        oid: Option<u8>,
        uniq: Option<RegisteredResponseHandle>,
    )
        ensures
            final(self).next_handler == old(self).next_handler,
            final(self)@ == after_removal(old(self)@, HandlerId(command, oid), uniq),
    {
        let id = HandlerId(command, oid);
        let key: u32 = key_of(id);
        if let Some(RegisteredResponseHandle(number)) = uniq {
            match self.handlers.get(&key) {
                None => {
                    return;
                },
                Some(entry) => {
                    if entry.0 != number {
                        return;
                    }
                },
            }
        }
        self.handlers.remove(&key);
        proof {
            view_remove(*old(self), *self, id);
        }
    }
}

impl<H: Handler> Handlers<H> {
    /// Lets the handler for a message take it off the data. Returns whether there is a handler.
    pub fn call(&mut self, command: u16, oid: Option<u8>, data: &mut &[u8]) -> (r: bool)
        ensures
            r == old(self)@.dom().contains(HandlerId(command, oid)),
            final(self).next_handler == old(self).next_handler,
            !r ==> final(self)@ == old(self)@ && final(data)@ == old(data)@,
            r ==> exists|call: Call<H>|
                {
                    &&& #[trigger] handled(call)
                    &&& call.before == old(self)@[HandlerId(command, oid)].1
                    &&& call.data == old(data)@
                    &&& final(data)@ == left_by(call)
                    &&& final(self)@ == after_call(
                        old(self)@,
                        HandlerId(command, oid),
                        call.after,
                        call.result,
                    )
                },
    {
        let id = HandlerId(command, oid);
        match self.handlers.remove(&key_of(id)) {
            Some((number, handler)) => {
                proof {
                    view_remove(*old(self), *self, id);
                }
                let start: &[u8] = *data;
                let answer = handler.handle(start);
                assert(call_ensures(H::handle, (handler, start), answer));
                let (after, result, taken) = answer;
                let ghost call = Call { before: handler, data: start@, after, result, taken };
                assert(answer == (call.after, call.result, call.taken));
                assert(call_ensures(
                    H::handle,
                    (call.before, start),
                    (call.after, call.result, call.taken),
                ));
                assert(handled(call));
                let n: usize = if taken <= start.len() {
                    taken
                } else {
                    start.len()
                };
                *data = &start[n..start.len()];
                assert(data@ =~= left_by(call));
                self.settle(command, oid, number, after, result);
                assert(self@ =~= after_call(old(self)@, id, after, result));
                true
            },
            None => {
                assert(self@ =~= old(self)@);
                false
            },
        }
    }
}

/// A registration that another one has taken the place of removes nothing any more.
pub proof fn replaced_registration_removes_nothing<H>(
    handlers: Map<HandlerId, (usize, H)>,
    id: HandlerId,
    number: usize,
    handler: H,
    replaced: RegisteredResponseHandle,
)
    requires
        replaced.0 != number,
    ensures
        after_removal(handlers.insert(id, (number, handler)), id, Some(replaced))
            == handlers.insert(id, (number, handler)),
{
}

/// The number of the registration that follows number `n` after `k` others.
pub open spec fn later_number(n: usize, k: nat) -> usize
    decreases k,
{
    if k == 0 {
        n
    } else {
        next_number(later_number(n, (k - 1) as nat))
    }
}

/// No number comes again before all others have been given out.
pub proof fn registration_numbers_differ(n: usize, k: nat)
    requires
        0 < k <= usize::MAX,
    ensures
        later_number(n, k) != n,
{
    later_number_by_addition(n, k);
}

proof fn later_number_by_addition(n: usize, k: nat)
    requires
        k <= usize::MAX,
    ensures
        later_number(n, k) == if n + k <= usize::MAX {
            n + k
        } else {
            n + k - usize::MAX - 1
        },
    decreases k,
{
    if k > 0 {
        later_number_by_addition(n, (k - 1) as nat);
    }
}

// ---------------------------------------------------------------------------
// Message IDs
// ---------------------------------------------------------------------------

/// How a message ID is written: in one byte if 7 bits are enough for it, else in two bytes of 7
/// bits each, with the high bit set in the first.
pub open spec fn id_bytes(id: u16) -> Seq<u8> {
    if id < 0x80 {
        seq![id as u8]
    } else {
        seq![(0x80 + id as int / 0x80 % 0x80) as u8, (id % 0x80) as u8]
    }
}

/// Takes a message ID off the input.
pub open spec fn id_decode(input: Seq<u8>) -> crate::encoding::Decoded<u16> {
    if input.len() == 0 {
        crate::encoding::Decoded { result: Err(MessageDecodeError::InsufficientData), rest: input }
    } else if input[0] < 0x80 {
        crate::encoding::Decoded { result: Ok(input[0] as u16), rest: input.skip(1) }
    } else if input.len() == 1 {
        crate::encoding::Decoded {
            result: Err(MessageDecodeError::InsufficientData),
            rest: input.skip(1),
        }
    } else {
        crate::encoding::Decoded {
            result: Ok(((input[0] - 0x80) * 0x80 + input[1] % 0x80) as u16),
            rest: input.skip(2),
        }
    }
}

/// A message ID of up to 14 bits comes back from how it is written, whatever follows.
pub proof fn id_round_trip(id: u16, rest: Seq<u8>)
    requires
        id < 0x4000,
    ensures
        id_decode(id_bytes(id) + rest) == (crate::encoding::Decoded {
            result: Ok::<u16, MessageDecodeError>(id),
            rest,
        }),
{
    let bytes = id_bytes(id);
    assert((bytes + rest).skip(bytes.len() as int) =~= rest);
}

/// Reads a message ID.
pub fn read_id(input: &mut &[u8]) -> (r: Result<u16, MessageDecodeError>)
    ensures
        final(input)@ == id_decode(old(input)@).rest,
        r == id_decode(old(input)@).result,
{
    let ghost start = input@;
    let first: u8 = match next_byte(input) {
        Ok(b) => b,
        Err(e) => {
            return Err(e);
        },
    };
    if first < 0x80 {
        return Ok(first as u16);
    }
    let second: u8 = match next_byte(input) {
        Ok(b) => b,
        Err(e) => {
            return Err(e);
        },
    };
    assert(input@ =~= start.skip(2));
    Ok((first - 0x80) as u16 * 0x80 + (second % 0x80) as u16)
}

/// Writes the ID of a message in front of its arguments, for which the first two bytes of the
/// payload are kept free.
pub fn encode_command<C: Message>(
    dictionary: Option<&Dictionary>,
    command: EncodedMessage<C>,
) -> (r: Result<FrontTrimmableBuffer, McuConnectionError>)
    requires
        dictionary matches Some(d) ==> d.wf(),
        command.payload.content@.len() >= 2,
    ensures
        match crate::messages::id_in(C::fixed_id(), C::name(), dictionary) {
            Some(id) => {
                &&& r matches Ok(buffer)
                &&& buffer.offset <= buffer.content@.len()
                &&& buffer.bytes() == id_bytes(id) + command.payload.content@.skip(2)
            },
            None => r matches Err(McuConnectionError::UnknownMessageId(name)) && name@ == C::name(),
        },
{
    match command.message_id(dictionary) {
        Some(id) => {
            let ghost before = command.payload.content@;
            let mut payload = command.payload;
            if id < 0x80 {
                payload.content.set(1, id as u8);
                payload.offset = 1;
            } else {
                payload.content.set(0, (0x80 + id / 0x80 % 0x80) as u8);
                payload.content.set(1, (id % 0x80) as u8);
                payload.offset = 0;
            }
            assert(payload.bytes() =~= id_bytes(id) + before.skip(2));
            Ok(payload)
        },
        None => Err(McuConnectionError::UnknownMessageId(command.message_name())),
    }
}

/// A message that is written with its ID in front of its arguments is read back: its ID, and the
/// values of its arguments.
pub proof fn command_reads_back(
    id: u16,
    values: Seq<crate::encoding::FieldData>,
    rest: Seq<u8>,
)
    requires
        id < 0x4000,
        forall|i: int|
            0 <= i < values.len() ==> crate::messages::encodable(#[trigger] values[i]),
    ensures
        ({
            let bytes = id_bytes(id) + crate::messages::fields_encode(values) + rest;
            let head = id_decode(bytes);
            let body = crate::messages::fields_decode(
                crate::messages::value_types(values),
                head.rest,
            );
            &&& head.result == Ok::<u16, MessageDecodeError>(id)
            &&& body.result == Ok::<Seq<crate::encoding::FieldData>, MessageDecodeError>(values)
            &&& body.rest == rest
        }),
{
    let arguments = crate::messages::fields_encode(values);
    assert(id_bytes(id) + arguments + rest =~= id_bytes(id) + (arguments + rest));
    id_round_trip(id, arguments + rest);
    crate::messages::fields_round_trip(values, rest);
}

// ---------------------------------------------------------------------------
// Messages that come in
// ---------------------------------------------------------------------------

/// What is wrong with a frame.
pub enum FrameFault {
    Decoding(MessageDecodeError),
    UnknownCommand(u16),
}

/// What a result says is wrong with a frame.
pub open spec fn frame_fault(r: Result<(), McuConnectionError>) -> Option<FrameFault> {
    match r {
        Err(McuConnectionError::DecodingError(e)) => Some(FrameFault::Decoding(e)),
        Err(McuConnectionError::UnknownCommand(c)) => Some(FrameFault::UnknownCommand(c)),
        _ => None,
    }
}

/// How the reading of a frame ends: what is registered then, what is left of the frame, and whether
/// something is wrong with it.
pub struct FrameEnd<H> {
    pub handlers: Map<HandlerId, (usize, H)>,
    pub rest: Seq<u8>,
    pub fault: Option<FrameFault>,
}

/// Whether reading a frame ends so, with these calls of handlers.
///
/// A handler for the message ID alone takes the message off the frame. Where there is none, the
/// dictionary tells how long the message is and which object ID it has, and the handler for both
/// IDs gets it. A message that no handler is registered for is passed over. Before there is a
/// dictionary only the ID of such a message is passed over.
pub open spec fn frame_reads<H: Handler>(
    parsers: Option<Map<u16, crate::messages::ParserData>>,
    handlers: Map<HandlerId, (usize, H)>,
    frame: Seq<u8>,
    calls: Seq<Call<H>>,
    end: FrameEnd<H>,
) -> bool
    decreases frame.len(),
{
    let head = id_decode(frame);
    if frame.len() == 0 {
        calls.len() == 0 && end == (FrameEnd { handlers, rest: frame, fault: None })
    } else {
        match head.result {
            Err(e) => calls.len() == 0 && end == (FrameEnd {
                handlers,
                rest: head.rest,
                fault: Some(FrameFault::Decoding(e)),
            }),
            Ok(command) => {
                let body = head.rest;
                let raw = HandlerId(command, None);
                if handlers.dom().contains(raw) {
                    let call = calls[0];
                    &&& calls.len() > 0
                    &&& handled(call)
                    &&& call.before == handlers[raw].1
                    &&& call.data == body
                    &&& frame_reads(
                        parsers,
                        after_call(handlers, raw, call.after, call.result),
                        left_by(call),
                        calls.skip(1),
                        end,
                    )
                } else {
                    match parsers {
                        None => frame_reads(parsers, handlers, body, calls, end),
                        Some(p) => if !p.dom().contains(command) {
                            calls.len() == 0 && end == (FrameEnd {
                                handlers,
                                rest: body,
                                fault: Some(FrameFault::UnknownCommand(command)),
                            })
                        } else {
                            let fields = p[command].fields;
                            let message = crate::messages::fields_decode(
                                crate::messages::types_of(fields),
                                body,
                            );
                            match message.result {
                                Err(e) => calls.len() == 0 && end == (FrameEnd {
                                    handlers,
                                    rest: message.rest,
                                    fault: Some(FrameFault::Decoding(e)),
                                }),
                                Ok(values) => {
                                    let id = HandlerId(
                                        command,
                                        crate::messages::oid_of(fields, values),
                                    );
                                    proof {
                                        crate::messages::fields_decode_shortens(
                                            crate::messages::types_of(fields),
                                            body,
                                        );
                                    }
                                    if handlers.dom().contains(id) {
                                        let call = calls[0];
                                        &&& calls.len() > 0
                                        &&& handled(call)
                                        &&& call.before == handlers[id].1
                                        &&& call.data == body
                                        &&& frame_reads(
                                            parsers,
                                            after_call(handlers, id, call.after, call.result),
                                            message.rest,
                                            calls.skip(1),
                                            end,
                                        )
                                    } else {
                                        frame_reads(parsers, handlers, message.rest, calls, end)
                                    }
                                },
                            }
                        },
                    }
                }
            },
        }
    }
}

/// What the handlers do decides how the reading of a frame ends: the same calls lead to the same
/// end.
pub proof fn frame_end_is_determined<H: Handler>(
    parsers: Option<Map<u16, crate::messages::ParserData>>,
    handlers: Map<HandlerId, (usize, H)>,
    frame: Seq<u8>,
    calls: Seq<Call<H>>,
    end1: FrameEnd<H>,
    end2: FrameEnd<H>,
)
    requires
        frame_reads(parsers, handlers, frame, calls, end1),
        frame_reads(parsers, handlers, frame, calls, end2),
    ensures
        end1 == end2,
    decreases frame.len(),
{
    let head = id_decode(frame);
    if frame.len() > 0 {
        if let Ok(command) = head.result {
            let body = head.rest;
            let raw = HandlerId(command, None);
            let call = calls[0];
            if handlers.dom().contains(raw) {
                frame_end_is_determined(
                    parsers,
                    after_call(handlers, raw, call.after, call.result),
                    left_by(call),
                    calls.skip(1),
                    end1,
                    end2,
                );
            } else if let Some(p) = parsers {
                if p.dom().contains(command) {
                    let fields = p[command].fields;
                    let message = crate::messages::fields_decode(
                        crate::messages::types_of(fields),
                        body,
                    );
                    crate::messages::fields_decode_shortens(
                        crate::messages::types_of(fields),
                        body,
                    );
                    if let Ok(values) = message.result {
                        let id = HandlerId(command, crate::messages::oid_of(fields, values));
                        if handlers.dom().contains(id) {
                            frame_end_is_determined(
                                parsers,
                                after_call(handlers, id, call.after, call.result),
                                message.rest,
                                calls.skip(1),
                                end1,
                                end2,
                            );
                        } else {
                            frame_end_is_determined(
                                parsers,
                                handlers,
                                message.rest,
                                calls,
                                end1,
                                end2,
                            );
                        }
                    }
                }
            } else {
                frame_end_is_determined(parsers, handlers, body, calls, end1, end2);
            }
        }
    }
}

/// A message that the dictionary declares, with its ID in front of its arguments, goes to the
/// handler for its message ID and object ID, and reading goes on right behind it, whatever the
/// handler took. Where there is no handler for it, it is passed over.
pub proof fn declared_message_is_delivered<H: Handler>(
    parsers: Map<u16, crate::messages::ParserData>,
    handlers: Map<HandlerId, (usize, H)>,
    command: u16,
    values: Seq<crate::encoding::FieldData>,
    rest: Seq<u8>,
    calls: Seq<Call<H>>,
    end: FrameEnd<H>,
)
    requires
        command < 0x4000,
        parsers.dom().contains(command),
        crate::messages::types_of(parsers[command].fields) == crate::messages::value_types(values),
        forall|i: int|
            0 <= i < values.len() ==> crate::messages::encodable(#[trigger] values[i]),
        !handlers.dom().contains(HandlerId(command, None)),
    ensures
        ({
            let arguments = crate::messages::fields_encode(values);
            let id = HandlerId(
                command,
                crate::messages::oid_of(parsers[command].fields, values),
            );
            frame_reads(Some(parsers), handlers, id_bytes(command) + arguments + rest, calls, end)
                == if handlers.dom().contains(id) {
                &&& calls.len() > 0
                &&& handled(calls[0])
                &&& calls[0].before == handlers[id].1
                &&& calls[0].data == arguments + rest
                &&& frame_reads(
                    Some(parsers),
                    after_call(handlers, id, calls[0].after, calls[0].result),
                    rest,
                    calls.skip(1),
                    end,
                )
            } else {
                frame_reads(Some(parsers), handlers, rest, calls, end)
            }
        }),
{
    let arguments = crate::messages::fields_encode(values);
    command_reads_back(command, values, rest);
    assert(id_bytes(command) + arguments + rest =~= id_bytes(command) + (arguments + rest));
    id_round_trip(command, arguments + rest);
}

/// Reading a frame registers nothing: each handler that is registered at its end was registered
/// before, under the same number.
pub proof fn frame_keeps_registrations<H: Handler>(
    parsers: Option<Map<u16, crate::messages::ParserData>>,
    handlers: Map<HandlerId, (usize, H)>,
    frame: Seq<u8>,
    calls: Seq<Call<H>>,
    end: FrameEnd<H>,
    id: HandlerId,
)
    requires
        frame_reads(parsers, handlers, frame, calls, end),
        end.handlers.dom().contains(id),
    ensures
        handlers.dom().contains(id),
        end.handlers[id].0 == handlers[id].0,
    decreases frame.len(),
{
    let head = id_decode(frame);
    if frame.len() > 0 {
        if let Ok(command) = head.result {
            let body = head.rest;
            let raw = HandlerId(command, None);
            let call = calls[0];
            if handlers.dom().contains(raw) {
                let next = after_call(handlers, raw, call.after, call.result);
                frame_keeps_registrations(
                    parsers,
                    next,
                    left_by(call),
                    calls.skip(1),
                    end,
                    id,
                );
            } else if let Some(p) = parsers {
                if p.dom().contains(command) {
                    let fields = p[command].fields;
                    let types = crate::messages::types_of(fields);
                    let message = crate::messages::fields_decode(types, body);
                    crate::messages::fields_decode_shortens(types, body);
                    if let Ok(values) = message.result {
                        let key = HandlerId(command, crate::messages::oid_of(fields, values));
                        if handlers.dom().contains(key) {
                            let next = after_call(handlers, key, call.after, call.result);
                            frame_keeps_registrations(
                                parsers,
                                next,
                                message.rest,
                                calls.skip(1),
                                end,
                                id,
                            );
                        } else {
                            frame_keeps_registrations(
                                parsers,
                                handlers,
                                message.rest,
                                calls,
                                end,
                                id,
                            );
                        }
                    }
                }
            } else {
                frame_keeps_registrations(parsers, handlers, body, calls, end, id);
            }
        }
    }
}

/// A second registration for the same messages takes over. The table holds its handler in place of
/// the first one, so that the messages go to it. Removing the first registration changes nothing,
/// neither at once nor after any frame that came in between.
pub proof fn second_registration_takes_over<H: Handler>(
    handlers: Map<HandlerId, (usize, H)>,
    id: HandlerId,
    n: usize,
    k: nat,
    first: H,
    second: H,
    parsers: Option<Map<u16, crate::messages::ParserData>>,
    frame: Seq<u8>,
    calls: Seq<Call<H>>,
    end: FrameEnd<H>,
)
    requires
        0 < k <= usize::MAX,
        frame_reads(
            parsers,
            handlers.insert(id, (n, first)).insert(id, (later_number(n, k), second)),
            frame,
            calls,
            end,
        ),
    ensures
        ({
            let table = handlers.insert(id, (n, first)).insert(
                id,
                (later_number(n, k), second),
            );
            let old_handle = Some(RegisteredResponseHandle(n));
            &&& table == handlers.insert(id, (later_number(n, k), second))
            &&& table[id].1 == second
            &&& after_removal(table, id, old_handle) == table
            &&& after_removal(end.handlers, id, old_handle) == end.handlers
        }),
{
    let number = later_number(n, k);
    let table = handlers.insert(id, (n, first)).insert(id, (number, second));
    registration_numbers_differ(n, k);
    assert(table =~= handlers.insert(id, (number, second)));
    if end.handlers.dom().contains(id) {
        frame_keeps_registrations(parsers, table, frame, calls, end, id);
    }
}

/// A message goes to the handler that was registered for it last, whatever was registered before,
/// unless a handler for the message ID alone comes before it.
pub proof fn last_registration_gets_the_message<H: Handler>(
    parsers: Map<u16, crate::messages::ParserData>,
    handlers: Map<HandlerId, (usize, H)>,
    number: usize,
    last: H,
    command: u16,
    values: Seq<crate::encoding::FieldData>,
    rest: Seq<u8>,
    calls: Seq<Call<H>>,
    end: FrameEnd<H>,
)
    requires
        command < 0x4000,
        parsers.dom().contains(command),
        crate::messages::types_of(parsers[command].fields) == crate::messages::value_types(values),
        forall|i: int|
            0 <= i < values.len() ==> crate::messages::encodable(#[trigger] values[i]),
        ({
            let id = HandlerId(
                command,
                crate::messages::oid_of(parsers[command].fields, values),
            );
            &&& id.1 is Some ==> !handlers.dom().contains(HandlerId(command, None))
            &&& frame_reads(
                Some(parsers),
                handlers.insert(id, (number, last)),
                id_bytes(command) + crate::messages::fields_encode(values) + rest,
                calls,
                end,
            )
        }),
    ensures
        calls.len() > 0,
        handled(calls[0]),
        calls[0].before == last,
        calls[0].data == crate::messages::fields_encode(values) + rest,
{
    let arguments = crate::messages::fields_encode(values);
    let id = HandlerId(command, crate::messages::oid_of(parsers[command].fields, values));
    let table = handlers.insert(id, (number, last));
    if id.1 is Some {
        declared_message_is_delivered(parsers, table, command, values, rest, calls, end);
    } else {
        assert(id == HandlerId(command, None));
        assert(id_bytes(command) + arguments + rest =~= id_bytes(command) + (arguments + rest));
        id_round_trip(command, arguments + rest);
    }
}

/// What a connection knows: the dictionary, once it is there, and the handlers.
#[derive(Debug)]
pub struct McuConnectionInner<H> {
    pub dictionary: Option<Arc<Dictionary>>,
    pub handlers: Handlers<H>,
}

impl<H> McuConnectionInner<H> {
    /// The dictionary, where there is one, is well formed.
    pub open spec fn wf(&self) -> bool {
        self.dictionary matches Some(d) ==> d.wf()
    }

    /// The dictionary, borrowed.
    pub open spec fn borrowed_dictionary(&self) -> Option<&Dictionary> {
        match self.dictionary {
            Some(d) => Some(&*d),
            None => None,
        }
    }

    /// The dictionary, borrowed.
    pub fn known_dictionary(&self) -> (r: Option<&Dictionary>)
        ensures
            r == self.borrowed_dictionary(),
    {
        match &self.dictionary {
            Some(d) => Some(&**d),
            None => None,
        }
    }

    /// What the parsers of the dictionary know.
    pub open spec fn parsers(&self) -> Option<Map<u16, crate::messages::ParserData>> {
        match self.dictionary {
            Some(d) => Some(d.catalogue().parsers),
            None => None,
        }
    }
}

impl<H: Handler> McuConnectionInner<H> {
    /// Reads a frame: hands each message in it to the handler that is registered for it.
    pub fn parse_frame(&mut self, frame: &mut &[u8]) -> (r: Result<(), McuConnectionError>)
        ensures
            final(self).dictionary == old(self).dictionary,
            final(self).handlers.next_handler == old(self).handlers.next_handler,
            r matches Err(e) ==> e is DecodingError || e is UnknownCommand,
            exists|calls: Seq<Call<H>>| #[trigger]
                frame_reads(
                    old(self).parsers(),
                    old(self).handlers@,
                    old(frame)@,
                    calls,
                    FrameEnd {
                        handlers: final(self).handlers@,
                        rest: final(frame)@,
                        fault: frame_fault(r),
                    },
                ),
    {
        let ghost parsers = self.parsers();
        let ghost handlers0 = self.handlers@;
        let ghost frame0 = frame@;
        let ghost mut calls: Seq<Call<H>> = Seq::empty();
        assert forall|more: Seq<Call<H>>, end: FrameEnd<H>| #[trigger]
            frame_reads(parsers, self.handlers@, frame@, more, end) implies frame_reads(
            parsers,
            handlers0,
            frame0,
            calls + more,
            end,
        ) by {
            assert(calls + more =~= more);
        }
        while frame.len() > 0
            invariant
                parsers == self.parsers(),
                parsers == old(self).parsers(),
                handlers0 == old(self).handlers@,
                frame0 == old(frame)@,
                self.dictionary == old(self).dictionary,
                self.handlers.next_handler == old(self).handlers.next_handler,
                forall|more: Seq<Call<H>>, end: FrameEnd<H>| #[trigger]
                    frame_reads(parsers, self.handlers@, frame@, more, end) ==> frame_reads(
                        parsers,
                        handlers0,
                        frame0,
                        calls + more,
                        end,
                    ),
            decreases frame@.len(),
        {
            let ghost handlers1 = self.handlers@;
            let ghost frame1 = frame@;
            let command: u16 = match read_id(frame) {
                Ok(id) => id,
                Err(e) => {
                    proof {
                        let end = FrameEnd {
                            handlers: handlers1,
                            rest: frame@,
                            fault: Some(FrameFault::Decoding(e)),
                        };
                        assert(frame_reads(parsers, handlers1, frame1, Seq::empty(), end));
                    }
                    return Err(McuConnectionError::DecodingError(e));
                },
            };
            let ghost body = frame@;
            if self.handlers.call(command, None, frame) {
                proof {
                    let raw = HandlerId(command, None);
                    let call = choose|call: Call<H>|
                        {
                            &&& #[trigger] handled(call)
                            &&& call.before == handlers1[raw].1
                            &&& call.data == body
                            &&& frame@ == left_by(call)
                            &&& self.handlers@ == after_call(
                                handlers1,
                                raw,
                                call.after,
                                call.result,
                            )
                        };
                    assert forall|more: Seq<Call<H>>, end: FrameEnd<H>| #[trigger]
                        frame_reads(parsers, self.handlers@, frame@, more, end) implies frame_reads(
                        parsers,
                        handlers1,
                        frame1,
                        seq![call] + more,
                        end,
                    ) by {
                        assert((seq![call] + more).skip(1) =~= more);
                    }
                    Self::one_more_call(
                        parsers,
                        handlers0,
                        frame0,
                        calls,
                        handlers1,
                        frame1,
                        call,
                        self.handlers@,
                        frame@,
                    );
                    calls = calls.push(call);
                }
                continue ;
            }
            if let Some(dict) = &self.dictionary {
                match dict.message_parsers.get(&command) {
                    Some(parser) => {
                        let ghost data = crate::dictionary::parser_data(dict.message_parsers@);
                        assert(data[command] == parser@);
                        let mut curmsg: &[u8] = *frame;
                        let oid = match parser.skip_with_oid(frame) {
                            Ok(oid) => oid,
                            Err(e) => {
                                proof {
                                    let end = FrameEnd {
                                        handlers: handlers1,
                                        rest: frame@,
                                        fault: Some(FrameFault::Decoding(e)),
                                    };
                                    assert(frame_reads(
                                        parsers,
                                        handlers1,
                                        frame1,
                                        Seq::empty(),
                                        end,
                                    ));
                                }
                                return Err(McuConnectionError::DecodingError(e));
                            },
                        };
                        proof {
                            crate::messages::fields_decode_shortens(
                                crate::messages::types_of(parser.field_list()),
                                body,
                            );
                        }
                        if self.handlers.call(command, oid, &mut curmsg) {
                            proof {
                                let id = HandlerId(command, oid);
                                let call = choose|call: Call<H>|
                                    {
                                        &&& #[trigger] handled(call)
                                        &&& call.before == handlers1[id].1
                                        &&& call.data == body
                                        &&& curmsg@ == left_by(call)
                                        &&& self.handlers@ == after_call(
                                            handlers1,
                                            id,
                                            call.after,
                                            call.result,
                                        )
                                    };
                                assert forall|more: Seq<Call<H>>, end: FrameEnd<H>| #[trigger]
                                    frame_reads(parsers, self.handlers@, frame@, more, end) implies frame_reads(
                                    parsers,
                                    handlers1,
                                    frame1,
                                    seq![call] + more,
                                    end,
                                ) by {
                                    assert((seq![call] + more).skip(1) =~= more);
                                }
                                Self::one_more_call(
                                    parsers,
                                    handlers0,
                                    frame0,
                                    calls,
                                    handlers1,
                                    frame1,
                                    call,
                                    self.handlers@,
                                    frame@,
                                );
                                calls = calls.push(call);
                            }
                        } else {
                            proof {
                                assert forall|more: Seq<Call<H>>, end: FrameEnd<H>| #[trigger]
                                    frame_reads(parsers, self.handlers@, frame@, more, end) implies frame_reads(
                                    parsers,
                                    handlers1,
                                    frame1,
                                    more,
                                    end,
                                ) by {}
                            }
                        }
                    },
                    None => {
                        proof {
                            let end = FrameEnd {
                                handlers: handlers1,
                                rest: frame@,
                                fault: Some(FrameFault::UnknownCommand(command)),
                            };
                            assert(frame_reads(parsers, handlers1, frame1, Seq::empty(), end));
                        }
                        return Err(McuConnectionError::UnknownCommand(command));
                    },
                }
            } else {
                proof {
                    assert forall|more: Seq<Call<H>>, end: FrameEnd<H>| #[trigger]
                        frame_reads(parsers, self.handlers@, frame@, more, end) implies frame_reads(
                        parsers,
                        handlers1,
                        frame1,
                        more,
                        end,
                    ) by {}
                }
            }
        }
        proof {
            let end = FrameEnd { handlers: self.handlers@, rest: frame@, fault: None };
            assert(frame_reads(parsers, self.handlers@, frame@, Seq::empty(), end));
        }
        Ok(())
    }

    /// One more call is put behind the calls so far.
    proof fn one_more_call(
        parsers: Option<Map<u16, crate::messages::ParserData>>,
        handlers0: Map<HandlerId, (usize, H)>,
        frame0: Seq<u8>,
        calls: Seq<Call<H>>,
        handlers1: Map<HandlerId, (usize, H)>,
        frame1: Seq<u8>,
        call: Call<H>,
        handlers2: Map<HandlerId, (usize, H)>,
        frame2: Seq<u8>,
    )
        requires
            forall|more: Seq<Call<H>>, end: FrameEnd<H>| #[trigger]
                frame_reads(parsers, handlers1, frame1, more, end) ==> frame_reads(
                    parsers,
                    handlers0,
                    frame0,
                    calls + more,
                    end,
                ),
            forall|more: Seq<Call<H>>, end: FrameEnd<H>| #[trigger]
                frame_reads(parsers, handlers2, frame2, more, end) ==> frame_reads(
                    parsers,
                    handlers1,
                    frame1,
                    seq![call] + more,
                    end,
                ),
        ensures
            forall|more: Seq<Call<H>>, end: FrameEnd<H>| #[trigger]
                frame_reads(parsers, handlers2, frame2, more, end) ==> frame_reads(
                    parsers,
                    handlers0,
                    frame0,
                    calls.push(call) + more,
                    end,
                ),
    {
        assert forall|more: Seq<Call<H>>, end: FrameEnd<H>| #[trigger]
            frame_reads(parsers, handlers2, frame2, more, end) implies frame_reads(
            parsers,
            handlers0,
            frame0,
            calls.push(call) + more,
            end,
        ) by {
            assert(calls + (seq![call] + more) =~= calls.push(call) + more);
        }
    }
}

// ---------------------------------------------------------------------------
// Messages that are sent
// ---------------------------------------------------------------------------

/// Whether the arguments of a parser are those of a list.
fn same_fields(parser: &MessageParser, local: &Vec<(&'static str, FieldType)>) -> (r: bool)
    ensures
        r == (parser.field_list() == crate::messages::borrowed_fields_of(local@)),
{
    let ghost a = parser.field_list();
    let ghost b = crate::messages::borrowed_fields_of(local@);
    let n: usize = parser.fields.len();
    if n != local.len() {
        assert(a.len() != b.len());
        return false;
    }
    let mut i: usize = 0;
    while i < n
        invariant
            i <= n == parser.fields@.len() == local@.len(),
            a == parser.field_list(),
            b == crate::messages::borrowed_fields_of(local@),
            forall|k: int| 0 <= k < i ==> #[trigger] a[k] == b[k],
        decreases n - i,
    {
        assert(a[i as int] == (parser.fields@[i as int].0@, parser.fields@[i as int].1));
        assert(b[i as int] == (local@[i as int].0@, local@[i as int].1));
        if !same_text(parser.fields[i].0.as_str(), local[i].0) || parser.fields[i].1 != local[i].1 {
            assert(a[i as int] != b[i as int]);
            return false;
        }
        i += 1;
    }
    assert(a =~= b);
    true
}

/// The declaration of the arguments of a parser.
fn parser_args(parser: &MessageParser) -> (r: String)
    ensures
        r@ == crate::messages::args_text(parser.field_list()),
{
    let mut fields: Vec<(&str, FieldType)> = Vec::new();
    let n: usize = parser.fields.len();
    let mut i: usize = 0;
    while i < n
        invariant
            i <= n == parser.fields@.len(),
            fields@.len() == i,
            forall|k: int|
                0 <= k < i ==> (#[trigger] fields@[k]).0@ == parser.fields@[k].0@ && fields@[k].1
                    == parser.fields@[k].1,
        decreases n - i,
    {
        fields.push((parser.fields[i].0.as_str(), parser.fields[i].1));
        i += 1;
    }
    assert(crate::messages::borrowed_fields_of(fields@) =~= parser.field_list());
    format_command_args(&fields)
}

/// Whether a message needs no comparison with the dictionary, because it is one of the two with
/// which the dictionary is fetched, or because it was found to match before.
pub open spec fn matches_anyway(fixed: Option<u16>, known_good: bool) -> bool {
    fixed == Some(0u16) || fixed == Some(1u16) || known_good
}

/// Why a message cannot be sent or waited for.
pub enum MessageFault {
    /// The message with this name has no ID
    UnknownMessageId(Seq<char>),
    /// The message with this name is declared with the first arguments, and has the second
    CommandMismatch(Seq<char>, Seq<char>, Seq<char>),
}

/// Whether an error says that a message cannot be sent or waited for, and why.
pub open spec fn says(e: McuConnectionError, fault: MessageFault) -> bool {
    match fault {
        MessageFault::UnknownMessageId(name) => e matches McuConnectionError::UnknownMessageId(n)
            && n@ == name,
        MessageFault::CommandMismatch(name, theirs, ours) => {
            &&& e matches McuConnectionError::CommandMismatch(n, t, o)
            &&& n@ == name
            &&& t@ == theirs
            &&& o@ == ours
        },
    }
}

/// What is wrong with a message, by the dictionary.
pub open spec fn message_fault(
    fixed: Option<u16>,
    name: Seq<char>,
    fields: Seq<crate::messages::Field>,
    dictionary: Option<&Dictionary>,
    known_good: bool,
) -> Option<MessageFault> {
    if matches_anyway(fixed, known_good) {
        None
    } else {
        match crate::messages::id_in(fixed, name, dictionary) {
            None => Some(MessageFault::UnknownMessageId(name)),
            Some(id) => {
                let remote = dictionary->Some_0.catalogue().parsers[id].fields;
                if remote == fields {
                    None
                } else {
                    Some(
                        MessageFault::CommandMismatch(
                            name,
                            crate::messages::args_text(remote),
                            crate::messages::args_text(fields),
                        ),
                    )
                }
            },
        }
    }
}

/// Whether the dictionary can tell if a message matches: there is one, and it knows the message
/// with the ID that is fixed.
pub open spec fn can_compare(
    fixed: Option<u16>,
    dictionary: Option<&Dictionary>,
    known_good: bool,
) -> bool {
    matches_anyway(fixed, known_good) || {
        &&& dictionary matches Some(d)
        &&& fixed matches Some(id) ==> d.message_parsers@.dom().contains(id)
    }
}

/// Checks that a message is declared in the dictionary with the arguments that it has here.
pub fn verify_command_matches<C: Message>(
    dictionary: Option<&Dictionary>,
    known_good: bool,
) -> (r: Result<(), McuConnectionError>)
    requires
        dictionary matches Some(d) ==> d.wf(),
        can_compare(C::fixed_id(), dictionary, known_good),
    ensures
        match message_fault(C::fixed_id(), C::name(), C::field_list(), dictionary, known_good) {
            None => r is Ok,
            Some(fault) => r matches Err(e) && says(e, fault),
        },
{
    if known_good {
        return Ok(());
    }
    let fixed = C::get_id(None);
    if let Some(id) = fixed {
        if id == 0 || id == 1 {
            return Ok(());
        }
    }
    if let Some(dict) = dictionary {
        match C::get_id(Some(dict)) {
            None => Err(McuConnectionError::UnknownMessageId(C::get_name())),
            Some(id) => {
                proof {
                    if C::fixed_id() is None {
                        crate::string_map::lookup_is_an_entry(
                            dict.message_ids.pairs(),
                            C::name(),
                        );
                        let ids = dict.catalogue().ids;
                        let k = choose|k: int| 0 <= k < ids.len() && (#[trigger] ids[k]).1 == id;
                        assert(dict.catalogue().parsers.dom().contains(ids[k].1));
                    }
                    assert(dict.message_parsers@.dom().contains(id));
                }
                match dict.message_parsers.get(&id) {
                    Some(parser) => {
                        assert(dict.catalogue().parsers[id] == parser@);
                        let local = C::fields();
                        if same_fields(parser, &local) {
                            Ok(())
                        } else {
                            Err(
                                McuConnectionError::CommandMismatch(
                                    C::get_name(),
                                    parser_args(parser),
                                    format_command_args(&local),
                                ),
                            )
                        }
                    },
                    None => Ok(()),
                }
            },
        }
    } else {
        Ok(())
    }
}

impl<H> McuConnectionInner<H> {
    /// Registers a handler for a kind of message.
    pub fn register_raw_response<R: Message>(
        &mut self,
        _reply: R,
        oid: Option<u8>,
        handler: H,
    ) -> (r: Result<RegisteredResponseHandle, McuConnectionError>)
        requires
            old(self).wf(),
        ensures
            final(self).dictionary == old(self).dictionary,
            match crate::messages::id_in(
                R::fixed_id(),
                R::name(),
                old(self).borrowed_dictionary(),
            ) {
                Some(id) => {
                    &&& r matches Ok(handle)
                    &&& handle.0 == old(self).handlers.next_handler
                    &&& final(self).handlers.next_handler == next_number(
                        old(self).handlers.next_handler,
                    )
                    &&& final(self).handlers@ == old(self).handlers@.insert(
                        HandlerId(id, oid),
                        (handle.0, handler),
                    )
                },
                None => {
                    &&& r matches Err(McuConnectionError::UnknownMessageId(name))
                    &&& name@ == R::name()
                    &&& final(self).handlers == old(self).handlers
                },
            },
    {
        match R::get_id(self.known_dictionary()) {
            Some(id) => Ok(self.handlers.register(id, oid, handler)),
            None => Err(McuConnectionError::UnknownMessageId(R::get_name())),
        }
    }
}

/// Prepares a command: writes it, and checks that it is declared as expected. The flag tells
/// whether it was found to match before.
pub fn begin_send<C: Message>(
    dictionary: Option<&Dictionary>,
    command: EncodedMessage<C>,
    known_good: bool,
) -> (r: Result<FrontTrimmableBuffer, McuConnectionError>)
    requires
        dictionary matches Some(d) ==> d.wf(),
        command.payload.content@.len() >= 2,
        crate::messages::id_in(C::fixed_id(), C::name(), dictionary) is Some ==> can_compare(
            C::fixed_id(),
            dictionary,
            known_good,
        ),
    ensures
        match crate::messages::id_in(C::fixed_id(), C::name(), dictionary) {
            None => r matches Err(e) && says(e, MessageFault::UnknownMessageId(C::name())),
            Some(id) => match message_fault(
                C::fixed_id(),
                C::name(),
                C::field_list(),
                dictionary,
                known_good,
            ) {
                Some(fault) => r matches Err(e) && says(e, fault),
                None => {
                    &&& r matches Ok(buffer)
                    &&& buffer.offset <= buffer.content@.len()
                    &&& buffer.bytes() == id_bytes(id) + command.payload.content@.skip(2)
                },
            },
        },
{
    let buffer = match encode_command(dictionary, command) {
        Ok(buffer) => buffer,
        Err(e) => {
            return Err(e);
        },
    };
    match verify_command_matches::<C>(dictionary, known_good) {
        Ok(()) => Ok(buffer),
        Err(e) => Err(e),
    }
}

impl<H> McuConnectionInner<H> {
    /// Prepares a request: writes it, checks that both it and its reply are declared as expected,
    /// and registers the handler that waits for the reply. The flags tell which of the two were
    /// found to match before.
    pub fn begin_exchange<C: Message, R: Message>(
        &mut self,
        command: EncodedMessage<C>,
        reply: R,
        oid: Option<u8>,
        handler: H,
        command_known_good: bool,
        reply_known_good: bool,
    ) -> (r: Result<FrontTrimmableBuffer, McuConnectionError>)
        requires
            old(self).wf(),
            command.payload.content@.len() >= 2,
            ({
                let dict = old(self).borrowed_dictionary();
                crate::messages::id_in(C::fixed_id(), C::name(), dict) is Some ==> {
                    &&& can_compare(C::fixed_id(), dict, command_known_good)
                    &&& message_fault(
                        C::fixed_id(),
                        C::name(),
                        C::field_list(),
                        dict,
                        command_known_good,
                    ) is None ==> can_compare(R::fixed_id(), dict, reply_known_good)
                }
            }),
        ensures
            final(self).dictionary == old(self).dictionary,
            r is Err ==> final(self).handlers == old(self).handlers,
            ({
                let dict = old(self).borrowed_dictionary();
                match crate::messages::id_in(C::fixed_id(), C::name(), dict) {
                    None => r matches Err(e) && says(e, MessageFault::UnknownMessageId(C::name())),
                    Some(id) => match message_fault(
                        C::fixed_id(),
                        C::name(),
                        C::field_list(),
                        dict,
                        command_known_good,
                    ) {
                        Some(fault) => r matches Err(e) && says(e, fault),
                        None => match message_fault(
                            R::fixed_id(),
                            R::name(),
                            R::field_list(),
                            dict,
                            reply_known_good,
                        ) {
                            Some(fault) => r matches Err(e) && says(e, fault),
                            None => match crate::messages::id_in(R::fixed_id(), R::name(), dict) {
                                None => r matches Err(e) && says(
                                    e,
                                    MessageFault::UnknownMessageId(R::name()),
                                ),
                                Some(reply_id) => {
                                    &&& r matches Ok(buffer)
                                    &&& buffer.offset <= buffer.content@.len()
                                    &&& buffer.bytes() == id_bytes(id)
                                        + command.payload.content@.skip(2)
                                    &&& final(self).handlers@ == old(self).handlers@.insert(
                                        HandlerId(reply_id, oid),
                                        (old(self).handlers.next_handler, handler),
                                    )
                                    &&& final(self).handlers.next_handler == next_number(
                                        old(self).handlers.next_handler,
                                    )
                                },
                            },
                        },
                    },
                }
            }),
    {
        let buffer = match begin_send(self.known_dictionary(), command, command_known_good) {
            Ok(buffer) => buffer,
            Err(e) => {
                return Err(e);
            },
        };
        match verify_command_matches::<R>(self.known_dictionary(), reply_known_good) {
            Ok(()) => {},
            Err(e) => {
                return Err(e);
            },
        }
        match self.register_raw_response(reply, oid, handler) {
            Ok(_) => Ok(buffer),
            Err(e) => Err(e),
        }
    }
}

/// Reads the arguments of a reply.
pub fn decode_reply<R: Message>(data: &mut &[u8]) -> (r: Result<R::PodOwned, McuConnectionError>)
    ensures
        final(data)@ == crate::messages::fields_decode(
            crate::messages::types_of(R::field_list()),
            old(data)@,
        ).rest,
        match crate::messages::fields_decode(
            crate::messages::types_of(R::field_list()),
            old(data)@,
        ).result {
            Ok(values) => r matches Ok(reply) && R::owned_values(reply) == values,
            Err(e) => r matches Err(McuConnectionError::DecodingError(f)) && f == e,
        },
{
    match R::decode(data) {
        Ok(pod) => Ok(R::into_owned(pod)),
        Err(e) => Err(McuConnectionError::DecodingError(e)),
    }
}

// ---------------------------------------------------------------------------
// A request and its reply
// ---------------------------------------------------------------------------

/// How often a request is sent before it is given up.
pub const MAX_ATTEMPTS: u32 = 6;

/// A request that waits for its reply.
#[derive(Debug, Clone, Copy, PartialEq, Eq, Structural)]
pub struct Exchange {
    /// How often the request was sent
    pub attempts: u32,
}

/// What a request that waits for its reply sees.
#[derive(Debug)]
pub enum ExchangeEvent<T> {
    /// The handler got a reply, or something that is not one
    Reply(Result<T, McuConnectionError>),
    /// The handler is gone, and no reply will come
    Dropped,
    /// The time for this attempt is over
    Elapsed,
}

/// What to do with a request.
#[derive(Debug)]
pub enum ExchangeStep<T> {
    /// Send it once more, and wait
    Send,
    /// Return this
    Finish(Result<T, SendReceiveError>),
}

/// What to do with a request that was sent `attempts` times.
pub open spec fn exchange_step<T>(attempts: int, event: ExchangeEvent<T>) -> ExchangeStep<T> {
    match event {
        ExchangeEvent::Reply(Ok(v)) => ExchangeStep::Finish(Ok(v)),
        ExchangeEvent::Reply(Err(e)) => ExchangeStep::Finish(
            Err(SendReceiveError::McuConnection(e)),
        ),
        ExchangeEvent::Dropped => ExchangeStep::Finish(Err(SendReceiveError::Timeout)),
        ExchangeEvent::Elapsed => if attempts < MAX_ATTEMPTS {
            ExchangeStep::Send
        } else {
            ExchangeStep::Finish(Err(SendReceiveError::Timeout))
        },
    }
}

impl Exchange {
    /// A request that is sent for the first time.
    pub fn new() -> (r: Exchange)
        ensures
            r.attempts == 1,
    {
        Exchange { attempts: 1 }
    }

    /// Takes an event, and says what to do.
    pub fn step<T>(&mut self, event: ExchangeEvent<T>) -> (r: ExchangeStep<T>)
        ensures
            r == exchange_step(old(self).attempts as int, event),
            final(self).attempts == old(self).attempts + if r is Send {
                1int
            } else {
                0
            },
    {
        match event {
            ExchangeEvent::Reply(Ok(v)) => ExchangeStep::Finish(Ok(v)),
            ExchangeEvent::Reply(Err(e)) => ExchangeStep::Finish(
                Err(SendReceiveError::McuConnection(e)),
            ),
            ExchangeEvent::Dropped => ExchangeStep::Finish(Err(SendReceiveError::Timeout)),
            ExchangeEvent::Elapsed => if self.attempts < MAX_ATTEMPTS {
                self.attempts += 1;
                ExchangeStep::Send
            } else {
                ExchangeStep::Finish(Err(SendReceiveError::Timeout))
            },
        }
    }
}

/// How often a request that was sent `attempts` times is sent again while these events come.
pub open spec fn resends<T>(attempts: int, events: Seq<ExchangeEvent<T>>) -> int
    decreases events.len(),
{
    if events.len() == 0 || !(exchange_step(attempts, events[0]) is Send) {
        0
    } else {
        1 + resends(attempts + 1, events.skip(1))
    }
}

/// Whatever happens, a request is sent no more than [`MAX_ATTEMPTS`] times.
pub proof fn request_is_sent_a_limited_number_of_times<T>(
    attempts: int,
    events: Seq<ExchangeEvent<T>>,
)
    requires
        attempts <= MAX_ATTEMPTS,
    ensures
        attempts + resends(attempts, events) <= MAX_ATTEMPTS,
    decreases events.len(),
{
    if events.len() > 0 && exchange_step(attempts, events[0]) is Send {
        request_is_sent_a_limited_number_of_times(attempts + 1, events.skip(1));
    }
}

// ---------------------------------------------------------------------------
// What messages and replies do
// ---------------------------------------------------------------------------

/// When a handler has taken a message, it alone is changed: it is kept under its number as it is
/// afterwards, or it is gone. The data goes on right behind what it took, and it cannot take more
/// than there is.
pub proof fn call_changes_one_handler<H>(
    handlers: Map<HandlerId, (usize, H)>,
    id: HandlerId,
    other: HandlerId,
    call: Call<H>,
)
    requires
        handlers.dom().contains(id),
    ensures
        ({
            let t = after_call(handlers, id, call.after, call.result);
            &&& call.result is Continue ==> t.dom().contains(id) && t[id] == (
                handlers[id].0,
                call.after,
            )
            &&& call.result is Deregister ==> !t.dom().contains(id)
            &&& other != id ==> t.dom().contains(other) == handlers.dom().contains(other)
            &&& other != id && handlers.dom().contains(other) ==> t[other] == handlers[other]
        }),
        call.taken <= call.data.len() ==> left_by(call) == call.data.skip(call.taken as int),
        call.taken > call.data.len() ==> left_by(call).len() == 0,
{
}

/// Removing a handler removes the one for just that ID, and with a registration given only if it is
/// that registration's.
pub proof fn removal_removes_one_handler<H>(
    handlers: Map<HandlerId, (usize, H)>,
    id: HandlerId,
    other: HandlerId,
    registration: Option<RegisteredResponseHandle>,
)
    ensures
        ({
            let t = after_removal(handlers, id, registration);
            &&& registration is None ==> !t.dom().contains(id)
            &&& registration matches Some(r) ==> {
                &&& handlers.dom().contains(id) && handlers[id].0 == r.0 ==> !t.dom().contains(id)
                &&& handlers.dom().contains(id) && handlers[id].0 != r.0 ==> t == handlers
                &&& !handlers.dom().contains(id) ==> t == handlers
            }
            &&& other != id ==> t.dom().contains(other) == handlers.dom().contains(other)
            &&& other != id && handlers.dom().contains(other) ==> t[other] == handlers[other]
        }),
{
}

/// A message ID below 128 is one byte, which is the ID. Any other of up to 14 bits is two bytes of
/// seven bits, the first of them with its high bit set.
pub proof fn ids_take_one_or_two_bytes(id: u16)
    ensures
        id < 128 ==> id_bytes(id).len() == 1 && id_bytes(id)[0] == id,
        128 <= id < 16384 ==> {
            &&& id_bytes(id).len() == 2
            &&& id_bytes(id)[0] >= 128
            &&& id_bytes(id)[1] < 128
            &&& (id_bytes(id)[0] - 128) * 128 + id_bytes(id)[1] == id
        },
{
}

/// A message ID is read from one byte, or from two where the high bit of the first is set. Where
/// the input ends before it is complete, there is none.
pub proof fn ids_are_read_from_one_or_two_bytes(first: u8, second: u8, rest: Seq<u8>)
    ensures
        first < 128 ==> id_decode(seq![first] + rest) == (crate::encoding::Decoded {
            result: Ok::<u16, MessageDecodeError>(first as u16),
            rest,
        }),
        first >= 128 ==> id_decode(seq![first, second] + rest) == (crate::encoding::Decoded {
            result: Ok::<u16, MessageDecodeError>(
                ((first - 128) * 128 + second as int % 128) as u16,
            ),
            rest,
        }),
        first >= 128 ==> id_decode(seq![first]).result == Err::<u16, MessageDecodeError>(
            MessageDecodeError::InsufficientData,
        ),
        id_decode(Seq::empty()).result == Err::<u16, MessageDecodeError>(
            MessageDecodeError::InsufficientData,
        ),
{
    assert((seq![first] + rest).skip(1) =~= rest);
    assert((seq![first, second] + rest).skip(2) =~= rest);
}

/// Reading ends with the frame, and then without an error.
pub proof fn empty_frame_is_read<H: Handler>(
    parsers: Option<Map<u16, crate::messages::ParserData>>,
    handlers: Map<HandlerId, (usize, H)>,
    calls: Seq<Call<H>>,
    end: FrameEnd<H>,
)
    ensures
        frame_reads(parsers, handlers, Seq::empty(), calls, end) <==> calls.len() == 0
            && end.handlers == handlers && end.rest.len() == 0 && end.fault is None,
{
    if end.rest.len() == 0 {
        assert(end.rest =~= Seq::empty());
    }
}

/// A handler that is registered for a message ID alone gets any message with that ID, whatever the
/// dictionary says, and reading goes on where it stopped.
pub proof fn raw_handler_gets_the_message<H: Handler>(
    parsers: Option<Map<u16, crate::messages::ParserData>>,
    handlers: Map<HandlerId, (usize, H)>,
    command: u16,
    body: Seq<u8>,
    calls: Seq<Call<H>>,
    end: FrameEnd<H>,
)
    requires
        command < 0x4000,
        handlers.dom().contains(HandlerId(command, None)),
    ensures
        frame_reads(parsers, handlers, id_bytes(command) + body, calls, end) <==> {
            let id = HandlerId(command, None);
            &&& calls.len() > 0
            &&& handled(calls[0])
            &&& calls[0].before == handlers[id].1
            &&& calls[0].data == body
            &&& frame_reads(
                parsers,
                after_call(handlers, id, calls[0].after, calls[0].result),
                left_by(calls[0]),
                calls.skip(1),
                end,
            )
        },
{
    id_round_trip(command, body);
}

/// Without a handler for it, a message that the dictionary does not have is an error, and so is one
/// that cannot be read. Before there is a dictionary only its ID is passed over.
pub proof fn message_that_cannot_be_read<H: Handler>(
    parsers: Option<Map<u16, crate::messages::ParserData>>,
    handlers: Map<HandlerId, (usize, H)>,
    command: u16,
    body: Seq<u8>,
    calls: Seq<Call<H>>,
    end: FrameEnd<H>,
)
    requires
        command < 0x4000,
        !handlers.dom().contains(HandlerId(command, None)),
    ensures
        ({
            let reads = frame_reads(parsers, handlers, id_bytes(command) + body, calls, end);
            match parsers {
                None => reads == frame_reads(parsers, handlers, body, calls, end),
                Some(p) => if !p.dom().contains(command) {
                    reads <==> calls.len() == 0 && end.handlers == handlers && end.rest == body
                        && end.fault == Some(FrameFault::UnknownCommand(command))
                } else {
                    let message = crate::messages::fields_decode(
                        crate::messages::types_of(p[command].fields),
                        body,
                    );
                    message.result matches Err(e) ==> (reads <==> calls.len() == 0 && end.handlers
                        == handlers && end.rest == message.rest && end.fault == Some(
                        FrameFault::Decoding(e),
                    ))
                },
            }
        }),
{
    id_round_trip(command, body);
}

/// A frame that ends within a message ID is an error.
pub proof fn cut_off_id_is_an_error<H: Handler>(
    parsers: Option<Map<u16, crate::messages::ParserData>>,
    handlers: Map<HandlerId, (usize, H)>,
    first: u8,
    calls: Seq<Call<H>>,
    end: FrameEnd<H>,
)
    requires
        first >= 128,
    ensures
        frame_reads(parsers, handlers, seq![first], calls, end) <==> calls.len() == 0 && end.handlers
            == handlers && end.rest.len() == 0 && end.fault == Some(
            FrameFault::Decoding(MessageDecodeError::InsufficientData),
        ),
{
    assert(seq![first].skip(1) =~= Seq::empty());
    if end.rest.len() == 0 {
        assert(end.rest =~= Seq::empty());
    }
}

/// What an error says of a frame.
pub proof fn errors_tell_what_is_wrong_with_a_frame(e: MessageDecodeError, command: u16)
    ensures
        frame_fault(Ok(())) is None,
        frame_fault(Err(McuConnectionError::DecodingError(e))) == Some(FrameFault::Decoding(e)),
        frame_fault(Err(McuConnectionError::UnknownCommand(command))) == Some(
            FrameFault::UnknownCommand(command),
        ),
{
}

/// A message that is written with the object ID `oid` goes to the handler that is registered for
/// its message ID and that object ID, whatever its other arguments are, with the arguments from
/// their start on. Without such a handler it is passed over.
pub proof fn message_goes_to_the_handler_of_its_object<H: Handler>(
    parsers: Map<u16, crate::messages::ParserData>,
    handlers: Map<HandlerId, (usize, H)>,
    command: u16,
    values: Seq<crate::encoding::FieldData>,
    j: int,
    oid: u8,
    rest: Seq<u8>,
    calls: Seq<Call<H>>,
    end: FrameEnd<H>,
)
    requires
        command < 0x4000,
        parsers.dom().contains(command),
        parsers[command].fields.len() == values.len(),
        forall|i: int|
            0 <= i < values.len() ==> (#[trigger] parsers[command].fields[i]).1
                == crate::encoding::type_of(values[i]),
        forall|i: int|
            0 <= i < values.len() ==> crate::messages::encodable(#[trigger] values[i]),
        0 <= j < values.len(),
        parsers[command].fields[j].0 == "oid"@,
        values[j] == crate::encoding::FieldData::U8(oid),
        forall|i: int|
            j < i < values.len() ==> (#[trigger] parsers[command].fields[i]).0 != "oid"@,
        !handlers.dom().contains(HandlerId(command, None)),
    ensures
        ({
            let arguments = crate::messages::fields_encode(values);
            let id = HandlerId(command, Some(oid));
            frame_reads(Some(parsers), handlers, id_bytes(command) + arguments + rest, calls, end)
                <==> if handlers.dom().contains(id) {
                &&& calls.len() > 0
                &&& handled(calls[0])
                &&& calls[0].before == handlers[id].1
                &&& calls[0].data == arguments + rest
                &&& frame_reads(
                    Some(parsers),
                    after_call(handlers, id, calls[0].after, calls[0].result),
                    rest,
                    calls.skip(1),
                    end,
                )
            } else {
                frame_reads(Some(parsers), handlers, rest, calls, end)
            }
        }),
{
    let fields = parsers[command].fields;
    crate::messages::object_id_is_the_argument_of_that_name(fields, values, j, oid);
    assert(crate::messages::types_of(fields) =~= crate::messages::value_types(values));
    declared_message_is_delivered(parsers, handlers, command, values, rest, calls, end);
}

/// A message without an argument of the name `oid` is passed over where no handler is registered
/// for its message ID alone, whatever handlers there are for objects.
pub proof fn message_without_an_object_is_passed_over<H: Handler>(
    parsers: Map<u16, crate::messages::ParserData>,
    handlers: Map<HandlerId, (usize, H)>,
    command: u16,
    values: Seq<crate::encoding::FieldData>,
    rest: Seq<u8>,
    calls: Seq<Call<H>>,
    end: FrameEnd<H>,
)
    requires
        command < 0x4000,
        parsers.dom().contains(command),
        parsers[command].fields.len() == values.len(),
        forall|i: int|
            0 <= i < values.len() ==> (#[trigger] parsers[command].fields[i]).1
                == crate::encoding::type_of(values[i]),
        forall|i: int|
            0 <= i < values.len() ==> crate::messages::encodable(#[trigger] values[i]),
        forall|i: int|
            0 <= i < values.len() ==> (#[trigger] parsers[command].fields[i]).0 != "oid"@,
        !handlers.dom().contains(HandlerId(command, None)),
    ensures
        frame_reads(
            Some(parsers),
            handlers,
            id_bytes(command) + crate::messages::fields_encode(values) + rest,
            calls,
            end,
        ) <==> frame_reads(Some(parsers), handlers, rest, calls, end),
{
    let fields = parsers[command].fields;
    crate::messages::no_object_id_without_that_name(fields, values);
    assert(crate::messages::types_of(fields) =~= crate::messages::value_types(values));
    declared_message_is_delivered(parsers, handlers, command, values, rest, calls, end);
}

/// The messages with the fixed IDs 0 and 1, and those that were found to match before, are not
/// compared. Any other message must have an ID, and the very arguments that the dictionary declares
/// for it. If it has others, the error shows the declared ones first.
pub proof fn messages_must_match_their_declaration(
    fixed: Option<u16>,
    name: Seq<char>,
    fields: Seq<crate::messages::Field>,
    dictionary: Option<&Dictionary>,
    known_good: bool,
)
    ensures
        ({
            let fault = message_fault(fixed, name, fields, dictionary, known_good);
            let id = crate::messages::id_in(fixed, name, dictionary);
            &&& known_good || fixed == Some(0u16) || fixed == Some(1u16) ==> fault is None
            &&& !(known_good || fixed == Some(0u16) || fixed == Some(1u16)) ==> {
                &&& id is None ==> fault == Some(MessageFault::UnknownMessageId(name))
                &&& id matches Some(n) ==> (dictionary matches Some(d) ==> {
                    let declared = d.catalogue().parsers[n].fields;
                    &&& declared == fields ==> fault is None
                    &&& declared != fields ==> fault == Some(
                        MessageFault::CommandMismatch(
                            name,
                            crate::messages::args_text(declared),
                            crate::messages::args_text(fields),
                        ),
                    )
                })
            }
        }),
{
}

/// An error says just one thing of a message.
pub proof fn errors_tell_what_is_wrong_with_a_message(e: McuConnectionError, fault: MessageFault)
    requires
        says(e, fault),
    ensures
        match e {
            McuConnectionError::UnknownMessageId(name) => fault == MessageFault::UnknownMessageId(
                name@,
            ),
            McuConnectionError::CommandMismatch(name, theirs, ours) => fault
                == MessageFault::CommandMismatch(name@, theirs@, ours@),
            _ => false,
        },
{
}

/// A reply ends a request with what it brings, and a handler that is gone ends it with a timeout.
pub proof fn reply_ends_a_request<T>(attempts: int, value: T, e: McuConnectionError)
    ensures
        exchange_step(attempts, ExchangeEvent::Reply(Ok::<T, McuConnectionError>(value)))
            == ExchangeStep::Finish(Ok::<T, SendReceiveError>(value)),
        exchange_step(attempts, ExchangeEvent::Reply(Err::<T, McuConnectionError>(e)))
            == ExchangeStep::Finish(Err::<T, SendReceiveError>(SendReceiveError::McuConnection(e))),
        exchange_step::<T>(attempts, ExchangeEvent::Dropped) == ExchangeStep::Finish(
            Err::<T, SendReceiveError>(SendReceiveError::Timeout),
        ),
{
}

/// A request that gets no reply is sent six times, and times out when the last wait is over.
pub proof fn unanswered_request_is_sent_six_times<T>(
    attempts: int,
    events: Seq<ExchangeEvent<T>>,
)
    requires
        1 <= attempts <= 6,
        events.len() >= 6 - attempts,
        forall|i: int| 0 <= i < events.len() ==> #[trigger] events[i] is Elapsed,
    ensures
        attempts + resends(attempts, events) == 6,
        exchange_step(6, ExchangeEvent::<T>::Elapsed) == ExchangeStep::Finish(
            Err::<T, SendReceiveError>(SendReceiveError::Timeout),
        ),
    decreases events.len(),
{
    if events.len() > 0 {
        assert(events[0] is Elapsed);
        if attempts < 6 {
            let more = events.skip(1);
            assert forall|i: int| 0 <= i < more.len() implies #[trigger] more[i] is Elapsed by {
                assert(more[i] == events[i + 1]);
            }
            unanswered_request_is_sent_six_times(attempts + 1, more);
        }
    }
}

/// A call that came about was a call of the handler, with the data that it was given.
pub proof fn handled_call_was_made<H: Handler>(call: Call<H>) -> (data: &'static [u8])
    requires
        handled(call),
    ensures
        data@ == call.data,
        call_ensures(H::handle, (call.before, data), (call.after, call.result, call.taken)),
{
    choose|data: &'static [u8]|
        data@ == call.data && #[trigger] call_ensures(
            H::handle,
            (call.before, data),
            (call.after, call.result, call.taken),
        )
}

/// A connection reads by the parsers of its dictionary, if it has one.
pub proof fn connection_reads_by_its_dictionary<H>(inner: McuConnectionInner<H>)
    ensures
        inner.dictionary is None <==> inner.parsers() is None,
        inner.dictionary is None <==> inner.borrowed_dictionary() is None,
        inner.dictionary matches Some(d) ==> inner.parsers() == Some(d.catalogue().parsers)
            && inner.borrowed_dictionary() == Some(&*d),
{
}

} // verus!
