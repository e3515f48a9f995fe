//! The state of a link: which frames are on their way, which messages wait, and what to do when
//! something happens.
//!
//! Each frame from the host carries the low four bits of its sequence number, and each frame from
//! the device those of the sequence number that it expects next. At most
//! [`MAX_INFLIGHT`] frames are on their way at a time, so that four bits are enough.
use crate::frame::{encode_frame, Frame, MessageEncodeError, MESSAGE_LENGTH_PAYLOAD_MAX, MESSAGE_VALUE_SYNC};
use crate::queue::MessageQueue;
use std::collections::VecDeque;
use vstd::prelude::*;

verus! {

/// Declares the error of [`std::io`], which is carried along unread.
#[verifier::external_type_specification]
#[verifier::external_body]
pub struct ExIoError(std::io::Error);

/// What can go wrong while receiving.
#[derive(Debug)]
pub enum ReceiverError {
    /// The link failed
    IoError(std::io::Error),
}

/// What can go wrong while sending.
#[derive(Debug)]
pub enum TransmitterError {
    /// The link failed
    IoError(std::io::Error),
    /// The connection is closed
    ConnectionClosed,
}

/// What can end a transport.
#[derive(Debug)]
pub enum TransportError {
    /// A message could not be encoded
    MessageEncode(MessageEncodeError),
    /// Receiving failed
    Receiver(ReceiverError),
    /// Sending failed
    Transmitter(TransmitterError),
}

/// How many frames may be on their way at a time.
pub const MAX_INFLIGHT: usize = 12;

/// A frame that has been sent and not been acknowledged.
#[derive(Debug)]
pub struct InflightFrame {
    /// When the frame was sent last, in nanoseconds
    pub sent_at: u64,
    /// The sequence number that acknowledges the frame
    pub sequence: u64,
    /// The frame
    pub payload: Vec<u8>,
    /// Whether the frame has been sent more than once
    pub is_retransmit: bool,
}

/// What an [`InflightFrame`] holds.
pub struct Inflight {
    pub sent_at: u64,
    pub sequence: int,
    pub payload: Seq<u8>,
    pub is_retransmit: bool,
}

impl View for InflightFrame {
    type V = Inflight;

    open spec fn view(&self) -> Inflight {
        Inflight {
            sent_at: self.sent_at,
            sequence: self.sequence as int,
            payload: self.payload@,
            is_retransmit: self.is_retransmit,
        }
    }
}

/// What some frames on their way hold.
pub open spec fn inflight_views(frames: Seq<InflightFrame>) -> Seq<Inflight> {
    Seq::new(frames.len(), |i: int| frames[i]@)
}

/// The state of a link.
#[derive(Debug)]
pub struct TransportState {
    pub is_synchronized: bool,
    pub receive_sequence: u64,
    pub send_sequence: u64,
    pub last_ack_sequence: u64,
    pub ignore_nak_seq: u64,
    pub retransmit_seq: u64,
    pub retransmit_now: bool,
    pub corked_until: Option<u64>,
    pub inflight_messages: VecDeque<InflightFrame>,
    pub ready_messages: MessageQueue,
}

/// What a [`TransportState`] holds.
pub struct LinkState {
    pub is_synchronized: bool,
    pub receive: int,
    pub send: int,
    pub last_ack: int,
    pub ignore_nak: int,
    pub retransmit: int,
    pub retransmit_now: bool,
    pub corked_until: Option<u64>,
    pub inflight: Seq<Inflight>,
    pub ready: Seq<Seq<u8>>,
}

impl View for TransportState {
    type V = LinkState;

    open spec fn view(&self) -> LinkState {
        LinkState {
            is_synchronized: self.is_synchronized,
            receive: self.receive_sequence as int,
            send: self.send_sequence as int,
            last_ack: self.last_ack_sequence as int,
            ignore_nak: self.ignore_nak_seq as int,
            retransmit: self.retransmit_seq as int,
            retransmit_now: self.retransmit_now,
            corked_until: self.corked_until,
            inflight: inflight_views(self.inflight_messages@),
            ready: self.ready_messages.pending(),
        }
    }
}

/// Whether some bytes are a frame with a sequence number.
pub open spec fn is_frame_of(bytes: Seq<u8>, sequence: int) -> bool {
    exists|p: Seq<u8>|
        p.len() <= MESSAGE_LENGTH_PAYLOAD_MAX && #[trigger] crate::frame::frame_bytes(sequence, p)
            == bytes
}

impl LinkState {
    /// The frames on their way are those with the sequence numbers from `receive` up to, not
    /// including, `send`, in order, and no more than [`MAX_INFLIGHT`].
    pub open spec fn valid(self) -> bool {
        &&& 0 <= self.last_ack
        &&& 0 <= self.receive <= self.send
        &&& self.inflight.len() == self.send - self.receive
        &&& self.inflight.len() <= MAX_INFLIGHT
        &&& forall|i: int|
            0 <= i < self.inflight.len() ==> (#[trigger] self.inflight[i]).sequence == self.receive
                + i + 1
        &&& forall|i: int|
            0 <= i < self.inflight.len() ==> is_frame_of(
                (#[trigger] self.inflight[i]).payload,
                self.receive + i,
            )
    }

    /// Whether another frame may be sent.
    pub open spec fn can_send(self) -> bool {
        self.corked_until is None && self.inflight.len() < MAX_INFLIGHT
    }
}

/// The first sequence number from `receive` on that has the given low four bits.
pub open spec fn full_sequence(receive: int, low_bits: int) -> int {
    receive + (low_bits - receive) % 16
}

/// How many frames on their way an acknowledgement of `sequence` covers, if it is one of theirs.
pub open spec fn acknowledged(s: LinkState, sequence: int) -> Option<int> {
    if s.receive < sequence <= s.receive + s.inflight.len() {
        Some(sequence - s.receive)
    } else {
        None
    }
}

/// The state once the device is known to expect `sequence`. If that acknowledges frames on their
/// way they are done with; else all of them are dropped and sending goes on from there.
pub open spec fn advanced(s: LinkState, sequence: int) -> LinkState {
    match acknowledged(s, sequence) {
        Some(n) => LinkState {
            is_synchronized: true,
            receive: sequence,
            inflight: s.inflight.skip(n),
            ..s
        },
        None => LinkState {
            is_synchronized: true,
            receive: sequence,
            send: sequence,
            inflight: Seq::empty(),
            ..s
        },
    }
}

/// The round trip time that an acknowledgement of `sequence` shows: that of the last frame it
/// covers, unless that frame was sent more than once.
pub open spec fn round_trip(s: LinkState, sequence: int, receive_time: u64) -> Option<int> {
    match acknowledged(s, sequence) {
        Some(n) => if s.inflight[n - 1].is_retransmit {
            None
        } else if receive_time >= s.inflight[n - 1].sent_at {
            Some(receive_time - s.inflight[n - 1].sent_at)
        } else {
            Some(0)
        },
        None => None,
    }
}

/// What comes of a received frame, besides the new state.
#[derive(Debug)]
pub struct FrameOutcome {
    /// A round trip time, in nanoseconds
    pub rtt: Option<u64>,
    /// A payload for the application
    pub deliver: Option<Vec<u8>>,
}

/// Whether a frame acknowledges what was never sent. Such a frame is dropped.
pub open spec fn is_bogus(s: LinkState, sequence: int) -> bool {
    s.is_synchronized && sequence != s.receive && sequence > s.send
}

/// Whether a frame moves the sequence numbers.
pub open spec fn moves(s: LinkState, sequence: int) -> bool {
    !is_bogus(s, sequence) && (!s.is_synchronized || sequence != s.receive)
}

/// The state after a frame.
pub open spec fn after_frame(s: LinkState, low_bits: int, has_payload: bool) -> LinkState {
    let sequence = full_sequence(s.receive, low_bits);
    if is_bogus(s, sequence) {
        s
    } else {
        let t = if moves(s, sequence) {
            advanced(s, sequence)
        } else {
            s
        };
        if has_payload {
            t
        } else if t.last_ack < sequence {
            LinkState { last_ack: sequence, ..t }
        } else if sequence > t.ignore_nak && t.inflight.len() > 0 {
            LinkState { retransmit_now: true, ..t }
        } else {
            t
        }
    }
}

/// The low four bits of a sequence number pick it out of the sixteen from `receive` on.
proof fn lemma_full_sequence(receive: int, low_bits: int)
    requires
        0 <= receive,
        0 <= low_bits < 16,
    ensures
        full_sequence(receive, low_bits) == if receive - receive % 16 + low_bits < receive {
            receive - receive % 16 + low_bits + 16
        } else {
            receive - receive % 16 + low_bits
        },
{
}

/// What some frames hold.
pub open spec fn frames_of(outbox: Seq<Vec<u8>>) -> Seq<Seq<u8>> {
    Seq::new(outbox.len(), |i: int| outbox[i]@)
}

/// A payload with as many of the waiting messages behind it as fit into one frame, and the messages
/// that go on waiting.
pub open spec fn packed(initial: Seq<u8>, ready: Seq<Seq<u8>>) -> (Seq<u8>, Seq<Seq<u8>>)
    decreases ready.len(),
{
    if ready.len() > 0 && initial.len() + ready[0].len() <= MESSAGE_LENGTH_PAYLOAD_MAX {
        packed(initial + ready[0], ready.skip(1))
    } else {
        (initial, ready)
    }
}

/// A payload that fits into a frame still does with what was put behind it, and nothing is put
/// behind one that does not.
proof fn packed_bounds(initial: Seq<u8>, ready: Seq<Seq<u8>>)
    ensures
        initial.len() <= MESSAGE_LENGTH_PAYLOAD_MAX ==> packed(initial, ready).0.len()
            <= MESSAGE_LENGTH_PAYLOAD_MAX,
        initial.len() > MESSAGE_LENGTH_PAYLOAD_MAX ==> packed(initial, ready) == (initial, ready),
    decreases ready.len(),
{
    if ready.len() > 0 && initial.len() + ready[0].len() <= MESSAGE_LENGTH_PAYLOAD_MAX {
        packed_bounds(initial + ready[0], ready.skip(1));
    }
}

/// The state once a payload has been sent in the next frame.
pub open spec fn with_frame_sent(
    s: LinkState,
    payload: Seq<u8>,
    rest: Seq<Seq<u8>>,
    now: u64,
) -> LinkState {
    LinkState {
        send: s.send + 1,
        ready: rest,
        inflight: s.inflight.push(
            Inflight {
                sent_at: now,
                sequence: s.send + 1,
                payload: crate::frame::frame_bytes(s.send, payload),
                is_retransmit: false,
            },
        ),
        ..s
    }
}

/// Sending a frame keeps the state valid.
pub proof fn sending_keeps_valid(s: LinkState, payload: Seq<u8>, rest: Seq<Seq<u8>>, now: u64)
    requires
        s.valid(),
        s.inflight.len() < MAX_INFLIGHT,
        payload.len() <= MESSAGE_LENGTH_PAYLOAD_MAX,
    ensures
        with_frame_sent(s, payload, rest, now).valid(),
{
    let t = with_frame_sent(s, payload, rest, now);
    assert forall|i: int| 0 <= i < t.inflight.len() implies (#[trigger] t.inflight[i]).sequence
        == t.receive + i + 1 && is_frame_of(t.inflight[i].payload, t.receive + i) by {
        if i < s.inflight.len() {
            assert(t.inflight[i] == s.inflight[i]);
        } else {
            assert(crate::frame::frame_bytes(s.send, payload) == t.inflight[i].payload);
        }
    }
}

/// What comes of sending all that may be sent.
pub struct SendRun {
    /// The state afterwards
    pub state: LinkState,
    /// The payloads of the frames that are sent
    pub payloads: Seq<Seq<u8>>,
    /// Whether no message was found to be too long
    pub complete: bool,
    /// The message that was found to be too long, and is lost
    pub lost: Seq<u8>,
}

/// Sends the waiting messages, as many as fit in each frame, while another frame may be sent.
pub open spec fn send_run(s: LinkState, now: u64) -> SendRun
    decreases MAX_INFLIGHT - s.inflight.len(),
{
    if s.can_send() && s.ready.len() > 0 {
        if s.ready[0].len() <= MESSAGE_LENGTH_PAYLOAD_MAX {
            let (payload, rest) = packed(s.ready[0], s.ready.skip(1));
            let more = send_run(with_frame_sent(s, payload, rest, now), now);
            SendRun { payloads: seq![payload] + more.payloads, ..more }
        } else {
            SendRun {
                state: LinkState { ready: s.ready.skip(1), ..s },
                payloads: Seq::empty(),
                complete: false,
                lost: s.ready[0],
            }
        }
    } else {
        SendRun { state: s, payloads: Seq::empty(), complete: true, lost: Seq::empty() }
    }
}

/// The frames of some payloads, with the sequence numbers from `sequence` on.
pub open spec fn frames_for(sequence: int, payloads: Seq<Seq<u8>>) -> Seq<Seq<u8>> {
    Seq::new(payloads.len(), |i: int| crate::frame::frame_bytes(sequence + i, payloads[i]))
}

/// A frame on its way once it has been sent again.
pub open spec fn resent(f: Inflight, now: u64) -> Inflight {
    Inflight { sent_at: now, is_retransmit: true, ..f }
}

/// Frames on their way, one behind the other.
pub open spec fn joined_payloads(frames: Seq<Inflight>) -> Seq<u8>
    decreases frames.len(),
{
    if frames.len() == 0 {
        Seq::empty()
    } else {
        joined_payloads(frames.drop_last()) + frames.last().payload
    }
}

/// What a retransmission sends: a sync byte, and all frames on their way.
pub open spec fn retransmission(s: LinkState) -> Seq<u8> {
    seq![MESSAGE_VALUE_SYNC] + joined_payloads(s.inflight)
}

/// The state after a retransmission.
pub open spec fn after_retransmit(s: LinkState, now: u64) -> LinkState {
    LinkState {
        inflight: Seq::new(s.inflight.len(), |i: int| resent(s.inflight[i], now)),
        ignore_nak: if !s.retransmit_now {
            s.send
        } else if s.receive < s.retransmit {
            s.retransmit
        } else {
            s.receive
        },
        retransmit_now: false,
        retransmit: s.send,
        ..s
    }
}

/// A retransmission keeps the state valid.
pub proof fn retransmit_keeps_valid(s: LinkState, now: u64)
    requires
        s.valid(),
    ensures
        after_retransmit(s, now).valid(),
{
    let t = after_retransmit(s, now);
    assert forall|i: int| 0 <= i < t.inflight.len() implies (#[trigger] t.inflight[i]).sequence
        == t.receive + i + 1 && is_frame_of(t.inflight[i].payload, t.receive + i) by {
        assert(t.inflight[i].payload == s.inflight[i].payload);
        assert(t.inflight[i].sequence == s.inflight[i].sequence);
    }
}

/// What the application asks of the link.
#[derive(Debug)]
pub enum TransportCommand {
    /// Send a message
    SendMessage(Vec<u8>),
    /// Close the link
    Exit,
}

/// What can happen on a link.
#[derive(Debug)]
pub enum Event {
    /// A frame came in
    Frame(Frame),
    /// No more frames will come in
    LinkClosed,
    /// The application asks for something
    Command(TransportCommand),
    /// The application is gone
    CommandsClosed,
    /// A message waits and another frame may be sent
    Ready,
    /// The oldest frame on its way has not been acknowledged in time
    RetransmitTimeout,
    /// Sending may go on
    CorkTimeout,
    /// The link is being closed
    Cancelled,
}

/// What the link does next.
#[derive(Debug, Clone, Copy, PartialEq, Eq, Structural)]
pub enum Next {
    /// Go on
    Continue,
    /// Close all parts of the link, and go on
    Cancel,
    /// Stop
    Stop,
}

/// What comes of an event, besides the new state.
#[derive(Debug)]
pub struct Reaction {
    pub next: Next,
    pub outcome: FrameOutcome,
}

/// What a link waits for, besides frames and commands.
#[derive(Debug, Clone, Copy)]
pub struct Waits {
    /// When the oldest frame on its way was sent, in nanoseconds
    pub oldest_sent_at: Option<u64>,
    /// Until when nothing may be sent, in nanoseconds
    pub corked_until: Option<u64>,
    /// Whether a message waits and another frame may be sent
    pub ready_to_send: bool,
}

/// What the link does after an event.
pub open spec fn next_after(event: Event) -> Next {
    match event {
        Event::Command(TransportCommand::Exit) => Next::Cancel,
        Event::LinkClosed => Next::Stop,
        Event::CommandsClosed => Next::Stop,
        Event::Cancelled => Next::Stop,
        _ => Next::Continue,
    }
}

/// The state after an event.
pub open spec fn after_event(s: LinkState, event: Event, now: u64) -> LinkState {
    match event {
        Event::Frame(f) => after_frame(s, f.sequence as int, f.payload@.len() > 0),
        Event::Command(TransportCommand::SendMessage(m)) => LinkState {
            ready: s.ready.push(m@),
            ..s
        },
        Event::Ready => send_run(s, now).state,
        Event::RetransmitTimeout => LinkState { retransmit_now: true, ..s },
        _ => s,
    }
}

impl TransportState {
    /// The state is one that the link can be in.
    pub open spec fn wf(&self) -> bool {
        self.ready_messages.wf() && self@.valid()
    }

    /// There are sequence numbers left for whatever happens next.
    pub open spec fn room(&self) -> bool {
        self.send_sequence <= u64::MAX - 16
    }

    /// Whether there are sequence numbers left for whatever happens next.
    pub fn has_room(&self) -> (r: bool)
        ensures
            r == self.room(),
    {
        self.send_sequence <= u64::MAX - 16
    }

    /// A link on which nothing has happened.
    pub fn new() -> (r: TransportState)
        ensures
            r.wf(),
            r.room(),
            r@ == (LinkState {
                is_synchronized: false,
                receive: 1,
                send: 1,
                last_ack: 0,
                ignore_nak: 0,
                retransmit: 0,
                retransmit_now: false,
                corked_until: None,
                inflight: Seq::empty(),
                ready: Seq::empty(),
            }),
    {
        let r = TransportState {
            is_synchronized: false,
            receive_sequence: 1,
            send_sequence: 1,
            last_ack_sequence: 0,
            ignore_nak_seq: 0,
            retransmit_seq: 0,
            retransmit_now: false,
            corked_until: None,
            inflight_messages: VecDeque::new(),
            ready_messages: MessageQueue::new(),
        };
        assert(r@.inflight =~= Seq::<Inflight>::empty());
        r
    }

    /// Takes note that the device expects `sequence`. The result is a round trip time, if this
    /// shows one.
    pub fn update_receive_seq(&mut self, receive_time: u64, sequence: u64) -> (r: Option<u64>)
        requires
            old(self).wf(),
        ensures
            final(self).wf(),
            final(self)@ == advanced(old(self)@, sequence as int),
            match round_trip(old(self)@, sequence as int, receive_time) {
                Some(t) => r matches Some(u) && u == t,
                None => r is None,
            },
    {
        let ghost s = self@;
        let mut sent_seq: u64 = self.receive_sequence;
        let mut rtt: Option<u64> = None;
        let mut found: bool = false;
        let mut more: bool = true;
        assert(s.inflight.skip(0) =~= s.inflight);
        while more
            invariant
                s == old(self)@,
                s.valid(),
                self.ready_messages.wf(),
                s.receive <= sent_seq <= s.send,
                self@ == (LinkState {
                    inflight: s.inflight.skip(sent_seq - s.receive),
                    send: self@.send,
                    ..s
                }),
                found ==> !more && sent_seq == sequence && sent_seq > s.receive && self@.send
                    == s.send,
                !found && more ==> (sequence <= s.receive || sent_seq < sequence) && self@.send
                    == s.send && rtt is None,
                !found && !more ==> sent_seq == s.send && acknowledged(s, sequence as int) is None
                    && self@.send == sequence && rtt is None,
                found ==> match round_trip(s, sequence as int, receive_time) {
                    Some(t) => rtt matches Some(u) && u == t,
                    None => rtt is None,
                },
            decreases s.send - sent_seq, (if more { 1int } else { 0int }),
        {
            let ghost before = self.inflight_messages@;
            match self.inflight_messages.pop_front() {
                Some(msg) => {
                    proof {
                        let i = sent_seq - s.receive;
                        assert(inflight_views(before) == s.inflight.skip(i));
                        assert(inflight_views(before)[0] == msg@);
                        assert(self@.inflight =~= inflight_views(before).skip(1));
                        assert(self@.inflight =~= s.inflight.skip(i + 1));
                    }
                    sent_seq += 1;
                    if sequence == sent_seq {
                        if !msg.is_retransmit {
                            rtt = Some(receive_time.saturating_sub(msg.sent_at));
                        }
                        found = true;
                        more = false;
                    }
                },
                None => {
                    assert(self@.inflight.len() == 0);
                    self.send_sequence = sequence;
                    more = false;
                },
            }
        }
        self.receive_sequence = sequence;
        self.is_synchronized = true;
        proof {
            assert(self@.inflight =~= advanced(s, sequence as int).inflight);
            advance_keeps_valid(s, sequence as int);
        }
        rtt
    }

    /// Takes in a frame.
    pub fn handle_frame(&mut self, frame: Frame) -> (r: FrameOutcome)
        requires
            old(self).wf(),
            old(self).room(),
            frame.sequence < 16,
        ensures
            final(self).wf(),
            final(self)@ == after_frame(
                old(self)@,
                frame.sequence as int,
                frame.payload@.len() > 0,
            ),
            ({
                let sequence = full_sequence(old(self)@.receive, frame.sequence as int);
                let rtt = if moves(old(self)@, sequence) {
                    round_trip(old(self)@, sequence, frame.receive_time)
                } else {
                    None
                };
                &&& match rtt {
                    Some(t) => r.rtt matches Some(u) && u == t,
                    None => r.rtt is None,
                }
                &&& if frame.payload@.len() > 0 && !is_bogus(old(self)@, sequence) {
                    r.deliver matches Some(p) && p@ == frame.payload@
                } else {
                    r.deliver is None
                }
            }),
    {
        let ghost s = self@;
        let rseq: u64 = self.receive_sequence;
        let low: u64 = frame.sequence as u64;
        let mut sequence: u64 = (rseq & !0xFu64) | low;
        assert((rseq & !0xFu64) | low == rseq - rseq % 16 + low) by (bit_vector)
            requires
                low < 16,
        ;
        if sequence < rseq {
            sequence += 16;
        }
        proof {
            lemma_full_sequence(rseq as int, low as int);
        }
        let mut rtt: Option<u64> = None;
        if !self.is_synchronized || sequence != rseq {
            if sequence > self.send_sequence && self.is_synchronized {
                // Ack for unsent message
                return FrameOutcome { rtt: None, deliver: None };
            }
            rtt = self.update_receive_seq(frame.receive_time, sequence);
        }
        if frame.payload.len() == 0 {
            if self.last_ack_sequence < sequence {
                self.last_ack_sequence = sequence;
            } else if sequence > self.ignore_nak_seq && self.inflight_messages.len() != 0 {
                // Trigger retransmit from NAK
                self.retransmit_now = true;
            }
            FrameOutcome { rtt, deliver: None }
        } else {
            // Data message, this goes directly to the application as the device can't actually
            // retransmit anyway.
            FrameOutcome { rtt, deliver: Some(frame.payload) }
        }
    }

    /// Whether another frame may be sent.
    pub fn can_send(&self) -> (r: bool)
        ensures
            r == self@.can_send(),
    {
        self.corked_until.is_none() && self.inflight_messages.len() < MAX_INFLIGHT
    }

    /// Sends a frame that starts with the message `initial`, and holds as many of the waiting
    /// messages as fit behind it. The frame is appended to `link_outbox`.
    pub fn send_new_frame(
        &mut self,
        initial: Vec<u8>,
        now: u64,
        link_outbox: &mut Vec<Vec<u8>>,
    ) -> (r: Result<(), TransportError>)
        requires
            old(self).wf(),
            old(self)@.inflight.len() < MAX_INFLIGHT,
            old(self).send_sequence < u64::MAX,
        ensures
            final(self).wf(),
            ({
                let (payload, rest) = packed(initial@, old(self)@.ready);
                if initial@.len() <= MESSAGE_LENGTH_PAYLOAD_MAX {
                    &&& r is Ok
                    &&& final(self)@ == with_frame_sent(old(self)@, payload, rest, now)
                    &&& frames_of(final(link_outbox)@) == frames_of(old(link_outbox)@).push(
                        crate::frame::frame_bytes(old(self)@.send, payload),
                    )
                } else {
                    &&& r matches Err(TransportError::MessageEncode(
                        MessageEncodeError::MessageTooLong,
                    ))
                    &&& final(self)@ == old(self)@
                    &&& final(link_outbox)@ == old(link_outbox)@
                }
            }),
    {
        let ghost s = self@;
        let ghost first = initial@;
        let mut initial = initial;
        let mut more: bool = true;
        proof {
            packed_bounds(first, s.ready);
        }
        while more
            invariant
                self.ready_messages.wf(),
                self@ == (LinkState { ready: self@.ready, ..s }),
                packed(first, s.ready) == packed(initial@, self@.ready),
                !more ==> packed(initial@, self@.ready) == (initial@, self@.ready),
                first.len() > MESSAGE_LENGTH_PAYLOAD_MAX ==> initial@ == first && self@ == s,
            decreases self@.ready.len(), (if more { 1int } else { 0int }),
        {
            let fits: bool = match self.ready_messages.try_peek() {
                Some(next) => initial.len() <= MESSAGE_LENGTH_PAYLOAD_MAX && next.len()
                    <= MESSAGE_LENGTH_PAYLOAD_MAX - initial.len(),
                None => false,
            };
            if fits {
                // Add to the end of the message.
                match self.ready_messages.try_recv() {
                    Some(next) => {
                        let mut next = next;
                        initial.append(&mut next);
                    },
                    None => {
                        more = false;
                    },
                }
            } else {
                more = false;
            }
        }
        let frame = match encode_frame(self.send_sequence, initial.as_slice()) {
            Ok(frame) => frame,
            Err(e) => {
                return Err(TransportError::MessageEncode(e));
            },
        };
        self.send_sequence += 1;
        let copy = vstd::slice::slice_to_vec(frame.as_slice());
        self.inflight_messages.push_back(
            InflightFrame {
                sent_at: now,
                sequence: self.send_sequence,
                payload: frame,
                is_retransmit: false,
            },
        );
        link_outbox.push(copy);
        proof {
            let (payload, rest) = packed(first, s.ready);
            assert(self@.inflight =~= with_frame_sent(s, payload, rest, now).inflight);
            assert(frames_of(link_outbox@) =~= frames_of(old(link_outbox)@).push(
                crate::frame::frame_bytes(s.send, payload),
            ));
            sending_keeps_valid(s, payload, rest, now);
        }
        Ok(())
    }

    /// Sends as many of the waiting messages as it may, in order. The frames are appended to
    /// `link_outbox`. It stops at a message that does not fit into a frame.
    pub fn send_more_frames(&mut self, now: u64, link_outbox: &mut Vec<Vec<u8>>) -> (r: Result<
        (),
        TransportError,
    >)
        requires
            old(self).wf(),
            old(self).room(),
        ensures
            final(self).wf(),
            final(self)@ == send_run(old(self)@, now).state,
            frames_of(final(link_outbox)@) == frames_of(old(link_outbox)@) + frames_for(
                old(self)@.send,
                send_run(old(self)@, now).payloads,
            ),
            send_run(old(self)@, now).complete ==> r is Ok,
            !send_run(old(self)@, now).complete ==> (r matches Err(
                TransportError::MessageEncode(MessageEncodeError::MessageTooLong),
            )),
    {
        let ghost s = self@;
        let ghost sent0 = frames_of(link_outbox@);
        let ghost mut done: Seq<Seq<u8>> = Seq::empty();
        assert(frames_of(link_outbox@) =~= sent0 + frames_for(s.send, done));
        proof {
            let run = send_run(s, now);
            assert(done + run.payloads =~= run.payloads);
        }
        loop
            invariant
                self.wf(),
                s == old(self)@,
                s.valid(),
                s.send <= u64::MAX - 16,
                done.len() == self@.send - s.send,
                self@.receive == s.receive,
                self@.inflight.len() == s.inflight.len() + done.len(),
                sent0 == frames_of(old(link_outbox)@),
                frames_of(link_outbox@) == sent0 + frames_for(s.send, done),
                send_run(s, now).state == send_run(self@, now).state,
                send_run(s, now).complete == send_run(self@, now).complete,
                send_run(s, now).payloads == done + send_run(self@, now).payloads,
            decreases MAX_INFLIGHT - self@.inflight.len(),
        {
            let ghost cur = self@;
            if !self.can_send() {
                assert(done + Seq::<Seq<u8>>::empty() =~= done);
                return Ok(());
            }
            let msg = match self.ready_messages.try_recv() {
                Some(msg) => msg,
                None => {
                    assert(done + Seq::<Seq<u8>>::empty() =~= done);
                    return Ok(());
                },
            };
            assert(self@ == (LinkState { ready: cur.ready.skip(1), ..cur }));
            let ghost (payload, rest) = packed(cur.ready[0], cur.ready.skip(1));
            proof {
                packed_bounds(cur.ready[0], cur.ready.skip(1));
            }
            match self.send_new_frame(msg, now, link_outbox) {
                Ok(()) => {
                    proof {
                        let next = send_run(self@, now).payloads;
                        assert(self@ == with_frame_sent(cur, payload, rest, now));
                        assert(done.push(payload) + next =~= done + (seq![payload] + next));
                        assert(frames_for(s.send, done.push(payload)) =~= frames_for(
                            s.send,
                            done,
                        ).push(crate::frame::frame_bytes(cur.send, payload)));
                        done = done.push(payload);
                        assert(frames_of(link_outbox@) =~= sent0 + frames_for(s.send, done));
                    }
                },
                Err(e) => {
                    assert(done + Seq::<Seq<u8>>::empty() =~= done);
                    return Err(e);
                },
            }
        }
    }

    /// Sends all frames on their way once more, in one go behind a sync byte. The result is what
    /// to send, and whether to back off because a timeout brought this about.
    pub fn retransmit_pending(&mut self, now: u64) -> (r: (Vec<u8>, bool))
        requires
            old(self).wf(),
        ensures
            final(self).wf(),
            final(self)@ == after_retransmit(old(self)@, now),
            r.0@ == retransmission(old(self)@),
            r.1 == !old(self).retransmit_now,
    {
        let ghost s = self@;
        let mut buf: Vec<u8> = Vec::new();
        buf.push(MESSAGE_VALUE_SYNC);
        let n: usize = self.inflight_messages.len();
        let mut i: usize = 0;
        let ghost q0 = self.inflight_messages@;
        assert(s.inflight.take(0) =~= Seq::<Inflight>::empty());
        assert(buf@ =~= seq![MESSAGE_VALUE_SYNC] + joined_payloads(s.inflight.take(0)));
        while i < n
            invariant
                i <= n,
                n == q0.len(),
                self.ready_messages.wf(),
                s.inflight == inflight_views(q0),
                self.inflight_messages@.len() == n,
                self@ == (LinkState { inflight: self@.inflight, ..s }),
                forall|k: int|
                    0 <= k < n - i ==> (#[trigger] self.inflight_messages@[k])@ == q0[i + k]@,
                forall|k: int|
                    n - i <= k < n ==> (#[trigger] self.inflight_messages@[k])@ == resent(
                        q0[k - (n - i)]@,
                        now,
                    ),
                buf@ == seq![MESSAGE_VALUE_SYNC] + joined_payloads(s.inflight.take(i as int)),
            decreases n - i,
        {
            let ghost before = self.inflight_messages@;
            match self.inflight_messages.pop_front() {
                Some(msg) => {
                    assert(before[0]@ == q0[i + 0]@);
                    let mut msg = msg;
                    buf.extend_from_slice(msg.payload.as_slice());
                    msg.is_retransmit = true;
                    msg.sent_at = now;
                    self.inflight_messages.push_back(msg);
                    proof {
                        let now_q = self.inflight_messages@;
                        assert(now_q.len() == n);
                        assert forall|k: int| 0 <= k < n - (i + 1) implies (#[trigger] now_q[k])@
                            == q0[i + 1 + k]@ by {
                            assert(now_q[k] == before[k + 1]);
                        }
                        assert forall|k: int| n - (i + 1) <= k < n implies (#[trigger] now_q[k])@
                            == resent(q0[k - (n - (i + 1))]@, now) by {
                            if k < n - 1 {
                                assert(now_q[k] == before[k + 1]);
                            }
                        }
                        assert(s.inflight.take(i + 1).drop_last() =~= s.inflight.take(i as int));
                        assert(buf@ =~= seq![MESSAGE_VALUE_SYNC] + joined_payloads(
                            s.inflight.take(i + 1),
                        ));
                    }
                },
                None => {},
            }
            i += 1;
        }
        let back_off: bool = !self.retransmit_now;
        if self.retransmit_now {
            self.ignore_nak_seq = self.receive_sequence;
            if self.receive_sequence < self.retransmit_seq {
                self.ignore_nak_seq = self.retransmit_seq;
            }
            self.retransmit_now = false;
        } else {
            self.ignore_nak_seq = self.send_sequence;
        }
        self.retransmit_seq = self.send_sequence;
        proof {
            assert(s.inflight.take(n as int) =~= s.inflight);
            assert(self@.inflight =~= after_retransmit(s, now).inflight);
            retransmit_keeps_valid(s, now);
        }
        (buf, back_off)
    }

    /// What the link does before it waits: it sends all frames on their way once more, if that is
    /// due. The result is as that of [`TransportState::retransmit_pending`].
    pub fn begin_turn(&mut self, now: u64) -> (r: Option<(Vec<u8>, bool)>)
        requires
            old(self).wf(),
        ensures
            final(self).wf(),
            if old(self).retransmit_now {
                &&& r matches Some((bytes, back_off))
                &&& bytes@ == retransmission(old(self)@)
                &&& !back_off
                &&& final(self)@ == after_retransmit(old(self)@, now)
            } else {
                r is None && final(self)@ == old(self)@
            },
    {
        if self.retransmit_now {
            Some(self.retransmit_pending(now))
        } else {
            None
        }
    }

    /// What the link waits for.
    pub fn waits(&mut self) -> (r: Waits)
        requires
            old(self).wf(),
        ensures
            final(self).wf(),
            final(self)@ == old(self)@,
            r.oldest_sent_at == if old(self)@.inflight.len() > 0 {
                Some(old(self)@.inflight[0].sent_at)
            } else {
                None
            },
            r.corked_until == old(self)@.corked_until,
            r.ready_to_send == (old(self)@.can_send() && old(self)@.ready.len() > 0),
    {
        let oldest_sent_at: Option<u64> = if self.inflight_messages.len() > 0 {
            assert(self@.inflight[0] == self.inflight_messages@[0]@);
            Some(self.inflight_messages[0].sent_at)
        } else {
            None
        };
        let ready_to_send: bool = self.can_send() && self.ready_messages.try_peek().is_some();
        Waits { oldest_sent_at, corked_until: self.corked_until, ready_to_send }
    }

    /// What the link does about an event. Frames to be sent are appended to `link_outbox`.
    pub fn handle_event(
        &mut self,
        event: Event,
        now: u64,
        link_outbox: &mut Vec<Vec<u8>>,
    ) -> (r: Result<Reaction, TransportError>)
        requires
            old(self).wf(),
            old(self).room(),
            event matches Event::Frame(f) ==> f.sequence < 16,
        ensures
            final(self).wf(),
            final(self)@ == after_event(old(self)@, event, now),
            !(event is Ready) ==> final(link_outbox)@ == old(link_outbox)@ && r is Ok,
            event is Ready ==> {
                let run = send_run(old(self)@, now);
                &&& frames_of(final(link_outbox)@) == frames_of(old(link_outbox)@) + frames_for(
                    old(self)@.send,
                    run.payloads,
                )
                &&& run.complete ==> r is Ok
                &&& !run.complete ==> (r matches Err(
                    TransportError::MessageEncode(MessageEncodeError::MessageTooLong),
                ))
            },
            r matches Ok(x) ==> {
                &&& x.next == next_after(event)
                &&& match event {
                    Event::Frame(f) => {
                        let sequence = full_sequence(old(self)@.receive, f.sequence as int);
                        let rtt = if moves(old(self)@, sequence) {
                            round_trip(old(self)@, sequence, f.receive_time)
                        } else {
                            None
                        };
                        &&& match rtt {
                            Some(t) => x.outcome.rtt matches Some(u) && u == t,
                            None => x.outcome.rtt is None,
                        }
                        &&& if f.payload@.len() > 0 && !is_bogus(old(self)@, sequence) {
                            x.outcome.deliver matches Some(p) && p@ == f.payload@
                        } else {
                            x.outcome.deliver is None
                        }
                    },
                    _ => x.outcome.rtt is None && x.outcome.deliver is None,
                }
            },
    {
        let nothing = FrameOutcome { rtt: None, deliver: None };
        match event {
            Event::Frame(frame) => {
                let outcome = self.handle_frame(frame);
                Ok(Reaction { next: Next::Continue, outcome })
            },
            Event::Command(TransportCommand::SendMessage(msg)) => {
                self.ready_messages.send(msg);
                Ok(Reaction { next: Next::Continue, outcome: nothing })
            },
            Event::Command(TransportCommand::Exit) => Ok(
                Reaction { next: Next::Cancel, outcome: nothing },
            ),
            Event::Ready => match self.send_more_frames(now, link_outbox) {
                Ok(()) => Ok(Reaction { next: Next::Continue, outcome: nothing }),
                Err(e) => Err(e),
            },
            Event::RetransmitTimeout => {
                self.retransmit_now = true;
                Ok(Reaction { next: Next::Continue, outcome: nothing })
            },
            Event::CorkTimeout => Ok(Reaction { next: Next::Continue, outcome: nothing }),
            Event::LinkClosed => Ok(Reaction { next: Next::Stop, outcome: nothing }),
            Event::CommandsClosed => Ok(Reaction { next: Next::Stop, outcome: nothing }),
            Event::Cancelled => Ok(Reaction { next: Next::Stop, outcome: nothing }),
        }
    }
}

// ---------------------------------------------------------------------------
// Laws of the link
// ---------------------------------------------------------------------------

/// Payloads, one behind the other.
pub open spec fn joined(payloads: Seq<Seq<u8>>) -> Seq<u8>
    decreases payloads.len(),
{
    if payloads.len() == 0 {
        Seq::empty()
    } else {
        payloads[0] + joined(payloads.skip(1))
    }
}

/// Four bits are enough: every sequence number that the device may expect, from the first frame on
/// its way to the next one to be sent, is recovered from its low four bits.
pub proof fn window_sequence_is_recovered(s: LinkState, sequence: int)
    requires
        s.valid(),
        s.receive <= sequence <= s.send,
    ensures
        full_sequence(s.receive, sequence % 16) == sequence,
{
}

/// The device only ever gets ahead: no frame takes the expected sequence number back, and a link
/// once synchronized stays so.
pub proof fn frames_only_advance(s: LinkState, low_bits: int, has_payload: bool)
    requires
        s.valid(),
        0 <= low_bits < 16,
    ensures
        after_frame(s, low_bits, has_payload).valid(),
        after_frame(s, low_bits, has_payload).receive >= s.receive,
        s.is_synchronized ==> after_frame(s, low_bits, has_payload).is_synchronized,
{
    let sequence = full_sequence(s.receive, low_bits);
    advance_keeps_valid(s, sequence);
    let t = advanced(s, sequence);
    assert(LinkState { last_ack: sequence, ..t }.inflight == t.inflight);
}

/// On a synchronized link a frame that acknowledges some of the frames on their way takes off
/// exactly those, and leaves the others and the waiting messages alone.
pub proof fn acknowledgement_takes_off_frames(s: LinkState, sequence: int, has_payload: bool)
    requires
        s.valid(),
        s.is_synchronized,
        s.receive < sequence <= s.send,
    ensures
        ({
            let t = after_frame(s, sequence % 16, has_payload);
            &&& t.receive == sequence
            &&& t.send == s.send
            &&& t.inflight == s.inflight.skip(sequence - s.receive)
            &&& t.ready == s.ready
        }),
{
    window_sequence_is_recovered(s, sequence);
}

/// Once a NAK has brought about a retransmission, the same NAK does not bring about another.
pub proof fn repeated_nak_is_ignored(s: LinkState, now: u64)
    requires
        s.valid(),
        s.is_synchronized,
        s.retransmit_now,
    ensures
        !after_frame(after_retransmit(s, now), s.receive % 16, false).retransmit_now,
{
    window_sequence_is_recovered(s, s.receive);
}

/// A retransmission brings any reader back into sync, and the reader finds in it all frames on
/// their way, in order.
pub proof fn retransmission_is_read_back(s: LinkState, synced: bool)
    requires
        s.valid(),
    ensures
        ({
            let found = crate::frame::stream_frames(synced, retransmission(s));
            &&& found.len() == s.inflight.len()
            &&& forall|i: int|
                #![trigger found[i]]
                0 <= i < found.len() ==> {
                    &&& found[i].0 == (s.receive + i) % 16
                    &&& s.inflight[i].payload == crate::frame::frame_bytes(
                        s.receive + i,
                        found[i].1,
                    )
                }
        }),
{
    crate::frame::stream_starts_with_sync(synced, joined_payloads(s.inflight));
    frames_are_read_back(s.inflight, s.receive, Seq::empty());
    assert(joined_payloads(s.inflight) + Seq::<u8>::empty() =~= joined_payloads(s.inflight));
    let end = crate::frame::stream_frames(true, Seq::empty());
    assert(end =~= Seq::empty());
}

/// Frames one behind the other are found by a reader in sync, which then goes on behind them.
proof fn frames_are_read_back(frames: Seq<Inflight>, sequence: int, rest: Seq<u8>)
    requires
        forall|i: int|
            0 <= i < frames.len() ==> is_frame_of((#[trigger] frames[i]).payload, sequence + i),
    ensures
        ({
            let found = crate::frame::stream_frames(true, joined_payloads(frames) + rest);
            let behind = crate::frame::stream_frames(true, rest);
            &&& found.len() == frames.len() + behind.len()
            &&& found.skip(frames.len() as int) == behind
            &&& forall|i: int|
                #![trigger found[i]]
                0 <= i < frames.len() ==> {
                    &&& found[i].0 == (sequence + i) % 16
                    &&& frames[i].payload == crate::frame::frame_bytes(sequence + i, found[i].1)
                }
        }),
    decreases frames.len(),
{
    if frames.len() == 0 {
        assert(joined_payloads(frames) + rest =~= rest);
        let behind = crate::frame::stream_frames(true, rest);
        assert(behind.skip(0) =~= behind);
    } else {
        let n = frames.len() - 1;
        let last = frames[n];
        let p = choose|p: Seq<u8>|
            p.len() <= MESSAGE_LENGTH_PAYLOAD_MAX && #[trigger] crate::frame::frame_bytes(
                sequence + n,
                p,
            ) == last.payload;
        crate::frame::stream_starts_with_frame(sequence + n, p, rest);
        assert forall|i: int| 0 <= i < frames.drop_last().len() implies is_frame_of(
            (#[trigger] frames.drop_last()[i]).payload,
            sequence + i,
        ) by {
            assert(frames.drop_last()[i] == frames[i]);
        }
        frames_are_read_back(frames.drop_last(), sequence, last.payload + rest);
        assert(joined_payloads(frames) + rest =~= joined_payloads(frames.drop_last()) + (
        last.payload + rest));
        let found = crate::frame::stream_frames(true, joined_payloads(frames) + rest);
        let behind = crate::frame::stream_frames(true, rest);
        let tail = crate::frame::stream_frames(true, last.payload + rest);
        assert(found.skip(n) == tail);
        assert(found[n] == tail[0]);
        assert(found.skip(n + 1) =~= tail.skip(1));
        assert(tail.skip(1) =~= behind);
        assert forall|i: int|
            #![trigger found[i]]
            0 <= i < frames.len() implies found[i].0 == (sequence + i) % 16 && frames[i].payload
            == crate::frame::frame_bytes(sequence + i, found[i].1) by {
            if i < n {
                assert(frames.drop_last()[i] == frames[i]);
            }
        }
    }
}

/// Frames that are sent one behind the other are read back by a reader in sync, in order, each with
/// its payload and the low four bits of its sequence number.
pub proof fn sent_frames_are_read_back(sequence: int, payloads: Seq<Seq<u8>>)
    requires
        forall|i: int|
            0 <= i < payloads.len() ==> (#[trigger] payloads[i]).len()
                <= MESSAGE_LENGTH_PAYLOAD_MAX,
    ensures
        crate::frame::stream_frames(true, joined(frames_for(sequence, payloads))) == Seq::new(
            payloads.len(),
            |i: int| (((sequence + i) % 16) as u8, payloads[i]),
        ),
    decreases payloads.len(),
{
    let frames = frames_for(sequence, payloads);
    let expected = Seq::new(
        payloads.len(),
        |i: int| (((sequence + i) % 16) as u8, payloads[i]),
    );
    if payloads.len() == 0 {
        assert(crate::frame::stream_frames(true, joined(frames)) =~= expected);
    } else {
        let rest = payloads.skip(1);
        assert forall|i: int| 0 <= i < rest.len() implies (#[trigger] rest[i]).len()
            <= MESSAGE_LENGTH_PAYLOAD_MAX by {
            assert(rest[i] == payloads[i + 1]);
        }
        sent_frames_are_read_back(sequence + 1, rest);
        assert(payloads[0].len() <= MESSAGE_LENGTH_PAYLOAD_MAX);
        assert(frames.skip(1) =~= frames_for(sequence + 1, rest));
        crate::frame::stream_starts_with_frame(
            sequence,
            payloads[0],
            joined(frames_for(sequence + 1, rest)),
        );
        assert(crate::frame::stream_frames(true, joined(frames)) =~= expected);
    }
}

/// Packing messages into one payload keeps their bytes in order.
proof fn packing_keeps_bytes(initial: Seq<u8>, ready: Seq<Seq<u8>>)
    ensures
        initial + joined(ready) == packed(initial, ready).0 + joined(packed(initial, ready).1),
    decreases ready.len(),
{
    if ready.len() > 0 && initial.len() + ready[0].len() <= MESSAGE_LENGTH_PAYLOAD_MAX {
        packing_keeps_bytes(initial + ready[0], ready.skip(1));
        assert(initial + joined(ready) =~= (initial + ready[0]) + joined(ready.skip(1)));
    }
}

/// Messages are sent in the order in which they were handed over, with every byte in one frame:
/// what was waiting is what the frames carry, what was too long for a frame, and what goes on
/// waiting. No frame carries more than fits.
pub proof fn sending_keeps_message_order(s: LinkState, now: u64)
    ensures
        joined(s.ready) == joined(send_run(s, now).payloads) + send_run(s, now).lost + joined(
            send_run(s, now).state.ready,
        ),
        send_run(s, now).complete ==> send_run(s, now).lost.len() == 0,
        forall|i: int|
            0 <= i < send_run(s, now).payloads.len() ==> (#[trigger] send_run(
                s,
                now,
            ).payloads[i]).len() <= MESSAGE_LENGTH_PAYLOAD_MAX,
    decreases MAX_INFLIGHT - s.inflight.len(),
{
    let run = send_run(s, now);
    if s.can_send() && s.ready.len() > 0 {
        if s.ready[0].len() <= MESSAGE_LENGTH_PAYLOAD_MAX {
            let (payload, rest) = packed(s.ready[0], s.ready.skip(1));
            packing_keeps_bytes(s.ready[0], s.ready.skip(1));
            packed_bounds(s.ready[0], s.ready.skip(1));
            let next = with_frame_sent(s, payload, rest, now);
            sending_keeps_message_order(next, now);
            let more = send_run(next, now);
            assert(run.payloads.skip(1) =~= more.payloads);
            assert(joined(run.payloads) == payload + joined(more.payloads));
            assert(joined(s.ready) =~= joined(run.payloads) + run.lost + joined(run.state.ready));
            assert forall|i: int| 0 <= i < run.payloads.len() implies (#[trigger]
            run.payloads[i]).len() <= MESSAGE_LENGTH_PAYLOAD_MAX by {
                if i > 0 {
                    assert(run.payloads[i] == more.payloads[i - 1]);
                }
            }
        } else {
            assert(joined(s.ready) =~= joined(run.payloads) + run.lost + joined(run.state.ready));
        }
    } else {
        assert(joined(s.ready) =~= joined(run.payloads) + run.lost + joined(run.state.ready));
    }
}

/// Taking note of what the device expects keeps the state valid, whichever sequence number that is.
/// The frames on their way always reach from the number that the device expects to the next one to
/// be sent. Where the number acknowledges none of them, none is left, and sending goes on from that
/// number.
pub proof fn advance_keeps_valid(s: LinkState, sequence: int)
    requires
        s.valid(),
        0 <= sequence,
    ensures
        advanced(s, sequence).valid(),
        advanced(s, sequence).send == advanced(s, sequence).receive + advanced(
            s,
            sequence,
        ).inflight.len(),
        acknowledged(s, sequence) is None ==> {
            &&& advanced(s, sequence).inflight.len() == 0
            &&& advanced(s, sequence).receive == sequence
            &&& advanced(s, sequence).send == sequence
        },
{
    let t = advanced(s, sequence);
    if let Some(n) = acknowledged(s, sequence) {
        assert forall|i: int| 0 <= i < t.inflight.len() implies (#[trigger] t.inflight[i]).sequence
            == t.receive + i + 1 && is_frame_of(t.inflight[i].payload, t.receive + i) by {
            assert(t.inflight[i] == s.inflight[i + n]);
        }
    }
}

// ---------------------------------------------------------------------------
// What frames and messages do to the link
// ---------------------------------------------------------------------------

/// The full number of a frame is the first one from the expected number on that has its bits.
pub proof fn full_sequence_has_its_bits(receive: int, low_bits: int)
    requires
        0 <= low_bits < 16,
    ensures
        receive <= full_sequence(receive, low_bits) < receive + 16,
        full_sequence(receive, low_bits) % 16 == low_bits,
{
}

/// A frame is dropped if, and only if, the link is synchronized and the frame acknowledges more
/// than was sent. Any other frame is taken in, and its payload is delivered. It moves the sequence
/// numbers unless the link is synchronized and the frame has just the expected number.
pub proof fn only_unsent_acknowledgements_are_dropped(s: LinkState, sequence: int)
    requires
        s.valid(),
    ensures
        is_bogus(s, sequence) <==> s.is_synchronized && sequence > s.send,
        moves(s, sequence) <==> !(s.is_synchronized && (sequence > s.send || sequence == s.receive)),
{
}

/// On a link that is not synchronized, any frame synchronizes it, whatever its bits, and whatever
/// is on its way: the link then expects a number with these bits. If that acknowledges frames on
/// their way, these are done with. If not, nothing is on its way any more, and the next frame is
/// sent with that number.
pub proof fn any_frame_synchronizes(s: LinkState, low_bits: int, has_payload: bool)
    requires
        s.valid(),
        !s.is_synchronized,
        0 <= low_bits < 16,
    ensures
        ({
            let t = after_frame(s, low_bits, has_payload);
            &&& t.is_synchronized
            &&& t.receive % 16 == low_bits
            &&& s.receive <= t.receive < s.receive + 16
            &&& s.receive < t.receive <= s.send ==> t.send == s.send && t.inflight
                == s.inflight.skip(t.receive - s.receive)
            &&& !(s.receive < t.receive <= s.send) ==> t.send == t.receive && t.inflight.len() == 0
            &&& t.ready == s.ready
            &&& !has_payload && s.last_ack < t.receive ==> t.last_ack == t.receive
            &&& has_payload ==> t.last_ack == s.last_ack
            &&& !is_bogus(s, t.receive)
            &&& full_sequence(s.receive, low_bits) == t.receive
        }),
{
}

/// On a synchronized link a frame that acknowledges what was never sent changes nothing.
pub proof fn unsent_acknowledgement_changes_nothing(
    s: LinkState,
    low_bits: int,
    has_payload: bool,
)
    requires
        s.valid(),
        s.is_synchronized,
        0 <= low_bits < 16,
        full_sequence(s.receive, low_bits) > s.send,
    ensures
        after_frame(s, low_bits, has_payload) == s,
{
}

/// On a synchronized link a frame with just the expected number changes nothing if it has a
/// payload. If it has none, the first one is taken for an acknowledgement. A further one asks for a
/// retransmission if frames are on their way, unless such requests are ignored up to that number.
pub proof fn frame_with_the_expected_number(s: LinkState, has_payload: bool)
    requires
        s.valid(),
        s.is_synchronized,
    ensures
        ({
            let t = after_frame(s, s.receive % 16, has_payload);
            &&& has_payload ==> t == s
            &&& !has_payload && s.last_ack < s.receive ==> t == (LinkState {
                last_ack: s.receive,
                ..s
            })
            &&& !has_payload && s.last_ack >= s.receive && s.receive > s.ignore_nak
                && s.inflight.len() > 0 ==> t == (LinkState { retransmit_now: true, ..s })
            &&& !has_payload && s.last_ack >= s.receive && !(s.receive > s.ignore_nak
                && s.inflight.len() > 0) ==> t == s
        }),
{
    window_sequence_is_recovered(s, s.receive);
}

/// On a synchronized link an acknowledgement of frames on their way takes these off, is noted where
/// it has no payload, and changes nothing else.
pub proof fn acknowledgement_changes_nothing_else(
    s: LinkState,
    sequence: int,
    has_payload: bool,
)
    requires
        s.valid(),
        s.is_synchronized,
        s.last_ack <= s.receive,
        s.receive < sequence <= s.send,
    ensures
        after_frame(s, sequence % 16, has_payload) == (LinkState {
            receive: sequence,
            inflight: s.inflight.skip(sequence - s.receive),
            last_ack: if has_payload {
                s.last_ack
            } else {
                sequence
            },
            ..s
        }),
{
    window_sequence_is_recovered(s, sequence);
}

/// An acknowledgement shows the time since the last of the frames that it covers was sent, if that
/// frame was sent once. Nothing else shows a time.
pub proof fn acknowledgement_shows_the_time_of_its_last_frame(
    s: LinkState,
    sequence: int,
    receive_time: u64,
)
    ensures
        s.receive < sequence <= s.receive + s.inflight.len() ==> {
            let frame = s.inflight[sequence - s.receive - 1];
            &&& frame.is_retransmit ==> round_trip(s, sequence, receive_time) is None
            &&& !frame.is_retransmit ==> {
                &&& round_trip(s, sequence, receive_time) matches Some(t)
                &&& receive_time >= frame.sent_at ==> frame.sent_at + t == receive_time
                &&& receive_time < frame.sent_at ==> t == 0
            }
        },
        !(s.receive < sequence <= s.receive + s.inflight.len()) ==> round_trip(
            s,
            sequence,
            receive_time,
        ) is None,
{
}

/// Another frame may be sent if, and only if, the link is not corked and fewer than twelve frames
/// are on their way, whether or not the link is synchronized.
pub proof fn frames_may_be_sent_within_the_window(s: LinkState)
    ensures
        s.can_send() <==> s.corked_until is None && s.inflight.len() < 12,
{
}

/// A payload takes in the waiting messages in order, as long as all of it fits into one frame, and
/// no longer. The result is how many it takes in.
pub proof fn payloads_are_filled(initial: Seq<u8>, ready: Seq<Seq<u8>>) -> (k: int)
    ensures
        0 <= k <= ready.len(),
        packed(initial, ready).0 == initial + joined(ready.take(k)),
        packed(initial, ready).1 == ready.skip(k),
        k > 0 ==> packed(initial, ready).0.len() <= 59,
        k < ready.len() ==> packed(initial, ready).0.len() + ready[k].len() > 59,
    decreases ready.len(),
{
    if ready.len() > 0 && initial.len() + ready[0].len() <= 59 {
        let tail = ready.skip(1);
        let k = payloads_are_filled(initial + ready[0], tail);
        assert(ready.take(k + 1).skip(1) =~= tail.take(k));
        assert(initial + joined(ready.take(k + 1)) =~= initial + ready[0] + joined(tail.take(k)));
        assert(ready.skip(k + 1) =~= tail.skip(k));
        assert(k < tail.len() ==> tail[k] == ready[k + 1]);
        k + 1
    } else {
        assert(ready.take(0) =~= Seq::empty());
        assert(initial + joined(ready.take(0)) =~= initial);
        assert(ready.skip(0) =~= ready);
        0
    }
}

/// Sending makes progress. Where it ends without an error, no message waits any more, or no further
/// frame may be sent: the link is corked, or twelve frames are on their way. Where a frame may be
/// sent and the next message fits, a frame is sent that starts with that message and is filled from
/// behind it. The error comes if, and only if, a message is met that does not fit into any frame.
/// Whether the link is synchronized makes no difference.
pub proof fn sending_makes_progress(s: LinkState, now: u64)
    ensures
        ({
            let run = send_run(s, now);
            &&& run.complete ==> run.state.ready.len() == 0 || s.corked_until is Some
                || run.state.inflight.len() >= 12
            &&& !run.complete ==> run.lost.len() > 59
            &&& (forall|i: int| 0 <= i < s.ready.len() ==> (#[trigger] s.ready[i]).len() <= 59)
                ==> run.complete
            &&& s.corked_until is Some || s.inflight.len() >= 12 || s.ready.len() == 0 ==> run.complete
                && run.payloads.len() == 0 && run.state == s
            &&& s.corked_until is None && s.inflight.len() < 12 && s.ready.len() > 0
                && s.ready[0].len() <= 59 ==> {
                &&& run.payloads.len() > 0
                &&& run.payloads[0] == packed(s.ready[0], s.ready.skip(1)).0
                &&& run.payloads[0].len() >= s.ready[0].len()
                &&& run.payloads[0].take(s.ready[0].len() as int) == s.ready[0]
            }
            &&& s.corked_until is None && s.inflight.len() < 12 && s.ready.len() > 0
                && s.ready[0].len() > 59 ==> {
                &&& !run.complete
                &&& run.payloads.len() == 0
                &&& run.lost == s.ready[0]
                &&& run.state == (LinkState { ready: s.ready.skip(1), ..s })
            }
        }),
    decreases MAX_INFLIGHT - s.inflight.len(),
{
    if s.corked_until is None && s.inflight.len() < 12 && s.ready.len() > 0 && s.ready[0].len()
        <= 59 {
        let (payload, rest) = packed(s.ready[0], s.ready.skip(1));
        let next = with_frame_sent(s, payload, rest, now);
        let k = payloads_are_filled(s.ready[0], s.ready.skip(1));
        sending_makes_progress(next, now);
        assert(payload.take(s.ready[0].len() as int) =~= s.ready[0]);
        if forall|i: int| 0 <= i < s.ready.len() ==> (#[trigger] s.ready[i]).len() <= 59 {
            assert forall|i: int| 0 <= i < next.ready.len() implies (#[trigger] next.ready[i]).len()
                <= 59 by {
                assert(next.ready[i] == s.ready[i + k + 1]);
            }
        }
    }
}

/// Sending numbers the frames on from the next number to be sent, notes each of them with the time,
/// and leaves what was on its way and everything else alone.
pub proof fn sending_notes_the_frames(s: LinkState, now: u64)
    ensures
        ({
            let run = send_run(s, now);
            let n = run.payloads.len();
            &&& run.state == (LinkState {
                send: s.send + n,
                inflight: run.state.inflight,
                ready: run.state.ready,
                ..s
            })
            &&& run.state.inflight.len() == s.inflight.len() + n
            &&& forall|i: int|
                0 <= i < s.inflight.len() ==> #[trigger] run.state.inflight[i] == s.inflight[i]
            &&& forall|i: int|
                0 <= i < n ==> #[trigger] run.state.inflight[s.inflight.len() + i] == (Inflight {
                    sent_at: now,
                    sequence: s.send + i + 1,
                    payload: crate::frame::frame_bytes(s.send + i, run.payloads[i]),
                    is_retransmit: false,
                })
        }),
    decreases MAX_INFLIGHT - s.inflight.len(),
{
    if s.can_send() && s.ready.len() > 0 && s.ready[0].len() <= MESSAGE_LENGTH_PAYLOAD_MAX {
        let (payload, rest) = packed(s.ready[0], s.ready.skip(1));
        let next = with_frame_sent(s, payload, rest, now);
        sending_notes_the_frames(next, now);
        let run = send_run(s, now);
        let more = send_run(next, now);
        assert(run.state == more.state);
        assert forall|i: int| 0 <= i < s.inflight.len() implies #[trigger] run.state.inflight[i]
            == s.inflight[i] by {
            assert(more.state.inflight[i] == next.inflight[i]);
        }
        assert forall|i: int| 0 <= i < run.payloads.len() implies #[trigger] run.state.inflight[
            s.inflight.len() + i
        ] == (Inflight {
            sent_at: now,
            sequence: s.send + i + 1,
            payload: crate::frame::frame_bytes(s.send + i, run.payloads[i]),
            is_retransmit: false,
        }) by {
            if i == 0 {
                assert(more.state.inflight[s.inflight.len() as int] == next.inflight[
                    s.inflight.len() as int
                ]);
            } else {
                assert(more.state.inflight[next.inflight.len() + (i - 1)]
                    == run.state.inflight[s.inflight.len() + i]);
                assert(run.payloads[i] == more.payloads[i - 1]);
            }
        }
    }
}

/// A retransmission notes the frames on their way as sent again now, keeps them otherwise, and is
/// done with. From there on requests for a retransmission are ignored up to the number that the
/// device expected, or up to where the retransmission before it reached if that is further. Where a
/// timeout brought it about, they are ignored up to the next number to be sent.
pub proof fn retransmission_is_noted(s: LinkState, now: u64)
    ensures
        ({
            let t = after_retransmit(s, now);
            &&& t == (LinkState {
                inflight: t.inflight,
                ignore_nak: t.ignore_nak,
                retransmit_now: false,
                retransmit: s.send,
                ..s
            })
            &&& t.inflight.len() == s.inflight.len()
            &&& forall|i: int|
                0 <= i < s.inflight.len() ==> #[trigger] t.inflight[i] == (Inflight {
                    sent_at: now,
                    is_retransmit: true,
                    ..s.inflight[i]
                })
            &&& s.retransmit_now ==> t.ignore_nak >= s.receive && t.ignore_nak >= s.retransmit && (
            t.ignore_nak == s.receive || t.ignore_nak == s.retransmit)
            &&& !s.retransmit_now ==> t.ignore_nak == s.send
        }),
{
}

/// A retransmission sends a sync byte and behind it each of the frames on their way, just as they
/// were sent first.
pub proof fn retransmission_repeats_the_frames(s: LinkState, last: Inflight)
    ensures
        s.inflight.len() == 0 ==> retransmission(s) == seq![0x7Eu8],
        retransmission(LinkState { inflight: s.inflight.push(last), ..s }) == retransmission(s)
            + last.payload,
{
    assert(s.inflight.push(last).drop_last() =~= s.inflight);
    assert(retransmission(LinkState { inflight: s.inflight.push(last), ..s }) =~= retransmission(s)
        + last.payload);
    if s.inflight.len() == 0 {
        assert(retransmission(s) =~= seq![0x7Eu8]);
    }
}

/// A message from the application waits behind all others. A timeout asks for a retransmission.
/// What only ends or wakes the link leaves its state alone. The link stops when it is closed from
/// either side or cancelled, and an exit cancels it.
pub proof fn events_do_what_they_say(s: LinkState, message: Vec<u8>, frame: Frame, now: u64)
    ensures
        after_event(s, Event::Command(TransportCommand::SendMessage(message)), now) == (LinkState {
            ready: s.ready.push(message@),
            ..s
        }),
        after_event(s, Event::RetransmitTimeout, now) == (LinkState { retransmit_now: true, ..s }),
        after_event(s, Event::Frame(frame), now) == after_frame(
            s,
            frame.sequence as int,
            frame.payload@.len() > 0,
        ),
        after_event(s, Event::Ready, now) == send_run(s, now).state,
        after_event(s, Event::Command(TransportCommand::Exit), now) == s,
        after_event(s, Event::CorkTimeout, now) == s,
        after_event(s, Event::LinkClosed, now) == s,
        after_event(s, Event::CommandsClosed, now) == s,
        after_event(s, Event::Cancelled, now) == s,
        next_after(Event::Command(TransportCommand::SendMessage(message))) is Continue,
        next_after(Event::Frame(frame)) is Continue,
        next_after(Event::Ready) is Continue,
        next_after(Event::RetransmitTimeout) is Continue,
        next_after(Event::CorkTimeout) is Continue,
        next_after(Event::Command(TransportCommand::Exit)) is Cancel,
        next_after(Event::LinkClosed) is Stop,
        next_after(Event::CommandsClosed) is Stop,
        next_after(Event::Cancelled) is Stop,
{
}

/// A link holds its numbers, its frames on their way one for one, and its waiting messages. There
/// is room while at least sixteen numbers are left.
pub proof fn links_hold_what_they_are_made_of(t: TransportState, outbox: Seq<Vec<u8>>, i: int)
    ensures
        t@.is_synchronized == t.is_synchronized,
        t@.receive == t.receive_sequence,
        t@.send == t.send_sequence,
        t@.last_ack == t.last_ack_sequence,
        t@.ignore_nak == t.ignore_nak_seq,
        t@.retransmit == t.retransmit_seq,
        t@.retransmit_now == t.retransmit_now,
        t@.corked_until == t.corked_until,
        t@.ready == t.ready_messages.pending(),
        t@.inflight.len() == t.inflight_messages@.len(),
        0 <= i < t.inflight_messages@.len() ==> {
            &&& t@.inflight[i].sent_at == t.inflight_messages@[i].sent_at
            &&& t@.inflight[i].sequence == t.inflight_messages@[i].sequence
            &&& t@.inflight[i].payload == t.inflight_messages@[i].payload@
            &&& t@.inflight[i].is_retransmit == t.inflight_messages@[i].is_retransmit
        },
        t.room() <==> t.send_sequence + 16 <= u64::MAX,
        frames_of(outbox).len() == outbox.len(),
        0 <= i < outbox.len() ==> frames_of(outbox)[i] == outbox[i]@,
{
}

/// Any frame that is not dropped tells which number the device expects. One with a payload notes
/// nothing further. One without is an acknowledgement if it is ahead of the last one, and else asks
/// for a retransmission of what is on its way, unless such requests are ignored up to that number.
/// Nothing else is changed by a frame.
pub proof fn frames_acknowledge_or_ask_again(s: LinkState, low_bits: int, has_payload: bool)
    requires
        s.valid(),
        0 <= low_bits < 16,
        !(s.is_synchronized && full_sequence(s.receive, low_bits) > s.send),
    ensures
        ({
            let t = after_frame(s, low_bits, has_payload);
            &&& t.receive == full_sequence(s.receive, low_bits)
            &&& t.is_synchronized
            &&& t.ready == s.ready
            &&& t.corked_until == s.corked_until
            &&& t.ignore_nak == s.ignore_nak
            &&& t.retransmit == s.retransmit
            &&& has_payload ==> t.last_ack == s.last_ack && t.retransmit_now == s.retransmit_now
            &&& !has_payload && s.last_ack < t.receive ==> t.last_ack == t.receive
                && t.retransmit_now == s.retransmit_now
            &&& !has_payload && s.last_ack >= t.receive ==> t.last_ack == s.last_ack
                && t.retransmit_now == (s.retransmit_now || (t.receive > s.ignore_nak
                && t.inflight.len() > 0))
        }),
{
}

} // verus!
