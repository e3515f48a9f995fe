use windlass::frame::{encode_frame, Frame, LowlevelReader, MessageEncodeError};
use windlass::queue::MessageQueue;
use windlass::transport::{
    Event, Next, TransportCommand, TransportError, TransportState, MAX_INFLIGHT,
};

fn ack(sequence: u8, receive_time: u64) -> Frame {
    Frame { receive_time, sequence, payload: vec![] }
}

fn submit(state: &mut TransportState, message: &[u8]) {
    let command = TransportCommand::SendMessage(message.to_vec());
    let reaction = state.handle_event(Event::Command(command), 0, &mut Vec::new()).unwrap();
    assert_eq!(reaction.next, Next::Continue);
}

fn synchronized() -> TransportState {
    let mut state = TransportState::new();
    state.handle_frame(ack(1, 0));
    assert!(state.is_synchronized);
    state
}

#[test]
fn a_queue_is_first_in_first_out() {
    let mut queue = MessageQueue::new();
    assert_eq!(queue.try_peek(), None);
    assert_eq!(queue.try_recv(), None);
    queue.send(vec![1]);
    queue.send(vec![2]);
    assert_eq!(queue.try_peek(), Some(&vec![1]));
    assert_eq!(queue.try_peek(), Some(&vec![1]));
    queue.send(vec![3]);
    assert_eq!(queue.try_recv(), Some(vec![1]));
    assert_eq!(queue.try_recv(), Some(vec![2]));
    assert_eq!(queue.try_peek(), Some(&vec![3]));
    assert_eq!(queue.try_recv(), Some(vec![3]));
    assert_eq!(queue.try_recv(), None);
}

#[test]
fn a_new_link_starts_at_one() {
    let mut state = TransportState::new();
    assert!(!state.is_synchronized);
    assert_eq!((state.receive_sequence, state.send_sequence), (1, 1));
    assert!(state.has_room());
    assert!(state.can_send());
    let waits = state.waits();
    assert_eq!(waits.oldest_sent_at, None);
    assert_eq!(waits.corked_until, None);
    assert!(!waits.ready_to_send);
}

#[test]
fn messages_are_packed_into_frames_in_order() {
    let mut state = synchronized();
    submit(&mut state, &[1; 30]);
    submit(&mut state, &[2; 29]);
    submit(&mut state, &[3; 1]);
    assert!(state.waits().ready_to_send);
    let mut out = Vec::new();
    state.handle_event(Event::Ready, 77, &mut out).unwrap();
    let mut first = vec![1u8; 30];
    first.extend([2u8; 29]);
    assert_eq!(out, vec![encode_frame(1, &first).unwrap(), encode_frame(2, &[3]).unwrap()]);
    assert_eq!(state.send_sequence, 3);
    assert_eq!(state.waits().oldest_sent_at, Some(77));
    assert!(!state.waits().ready_to_send);
}

#[test]
fn a_message_that_does_not_fit_is_an_error() {
    let mut state = synchronized();
    submit(&mut state, &[1; 10]);
    submit(&mut state, &[2; 60]);
    submit(&mut state, &[3; 10]);
    let mut out = Vec::new();
    let result = state.send_more_frames(0, &mut out);
    assert!(matches!(
        result,
        Err(TransportError::MessageEncode(MessageEncodeError::MessageTooLong))
    ));
    assert_eq!(out, vec![encode_frame(1, &[1; 10]).unwrap()]);
    assert_eq!(state.ready_messages.try_recv(), Some(vec![3; 10]));
}

#[test]
fn no_more_than_the_window_is_on_its_way() {
    let mut state = synchronized();
    for _ in 0..20 {
        submit(&mut state, &[9; 59]);
    }
    let mut out = Vec::new();
    state.send_more_frames(5, &mut out).unwrap();
    assert_eq!(out.len(), MAX_INFLIGHT);
    assert!(!state.can_send());
    state.handle_frame(ack(4, 9));
    assert_eq!(state.inflight_messages.len(), MAX_INFLIGHT - 3);
    assert!(state.can_send());
}

#[test]
fn an_acknowledgement_shows_the_round_trip_time() {
    let mut state = synchronized();
    let mut out = Vec::new();
    for i in 0..3 {
        state.send_new_frame(vec![i], 100 * (i as u64 + 1), &mut out).unwrap();
    }
    let outcome = state.handle_frame(ack(3, 450));
    assert_eq!(outcome.rtt, Some(250));
    assert!(outcome.deliver.is_none());
    assert_eq!(state.receive_sequence, 3);
    assert_eq!(state.inflight_messages.len(), 1);
    assert_eq!(state.handle_frame(ack(4, 20)).rtt, Some(0));
}

#[test]
fn a_frame_that_was_sent_again_shows_no_round_trip_time() {
    let mut state = synchronized();
    let mut out = Vec::new();
    state.send_new_frame(vec![1], 10, &mut out).unwrap();
    state.retransmit_now = true;
    state.begin_turn(20).unwrap();
    assert_eq!(state.handle_frame(ack(2, 30)).rtt, None);
}

#[test]
fn an_acknowledgement_of_what_was_not_sent_is_dropped() {
    let mut state = synchronized();
    let mut out = Vec::new();
    state.send_new_frame(vec![1], 0, &mut out).unwrap();
    let outcome = state.handle_frame(Frame { receive_time: 0, sequence: 5, payload: vec![1] });
    assert!(outcome.deliver.is_none());
    assert_eq!(state.receive_sequence, 1);
    assert_eq!(state.inflight_messages.len(), 1);
}

#[test]
fn data_is_delivered() {
    let mut state = synchronized();
    let outcome = state.handle_frame(Frame { receive_time: 0, sequence: 1, payload: vec![4, 2] });
    assert_eq!(outcome.deliver, Some(vec![4, 2]));
}

#[test]
fn the_first_frame_sets_the_sequence() {
    let mut state = TransportState::new();
    state.handle_frame(ack(9, 0));
    assert_eq!((state.receive_sequence, state.send_sequence), (9, 9));
    assert_eq!(state.last_ack_sequence, 9);
    assert!(state.is_synchronized);
    state.handle_frame(ack(9, 0));
    assert!(!state.retransmit_now);
}

#[test]
fn sequence_numbers_go_on_beyond_four_bits() {
    let mut state = TransportState::new();
    state.handle_frame(ack(15, 0));
    let mut out = Vec::new();
    state.send_new_frame(vec![1], 0, &mut out).unwrap();
    state.send_new_frame(vec![2], 0, &mut out).unwrap();
    state.handle_frame(ack(1, 0));
    assert_eq!((state.receive_sequence, state.send_sequence), (17, 17));
    assert!(state.inflight_messages.is_empty());
}

#[test]
fn a_nak_brings_about_one_retransmission() {
    let mut state = synchronized();
    let mut out = Vec::new();
    state.send_new_frame(vec![1], 0, &mut out).unwrap();
    state.send_new_frame(vec![2], 0, &mut out).unwrap();
    assert!(state.begin_turn(1).is_none());
    state.handle_frame(ack(1, 0));
    assert!(state.retransmit_now);
    let (bytes, back_off) = state.begin_turn(2).unwrap();
    assert!(!back_off);
    let mut expected = vec![0x7E];
    expected.extend(&out[0]);
    expected.extend(&out[1]);
    assert_eq!(bytes, expected);
    assert!(!state.retransmit_now);
    assert_eq!(state.waits().oldest_sent_at, Some(2));
    state.handle_frame(ack(1, 0));
    assert!(!state.retransmit_now);
}

#[test]
fn a_retransmission_is_read_back() {
    let mut state = synchronized();
    let mut out = Vec::new();
    for i in 0..5 {
        state.send_new_frame(vec![i; 3], 0, &mut out).unwrap();
    }
    let (bytes, back_off) = state.retransmit_pending(9);
    assert!(back_off);
    assert_eq!(state.ignore_nak_seq, state.send_sequence);
    let mut reader = LowlevelReader::new();
    let mut found = Vec::new();
    let mut at = 0;
    while at < bytes.len() {
        match reader.start(bytes[at]) {
            None => at += 1,
            Some(n) => {
                found.push(reader.finish(&bytes[at..at + n], 0).unwrap());
                at += n;
            }
        }
    }
    assert_eq!(found.len(), 5);
    for (i, frame) in found.iter().enumerate() {
        assert_eq!(frame.sequence as usize, i + 1);
        assert_eq!(frame.payload, vec![i as u8; 3]);
    }
}

#[test]
fn events_end_the_link() {
    let mut state = TransportState::new();
    let mut out = Vec::new();
    for (event, next) in [
        (Event::Command(TransportCommand::Exit), Next::Cancel),
        (Event::LinkClosed, Next::Stop),
        (Event::CommandsClosed, Next::Stop),
        (Event::Cancelled, Next::Stop),
        (Event::CorkTimeout, Next::Continue),
    ] {
        assert_eq!(state.handle_event(event, 0, &mut out).unwrap().next, next);
    }
    assert!(!state.retransmit_now);
    state.handle_event(Event::RetransmitTimeout, 0, &mut out).unwrap();
    assert!(state.retransmit_now);
    assert!(out.is_empty());
}

#[test]
fn a_corked_link_does_not_send() {
    let mut state = synchronized();
    state.corked_until = Some(50);
    submit(&mut state, &[1]);
    assert!(!state.can_send());
    let mut out = Vec::new();
    state.handle_event(Event::Ready, 0, &mut out).unwrap();
    assert!(out.is_empty());
    assert_eq!(state.waits().corked_until, Some(50));
}

#[test]
fn a_frame_can_be_sent_over_a_corked_link() {
    let mut state = synchronized();
    state.corked_until = Some(50);
    let mut out = Vec::new();
    state.send_new_frame(vec![5], 3, &mut out).unwrap();
    assert_eq!(out, vec![encode_frame(1, &[5]).unwrap()]);
    assert_eq!(state.corked_until, Some(50));
    assert_eq!(state.inflight_messages.len(), 1);
}

#[test]
fn a_sequence_that_matches_no_frame_clears_the_link() {
    for sequence in [0u64, 5, 10, 14, 1000] {
        let mut state = TransportState::new();
        state.update_receive_seq(0, 10);
        let mut out = Vec::new();
        for i in 0..3 {
            state.send_new_frame(vec![i], 0, &mut out).unwrap();
        }
        assert_eq!(state.update_receive_seq(7, sequence), None);
        assert!(state.inflight_messages.is_empty());
        assert_eq!((state.receive_sequence, state.send_sequence), (sequence, sequence));
    }
    let mut state = TransportState::new();
    let mut out = Vec::new();
    for i in 0..3 {
        state.send_new_frame(vec![i], 2, &mut out).unwrap();
    }
    assert_eq!(state.update_receive_seq(7, 3), Some(5));
    assert_eq!((state.receive_sequence, state.send_sequence), (3, 4));
    assert_eq!(state.inflight_messages.len(), 1);
}
