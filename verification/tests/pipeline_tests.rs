//! The message bus: bounded pushes, dispatcher fairness, low-priority
//! liveness, and the stop sentinel.

use concordium_node::consensus::{
    CallbackType, ConsensusBaker, ConsensusContainer, ConsensusFfiResponse, ConsensusLogCategory,
    ConsensusLogLevel, ConsensusOutQueue, QueueError, ShutdownSequence, stop_haskell,
};
use concordium_node::block::Block;
use concordium_node::messaging::{
    ConsensusMessage, MessageType, PacketType, QueueMsg, RelayQueues, frame_payload,
};

fn msg(peer: u64, payload: u8) -> QueueMsg {
    QueueMsg::Relay(ConsensusMessage::new(
        MessageType::Inbound(peer),
        PacketType::Block,
        vec![payload],
        Vec::new(),
        None,
    ))
}

#[test]
fn high_messages_are_delivered_before_any_low_message() {
    let mut queues = RelayQueues::new(8, 8);
    for i in 0..3u8 {
        assert!(queues.send_low_priority(msg(0, 100 + i)));
    }
    for i in 0..3u8 {
        assert!(queues.send_high_priority(msg(0, i)));
    }
    let (handled, stopped, exhausted) = queues.dispatch_round();
    assert!(!stopped);
    assert!(!exhausted);
    // all three high-priority messages, in order, then exactly one low
    assert_eq!(handled.len(), 4);
    assert_eq!(handled[0].payload, vec![0]);
    assert_eq!(handled[1].payload, vec![1]);
    assert_eq!(handled[2].payload, vec![2]);
    assert_eq!(handled[3].payload, vec![100]);
    assert_eq!(queues.low.len(), 2);
    assert_eq!(queues.high.len(), 0);
}

#[test]
fn one_low_message_is_delivered_per_round_under_high_pressure() {
    let depth_hi = 4;
    let mut queues = RelayQueues::new(depth_hi, 8);
    for i in 0..depth_hi {
        assert!(queues.send_high_priority(msg(0, i as u8)));
    }
    assert!(queues.send_low_priority(msg(0, 200)));
    assert!(queues.send_low_priority(msg(0, 201)));
    let (handled, stopped, _) = queues.dispatch_round();
    assert!(!stopped);
    // a full high quota, then exactly one low message
    assert_eq!(handled.len(), depth_hi + 1);
    assert_eq!(handled[depth_hi].payload, vec![200]);
    assert_eq!(queues.low.len(), 1);
}

#[test]
fn nothing_is_handled_past_the_stop_sentinel() {
    let mut queues = RelayQueues::new(8, 8);
    assert!(queues.send_high_priority(msg(0, 1)));
    assert!(queues.send_high_priority(QueueMsg::Stop));
    assert!(queues.send_high_priority(msg(0, 2)));
    assert!(queues.send_low_priority(msg(0, 3)));
    let (handled, stopped, _) = queues.dispatch_round();
    assert!(stopped);
    assert_eq!(handled.len(), 1);
    assert_eq!(handled[0].payload, vec![1]);
    // the message behind the sentinel was not handled, and no low message was
    assert_eq!(queues.high.len(), 1);
    assert_eq!(queues.low.len(), 1);
}

#[test]
fn stop_on_the_low_queue_ends_the_round() {
    let mut queues = RelayQueues::new(8, 8);
    assert!(queues.send_low_priority(QueueMsg::Stop));
    let (handled, stopped, _) = queues.dispatch_round();
    assert!(stopped);
    assert!(handled.is_empty());
}

#[test]
fn pushes_beyond_the_depth_overflow() {
    let mut queues = RelayQueues::new(1, 1);
    assert!(queues.send_high_priority(msg(0, 1)));
    assert!(!queues.send_high_priority(msg(0, 2)));
    assert!(queues.send_low_priority(msg(0, 3)));
    assert!(!queues.send_low_priority(msg(0, 4)));
    assert_eq!(queues.high.len(), 1);
    assert_eq!(queues.low.len(), 1);
}

#[test]
fn empty_queues_report_exhaustion() {
    let mut queues = RelayQueues::new(4, 4);
    let (handled, stopped, exhausted) = queues.dispatch_round();
    assert!(handled.is_empty());
    assert!(!stopped);
    assert!(exhausted);
}

#[test]
fn framed_payload_carries_the_kind_byte() {
    let framed = frame_payload(PacketType::FinalizationRecord, &vec![9, 8, 7]);
    assert_eq!(framed, vec![2, 9, 8, 7]);
    assert_eq!(frame_payload(PacketType::Block, &Vec::new()), vec![0]);
}

#[test]
fn verdict_codes_translate_exactly() {
    assert_eq!(ConsensusFfiResponse::try_from(0), Ok(ConsensusFfiResponse::Accepted));
    assert_eq!(ConsensusFfiResponse::try_from(1), Ok(ConsensusFfiResponse::Duplicate));
    assert_eq!(ConsensusFfiResponse::try_from(2), Ok(ConsensusFfiResponse::Pending));
    assert_eq!(ConsensusFfiResponse::try_from(3), Ok(ConsensusFfiResponse::Invalid));
    assert_eq!(ConsensusFfiResponse::try_from(4), Ok(ConsensusFfiResponse::ShutDown));
    assert_eq!(ConsensusFfiResponse::try_from(99), Err(99));
    assert_eq!(ConsensusFfiResponse::try_from(-1), Err(-1));
}

#[test]
fn callback_codes_translate_exactly() {
    assert_eq!(CallbackType::try_from(0), Ok(CallbackType::Block));
    assert_eq!(CallbackType::try_from(1), Ok(CallbackType::FinalizationMessage));
    assert_eq!(CallbackType::try_from(2), Ok(CallbackType::FinalizationRecord));
    assert_eq!(CallbackType::try_from(3), Ok(CallbackType::CatchUpStatus));
    assert_eq!(CallbackType::try_from(4), Err(4));
}

#[test]
fn log_codes_translate_exactly() {
    assert_eq!(ConsensusLogCategory::from_code(6), ConsensusLogCategory::Skov);
    assert_eq!(ConsensusLogCategory::from_code(7), ConsensusLogCategory::Baker);
    assert_eq!(ConsensusLogCategory::from_code(42), ConsensusLogCategory::External);
    assert_eq!(ConsensusLogLevel::from_code(1), ConsensusLogLevel::Error);
    assert_eq!(ConsensusLogLevel::from_code(4), ConsensusLogLevel::Debug);
    assert_eq!(ConsensusLogLevel::from_code(9), ConsensusLogLevel::Trace);
}

fn mk_block(baker_id: u64) -> Block {
    Block {
        slot: 1,
        pointer: vec![0u8; 32],
        baker_id,
        proof: vec![1u8; 96],
        nonce: vec![2u8; 96],
        last_finalized: vec![0u8; 32],
        data: vec![0u8; 8],
        signature: vec![3u8; 64],
    }
}

#[test]
fn blocks_are_routed_past_their_own_baker() {
    let mut container = ConsensusContainer::new(vec![1, 2, 3]);
    container.start_baker(4, vec![9]);
    // the only baker baked this block itself: nobody to send it to
    assert!(container.send_block(&mk_block(4)).is_none());
    container.start_baker(5, vec![9]);
    let (baker_id, bytes) = container.send_block(&mk_block(4)).unwrap();
    assert_eq!(baker_id, 5);
    assert_eq!(bytes, mk_block(4).serialize());
}

#[test]
fn stopping_the_last_baker_drains_the_out_queue() {
    let mut container = ConsensusContainer::new(Vec::new());
    container.start_baker(1, Vec::new());
    assert!(container.out_queue().send_finalization(vec![1, 2]).is_ok());
    assert!(container.stop_baker(1));
    assert_eq!(container.out_queue.finalizations.len(), 0);
    assert!(!container.stop_baker(1));
}

#[test]
fn out_queue_is_first_in_first_out() {
    let mut q = ConsensusOutQueue::new();
    assert!(q.send_finalization(vec![1]).is_ok());
    assert!(q.send_finalization(vec![2]).is_ok());
    assert_eq!(q.try_recv_finalization(), Ok(vec![1]));
    assert_eq!(q.recv_timeout_finalization(5), Ok(vec![2]));
    assert_eq!(q.recv_finalization(), Err(QueueError::Empty));
    let b = ConsensusBaker::new(7, vec![1], vec![2]);
    assert_eq!(b.send_finalization(vec![5]).0, 7);
}

#[test]
fn runtime_teardown_follows_engine_stop() {
    let mut sequence = ShutdownSequence::new();
    sequence.note_queues_stopped();
    assert!(sequence.queues_stopped);
    sequence.note_engine_stopped();
    assert!(sequence.engine_stopped);
    assert!(!sequence.runtime_stopped);
    stop_haskell(&mut sequence);
    assert!(sequence.runtime_stopped);
}
