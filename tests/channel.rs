use dirtar::channel::{ChannelState, ChunkChannel, Outcome, RecvOutcome, SendOutcome};
use dirtar::session::{advance, after_send_action, ProducerAction, StreamEvent, StreamPhase};

fn chunk_of(r: RecvOutcome) -> Vec<u8> {
    match r {
        RecvOutcome::Chunk(c) => c,
        _ => panic!("expected a chunk"),
    }
}

#[test]
fn full_channel_blocks_and_one_receive_frees_one_slot() {
    let k = 3;
    let mut ch = ChunkChannel::new(k);
    for i in 0..k {
        let r = ch.try_send(vec![i as u8]);
        assert_eq!(after_send_action(&r), ProducerAction::Proceed);
    }
    let r = ch.try_send(vec![9]);
    assert_eq!(after_send_action(&r), ProducerAction::Wait);
    match r {
        SendOutcome::Full(c) => assert_eq!(c, vec![9]),
        _ => panic!("expected Full"),
    }
    assert_eq!(ch.len(), k);
    assert_eq!(chunk_of(ch.try_recv()), vec![0]);
    assert!(matches!(ch.try_send(vec![9]), SendOutcome::Sent));
    assert!(matches!(ch.try_send(vec![10]), SendOutcome::Full(_)));
    assert_eq!(ch.len(), k);
}

#[test]
fn chunks_arrive_in_order_then_outcome() {
    let mut ch = ChunkChannel::new(8);
    for i in 0..5u8 {
        assert!(matches!(ch.try_send(vec![i, i]), SendOutcome::Sent));
    }
    assert!(matches!(ch.try_recv(), RecvOutcome::Chunk(_)));
    ch.close(Outcome::Done);
    assert_eq!(ch.state(), ChannelState::Closing(Outcome::Done));
    for i in 1..5u8 {
        assert_eq!(chunk_of(ch.try_recv()), vec![i, i]);
    }
    assert_eq!(ch.state(), ChannelState::Closed(Outcome::Done));
    assert!(matches!(ch.try_recv(), RecvOutcome::Ended(Outcome::Done)));
}

#[test]
fn empty_open_channel_is_pending() {
    let mut ch = ChunkChannel::new(1);
    assert!(matches!(ch.try_recv(), RecvOutcome::Pending));
    ch.close(Outcome::Done);
    assert!(matches!(ch.try_recv(), RecvOutcome::Ended(Outcome::Done)));
}

#[test]
fn send_after_close_is_rejected() {
    let mut ch = ChunkChannel::new(2);
    ch.close(Outcome::Done);
    let r = ch.try_send(vec![1]);
    assert_eq!(after_send_action(&r), ProducerAction::Stop);
    assert!(matches!(r, SendOutcome::Rejected(_)));
}

#[test]
fn cancel_after_close_keeps_outcome() {
    let mut ch = ChunkChannel::new(2);
    ch.close(Outcome::Done);
    ch.cancel();
    assert_eq!(ch.state(), ChannelState::Closed(Outcome::Done));
}

#[test]
fn phases_move_forward_only() {
    let p = advance(StreamPhase::Idle, StreamEvent::ChunkProduced);
    assert_eq!(p, StreamPhase::Idle);
    let p = advance(p, StreamEvent::Validated);
    assert_eq!(p, StreamPhase::Walking);
    let p = advance(p, StreamEvent::ChunkProduced);
    assert_eq!(p, StreamPhase::Streaming);
    let p = advance(p, StreamEvent::ConsumerGone);
    assert_eq!(p, StreamPhase::Cancelled);
    assert_eq!(advance(p, StreamEvent::Closed(Outcome::Done)), StreamPhase::Cancelled);
    assert_eq!(advance(StreamPhase::Walking, StreamEvent::Closed(Outcome::Done)), StreamPhase::Completed);
    assert_eq!(advance(StreamPhase::Completed, StreamEvent::Validated), StreamPhase::Completed);
}
