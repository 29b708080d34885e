use conwayste::protocol::{Packet, RequestAction};
use conwayste::session::{SeqClassification, Session, SessionPhase};

fn keep_alive_request(sequence: u64) -> Packet {
    Packet::Request {
        sequence,
        response_ack: None,
        cookie: Some("cookie".to_owned()),
        action: RequestAction::KeepAlive { latest_response_ack: 0 },
    }
}

#[test]
fn first_packet_is_new_then_duplicates_and_gaps_classify() {
    let mut s = Session::new(SessionPhase::Unauthenticated);
    assert_eq!(s.observe_inbound(1), SeqClassification::New);
    assert_eq!(s.observe_inbound(2), SeqClassification::New);
    assert_eq!(s.observe_inbound(2), SeqClassification::Duplicate);
    assert_eq!(s.observe_inbound(1), SeqClassification::Duplicate);
    assert_eq!(s.observe_inbound(5), SeqClassification::OutOfOrder);
    // The high-water mark moved to 5: 3 arrives late and counts as seen.
    assert_eq!(s.observe_inbound(3), SeqClassification::Duplicate);
    assert_eq!(s.observe_inbound(6), SeqClassification::New);
}

#[test]
fn unacked_sends_carry_contiguous_sequences() {
    let mut s = Session::new(SessionPhase::Established);
    let n: u64 = 5;
    for i in 0..n {
        let seq = s.next_send_seq;
        assert_eq!(seq, i + 1);
        s.register_outbound(keep_alive_request(seq), 100 + i, 0);
    }
    let seqs: Vec<u64> = s.inflight.iter().map(|e| e.sequence).collect();
    assert_eq!(seqs, vec![1, 2, 3, 4, 5]);
    for (i, a) in seqs.iter().enumerate() {
        for (j, b) in seqs.iter().enumerate() {
            if i != j {
                assert_ne!(a, b);
            }
        }
    }
}

#[test]
fn acknowledge_evicts_exactly_the_covered_entries() {
    let mut s = Session::new(SessionPhase::Established);
    for i in 0..4u64 {
        let seq = s.next_send_seq;
        s.register_outbound(keep_alive_request(seq), 100 + i, 0);
    }
    // One drop per removed entry, in order, carrying the entry's own tid.
    let dropped = s.acknowledge(2);
    assert_eq!(dropped, vec![100, 101]);
    let left: Vec<u64> = s.inflight.iter().map(|e| e.sequence).collect();
    assert_eq!(left, vec![3, 4]);
    assert_eq!(s.peer_ack_seq, Some(2));
    // Acknowledging the same point again frees nothing a second time.
    let dropped_again = s.acknowledge(2);
    assert_eq!(dropped_again, Vec::<u64>::new());
    assert_eq!(s.inflight.len(), 2);
}

#[test]
fn due_for_retry_reports_only_overdue_entries() {
    let mut s = Session::new(SessionPhase::Established);
    let seq = s.next_send_seq;
    s.register_outbound(keep_alive_request(seq), 7, 1000);
    let seq = s.next_send_seq;
    s.register_outbound(keep_alive_request(seq), 8, 2500);
    // Interval 1000: at time 2400 only the first packet has waited longer.
    assert_eq!(s.due_for_retry(2400, 1000), vec![7]);
    assert_eq!(s.due_for_retry(1000, 1000), Vec::<u64>::new());
    assert_eq!(s.due_for_retry(4000, 1000), vec![7, 8]);
}

#[test]
fn collect_retries_resends_verbatim_under_fresh_tids() {
    let mut s = Session::new(SessionPhase::Established);
    let seq = s.next_send_seq;
    s.register_outbound(keep_alive_request(seq), 7, 0);
    let resends = s.collect_retries(5000, 1000, 50);
    assert_eq!(resends.len(), 1);
    let (new_tid, packet) = &resends[0];
    assert_eq!(*new_tid, 50);
    assert_ne!(*new_tid, 7);
    // Same sequence, same packet: a retransmission, not a new message.
    assert_eq!(*packet, keep_alive_request(1));
    assert_eq!(s.inflight.len(), 1);
    assert_eq!(s.inflight[0].sequence, 1);
    assert_eq!(s.inflight[0].tid, 50);
    assert_eq!(s.inflight[0].retry_count, 1);
    assert_eq!(s.inflight[0].send_time_ms, 5000);
}

#[test]
fn exhausted_retries_are_detected() {
    let mut s = Session::new(SessionPhase::Established);
    let seq = s.next_send_seq;
    s.register_outbound(keep_alive_request(seq), 7, 0);
    assert!(!s.has_exhausted_due(5000, 1000, 3));
    s.inflight[0].retry_count = 3;
    assert!(s.has_exhausted_due(5000, 1000, 3));
    // Not yet due: no failure even at the retry limit.
    assert!(!s.has_exhausted_due(500, 1000, 3));
}
