use total_order::messages::Packet;
use total_order::queue::{DeliveryQueue, QueueEntry};
use total_order::server::{Action, Node, AGREEMENT_QUORUM};

fn node() -> Node {
    Node::new("127.0.0.1:7000".to_string(), 1)
}

#[test]
fn new_node_is_empty() {
    let mut n = node();
    assert_eq!(n.address(), "127.0.0.1:7000");
    assert_eq!(n.id(), 1);
    assert_eq!(n.seq(), 0);
    assert_eq!(n.queue_len(), 0);
    assert!(n.take_deliverable_messages().is_empty());
}

#[test]
fn proposal_request_is_answered_with_next_sequence() {
    let mut n = node();
    let a = n.handle_packet(Packet::ProposalRequest(10, b"x".to_vec()));
    assert!(matches!(a, Action::Reply(Packet::ProposalReply(10, 1))));
    let b = n.handle_packet(Packet::ProposalRequest(11, b"y".to_vec()));
    assert!(matches!(b, Action::Reply(Packet::ProposalReply(11, 2))));
    assert_eq!(n.seq(), 2);
    assert_eq!(n.queue_len(), 2);
    assert!(n.is_pending(10) && n.is_pending(11));
    assert!(n.take_deliverable_messages().is_empty());
}

#[test]
fn ping_is_answered_with_pong() {
    let mut n = node();
    assert!(matches!(n.handle_packet(Packet::Ping()), Action::Reply(Packet::Pong())));
    assert!(matches!(n.handle_packet(Packet::Pong()), Action::Nothing));
    assert_eq!(n.seq(), 0);
}

#[test]
fn agreement_makes_message_deliverable() {
    let mut n = node();
    n.handle_packet(Packet::ProposalRequest(10, b"hello".to_vec()));
    let a = n.handle_packet(Packet::Agreement(10, 7));
    assert!(matches!(a, Action::Nothing));
    assert!(!n.is_pending(10));
    assert_eq!(n.seq(), 7);
    assert_eq!(n.take_deliverable_messages(), vec![b"hello".to_vec()]);
    assert_eq!(n.queue_len(), 0);
}

#[test]
fn agreement_below_counter_keeps_counter() {
    let mut n = node();
    n.handle_packet(Packet::ProposalRequest(1, b"a".to_vec()));
    n.handle_packet(Packet::ProposalRequest(2, b"b".to_vec()));
    n.handle_packet(Packet::Agreement(1, 1));
    assert_eq!(n.seq(), 2);
}

#[test]
fn unknown_agreement_changes_nothing() {
    let mut n = node();
    n.handle_packet(Packet::ProposalRequest(1, b"a".to_vec()));
    assert!(!n.apply_agreement(99, 50));
    assert_eq!(n.seq(), 1);
    assert_eq!(n.queue_len(), 1);
    assert!(n.is_pending(1));
}

#[test]
fn delivery_waits_for_the_front_message() {
    let mut n = node();
    n.handle_packet(Packet::ProposalRequest(1, b"first".to_vec()));
    n.handle_packet(Packet::ProposalRequest(2, b"second".to_vec()));
    // The second message is agreed first, but under a key above the
    // still-pending first one.
    n.handle_packet(Packet::Agreement(2, 5));
    assert!(n.take_deliverable_messages().is_empty());
    n.handle_packet(Packet::Agreement(1, 6));
    assert_eq!(
        n.take_deliverable_messages(),
        vec![b"second".to_vec(), b"first".to_vec()]
    );
}

#[test]
fn equal_final_sequences_are_ordered_by_message_id() {
    let mut n = node();
    n.handle_packet(Packet::ProposalRequest(9, b"nine".to_vec()));
    n.handle_packet(Packet::ProposalRequest(4, b"four".to_vec()));
    n.handle_packet(Packet::Agreement(9, 10));
    n.handle_packet(Packet::Agreement(4, 10));
    assert_eq!(
        n.take_deliverable_messages(),
        vec![b"four".to_vec(), b"nine".to_vec()]
    );
}

#[test]
fn third_proposal_triggers_agreement_broadcast() {
    let mut n = node();
    let p = n.send_message_with_id(b"msg", 77);
    assert!(matches!(p, Packet::ProposalRequest(77, ref m) if m == b"msg"));
    assert_eq!(n.tally(77), (1, 1));
    assert!(matches!(n.handle_packet(Packet::ProposalReply(77, 5)), Action::Nothing));
    assert_eq!(n.tally(77), (5, 2));
    let a = n.handle_packet(Packet::ProposalReply(77, 2));
    assert!(matches!(a, Action::Broadcast(Packet::Agreement(77, 3))));
    assert_eq!(n.tally(77), (5, 3));
    assert_eq!(AGREEMENT_QUORUM, 3);
    assert!(!n.is_pending(77));
    assert_eq!(n.take_deliverable_messages(), vec![b"msg".to_vec()]);
    // A fourth proposal is only counted.
    assert!(matches!(n.handle_packet(Packet::ProposalReply(77, 9)), Action::Nothing));
    assert_eq!(n.tally(77), (9, 4));
}

#[test]
fn replies_for_unknown_messages_are_counted_from_zero() {
    let mut n = node();
    assert!(matches!(n.handle_packet(Packet::ProposalReply(5, 8)), Action::Nothing));
    assert_eq!(n.tally(5), (8, 1));
}

#[test]
fn send_message_proposes_with_random_id() {
    let mut n = node();
    let p = n.send_message("hi there");
    match p {
        Packet::ProposalRequest(id, msg) => {
            assert_eq!(msg, b"hi there".to_vec());
            assert!(n.is_pending(id));
            assert_eq!(n.tally(id), (1, 1));
        }
        other => panic!("unexpected {:?}", other),
    }
    assert_eq!(n.seq(), 1);
    assert_eq!(n.queue_len(), 1);
}

#[test]
fn can_handle_reports_counter_overflow() {
    let mut n = node();
    n.handle_packet(Packet::ProposalRequest(1, vec![]));
    n.handle_packet(Packet::Agreement(1, u64::MAX));
    assert_eq!(n.seq(), u64::MAX);
    assert!(!n.can_handle(&Packet::ProposalRequest(2, vec![])));
    assert!(n.can_handle(&Packet::Ping()));
    assert!(n.can_handle(&Packet::ProposalReply(2, 0)));
}

#[test]
fn queue_insert_remove_take() {
    let mut q = DeliveryQueue::new();
    q.insert(5, 1, QueueEntry { is_deliverable: true, msg: b"b".to_vec() });
    q.insert(2, 9, QueueEntry { is_deliverable: true, msg: b"a".to_vec() });
    q.insert(7, 0, QueueEntry { is_deliverable: false, msg: b"c".to_vec() });
    q.insert(5, 1, QueueEntry { is_deliverable: true, msg: b"B".to_vec() });
    assert_eq!(q.len(), 3);
    let removed = q.remove(7, 0).unwrap();
    assert_eq!(removed.msg, b"c".to_vec());
    assert!(q.remove(7, 0).is_none());
    q.insert(6, 0, QueueEntry { is_deliverable: false, msg: b"d".to_vec() });
    assert_eq!(q.take_deliverable(), vec![b"a".to_vec(), b"B".to_vec()]);
    assert_eq!(q.len(), 1);
    assert!(q.take_deliverable().is_empty());
}
