use conwayste::channel::BoundedQueue;

#[test]
fn queue_delivers_in_order() {
    let mut q: BoundedQueue<u32> = BoundedQueue::new(4);
    assert_eq!(q.len(), 0);
    assert!(q.try_send(10).is_ok());
    assert!(q.try_send(20).is_ok());
    assert!(q.try_send(30).is_ok());
    assert_eq!(q.len(), 3);
    assert_eq!(q.try_recv(), Some(10));
    assert_eq!(q.try_recv(), Some(20));
    assert_eq!(q.try_recv(), Some(30));
    assert_eq!(q.try_recv(), None);
}

#[test]
fn full_queue_hands_the_message_back() {
    let mut q: BoundedQueue<&str> = BoundedQueue::new(2);
    assert!(q.try_send("a").is_ok());
    assert!(q.try_send("b").is_ok());
    // Backpressure: the third message is refused, not dropped.
    assert_eq!(q.try_send("c"), Err("c"));
    assert_eq!(q.len(), 2);
    assert_eq!(q.try_recv(), Some("a"));
    assert!(q.try_send("c").is_ok());
    assert_eq!(q.try_recv(), Some("b"));
    assert_eq!(q.try_recv(), Some("c"));
}
