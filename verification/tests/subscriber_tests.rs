use rover_core::subscriber::Callback;
use rover_core::subscriber::Policy;
use rover_core::subscriber::RecvStep;
use rover_core::subscriber::Subscriber;
use rover_core::subscriber::UnboundedSubscription;
use std::ops::ControlFlow;

fn drain(subscriber: &mut Subscriber) -> Vec<u64> {
    std::iter::from_fn(|| subscriber.try_recv()).collect()
}

#[test]
fn new_subscription_is_empty_and_closed() {
    let mut subscriber = Subscriber::new(4);
    assert!(subscriber.is_closed());
    assert_eq!(subscriber.try_recv(), None);
    assert_eq!(subscriber.recv_step(), RecvStep::Closed);
}

#[test]
fn callbacks_carry_their_policy() {
    let mut subscriber = Subscriber::new(4);
    assert_eq!(subscriber.create_callback(), Callback { policy: Policy::Force });
    assert_eq!(subscriber.create_mut_callback(), Callback { policy: Policy::Force });
    assert_eq!(subscriber.create_conservative_callback(), Callback { policy: Policy::Conservative });
    assert_eq!(subscriber.create_conservative_mut_callback(), Callback { policy: Policy::Conservative });
}

#[test]
fn messages_come_out_in_the_order_they_went_in() {
    let mut subscriber = Subscriber::new(4);
    let callback = subscriber.create_callback();
    for v in [10, 20, 30] {
        let delivery = subscriber.deliver(&callback, v);
        assert_eq!(delivery.flow, ControlFlow::Continue(()));
        assert!(delivery.notify);
    }
    assert_eq!(subscriber.try_recv(), Some(10));
    assert_eq!(subscriber.try_recv(), Some(20));
    assert_eq!(subscriber.try_recv(), Some(30));
    assert_eq!(subscriber.try_recv(), None);
}

#[test]
fn force_keeps_the_last_k_of_k_plus_m() {
    for k in 1..=5usize {
        for m in 0..=7u64 {
            let mut subscriber = Subscriber::new(k);
            let callback = subscriber.create_callback();
            let pushed: Vec<u64> = (0..k as u64 + m).map(|i| 100 + i).collect();
            for v in &pushed {
                subscriber.deliver(&callback, *v);
            }
            assert_eq!(drain(&mut subscriber), pushed[m as usize..].to_vec());
        }
    }
}

#[test]
fn force_notifies_only_while_there_is_room() {
    let mut subscriber = Subscriber::new(2);
    let callback = subscriber.create_callback();
    assert!(subscriber.deliver(&callback, 1).notify);
    assert!(subscriber.deliver(&callback, 2).notify);
    assert!(!subscriber.deliver(&callback, 3).notify);
    assert_eq!(drain(&mut subscriber), vec![2, 3]);
}

#[test]
fn conservative_drops_the_newest() {
    let mut subscriber = Subscriber::new(2);
    let callback = subscriber.create_conservative_callback();
    assert!(subscriber.deliver(&callback, 1).notify);
    assert!(subscriber.deliver(&callback, 2).notify);
    let refused = subscriber.deliver(&callback, 3);
    assert!(!refused.notify);
    assert_eq!(refused.flow, ControlFlow::Continue(()));
    assert_eq!(drain(&mut subscriber), vec![1, 2]);
    assert!(subscriber.deliver(&callback, 4).notify);
    assert_eq!(drain(&mut subscriber), vec![4]);
}

#[test]
fn a_closed_reader_breaks_producers() {
    let mut subscriber = Subscriber::new(2);
    let force = subscriber.create_callback();
    let careful = subscriber.create_conservative_callback();
    subscriber.deliver(&force, 1);
    subscriber.close();
    let delivery = subscriber.deliver(&force, 2);
    assert_eq!(delivery.flow, ControlFlow::Break(()));
    assert!(!delivery.notify);
    assert_eq!(subscriber.deliver(&careful, 3).flow, ControlFlow::Break(()));
    assert_eq!(drain(&mut subscriber), vec![1]);
}

#[test]
fn readers_wait_while_a_producer_lives() {
    let mut subscriber = Subscriber::new(2);
    let callback = subscriber.create_callback();
    assert!(!subscriber.is_closed());
    assert_eq!(subscriber.recv_step(), RecvStep::Wait);
    subscriber.deliver(&callback, 5);
    assert_eq!(subscriber.recv_step(), RecvStep::Ready(5));
    assert_eq!(subscriber.recv_step(), RecvStep::Wait);
    subscriber.deliver(&callback, 6);
    subscriber.release(callback);
    assert!(subscriber.is_closed());
    assert_eq!(subscriber.recv_step(), RecvStep::Ready(6));
    assert_eq!(subscriber.recv_step(), RecvStep::Closed);
}

#[test]
fn producers_are_counted() {
    let mut subscriber = Subscriber::new(1);
    let a = subscriber.create_callback();
    let b = subscriber.create_conservative_callback();
    subscriber.release(a);
    assert!(!subscriber.is_closed());
    subscriber.release(b);
    assert!(subscriber.is_closed());
    subscriber.release(b);
    assert!(subscriber.is_closed());
}

#[test]
fn capacity_one_holds_the_latest() {
    let mut subscriber = Subscriber::new(1);
    let callback = subscriber.create_callback();
    for v in 0..10 {
        subscriber.deliver(&callback, v);
    }
    assert_eq!(drain(&mut subscriber), vec![9]);
}

#[test]
fn deliveries_name_the_message_that_was_dropped() {
    let mut subscriber = Subscriber::new(2);
    let force = subscriber.create_callback();
    let careful = subscriber.create_conservative_callback();
    assert_eq!(subscriber.deliver(&force, 1).dropped, None);
    assert_eq!(subscriber.deliver(&careful, 2).dropped, None);
    assert_eq!(subscriber.deliver(&careful, 3).dropped, Some(3));
    assert_eq!(subscriber.deliver(&force, 4).dropped, Some(1));
    assert_eq!(drain(&mut subscriber), vec![2, 4]);
    subscriber.close();
    assert_eq!(subscriber.deliver(&force, 5).dropped, None);
}

fn source_with(capacity: usize, messages: &[u64]) -> (Subscriber, Callback) {
    let mut source = Subscriber::new(capacity);
    let callback = source.create_callback();
    for m in messages {
        source.deliver(&callback, *m);
    }
    (source, callback)
}

#[test]
fn unbounded_without_sources_is_closed() {
    let mut all = UnboundedSubscription::none();
    assert_eq!(all.len(), 0);
    assert_eq!(all.try_recv(), None);
    assert!(all.is_closed());
    assert_eq!(all.recv_step(), RecvStep::Closed);
}

#[test]
fn unbounded_takes_from_its_sources_in_turn() {
    let mut all = UnboundedSubscription::none();
    all.add(source_with(4, &[10, 11, 12]).0);
    all.add(source_with(4, &[]).0);
    all.add(source_with(4, &[30, 31]).0);
    assert_eq!(all.len(), 3);
    let got: Vec<u64> = std::iter::from_fn(|| all.try_recv()).collect();
    assert_eq!(got, vec![10, 30, 11, 31, 12]);
    assert_eq!(all.try_recv(), None);
}

#[test]
fn unbounded_keeps_each_source_in_order() {
    let mut all = UnboundedSubscription::none();
    let (a, on_a) = source_with(8, &[]);
    let (b, on_b) = source_with(2, &[]);
    all.add(a);
    all.add(b);
    for v in 0..5 {
        assert!(all.deliver(0, &on_a, 100 + v).notify);
        all.deliver(1, &on_b, 200 + v);
    }
    let got: Vec<u64> = std::iter::from_fn(|| all.try_recv()).collect();
    let from_a: Vec<u64> = got.iter().copied().filter(|v| *v < 200).collect();
    let from_b: Vec<u64> = got.iter().copied().filter(|v| *v >= 200).collect();
    assert_eq!(from_a, vec![100, 101, 102, 103, 104]);
    assert_eq!(from_b, vec![203, 204]);
    assert_eq!(got, vec![100, 203, 101, 204, 102, 103, 104]);
}

#[test]
fn unbounded_waits_while_any_producer_lives() {
    let mut all = UnboundedSubscription::none();
    let (a, on_a) = source_with(2, &[]);
    let (b, on_b) = source_with(2, &[7]);
    all.add(a);
    all.add(b);
    assert!(!all.is_closed());
    assert_eq!(all.recv_step(), RecvStep::Ready(7));
    assert_eq!(all.recv_step(), RecvStep::Wait);
    all.release(0, on_a);
    assert_eq!(all.recv_step(), RecvStep::Wait);
    all.release(1, on_b);
    assert!(all.is_closed());
    assert_eq!(all.recv_step(), RecvStep::Closed);
}
