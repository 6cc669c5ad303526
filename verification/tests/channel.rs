use mpsc::ack::Waited;
use mpsc::{async_channel, send_outcome, sync_channel, Channel, HyperKey};
use std::collections::HashSet;
use std::time::{Duration, Instant};

#[derive(Debug, Clone)]
struct SimpleTest {}

#[derive(Debug, Clone)]
struct UsizeTest {
    key: usize,
}

impl HyperKey for SimpleTest {
    fn conflicts(&self, _: &SimpleTest) -> bool {
        true
    }

    fn collision_detect(&self, _: &SimpleTest) -> bool {
        true
    }
}

/// A key that conflicts with every key of a greater number.
#[derive(Debug, Clone)]
struct Below {
    n: u32,
}

impl HyperKey for Below {
    fn conflicts(&self, other: &Self) -> bool {
        self.n < other.n
    }

    fn collision_detect(&self, other: &Self) -> bool {
        self.n < other.n
    }
}

impl HyperKey for UsizeTest {
    fn conflicts(&self, other: &Self) -> bool {
        self.key == other.key
    }

    fn collision_detect(&self, other: &Self) -> bool {
        self.key == other.key
    }
}

#[test]
fn recv_on_an_empty_channel_fails_at_once() {
    let chan = Channel::<UsizeTest, usize>::new();
    let receiver = async_channel::Receiver { chan: &chan };
    assert!(receiver.recv().is_err());
    assert!(receiver.recv().is_err());
}

#[test]
fn default_channel_is_empty() {
    let chan: Channel<UsizeTest, usize> = Channel::default();
    let sender = async_channel::Sender { chan: &chan };
    let receiver = async_channel::Receiver { chan: &chan };
    assert!(receiver.recv().is_err());
    sender.send(vec![UsizeTest { key: 1 }], 11);
    assert_eq!(receiver.recv().unwrap().val, 11);
}

#[test]
fn naive_async_test() {
    let chan = Channel::<SimpleTest, usize>::new();
    let sender = async_channel::Sender { chan: &chan };
    let receiver = async_channel::Receiver { chan: &chan };

    for i in 0..1000 {
        let sender = sender.clone();
        sender.send(vec![SimpleTest {}], i);
    }

    for i in 0..1000 {
        let msg = receiver.recv().unwrap();
        assert_eq!(i, msg.val);
        assert!(msg.release());
    }

    for i in 0..1000 {
        sender.send(vec![SimpleTest {}], i);
        let msg = receiver.recv().unwrap();
        assert_eq!(i, msg.val);
        assert!(msg.release());
    }
}

#[test]
fn a_held_message_blocks_every_conflicting_one() {
    let chan = Channel::<SimpleTest, usize>::new();
    let sender = async_channel::Sender { chan: &chan };
    let receiver = async_channel::Receiver { chan: &chan };
    sender.send(vec![SimpleTest {}], 1);
    sender.send(vec![SimpleTest {}], 2);
    let first = receiver.recv().unwrap();
    assert_eq!(first.val, 1);
    assert!(receiver.recv().is_err());
    assert!(receiver.recv().is_err());
    assert!(first.release());
    assert_eq!(receiver.recv().unwrap().val, 2);
}

#[test]
fn async_simple_key_test() {
    // key send order: 2 2 3 1 3 6 7 8
    // receive order should be: 2 -> 3 -> 1 -> 6 -> 7 -> 8
    // then releases 2
    // receive should be: 2
    let chan = Channel::<UsizeTest, usize>::new();
    let sender = async_channel::Sender { chan: &chan };
    let receiver = async_channel::Receiver { chan: &chan };

    let test_cases = vec![2, 2, 3, 1, 3, 6, 7, 8];
    for elem in test_cases {
        let sender = sender.clone();
        sender.send(vec![UsizeTest { key: elem }], elem);
    }

    let msg1 = receiver.recv().unwrap();
    let msg2 = receiver.recv().unwrap();
    let msg3 = receiver.recv().unwrap();
    let msg4 = receiver.recv().unwrap();
    let msg5 = receiver.recv().unwrap();
    let msg6 = receiver.recv().unwrap();

    assert_eq!(2, msg1.val);
    assert_eq!(3, msg2.val);
    assert_eq!(1, msg3.val);
    assert_eq!(6, msg4.val);
    assert_eq!(7, msg5.val);
    assert_eq!(8, msg6.val);
    assert!(receiver.recv().is_err());

    assert!(msg1.release());
    assert_eq!(2, receiver.recv().unwrap().val);
    assert!(msg2.release());
    assert_eq!(3, receiver.recv().unwrap().val);
    assert!(receiver.recv().is_err());
}

#[test]
fn fifo_test() {
    let chan = Channel::<UsizeTest, usize>::new();
    let sender = async_channel::Sender { chan: &chan };
    let receiver = async_channel::Receiver { chan: &chan };

    let test_cases = vec![2, 2, 3, 1, 3, 6, 7, 8];
    for elem in test_cases {
        let sender = sender.clone();
        sender.send(vec![UsizeTest { key: elem }], elem);
    }

    let mut results = vec![];
    for _ in 0..6 {
        results.push(receiver.recv().unwrap());
    }

    let mut hash_set = HashSet::new();
    for i in 0..6 {
        hash_set.insert(results[i].val);
    }
    // make sure no collision.
    assert_eq!(hash_set.len(), results.len());
}

#[test]
fn held_messages_never_share_a_conflicting_key() {
    let chan = Channel::<UsizeTest, usize>::new();
    let sender = async_channel::Sender { chan: &chan };
    let receiver = async_channel::Receiver { chan: &chan };
    for i in 0..200usize {
        sender.send(vec![UsizeTest { key: i % 5 }, UsizeTest { key: 5 + i % 3 }], i);
    }
    let mut held = vec![];
    let mut delivered = 0;
    while delivered < 200 {
        while let Ok(msg) = receiver.recv() {
            held.push(msg);
        }
        assert!(!held.is_empty());
        for a in 0..held.len() {
            for b in 0..held.len() {
                if a != b {
                    for ka in &held[a].keys {
                        for kb in &held[b].keys {
                            assert!(!ka.collision_detect(kb));
                        }
                    }
                }
            }
        }
        delivered += held.len();
        for msg in held.drain(..) {
            assert!(msg.release());
        }
    }
    assert_eq!(delivered, 200);
    assert!(receiver.recv().is_err());
}

#[test]
fn a_one_sided_relation_excludes_one_way_only() {
    let chan = Channel::<Below, u32>::new();
    let sender = async_channel::Sender { chan: &chan };
    let receiver = async_channel::Receiver { chan: &chan };
    sender.send(vec![Below { n: 5 }], 5);
    sender.send(vec![Below { n: 3 }], 3);
    sender.send(vec![Below { n: 7 }], 7);

    let five = receiver.recv().unwrap();
    assert_eq!(five.val, 5);
    // 3 conflicts with the held 5 and waits; 7 does not, though 5 conflicts
    // with 7.
    let seven = receiver.recv().unwrap();
    assert_eq!(seven.val, 7);
    assert!(!seven.keys[0].collision_detect(&five.keys[0]));
    assert!(five.keys[0].collision_detect(&seven.keys[0]));
    assert!(receiver.recv().is_err());
}

#[test]
fn uniquely_keyed_messages_each_arrive_once() {
    let chan = Channel::<UsizeTest, usize>::new();
    let sender = async_channel::Sender { chan: &chan };
    let receiver = async_channel::Receiver { chan: &chan };
    let producers: Vec<_> = (0..100).map(|_| sender.clone()).collect();
    for (i, producer) in producers.iter().enumerate() {
        producer.send(vec![UsizeTest { key: i }], i);
    }
    let mut seen = HashSet::new();
    let mut held = vec![];
    for _ in 0..100 {
        let msg = receiver.recv().unwrap();
        assert!(seen.insert(msg.val));
        held.push(msg);
    }
    assert_eq!(seen.len(), 100);
    assert!(receiver.recv().is_err());
}

#[test]
fn a_message_keeps_the_keys_it_was_sent_with() {
    let chan = Channel::<UsizeTest, String>::new();
    let sender = async_channel::Sender { chan: &chan };
    let receiver = async_channel::Receiver { chan: &chan };
    sender.send(vec![UsizeTest { key: 4 }, UsizeTest { key: 9 }], String::from("payload"));
    let msg = receiver.recv().unwrap();
    assert_eq!(msg.val, "payload");
    assert_eq!(msg.keys.len(), 2);
    assert_eq!(msg.keys[0].key, 4);
    assert_eq!(msg.keys[1].key, 9);
    assert!(msg.release());
}

#[test]
fn a_message_that_is_not_released_keeps_its_keys_held() {
    let chan = Channel::<UsizeTest, usize>::new();
    let sender = async_channel::Sender { chan: &chan };
    let receiver = async_channel::Receiver { chan: &chan };
    sender.send(vec![UsizeTest { key: 1 }], 1);
    sender.send(vec![UsizeTest { key: 1 }], 2);
    {
        let msg = receiver.recv().unwrap();
        assert_eq!(msg.val, 1);
    }
    assert!(receiver.recv().is_err());
}

#[test]
fn a_message_without_keys_is_never_blocked_and_always_released() {
    let chan = Channel::<SimpleTest, usize>::new();
    let sender = async_channel::Sender { chan: &chan };
    let receiver = async_channel::Receiver { chan: &chan };
    sender.send(vec![SimpleTest {}], 1);
    sender.send(vec![SimpleTest {}], 2);
    sender.send(vec![], 3);
    let first = receiver.recv().unwrap();
    assert_eq!(first.val, 1);
    let keyless = receiver.recv().unwrap();
    assert_eq!(keyless.val, 3);
    assert!(keyless.keys.is_empty());
    assert!(keyless.release());
    assert!(receiver.recv().is_err());
    assert!(first.release());
    assert_eq!(receiver.recv().unwrap().val, 2);
}

#[test]
fn send_outcome_is_ok_only_when_the_message_was_consumed() {
    assert!(send_outcome(Waited::Consumed).is_ok());
    assert!(send_outcome(Waited::TimedOut).is_err());
    assert!(send_outcome(Waited::Abandoned).is_err());
}

#[test]
fn blocking_send_times_out_and_the_message_stays_queued() {
    let chan = Channel::<UsizeTest, usize>::new();
    let sender = sync_channel::Sender { chan: &chan };
    let receiver = sync_channel::Receiver { chan: &chan };

    let start = Instant::now();
    let sent = sender.send_within(vec![UsizeTest { key: 1 }], 41, 1);
    let waited = start.elapsed();
    assert!(sent.is_err());
    assert!(waited >= Duration::from_secs(1));
    assert!(waited < Duration::from_secs(10));

    let msg = receiver.recv().unwrap();
    assert_eq!(msg.val, 41);
    assert!(msg.release());
    assert!(receiver.recv().is_err());
}

#[test]
fn blocking_send_without_a_wait_fails_at_once() {
    let chan = Channel::<UsizeTest, usize>::new();
    let sender = sync_channel::Sender { chan: &chan };
    let receiver = sync_channel::Receiver { chan: &chan };
    assert!(sender.send_within(vec![UsizeTest { key: 1 }], 1, 0).is_err());
    assert!(sender.send_within(vec![UsizeTest { key: 2 }], 2, 0).is_err());
    assert_eq!(receiver.recv().unwrap().val, 1);
    assert_eq!(receiver.recv().unwrap().val, 2);
}

#[test]
fn blocking_send_gives_up_after_five_seconds() {
    let chan = Channel::<SimpleTest, usize>::new();
    let sender = sync_channel::Sender { chan: &chan };
    let receiver = sync_channel::Receiver { chan: &chan };
    assert_eq!(mpsc::SEND_TIMEOUT_SECS, 5);

    let start = Instant::now();
    let sent = sender.send(vec![SimpleTest {}], 7);
    let waited = start.elapsed();
    assert!(sent.is_err());
    assert!(waited >= Duration::from_secs(5));
    assert!(waited < Duration::from_secs(15));

    assert_eq!(receiver.recv().unwrap().val, 7);
}
