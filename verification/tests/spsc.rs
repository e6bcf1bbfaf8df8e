use rustorrent::spsc::{PopError, PushError, Queue};

#[test]
fn simple() {
    let mut queue = Queue::new_queue(5);

    queue.push(1).unwrap();
    queue.push(2).unwrap();

    assert_eq!(queue.pop().unwrap(), 1);
    assert_eq!(queue.pop().unwrap(), 2);

    assert_eq!(queue.pop(), Err(PopError::Empty));
}

#[test]
fn full() {
    let mut queue = Queue::new_queue(2);

    queue.push(1).unwrap();
    queue.push(2).unwrap();

    assert!(queue.push(3).is_err());
}

#[test]
fn empty() {
    let mut queue = Queue::<usize>::new_queue(2);
    assert!(queue.pop().is_err());
}

#[test]
fn seq() {
    let mut queue = Queue::new_queue(2);

    queue.push(1).unwrap();
    queue.push(2).unwrap();

    assert!(queue.push(3).is_err());

    assert_eq!(queue.pop().unwrap(), 1);
    queue.push(4).unwrap();

    assert!(queue.push(5).is_err());
    assert!(queue.push(6).is_err());

    assert_eq!(queue.pop().unwrap(), 2);
    assert_eq!(queue.pop().unwrap(), 4);

    assert!(queue.pop().is_err());
    assert!(queue.pop().is_err());

    queue.push(7).unwrap();
    assert_eq!(queue.pop().unwrap(), 7);
    queue.push(8).unwrap();
    queue.push(9).unwrap();

    assert!(queue.push(10).is_err());
    assert!(queue.push(11).is_err());

    assert_eq!(queue.pop().unwrap(), 8);
    assert_eq!(queue.pop().unwrap(), 9);
    assert!(queue.pop().is_err());
    assert!(queue.pop().is_err());
    assert!(queue.pop().is_err());

    queue.push(12).unwrap();
    queue.push(13).unwrap();

    assert_eq!(queue.pop().unwrap(), 12);
    assert_eq!(queue.pop().unwrap(), 13);

    queue.push(14).unwrap();
    assert_eq!(queue.pop().unwrap(), 14);
    queue.push(15).unwrap();
    assert_eq!(queue.pop().unwrap(), 15);
    queue.push(16).unwrap();
    assert_eq!(queue.pop().unwrap(), 16);

    queue.push(17).unwrap();
    queue.push(18).unwrap();
    assert!(queue.push(19).is_err());

    assert_eq!(queue.pop().unwrap(), 17);
    assert_eq!(queue.pop().unwrap(), 18);
    assert!(queue.pop().is_err());
}

#[test]
fn closed() {
    let (mut sender, mut recv) = Queue::new(10);

    sender.push(10).unwrap();

    drop(sender);

    assert_eq!(recv.pop().unwrap(), 10);
    assert_eq!(recv.pop(), Err(PopError::Closed));
}

#[test]
fn closed_recv() {
    let (mut sender, recv) = Queue::new(10);

    sender.push(1).unwrap();

    drop(recv);

    match sender.push(2) {
        Err(PushError::Closed(_)) => {}
        _ => panic!(),
    }
}

#[test]
fn fresh_queue_pop_is_empty() {
    let (sender, mut recv) = Queue::<u32>::new(1);
    assert_eq!(recv.pop(), Err(PopError::Empty));
    drop(sender);
}

#[test]
fn capacity_bound() {
    let mut queue = Queue::new_queue(3);

    queue.push(1).unwrap();
    queue.push(2).unwrap();
    queue.push(3).unwrap();

    match queue.push(99) {
        Err(PushError::Full(v)) => assert_eq!(v, 99),
        _ => panic!("expected the ring to be full"),
    }

    assert_eq!(queue.pop().unwrap(), 1);
    queue.push(4).unwrap();

    match queue.push(100) {
        Err(PushError::Full(v)) => assert_eq!(v, 100),
        _ => panic!("expected the ring to be full again"),
    }
}

#[test]
fn closed_push_returns_value() {
    let (mut sender, recv) = Queue::new(4);

    sender.push(1).unwrap();
    drop(recv);

    match sender.push(7) {
        Err(PushError::Closed(v)) => assert_eq!(v, 7),
        _ => panic!("expected the push to be refused as closed"),
    }
}

#[test]
fn wraparound() {
    for size in 1..=10usize {
        let mut queue = Queue::new_queue(size);
        let mut expected: u64 = 0;

        for n in 0..1_000_000u64 {
            loop {
                match queue.push(n) {
                    Ok(()) => break,
                    Err(PushError::Full(v)) => {
                        assert_eq!(v, n);
                        assert_eq!(queue.pop().unwrap(), expected);
                        expected += 1;
                    }
                    Err(PushError::Closed(_)) => panic!("queue closed unexpectedly"),
                }
            }
        }

        while expected < 1_000_000 {
            assert_eq!(queue.pop().unwrap(), expected);
            expected += 1;
        }
        assert_eq!(queue.pop(), Err(PopError::Empty));
    }
}

#[test]
fn wraparound_handles() {
    let (mut sender, mut recv) = Queue::new(3);
    let mut expected: u32 = 0;

    for n in 0..100_000u32 {
        loop {
            match sender.push(n) {
                Ok(()) => break,
                Err(PushError::Full(v)) => {
                    assert_eq!(v, n);
                    assert_eq!(recv.pop().unwrap(), expected);
                    expected += 1;
                }
                Err(PushError::Closed(_)) => panic!("queue closed unexpectedly"),
            }
        }
    }

    drop(sender);

    while expected < 100_000 {
        assert_eq!(recv.pop().unwrap(), expected);
        expected += 1;
    }
    assert_eq!(recv.pop(), Err(PopError::Closed));
}

#[test]
fn drain_then_close() {
    let (mut sender, mut recv) = Queue::new(2);

    sender.push(5).unwrap();
    sender.push(6).unwrap();
    drop(sender);

    assert_eq!(recv.pop().unwrap(), 5);
    assert_eq!(recv.pop().unwrap(), 6);
    assert_eq!(recv.pop(), Err(PopError::Closed));
    // drained-and-closed is absorbing: every later pop answers the same way
    assert_eq!(recv.pop(), Err(PopError::Closed));
}
