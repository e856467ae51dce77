use labs::barrier::{ChannelBarrier, CyclicBarrier};
use std::sync::mpsc::sync_channel;

#[test]
fn cyclic_barrier_releases_on_the_last_arrival() {
    let mut b = CyclicBarrier::new(3, 7usize);
    assert!(!b.must_wait_to_enter());
    assert!(!b.arrive());
    assert!(b.must_wait_to_leave());
    assert!(!b.arrive());
    assert!(b.arrive());
    assert!(b.must_wait_to_enter());
    assert!(!b.must_wait_to_leave());
    assert!(!b.depart());
    assert!(!b.depart());
    assert!(b.depart());
    assert!(!b.must_wait_to_enter());
    assert_eq!(*b.value(), 7);
}

#[test]
fn cyclic_barrier_of_one_thread() {
    let mut b = CyclicBarrier::new(1, ());
    for _ in 0..3 {
        assert!(b.arrive());
        assert!(b.depart());
    }
}

#[test]
fn channel_barrier_registers_peers() {
    let (tx_a, rx_a) = sync_channel::<bool>(3);
    let (tx_b, rx_b) = sync_channel::<bool>(3);
    let mut a = ChannelBarrier::new(rx_a, tx_a);
    let mut b = ChannelBarrier::new(rx_b, tx_b);
    let to_b = b.get_sender().expect("sender");
    // A new peer is reported as an error; registering it again succeeds.
    assert!(a.add_sender(to_b.clone(), &1).is_err());
    assert!(a.add_sender(to_b, &1).is_ok());
    // The peer's signal is already there: the wait signals the peer and
    // takes one signal.
    a.get_sender().unwrap().send(true).unwrap();
    assert!(a.wait().is_ok());
    // The peer was signalled.
    let to_a = a.get_sender().unwrap();
    assert!(b.add_sender(to_a.clone(), &0).is_err());
    assert!(b.wait().is_ok());
}

#[test]
fn channel_barrier_fails_on_a_false_signal() {
    let (tx_a, rx_a) = sync_channel::<bool>(3);
    let (tx_b, _rx_b) = sync_channel::<bool>(3);
    let mut a = ChannelBarrier::new(rx_a, tx_a);
    let _ = a.add_sender(tx_b, &1);
    a.get_sender().unwrap().send(false).unwrap();
    assert!(a.wait().is_err());
}

#[test]
fn channel_barrier_without_peers_passes_at_once() {
    let (tx, rx) = sync_channel::<bool>(1);
    let mut a = ChannelBarrier::new(rx, tx);
    assert!(a.wait().is_ok());
    // The sender handed out feeds the barrier's own channel: registered as
    // a peer, it carries the barrier's signal back to itself.
    let own = a.get_sender().unwrap();
    let _ = a.add_sender(own, &7);
    assert!(a.wait().is_ok());
}

#[test]
fn channel_barrier_signals_each_peer_once() {
    let (tx_a, rx_a) = sync_channel::<bool>(4);
    let (tx_b, rx_b) = sync_channel::<bool>(4);
    let (tx_c, rx_c) = sync_channel::<bool>(4);
    let mut a = ChannelBarrier::new(rx_a, tx_a);
    let _ = a.add_sender(tx_c, &9);
    let _ = a.add_sender(tx_b, &2);
    assert_eq!(a.signal_plan(), vec![2, 9]);
    let own = a.get_sender().unwrap();
    own.send(true).unwrap();
    own.send(true).unwrap();
    assert!(a.wait().is_ok());
    assert_eq!(rx_b.try_recv(), Ok(true));
    assert!(rx_b.try_recv().is_err());
    assert_eq!(rx_c.try_recv(), Ok(true));
    assert!(rx_c.try_recv().is_err());
}

#[test]
fn wait_outcome_needs_every_signal_true() {
    assert!(ChannelBarrier::wait_outcome(&vec![], 0).is_ok());
    assert!(ChannelBarrier::wait_outcome(&vec![Some(true), Some(true)], 2).is_ok());
    assert!(ChannelBarrier::wait_outcome(&vec![Some(true)], 2).is_err());
    assert!(ChannelBarrier::wait_outcome(&vec![Some(true), Some(false)], 2).is_err());
    assert!(ChannelBarrier::wait_outcome(&vec![Some(true), None], 2).is_err());
}

#[test]
fn channel_barrier_signals_are_true_for_each_peer() {
    let (tx_a, rx_a) = sync_channel::<bool>(4);
    let (tx_b, _rx_b) = sync_channel::<bool>(4);
    let (tx_c, _rx_c) = sync_channel::<bool>(4);
    let mut a = ChannelBarrier::new(rx_a, tx_a);
    assert!(a.signals().is_empty());
    let _ = a.add_sender(tx_c, &200);
    let _ = a.add_sender(tx_b, &3);
    assert_eq!(a.signals(), vec![(3, true), (200, true)]);
}
