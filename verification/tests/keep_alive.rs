use p2p_try0::keep_alive_manager::{heartbeat_period, KeepAliveIPTable, KeepAliveManager, KeepAliveTimer};
use p2p_try0::thread_communication_message::KAToPIMessage;

#[test]
fn quiet_peer_is_dropped_at_its_deadline() {
    let mut t = KeepAliveTimer::new(500, 4);
    assert_eq!(t.flush_timing(), 500);
    assert!(t.on_deadline());
    assert_eq!(t.peer_id(), 4);
}

#[test]
fn a_new_heartbeat_postpones_the_drop() {
    let mut t = KeepAliveTimer::new(500, 4);
    t.flush_timing();
    t.flush_timing();
    assert!(!t.on_deadline());
    assert!(t.on_deadline());
}

#[test]
fn manager_watches_registered_peers() {
    let ip_a: u32 = u32::from_be_bytes([10, 0, 0, 2]);
    let ip_b: u32 = u32::from_be_bytes([10, 0, 0, 3]);
    let mut m = KeepAliveManager::new(vec![10, 0, 0, 1], 10000, 8004);
    assert_eq!(m.get_listen_addr(), (vec![10, 0, 0, 1], 8004));
    assert_eq!(m.on_peer_online(1, ip_a), 10000);
    assert_eq!(m.on_peer_online(2, ip_b), 10000);
    // a datagram shorter than a header is no heartbeat
    assert_eq!(m.on_heartbeat(3, ip_a), None);
    assert_eq!(m.on_heartbeat(5, ip_a), Some(10000));
    assert_eq!(m.on_heartbeat(5, 12345), None);
    // first deadline of peer 1: a heartbeat came since
    assert_eq!(m.on_deadline(ip_a), None);
    // peer 2 sent nothing
    assert_eq!(m.on_deadline(ip_b), Some(2));
    // gone from the watch
    assert_eq!(m.on_heartbeat(5, ip_b), None);
    assert_eq!(m.on_deadline(ip_a), Some(1));
    assert_eq!(m.on_deadline(ip_a), None);
}

#[test]
fn a_peer_at_the_zero_address_is_never_removed() {
    let mut t = KeepAliveIPTable::new();
    t.add_one_peer(1, 0, 100);
    t.remove_one_peer(1);
    assert_eq!(t.flush_timing(0), Some(100));
    t.add_one_peer(2, 7, 100);
    t.remove_one_peer(2);
    assert_eq!(t.flush_timing(7), None);
}

#[test]
fn keep_alive_messages() {
    assert!(matches!(
        KAToPIMessage::new_peer_online_message(3, 9),
        KAToPIMessage::PeerOnlineMessage { peer_id: 3, peer_ip: 9 }
    ));
    assert!(matches!(KAToPIMessage::new_peer_dropped_message(3), KAToPIMessage::PeerDroppedMessage { peer_id: 3 }));
}

#[test]
fn heartbeats_come_twice_per_interval() {
    assert_eq!(heartbeat_period(10000), 5000);
    assert_eq!(heartbeat_period(7), 3);
}

#[test]
fn drops_follow_the_gaps_between_heartbeats() {
    // heartbeats at 0, 300 and 1000 ms with an interval of 500 ms: the
    // deadline at 500 comes after the heartbeat at 300, the one at 800 has no
    // heartbeat after 300, the one at 1500 none after 1000
    let mut t = KeepAliveTimer::new(500, 4);
    t.flush_timing();
    t.flush_timing();
    assert!(!t.on_deadline());
    assert!(t.on_deadline());
    t.flush_timing();
    assert!(t.on_deadline());
}
