use p2p_try0::message::{
    FilePieceInfoAddPayload, PeerDroppedPayload, PeerInfoAddPayload, PeersInfoSetPayload,
    PeersInfoUpdatePayload,
};
use p2p_try0::packet::{make_packet, PacketAssembler};
use p2p_try0::peer_to_tracker::{FramingError, PeerRequest, PeerToTrackerManager, TrackerToPeerManager};
use p2p_try0::peers_info_manager::{PeersInfoManagerOfPeer, PeersInfoManagerOfTracker};
use p2p_try0::peers_info_table::{PeerAddr, PeersInfoTable};
use p2p_try0::thread_communication_message::KAToPIMessage;
use p2p_try0::types::{FileMetaInfo, FilePieceInfo, PeerInfo};

fn meta(code: u8, name: &str) -> FileMetaInfo {
    FileMetaInfo::new(vec![code; 4], String::from(name), 8, vec![FilePieceInfo::new(0, vec![code, 0])])
}

fn unpack(p: &[u8]) -> (u8, Vec<u8>) {
    let mut a = PacketAssembler::new();
    assert!(a.push_chunk(p));
    (a.type_id(), a.payload())
}

#[test]
fn table_indexes_follow_new_peers_and_files() {
    let mut t = PeersInfoTable::tracker_new(vec![10, 0, 0, 1], 9000, vec![meta(1, "a")]);
    t.add_one_peer_info(PeerInfo::new(1, vec![10, 0, 0, 2], 9001, vec![meta(1, "a-copy"), meta(2, "b")]));
    assert_eq!(t.get_file_owners(&[1; 4]), Some(vec![0, 1]));
    assert_eq!(t.get_file_owners(&[2; 4]), Some(vec![1]));
    assert_eq!(t.get_piece_owners(&[2, 0]), Some(vec![1]));
    assert_eq!(t.get_peer_addr(1), Some(PeerAddr { ip: vec![10, 0, 0, 2], port: 9001 }));
    // the record kept for a digest is the first one seen
    assert_eq!(t.get_file_meta_info_from_sha3_code(&[1; 4]).unwrap().get_file_name(), String::from("a"));
    t.update_file(vec![meta(3, "c")], 0);
    assert_eq!(t.get_file_owners(&[3; 4]), Some(vec![0]));
    assert_eq!(t.get_peers_info()[0].peer_file_meta_info_report.len(), 2);
}

#[test]
fn download_list_leaves_out_local_files() {
    let mut t = PeersInfoTable::tracker_new(vec![10, 0, 0, 1], 9000, vec![meta(1, "a")]);
    t.add_one_peer_info(PeerInfo::new(1, vec![10, 0, 0, 2], 9001, vec![meta(1, "a"), meta(2, "b")]));
    assert_eq!(t.get_download_file_sha3_code_list(0), vec![vec![2; 4]]);
    assert!(t.get_download_file_sha3_code_list(1).is_empty());
    let mut l = t.get_download_file_sha3_code_list(7);
    l.sort();
    assert_eq!(l, vec![vec![1; 4], vec![2; 4]]);
}

#[test]
fn dropped_peer_leaves_the_table() {
    let mut t = PeersInfoTable::tracker_new(vec![10, 0, 0, 1], 9000, vec![meta(1, "a")]);
    t.add_one_peer_info(PeerInfo::new(1, vec![10, 0, 0, 2], 9001, vec![meta(1, "a"), meta(2, "b")]));
    t.handle_peer_dropped(1);
    assert_eq!(t.get_peers_info().len(), 1);
    assert_eq!(t.get_file_owners(&[1; 4]), Some(vec![0]));
    assert_eq!(t.get_file_owners(&[2; 4]), None);
    assert_eq!(t.get_file_meta_info_from_sha3_code(&[2; 4]), None);
    assert_eq!(t.get_peer_addr(1), None);
}

#[test]
fn piece_acquired_is_recorded() {
    let mut t = PeersInfoTable::tracker_new(vec![10, 0, 0, 1], 9000, vec![meta(1, "a")]);
    t.add_one_peer_info(PeerInfo::new(1, vec![10, 0, 0, 2], 9001, vec![]));
    let empty = FileMetaInfo::new(vec![1; 4], String::from("a"), 8, vec![]);
    t.add_file_piece_info(1, empty, FilePieceInfo::new(0, vec![1, 0]));
    assert_eq!(t.get_piece_owners(&[1, 0]), Some(vec![0, 1]));
}

#[test]
fn resource_table_lists_each_file_once() {
    let mut t = PeersInfoTable::tracker_new(vec![10, 0, 0, 1], 9000, vec![meta(1, "a")]);
    t.add_one_peer_info(PeerInfo::new(1, vec![10, 0, 0, 2], 9001, vec![meta(1, "a2"), meta(2, "b")]));
    let rt = t.show_resource_table().unwrap();
    let rs = rt.get_resources();
    assert_eq!(rs.len(), 2);
    assert_eq!(rs[0].get_resource_name(), String::from("a"));
    assert_eq!(rs[0].get_resource_owner(), vec![0, 1]);
    assert_eq!(rs[1].get_resource_sha3_code(), vec![2; 4]);
    assert_eq!(rs[1].get_resource_owner(), vec![1]);
}

#[test]
fn tracker_registration_and_broadcasts() {
    let table = PeersInfoTable::tracker_new(vec![10, 0, 0, 1], 9000, vec![meta(1, "a")]);
    let mut tracker = PeersInfoManagerOfTracker::new(table);
    let p1 = PeerInfo::new(1, vec![10, 0, 0, 2], 9001, vec![meta(2, "b")]);
    let reply = tracker.on_peer_registered(p1.clone(), 8080, 10000, 8004);
    assert!(reply.check_downloads);
    assert_eq!(reply.targets, vec![PeerAddr { ip: vec![10, 0, 0, 2], port: 8080 }]);
    let (ty, payload) = unpack(&reply.packet);
    assert_eq!(ty, 3);
    let set = PeersInfoSetPayload::from_bencode(&payload).unwrap();
    assert_eq!(set.get_peer_id(), 1);
    assert_eq!(set.get_peers_info_table().get_peers_info().len(), 2);
    let b = tracker.on_peer_connected(&p1, 8080);
    assert!(b.targets.is_empty());
    let (ty, payload) = unpack(&b.packet);
    assert_eq!(ty, 2);
    assert_eq!(PeerInfoAddPayload::from_bencode(&payload).unwrap().get_inner_peer_info(), p1);

    let p2 = PeerInfo::new(2, vec![10, 0, 0, 3], 9002, vec![]);
    tracker.on_peer_registered(p2.clone(), 8081, 10000, 8004);
    let b = tracker.on_peer_connected(&p2, 8081);
    assert_eq!(b.targets, vec![PeerAddr { ip: vec![10, 0, 0, 2], port: 8080 }]);

    let b = tracker.on_peer_files_added(2, vec![meta(3, "c")]);
    assert!(b.check_downloads);
    assert_eq!(b.targets, vec![PeerAddr { ip: vec![10, 0, 0, 2], port: 8080 }]);
    let (ty, payload) = unpack(&b.packet);
    assert_eq!(ty, 4);
    assert_eq!(PeersInfoUpdatePayload::from_bencode(&payload).unwrap().get_peer_id(), 2);

    let b = tracker.on_local_files_added(vec![meta(4, "d")]);
    assert_eq!(b.targets.len(), 2);
    let mut want = tracker.files_to_download();
    want.sort();
    assert_eq!(want, vec![vec![2; 4], vec![3; 4]]);

    let b = tracker.on_peer_dropped(1);
    assert_eq!(b.targets, vec![PeerAddr { ip: vec![10, 0, 0, 3], port: 8081 }]);
    let (ty, payload) = unpack(&b.packet);
    assert_eq!(ty, 5);
    assert_eq!(PeerDroppedPayload::from_bencode(&payload).unwrap().get_dropped_peer_id(), 1);
    assert_eq!(tracker.get_snapshot().get_peers_info().len(), 2);
}

#[test]
fn peer_follows_the_tracker() {
    let table = PeersInfoTable::tracker_new(vec![10, 0, 0, 1], 9000, vec![meta(1, "a")]);
    let mut tracker = PeersInfoManagerOfTracker::new(table);
    let p1 = PeerInfo::new(1, vec![10, 0, 0, 2], 9001, vec![meta(2, "b")]);
    let reply = tracker.on_peer_registered(p1.clone(), 8080, 10000, 8004);
    let (ty, payload) = unpack(&reply.packet);

    let mut peer = PeersInfoManagerOfPeer::new(PeersInfoTable::new());
    assert_eq!(peer.on_local_files_added(vec![meta(9, "z")]), None);
    let o = peer.on_tracker_packet(ty, &payload).unwrap();
    assert!(o.check_downloads);
    assert_eq!(o.start_keep_alive, Some((10000, 8004)));
    assert_eq!(peer.local_peer_id(), Some(1));
    assert_eq!(peer.files_to_download(), vec![vec![1; 4]]);
    // a second snapshot does not start the keep-alive messages again
    let o = peer.on_tracker_packet(ty, &payload).unwrap();
    assert_eq!(o.start_keep_alive, None);
    // a broken snapshot is an error
    assert!(peer.on_tracker_packet(3, b"xx").is_err());
    // a broken update still asks for a look at the downloads
    assert!(peer.on_tracker_packet(4, b"xx").unwrap().check_downloads);
    assert!(!peer.on_tracker_packet(2, b"xx").unwrap().check_downloads);
    assert!(!peer.on_tracker_packet(9, b"").unwrap().check_downloads);

    let upd = PeersInfoUpdatePayload::new(0, vec![meta(5, "e")]).to_bencode().unwrap();
    peer.on_tracker_packet(4, &upd).unwrap();
    assert_eq!(peer.get_snapshot().get_file_owners(&[5; 4]), Some(vec![0]));

    let packet = peer.on_local_files_added(vec![meta(6, "f")]).unwrap();
    let (ty, payload) = unpack(&packet);
    assert_eq!(ty, 4);
    let u = PeersInfoUpdatePayload::from_bencode(&payload).unwrap();
    assert_eq!(u.get_peer_id(), 1);

    let empty = FileMetaInfo::new(vec![1; 4], String::from("a"), 8, vec![]);
    let packet = peer.on_local_piece_acquired(empty.clone(), FilePieceInfo::new(0, vec![1, 0]));
    let (ty, payload) = unpack(&packet);
    assert_eq!(ty, 8);
    let (id, _, m) = FilePieceInfoAddPayload::from_bencode(&payload).unwrap().get_inner_info();
    assert_eq!(id, 1);
    assert_eq!(m, empty);
    assert_eq!(peer.get_snapshot().get_piece_owners(&[1, 0]), Some(vec![0, 1]));

    let dropped = PeerDroppedPayload::new(0).to_bencode().unwrap();
    peer.on_tracker_packet(5, &dropped).unwrap();
    assert_eq!(peer.get_snapshot().get_peer_addr(0), None);
}

#[test]
fn tracker_reads_registrations_and_updates() {
    let mut t2p = TrackerToPeerManager::new(vec![10, 0, 0, 1], 8013, 10000);
    let p2t = PeerToTrackerManager::new(vec![10, 0, 0, 1], 8013);
    let reg = p2t.register_packet(vec![meta(2, "b")], 8090, 8080);
    match t2p.handle_peer_chunk(&reg, &vec![10, 0, 0, 2]) {
        Ok(PeerRequest::Register { peer_info, peer_info_sync_open_port }) => {
            assert_eq!(peer_info, PeerInfo::new(1, vec![10, 0, 0, 2], 8090, vec![meta(2, "b")]));
            assert_eq!(peer_info_sync_open_port, 8080);
        },
        _ => panic!("not a registration"),
    }
    match t2p.handle_peer_chunk(&reg, &vec![10, 0, 0, 3]) {
        Ok(PeerRequest::Register { peer_info, .. }) => assert_eq!(peer_info.get_peer_id(), 2),
        _ => panic!("not a registration"),
    }
    let upd = make_packet(4, &PeersInfoUpdatePayload::new(2, vec![meta(3, "c")]).to_bencode().unwrap());
    match t2p.handle_peer_chunk(&upd, &vec![10, 0, 0, 3]) {
        Ok(PeerRequest::UpdatePeerInfo { peer_id, updated_file_meta_info }) => {
            assert_eq!(peer_id, 2);
            assert_eq!(updated_file_meta_info, vec![meta(3, "c")]);
        },
        _ => panic!("not an update"),
    }
    assert!(matches!(t2p.handle_peer_chunk(&[1, 2], &vec![10, 0, 0, 3]), Ok(PeerRequest::Ignored)));
    assert!(matches!(t2p.handle_peer_chunk(&reg[..reg.len() - 1], &vec![10, 0, 0, 3]), Err(FramingError::LengthMismatch)));
    assert!(matches!(t2p.handle_peer_chunk(&make_packet(1, b"xx"), &vec![10, 0, 0, 3]), Ok(PeerRequest::Ignored)));
    assert!(TrackerToPeerManager::chunk_is_acceptable(&reg));
    assert!(!TrackerToPeerManager::chunk_is_acceptable(&reg[..6]));
}

#[test]
fn registration_gives_the_trackers_table() {
    let table = PeersInfoTable::tracker_new(vec![10, 0, 0, 1], 9000, vec![meta(1, "a"), meta(2, "b")]);
    let mut tracker = PeersInfoManagerOfTracker::new(table);
    let p1 = PeerInfo::new(1, vec![10, 0, 0, 2], 9001, vec![meta(2, "b2"), meta(3, "c")]);
    tracker.on_peer_registered(p1.clone(), 8080, 10000, 8004);
    let p2 = PeerInfo::new(2, vec![10, 0, 0, 3], 9002, vec![meta(3, "c")]);
    let reply = tracker.on_peer_registered(p2, 8081, 10000, 8004);
    let (ty, payload) = unpack(&reply.packet);
    let mut peer = PeersInfoManagerOfPeer::new(PeersInfoTable::new());
    peer.on_tracker_packet(ty, &payload).unwrap();
    let mine = peer.get_snapshot();
    let theirs = tracker.get_snapshot();
    assert_eq!(mine.get_peers_info(), theirs.get_peers_info());
    for code in 1u8..4 {
        assert_eq!(mine.get_file_owners(&[code; 4]), theirs.get_file_owners(&[code; 4]));
        assert_eq!(mine.get_piece_owners(&[code, 0]), theirs.get_piece_owners(&[code, 0]));
        assert_eq!(
            mine.get_file_meta_info_from_sha3_code(&[code; 4]),
            theirs.get_file_meta_info_from_sha3_code(&[code; 4])
        );
    }
    for id in 0u32..3 {
        assert_eq!(mine.get_peer_addr(id), theirs.get_peer_addr(id));
    }
    assert_eq!(theirs.get_file_owners(&[3; 4]), Some(vec![1, 2]));
}

#[test]
fn connected_peer_is_announced_to_the_keep_alive_service() {
    let table = PeersInfoTable::tracker_new(vec![10, 0, 0, 1], 9000, vec![]);
    let mut tracker = PeersInfoManagerOfTracker::new(table);
    let p1 = PeerInfo::new(1, vec![10, 0, 0, 2], 9001, vec![]);
    let reply = tracker.on_peer_registered(p1.clone(), 8080, 10000, 8004);
    assert!(reply.keep_alive_online.is_none());
    let b = tracker.on_peer_connected(&p1, 8080);
    assert!(matches!(
        b.keep_alive_online,
        Some(KAToPIMessage::PeerOnlineMessage { peer_id: 1, peer_ip: 0x0a00_0002 })
    ));
    assert!(tracker.on_peer_files_added(1, vec![meta(2, "b")]).keep_alive_online.is_none());
    assert!(tracker.on_peer_dropped(1).keep_alive_online.is_none());
}

#[test]
fn registrations_get_ids_one_two_three() {
    let mut t2p = TrackerToPeerManager::new(vec![10, 0, 0, 1], 8013, 10000);
    let p2t = PeerToTrackerManager::new(vec![10, 0, 0, 1], 8013);
    let reg = p2t.register_packet(vec![], 8090, 8080);
    for want in 1..=3u32 {
        match t2p.handle_peer_chunk(&reg, &vec![10, 0, 0, 2]) {
            Ok(PeerRequest::Register { peer_info, .. }) => assert_eq!(peer_info.get_peer_id(), want),
            _ => panic!("not a registration"),
        }
        // a packet of another type in between uses up no id
        assert!(matches!(t2p.handle_peer_chunk(&[9, 0, 0, 0, 0], &vec![10, 0, 0, 2]), Ok(PeerRequest::Ignored)));
    }
}

fn table_with_file(f: &FileMetaInfo) -> PeersInfoTable {
    let mut t = PeersInfoTable::tracker_new(vec![10, 0, 0, 1], 9000, vec![f.clone()]);
    t.add_one_peer_info(PeerInfo::new(1, vec![10, 0, 0, 2], 9001, vec![meta(2, "b")]));
    t
}

#[test]
fn pieces_one_by_one_make_the_whole_file() {
    let f = FileMetaInfo::new(
        vec![7; 4],
        String::from("g"),
        8,
        vec![FilePieceInfo::new(0, vec![7, 0]), FilePieceInfo::new(1, vec![7, 1])],
    );
    let mut by_pieces = table_with_file(&f);
    let empty = FileMetaInfo::new(vec![7; 4], String::from("g"), 8, vec![]);
    for p in f.pieces_info.iter() {
        by_pieces.add_file_piece_info(1, empty.clone(), p.clone());
    }
    let mut whole = table_with_file(&f);
    whole.update_file(vec![f.clone()], 1);
    assert_eq!(by_pieces.get_peers_info(), whole.get_peers_info());
    assert_eq!(by_pieces.get_file_owners(&[7; 4]), Some(vec![0, 1]));
    assert_eq!(by_pieces.get_file_owners(&[7; 4]), whole.get_file_owners(&[7; 4]));
    assert_eq!(by_pieces.get_piece_owners(&[7, 0]), whole.get_piece_owners(&[7, 0]));
    assert_eq!(by_pieces.get_piece_owners(&[7, 1]), Some(vec![0, 1]));
    assert_eq!(by_pieces.get_piece_owners(&[7, 1]), whole.get_piece_owners(&[7, 1]));
}

#[test]
fn dropping_a_peer_twice_is_dropping_it_once() {
    let mut t = PeersInfoTable::tracker_new(vec![10, 0, 0, 1], 9000, vec![meta(1, "a")]);
    t.add_one_peer_info(PeerInfo::new(1, vec![10, 0, 0, 2], 9001, vec![meta(1, "a"), meta(2, "b")]));
    t.add_one_peer_info(PeerInfo::new(2, vec![10, 0, 0, 3], 9002, vec![meta(2, "b")]));
    t.handle_peer_dropped(1);
    let peers = t.get_peers_info().clone();
    let owners = (t.get_file_owners(&[1; 4]), t.get_file_owners(&[2; 4]), t.get_piece_owners(&[2, 0]));
    assert_eq!(owners, (Some(vec![0]), Some(vec![2]), Some(vec![2])));
    t.handle_peer_dropped(1);
    assert_eq!(t.get_peers_info(), &peers);
    assert_eq!((t.get_file_owners(&[1; 4]), t.get_file_owners(&[2; 4]), t.get_piece_owners(&[2, 0])), owners);
    assert_eq!(t.get_peer_addr(2), Some(PeerAddr { ip: vec![10, 0, 0, 3], port: 9002 }));
}

#[test]
fn dropping_a_peer_gives_the_table_of_the_others() {
    let p0 = PeerInfo::new(0, vec![10, 0, 0, 1], 9000, vec![meta(1, "a")]);
    let p1 = PeerInfo::new(1, vec![10, 0, 0, 2], 9001, vec![meta(1, "a"), meta(2, "b")]);
    let p2 = PeerInfo::new(2, vec![10, 0, 0, 3], 9002, vec![meta(2, "b"), meta(3, "c")]);
    let mut t = PeersInfoTable::from_peers_info(vec![p0.clone(), p1, p2.clone()]);
    t.handle_peer_dropped(1);
    let rebuilt = PeersInfoTable::from_peers_info(vec![p0, p2]);
    assert_eq!(t.get_peers_info(), rebuilt.get_peers_info());
    for code in 1..=3u8 {
        assert_eq!(t.get_file_owners(&[code; 4]), rebuilt.get_file_owners(&[code; 4]));
        assert_eq!(t.get_piece_owners(&[code, 0]), rebuilt.get_piece_owners(&[code, 0]));
        assert_eq!(
            t.get_file_meta_info_from_sha3_code(&[code; 4]),
            rebuilt.get_file_meta_info_from_sha3_code(&[code; 4])
        );
    }
    for id in 0..=2u32 {
        assert_eq!(t.get_peer_addr(id), rebuilt.get_peer_addr(id));
    }
    assert_eq!(t.get_file_owners(&[2; 4]), Some(vec![2]));
}

fn sorted(v: Option<Vec<u32>>) -> Option<Vec<u32>> {
    v.map(|mut l| {
        l.sort();
        l
    })
}

#[test]
fn a_late_snapshot_matches_the_tracker_but_for_holder_order() {
    let table = PeersInfoTable::tracker_new(vec![10, 0, 0, 1], 9000, vec![]);
    let mut tracker = PeersInfoManagerOfTracker::new(table);
    let p1 = PeerInfo::new(1, vec![10, 0, 0, 2], 9001, vec![meta(2, "b")]);
    tracker.on_peer_registered(p1.clone(), 8080, 10000, 8004);
    tracker.on_peer_connected(&p1, 8080);
    tracker.on_local_files_added(vec![meta(2, "b")]);
    let p2 = PeerInfo::new(2, vec![10, 0, 0, 3], 9002, vec![]);
    let reply = tracker.on_peer_registered(p2.clone(), 8081, 10000, 8004);
    let (ty, payload) = unpack(&reply.packet);
    let mut peer = PeersInfoManagerOfPeer::new(PeersInfoTable::new());
    peer.on_tracker_packet(ty, &payload).unwrap();
    // the tracker lists the holders of b in the order they came, the snapshot
    // in the order of the peers
    assert_eq!(tracker.get_snapshot().get_file_owners(&[2; 4]), Some(vec![1, 0]));
    assert_eq!(peer.get_snapshot().get_file_owners(&[2; 4]), Some(vec![0, 1]));
    let more = tracker.on_peer_files_added(1, vec![meta(3, "c")]);
    let (ty, payload) = unpack(&more.packet);
    peer.on_tracker_packet(ty, &payload).unwrap();
    let dropped = tracker.on_peer_dropped(1);
    let (ty, payload) = unpack(&dropped.packet);
    peer.on_tracker_packet(ty, &payload).unwrap();
    let (t, p) = (tracker.get_snapshot(), peer.get_snapshot());
    assert_eq!(t.get_peers_info(), p.get_peers_info());
    for code in 1..=3u8 {
        assert_eq!(sorted(t.get_file_owners(&[code; 4])), sorted(p.get_file_owners(&[code; 4])));
        assert_eq!(sorted(t.get_piece_owners(&[code, 0])), sorted(p.get_piece_owners(&[code, 0])));
    }
    assert_eq!(p.get_file_owners(&[2; 4]), Some(vec![0]));
}
