use p2p_try0::message::{
    FilePieceInfoAddPayload, FilePieceRequestPayload, PeerDroppedPayload, PeerInfoAddPayload,
    PeersInfoSetPayload, PeersInfoUpdatePayload, RegisterPayload,
};
use p2p_try0::packet::{make_packet, PacketAssembler};
use p2p_try0::peers_info_table::PeersInfoTable;
use p2p_try0::types::{FileMetaInfo, FilePieceInfo, PeerInfo};

fn sample_meta() -> FileMetaInfo {
    FileMetaInfo::new(vec![1, 2, 3], String::from("notes.txt"), 16, vec![FilePieceInfo::new(0, vec![4, 5])])
}

#[test]
fn peer_dropped_payload_bytes() {
    let p = PeerDroppedPayload::new(5);
    assert_eq!(p.to_bencode().unwrap(), b"d7:peer_idi5ee".to_vec());
    let q = PeerDroppedPayload::from_bencode(b"d7:peer_idi5ee").unwrap();
    assert_eq!(q.get_dropped_peer_id(), 5);
    assert!(PeerDroppedPayload::from_bencode(b"d7:peer_idi-5ee").is_err());
}

#[test]
fn piece_request_roundtrip() {
    let p = FilePieceRequestPayload::new(vec![9; 32], vec![8; 32], 3, 65536);
    let bytes = p.to_bencode().unwrap();
    let q = FilePieceRequestPayload::from_bencode(&bytes).unwrap();
    let (file, piece, index, size) = q.get_inner_info();
    assert_eq!(file, vec![9; 32]);
    assert_eq!(piece, vec![8; 32]);
    assert_eq!(index, 3);
    assert_eq!(size, 65536);
}

#[test]
fn register_roundtrip() {
    let p = RegisterPayload::new(vec![sample_meta()], 8090, 8080);
    let q = RegisterPayload::from_bencode(&p.to_bencode().unwrap()).unwrap();
    assert_eq!(q.get_file_meta_info_report(), vec![sample_meta()]);
    assert_eq!(q.get_file_share_port(), 8090);
    assert_eq!(q.get_peer_info_sync_port(), 8080);
}

#[test]
fn update_and_piece_add_roundtrip() {
    let u = PeersInfoUpdatePayload::new(7, vec![sample_meta()]);
    let u2 = PeersInfoUpdatePayload::from_bencode(&u.to_bencode().unwrap()).unwrap();
    assert_eq!(u2.get_peer_id(), 7);
    assert_eq!(u2.get_updated_file_meta_info(), vec![sample_meta()]);

    let empty = FileMetaInfo::new(vec![1, 2, 3], String::from("notes.txt"), 16, vec![]);
    let a = FilePieceInfoAddPayload::new(2, FilePieceInfo::new(0, vec![4, 5]), empty.clone());
    let a2 = FilePieceInfoAddPayload::from_bencode(&a.to_bencode().unwrap()).unwrap();
    let (id, piece, meta) = a2.get_inner_info();
    assert_eq!(id, 2);
    assert_eq!(piece, FilePieceInfo::new(0, vec![4, 5]));
    assert_eq!(meta, empty);
}

#[test]
fn peer_add_and_snapshot_roundtrip() {
    let peer = PeerInfo::new(3, vec![192, 168, 1, 3], 8090, vec![sample_meta()]);
    let a = PeerInfoAddPayload::new(peer.clone());
    let a2 = PeerInfoAddPayload::from_bencode(&a.to_bencode().unwrap()).unwrap();
    assert_eq!(a2.get_inner_peer_info(), peer);

    let table = PeersInfoTable::tracker_new(vec![10, 0, 0, 1], 8091, vec![sample_meta()]);
    let s = PeersInfoSetPayload::new(3, vec![192, 168, 1, 3], table, 10000, 8004);
    let s2 = PeersInfoSetPayload::from_bencode(&s.to_bencode().unwrap()).unwrap();
    assert_eq!(s2.get_peer_id(), 3);
    assert_eq!(s2.get_peer_ip(), vec![192, 168, 1, 3]);
    assert_eq!(s2.get_keep_alive_interval(), 10000);
    assert_eq!(s2.get_keep_alive_manager_open_port(), 8004);
    let t = s2.get_peers_info_table();
    assert_eq!(t.get_peers_info().len(), 1);
    assert_eq!(t.get_file_owners(&[1, 2, 3]), Some(vec![0]));
}

#[test]
fn packet_header_is_type_and_little_endian_length() {
    let payload = vec![7u8; 300];
    let p = make_packet(4, &payload);
    assert_eq!(p[0], 4);
    assert_eq!(&p[1..5], &[44, 1, 0, 0]);
    assert_eq!(&p[5..], &payload[..]);
    assert_eq!(make_packet(0, &[0, 0, 0, 0, 0]), vec![0, 5, 0, 0, 0, 0, 0, 0, 0, 0]);
}

#[test]
fn packet_reassembles_from_one_chunk() {
    let p = make_packet(7, b"hello");
    let mut a = PacketAssembler::new();
    assert!(a.push_chunk(&p));
    assert_eq!(a.type_id(), 7);
    assert_eq!(a.payload(), b"hello".to_vec());
}

#[test]
fn packet_reassembles_from_several_chunks() {
    let p = make_packet(3, b"0123456789");
    let mut a = PacketAssembler::new();
    assert!(!a.push_chunk(&p[..7]));
    assert!(!a.push_chunk(&p[7..12]));
    assert!(a.push_chunk(&p[12..]));
    assert_eq!(a.type_id(), 3);
    assert_eq!(a.payload(), b"0123456789".to_vec());
}

#[test]
fn a_short_first_chunk_is_dropped() {
    let p = make_packet(2, b"ab");
    let mut a = PacketAssembler::new();
    assert!(!a.push_chunk(&p[..3]));
    assert!(!a.push_chunk(&p[3..]));
    assert!(a.push_chunk(&p));
    assert_eq!(a.payload(), b"ab".to_vec());
}

#[test]
fn an_empty_payload_completes_with_the_header() {
    let mut a = PacketAssembler::new();
    assert!(a.push_chunk(&make_packet(0, &[])));
    assert_eq!(a.type_id(), 0);
    assert!(a.payload().is_empty());
}
