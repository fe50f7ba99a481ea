use p2p_try0::downloader::{DownloadProgress, FileDownloader, PlanError};
use p2p_try0::file_manager::{build_file_meta_info, LocalFileTable, ScannedFile};
use p2p_try0::packet::{make_packet, PacketAssembler};
use p2p_try0::peer_to_peer::{FilePieceDownloadedBuffer, PeerToPeerManager, PieceError, ServeAction};
use p2p_try0::message::FilePieceRequestPayload;
use p2p_try0::peers_info_table::{PeerAddr, PeersInfoTable};
use p2p_try0::thread_communication_message::LFToPIMessage;
use p2p_try0::types::{FileMetaInfo, FilePieceInfo, PeerInfo};

fn hex(b: &[u8]) -> String {
    b.iter().map(|x| format!("{:02x}", x)).collect()
}

#[test]
fn file_digest_is_sha3_256() {
    let m = build_file_meta_info(String::from("abc.txt"), b"abc", 2);
    assert_eq!(hex(&m.sha3_code), "3a985da74fe225b2045c172d6bd390bd855f086e3e9d525b46bfe24511431532");
    assert_eq!(m.pieces_info.len(), 2);
    assert_eq!(m.pieces_info[0].index, 0);
    assert_eq!(m.pieces_info[1].index, 1);
    let ab = build_file_meta_info(String::from("ab"), b"ab", 8);
    let c = build_file_meta_info(String::from("c"), b"c", 8);
    assert_eq!(m.pieces_info[0].sha3_code, ab.sha3_code);
    assert_eq!(m.pieces_info[1].sha3_code, c.sha3_code);
    assert_eq!(m.file_piece_size, 2);
    assert_eq!(m.file_name, String::from("abc.txt"));
}

#[test]
fn empty_file_has_no_piece() {
    let m = build_file_meta_info(String::from("e"), b"", 4);
    assert!(m.pieces_info.is_empty());
    assert_eq!(hex(&m.sha3_code), "a7ffc6f8bf1ed76651c14756a061d662f580ff4de43b49fa82d80a4b80f8434a");
}

#[test]
fn exact_multiple_of_piece_size() {
    let m = build_file_meta_info(String::from("x"), &[1, 2, 3, 4, 5, 6], 3);
    assert_eq!(m.pieces_info.len(), 2);
    let m = build_file_meta_info(String::from("x"), &[1, 2, 3, 4, 5, 6, 7], 3);
    assert_eq!(m.pieces_info.len(), 3);
}

#[test]
fn local_table_skips_copies() {
    let mut t = LocalFileTable::new(String::from("/share"), 4);
    let a = t.handle_entry(String::from("/share/a"), String::from("a"), b"hello").unwrap();
    assert!(t.is_known_path(&String::from("/share/a")));
    assert!(t.handle_entry(String::from("/share/copy"), String::from("copy"), b"hello").is_none());
    assert!(!t.is_known_path(&String::from("/share/copy")));
    assert_eq!(t.get_file_meta_info_report(), vec![a.clone()]);
    assert_eq!(t.get_local_path(&a.sha3_code), Some(String::from("/share/a")));
    assert_eq!(t.get_local_path(&[0; 32]), None);
    let d = build_file_meta_info(String::from("d"), b"downloaded", 4);
    t.record_downloaded_file(d.clone(), String::from("/share/d"));
    assert_eq!(t.get_local_path(&d.sha3_code), Some(String::from("/share/d")));
    assert_eq!(t.get_file_meta_info_report().len(), 2);
    let mut msg = LFToPIMessage::new();
    msg.add_file_meta_info(a.clone());
    assert_eq!(msg.get_inner_files_meta_info(), vec![a]);
}

#[test]
fn buffer_reads_back_what_was_written() {
    let mut b = FilePieceDownloadedBuffer::new();
    b.add_one_piece(vec![1], vec![10, 11]);
    b.add_one_piece(vec![2], vec![20]);
    assert!(b.contains_piece(&[1]));
    assert_eq!(b.get_one_piece_content(&vec![1]), vec![10, 11]);
    b.add_one_piece(vec![1], vec![12]);
    assert_eq!(b.get_one_piece_content(&vec![1]), vec![12]);
    assert_eq!(b.file_content(&vec![vec![2], vec![1]]), vec![20, 12]);
    b.release_file_piece_content(vec![vec![1], vec![2]]);
    assert!(!b.contains_piece(&[1]));
    assert!(!b.contains_piece(&[2]));
}

#[test]
fn peer_serves_pieces_from_buffer_or_disk() {
    let p2p = PeerToPeerManager::new(vec![0, 0, 0, 0], 8090);
    assert_eq!(p2p.get_open_port(), 8090);
    let mut b = FilePieceDownloadedBuffer::new();
    b.add_one_piece(vec![5; 32], b"piece".to_vec());
    let req = FilePieceRequestPayload::new(vec![9; 32], vec![5; 32], 0, 4).to_bencode().unwrap();
    match p2p.serve_request(&b, &req).unwrap() {
        ServeAction::Reply { packet } => assert_eq!(packet, make_packet(7, b"piece")),
        _ => panic!("expected a reply"),
    }
    let req = FilePieceRequestPayload::new(vec![9; 32], vec![6; 32], 3, 4).to_bencode().unwrap();
    match p2p.serve_request(&b, &req).unwrap() {
        ServeAction::ReadFromDisk { file_sha3_code, file_piece_sha3_code, offset, file_piece_size } => {
            assert_eq!(file_sha3_code, vec![9; 32]);
            assert_eq!(file_piece_sha3_code, vec![6; 32]);
            assert_eq!(offset, 12);
            assert_eq!(file_piece_size, 4);
        },
        _ => panic!("expected a disk read"),
    }
    assert!(p2p.serve_request(&b, b"junk").is_err());
    let m = build_file_meta_info(String::from("x"), b"data", 4);
    let ok = PeerToPeerManager::piece_reply(b"data", &m.pieces_info[0].sha3_code).unwrap();
    assert_eq!(ok, make_packet(7, b"data"));
    assert_eq!(PeerToPeerManager::piece_reply(b"dat", &m.pieces_info[0].sha3_code), Err(PieceError::DigestMismatch));
}

fn two_piece_table() -> (PeersInfoTable, FileMetaInfo) {
    let m = build_file_meta_info(String::from("f"), b"aaaabbbb", 4);
    let mut t = PeersInfoTable::tracker_new(vec![10, 0, 0, 1], 9000, vec![]);
    t.add_one_peer_info(PeerInfo::new(1, vec![10, 0, 0, 2], 9001, vec![m.clone()]));
    t.add_one_peer_info(PeerInfo::new(2, vec![10, 0, 0, 3], 9002, vec![]));
    let empty = FileMetaInfo::new(m.sha3_code.clone(), String::from("f"), 4, vec![]);
    t.add_file_piece_info(2, empty, m.pieces_info[0].clone());
    (t, m)
}

#[test]
fn pieces_are_requested_rarest_first() {
    let (t, m) = two_piece_table();
    assert!(FileDownloader::can_download(&m.sha3_code, &t));
    assert!(!FileDownloader::can_download(&[0; 32], &t));
    let d = FileDownloader::new(m.sha3_code.clone(), &t);
    assert_eq!(d.get_file_meta_info(), m);
    let reqs = d.piece_requests();
    assert_eq!(reqs.len(), 2);
    // piece 1 has one holder, piece 0 two
    assert_eq!(reqs[0].piece, m.pieces_info[1]);
    assert_eq!(reqs[0].owners, vec![PeerAddr { ip: vec![10, 0, 0, 2], port: 9001 }]);
    assert_eq!(reqs[1].piece, m.pieces_info[0]);
    assert_eq!(
        reqs[1].owners,
        vec![PeerAddr { ip: vec![10, 0, 0, 2], port: 9001 }, PeerAddr { ip: vec![10, 0, 0, 3], port: 9002 }]
    );
    let mut a = PacketAssembler::new();
    assert!(a.push_chunk(&reqs[0].packet));
    assert_eq!(a.type_id(), 6);
    let (file, piece, index, size) = FilePieceRequestPayload::from_bencode(&a.payload()).unwrap().get_inner_info();
    assert_eq!(file, m.sha3_code);
    assert_eq!(piece, m.pieces_info[1].sha3_code);
    assert_eq!(index, 1);
    assert_eq!(size, 4);
}

#[test]
fn downloaded_pieces_make_the_file() {
    let (t, m) = two_piece_table();
    let d = FileDownloader::new(m.sha3_code.clone(), &t);
    let mut b = FilePieceDownloadedBuffer::new();
    let mut progress = DownloadProgress::new(m.pieces_info.len());
    assert!(d.accept_piece(&mut b, &m.pieces_info[0], 3, b"aaaa".to_vec()).unwrap().is_none());
    assert!(d.accept_piece(&mut b, &m.pieces_info[0], 7, b"bbbb".to_vec()).is_err());
    let (empty, piece) = d.accept_piece(&mut b, &m.pieces_info[0], 7, b"aaaa".to_vec()).unwrap().unwrap();
    assert!(empty.pieces_info.is_empty());
    assert_eq!(empty.sha3_code, m.sha3_code);
    assert_eq!(piece, m.pieces_info[0]);
    assert!(!progress.on_piece_received());
    d.accept_piece(&mut b, &m.pieces_info[1], 7, b"bbbb".to_vec()).unwrap().unwrap();
    assert!(progress.on_piece_received());
    let order = d.piece_order().unwrap();
    assert_eq!(order, vec![m.pieces_info[0].sha3_code.clone(), m.pieces_info[1].sha3_code.clone()]);
    assert_eq!(b.file_content(&order), b"aaaabbbb".to_vec());
}

#[test]
fn piece_index_out_of_range_is_refused() {
    let bad = FileMetaInfo::new(vec![1], String::from("bad"), 4, vec![FilePieceInfo::new(5, vec![2])]);
    let mut t = PeersInfoTable::tracker_new(vec![10, 0, 0, 1], 9000, vec![]);
    t.add_one_peer_info(PeerInfo::new(1, vec![10, 0, 0, 2], 9001, vec![bad]));
    let d = FileDownloader::new(vec![1], &t);
    assert_eq!(d.piece_order().err(), Some(PlanError::PieceIndexOutOfRange));
}

fn scanned(path: &str, name: &str, content: &[u8]) -> ScannedFile {
    ScannedFile { path: String::from(path), file_name: String::from(name), content: content.to_vec() }
}

#[test]
fn rescanning_an_unchanged_directory_announces_nothing() {
    let mut t = LocalFileTable::new(String::from("/share"), 4);
    let entries = vec![
        scanned("/share/a", "a", b"hello"),
        scanned("/share/copy", "copy", b"hello"),
        scanned("/share/b", "b", b"bye"),
    ];
    let found = t.scan_and_update(&entries).unwrap().get_inner_files_meta_info();
    assert_eq!(found.len(), 2);
    assert_eq!(found[0].file_name, String::from("a"));
    assert_eq!(found[1].file_name, String::from("b"));
    let report = t.get_file_meta_info_report();
    assert!(t.scan_and_update(&entries).is_none());
    assert_eq!(t.get_file_meta_info_report(), report);
    // a known path is not read again; a new file is announced alone
    let later = vec![
        scanned("/share/a", "a", b""),
        scanned("/share/copy", "copy", b"hello"),
        scanned("/share/c", "c", b"new"),
    ];
    let found = t.scan_and_update(&later).unwrap().get_inner_files_meta_info();
    assert_eq!(found.len(), 1);
    assert_eq!(found[0].file_name, String::from("c"));
    assert!(t.is_known_path(&String::from("/share/c")));
}

#[test]
fn buffer_keeps_pieces_it_is_not_told_to_release() {
    let mut b = FilePieceDownloadedBuffer::new();
    b.add_one_piece(vec![1], vec![10]);
    b.add_one_piece(vec![2], vec![20]);
    b.add_one_piece(vec![3], vec![30]);
    b.release_file_piece_content(vec![vec![2], vec![9]]);
    assert_eq!(b.get_one_piece_content(&vec![1]), vec![10]);
    assert_eq!(b.get_one_piece_content(&vec![3]), vec![30]);
    assert!(!b.contains_piece(&[2]));
    b.add_one_piece(vec![4], vec![40]);
    b.release_file_piece_content(vec![vec![4]]);
    assert_eq!(b.get_one_piece_content(&vec![1]), vec![10]);
}

#[test]
fn a_piece_size_of_zero_gives_no_pieces() {
    let m = build_file_meta_info(String::from("abc.txt"), b"abc", 0);
    assert!(m.pieces_info.is_empty());
    assert_eq!(hex(&m.sha3_code), "3a985da74fe225b2045c172d6bd390bd855f086e3e9d525b46bfe24511431532");
    let mut t = LocalFileTable::new(String::from("/share"), 0);
    let found = t.scan_and_update(&vec![scanned("/share/abc.txt", "abc.txt", b"abc")]).unwrap().get_inner_files_meta_info();
    assert_eq!(found, vec![m]);
    assert_eq!(t.get_piece_size(), 0);
}
