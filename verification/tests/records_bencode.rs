use p2p_try0::types::{FileMetaInfo, FilePieceInfo, PeerInfo, DecodeError};
use p2p_try0::peers_info_table::PeersInfoTable;

#[test]
fn test_file_meta_info_with_benecode() {
    let sha3_code = (0..32).collect::<Vec<u8>>();
    let file_piece_info = FilePieceInfo::new(12, sha3_code);
    let encoded = file_piece_info.to_bencode().unwrap();
    let expected_file_piece_info = FilePieceInfo::from_bencode(&encoded).unwrap();
    assert_eq!(file_piece_info, expected_file_piece_info);
}

#[test]
fn test_file_piece_info_with_bencode() {
    let sha3_code = (0..32).collect::<Vec<u8>>();
    let file_piece_info = FilePieceInfo::new(12, sha3_code.clone());
    let file_meta_info = FileMetaInfo::new(
        sha3_code,
        String::from("luweiba.pdf"),
        1 << 16,
        vec![file_piece_info],
    );
    let encoded = file_meta_info.to_bencode().unwrap();
    let expected_file_meta_info = FileMetaInfo::from_bencode(&encoded).unwrap();
    assert_eq!(expected_file_meta_info, file_meta_info);
}

#[test]
fn test_peer_info_with_bencode() {
    let sha3_code = (0..32).collect::<Vec<u8>>();
    let file_piece_info = FilePieceInfo::new(12, sha3_code.clone());
    let file_meta_info = FileMetaInfo::new(
        sha3_code,
        String::from("luweiba.pdf"),
        1 << 16,
        vec![file_piece_info],
    );
    let peer_info = PeerInfo::new(16, vec![127, 0, 0, 1], 8080, vec![file_meta_info]);
    let encoded = peer_info.to_bencode().unwrap();
    let expected_peer_info = PeerInfo::from_bencode(&encoded).unwrap();
    assert_eq!(expected_peer_info, peer_info);
}

#[test]
fn piece_encodes_to_the_expected_dictionary() {
    let piece = FilePieceInfo::new(1, vec![2, 30]);
    let encoded = piece.to_bencode().unwrap();
    assert_eq!(encoded, b"d5:indexi1e9:sha3_codeli2ei30eee".to_vec());
}

#[test]
fn file_record_encodes_with_sorted_keys() {
    let meta = FileMetaInfo::new(vec![7], String::from("a.txt"), 4, vec![]);
    let encoded = meta.to_bencode().unwrap();
    assert_eq!(
        encoded,
        b"d9:file_name5:a.txt15:file_piece_sizei4e11:pieces_infole9:sha3_codeli7eee".to_vec()
    );
}

#[test]
fn decoding_ignores_trailing_bytes() {
    let piece = FilePieceInfo::new(3, vec![9, 9]);
    let mut encoded = piece.to_bencode().unwrap();
    encoded.extend_from_slice(b"garbage");
    assert_eq!(FilePieceInfo::from_bencode(&encoded).unwrap(), piece);
}

#[test]
fn malformed_bytes_do_not_decode() {
    assert_eq!(FilePieceInfo::from_bencode(b"d5:indexi1ee"), Err(DecodeError::Malformed));
    assert_eq!(FilePieceInfo::from_bencode(b""), Err(DecodeError::Malformed));
    // keys out of order are refused
    assert_eq!(
        FilePieceInfo::from_bencode(b"d9:sha3_codeli2ee5:indexi1ee"),
        Err(DecodeError::Malformed)
    );
    // a leading zero is not a canonical integer
    assert_eq!(
        FilePieceInfo::from_bencode(b"d5:indexi01e9:sha3_codeli2eee"),
        Err(DecodeError::Malformed)
    );
    // an index past 32 bits is refused
    assert_eq!(
        FilePieceInfo::from_bencode(b"d5:indexi4294967296e9:sha3_codeli2eee"),
        Err(DecodeError::Malformed)
    );
    // a byte past 255 is refused
    assert_eq!(
        FilePieceInfo::from_bencode(b"d5:indexi1e9:sha3_codeli256eee"),
        Err(DecodeError::Malformed)
    );
}

#[test]
fn table_roundtrips_through_its_peers() {
    let meta = FileMetaInfo::new(vec![1, 2], String::from("x"), 8, vec![FilePieceInfo::new(0, vec![5])]);
    let table = PeersInfoTable::tracker_new(vec![10, 0, 0, 1], 9000, vec![meta.clone()]);
    let encoded = table.to_bencode().unwrap();
    let decoded = PeersInfoTable::from_bencode(&encoded).unwrap();
    assert_eq!(decoded.get_peers_info().len(), 1);
    assert_eq!(decoded.get_peers_info()[0], table.get_peers_info()[0]);
    assert_eq!(decoded.get_file_owners(&[1, 2]), Some(vec![0]));
    assert_eq!(decoded.get_piece_owners(&[5]), Some(vec![0]));
}

#[test]
fn peer_with_an_address_of_three_bytes_is_refused() {
    let ok = b"d26:peer_file_meta_info_reportle7:peer_idi1e7:peer_ipli1ei2ei3ei4ee14:peer_open_porti80ee";
    let p = PeerInfo::from_bencode(ok).unwrap();
    assert_eq!(p, PeerInfo::new(1, vec![1, 2, 3, 4], 80, vec![]));
    let bad = b"d26:peer_file_meta_info_reportle7:peer_idi1e7:peer_ipli1ei2ei3ee14:peer_open_porti80ee";
    assert_eq!(PeerInfo::from_bencode(bad), Err(DecodeError::Malformed));
    let mut table = b"d10:peers_infol".to_vec();
    table.extend_from_slice(bad);
    table.extend_from_slice(b"ee");
    assert!(PeersInfoTable::from_bencode(&table).is_err());
}
