//! The packets of the protocol: a one-byte type, the length of the payload as
//! four little-endian bytes, then the payload, a bencode dictionary.
//!
//! Types: 0 keep-alive, 1 register, 2 new peer, 3 table snapshot, 4 files
//! added, 5 peer dropped, 6 piece request, 7 piece content, 8 piece acquired.
use vstd::prelude::*;
use crate::bytes_map::copy_bytes;
use crate::bencode::{
    enc_bytes, enc_int, enc_u8_list, lemma_seq_assoc, lemma_join, lemma_step, read_key, read_lit,
    read_u16, read_u32, read_u64, read_u8_list, starts_with, write_byte, write_bytes, write_int,
    write_u8_list,
};
use crate::types::{
    duplicate_metas, enc_meta, enc_metas, enc_peer, enc_piece, enc_table, metas_view, read_meta,
    read_metas, read_peer, read_piece, write_meta, write_metas, write_peer, write_piece,
    key_peer_id, key_peer_ip, peer_ok, peers_ok, DecodeError, EncodeError, FileMetaInfo, FilePieceInfo, MetaView, PeerInfo, PeerView, PieceView,
};
use crate::peers_info_table::{table_from_peers, PeersInfoTable};

verus! {

/// Payload of type 1: a peer registers with the tracker.
pub struct RegisterPayload {
    file_meta_info_report: Vec<FileMetaInfo>,
    file_share_port: u16,
    peer_info_sync_open_port: u16,
}

pub struct RegisterView {
    pub file_meta_info_report: Seq<MetaView>,
    pub file_share_port: u16,
    pub peer_info_sync_open_port: u16,
}

impl View for RegisterPayload {
    type V = RegisterView;

    closed spec fn view(&self) -> RegisterView {
        RegisterView {
            file_meta_info_report: metas_view(self.file_meta_info_report@),
            file_share_port: self.file_share_port,
            peer_info_sync_open_port: self.peer_info_sync_open_port,
        }
    }
}

/// Payload of type 2: the tracker announces a peer that joined.
pub struct PeerInfoAddPayload {
    peer_info: PeerInfo,
}

pub struct PeerInfoAddView {
    pub peer_info: PeerView,
}

impl View for PeerInfoAddPayload {
    type V = PeerInfoAddView;

    closed spec fn view(&self) -> PeerInfoAddView {
        PeerInfoAddView { peer_info: self.peer_info@ }
    }
}

/// Payload of type 3: the tracker hands a new peer its id, its address, a
/// snapshot of the table and the keep-alive settings.
pub struct PeersInfoSetPayload {
    peer_id: u32,
    peer_ip: Vec<u8>,
    peers_info_table: PeersInfoTable,
    keep_alive_interval: u64,
    keep_alive_manager_open_port: u16,
}

/// Of the table only its peers travel.
pub struct PeersInfoSetView {
    pub keep_alive_interval: u64,
    pub keep_alive_manager_open_port: u16,
    pub peer_id: u32,
    pub peer_ip: Seq<u8>,
    pub peers_info_table: Seq<PeerView>,
}

impl View for PeersInfoSetPayload {
    type V = PeersInfoSetView;

    closed spec fn view(&self) -> PeersInfoSetView {
        PeersInfoSetView {
            keep_alive_interval: self.keep_alive_interval,
            keep_alive_manager_open_port: self.keep_alive_manager_open_port,
            peer_id: self.peer_id,
            peer_ip: self.peer_ip@,
            peers_info_table: self.peers_info_table@.peers_info,
        }
    }
}

/// Payload of type 4: a peer added files.
pub struct PeersInfoUpdatePayload {
    peer_id: u32,
    updated_file_meta_info: Vec<FileMetaInfo>,
}

pub struct PeersInfoUpdateView {
    pub peer_id: u32,
    pub updated_file_meta_info: Seq<MetaView>,
}

impl View for PeersInfoUpdatePayload {
    type V = PeersInfoUpdateView;

    closed spec fn view(&self) -> PeersInfoUpdateView {
        PeersInfoUpdateView {
            peer_id: self.peer_id,
            updated_file_meta_info: metas_view(self.updated_file_meta_info@),
        }
    }
}

/// Payload of type 5: a peer left.
pub struct PeerDroppedPayload {
    peer_id: u32,
}

pub struct PeerDroppedView {
    pub peer_id: u32,
}

impl View for PeerDroppedPayload {
    type V = PeerDroppedView;

    closed spec fn view(&self) -> PeerDroppedView {
        PeerDroppedView { peer_id: self.peer_id }
    }
}

/// Payload of type 6: a peer asks another for one piece of a file.
pub struct FilePieceRequestPayload {
    file_sha3_code: Vec<u8>,
    file_piece_sha3_code: Vec<u8>,
    file_piece_index: u32,
    file_piece_size: u32,
}

pub struct FilePieceRequestView {
    pub file_piece_index: u32,
    pub file_piece_sha3_code: Seq<u8>,
    pub file_piece_size: u32,
    pub file_sha3_code: Seq<u8>,
}

impl View for FilePieceRequestPayload {
    type V = FilePieceRequestView;

    closed spec fn view(&self) -> FilePieceRequestView {
        FilePieceRequestView {
            file_piece_index: self.file_piece_index,
            file_piece_sha3_code: self.file_piece_sha3_code@,
            file_piece_size: self.file_piece_size,
            file_sha3_code: self.file_sha3_code@,
        }
    }
}

/// Payload of type 8: a peer acquired a piece of a file.
pub struct FilePieceInfoAddPayload {
    peer_id: u32,
    file_piece_info: FilePieceInfo,
    file_meta_info_with_empty_piece: FileMetaInfo,
}

pub struct FilePieceInfoAddView {
    pub file_meta_info_with_empty_piece: MetaView,
    pub file_piece_info: PieceView,
    pub peer_id: u32,
}

impl View for FilePieceInfoAddPayload {
    type V = FilePieceInfoAddView;

    closed spec fn view(&self) -> FilePieceInfoAddView {
        FilePieceInfoAddView {
            file_meta_info_with_empty_piece: self.file_meta_info_with_empty_piece@,
            file_piece_info: self.file_piece_info@,
            peer_id: self.peer_id,
        }
    }
}

/// The dictionary key `file_meta_info_report`.
pub open spec fn key_file_meta_info_report() -> Seq<u8> {
    seq![102u8, 105u8, 108u8, 101u8, 95u8, 109u8, 101u8, 116u8, 97u8, 95u8, 105u8, 110u8, 102u8, 111u8, 95u8, 114u8, 101u8, 112u8, 111u8, 114u8, 116u8]
}

/// The dictionary key `file_meta_info_with_empty_piece`.
pub open spec fn key_file_meta_info_with_empty_piece() -> Seq<u8> {
    seq![102u8, 105u8, 108u8, 101u8, 95u8, 109u8, 101u8, 116u8, 97u8, 95u8, 105u8, 110u8, 102u8, 111u8, 95u8, 119u8, 105u8, 116u8, 104u8, 95u8, 101u8, 109u8, 112u8, 116u8, 121u8, 95u8, 112u8, 105u8, 101u8, 99u8, 101u8]
}

/// The dictionary key `file_piece_index`.
pub open spec fn key_file_piece_index() -> Seq<u8> {
    seq![102u8, 105u8, 108u8, 101u8, 95u8, 112u8, 105u8, 101u8, 99u8, 101u8, 95u8, 105u8, 110u8, 100u8, 101u8, 120u8]
}

/// The dictionary key `file_piece_info`.
pub open spec fn key_file_piece_info() -> Seq<u8> {
    seq![102u8, 105u8, 108u8, 101u8, 95u8, 112u8, 105u8, 101u8, 99u8, 101u8, 95u8, 105u8, 110u8, 102u8, 111u8]
}

/// The dictionary key `file_piece_sha3_code`.
pub open spec fn key_file_piece_sha3_code() -> Seq<u8> {
    seq![102u8, 105u8, 108u8, 101u8, 95u8, 112u8, 105u8, 101u8, 99u8, 101u8, 95u8, 115u8, 104u8, 97u8, 51u8, 95u8, 99u8, 111u8, 100u8, 101u8]
}

/// The dictionary key `file_piece_size`.
pub open spec fn key_file_piece_size() -> Seq<u8> {
    seq![102u8, 105u8, 108u8, 101u8, 95u8, 112u8, 105u8, 101u8, 99u8, 101u8, 95u8, 115u8, 105u8, 122u8, 101u8]
}

/// The dictionary key `file_sha3_code`.
pub open spec fn key_file_sha3_code() -> Seq<u8> {
    seq![102u8, 105u8, 108u8, 101u8, 95u8, 115u8, 104u8, 97u8, 51u8, 95u8, 99u8, 111u8, 100u8, 101u8]
}

/// The dictionary key `file_share_port`.
pub open spec fn key_file_share_port() -> Seq<u8> {
    seq![102u8, 105u8, 108u8, 101u8, 95u8, 115u8, 104u8, 97u8, 114u8, 101u8, 95u8, 112u8, 111u8, 114u8, 116u8]
}

/// The dictionary key `keep_alive_interval`.
pub open spec fn key_keep_alive_interval() -> Seq<u8> {
    seq![107u8, 101u8, 101u8, 112u8, 95u8, 97u8, 108u8, 105u8, 118u8, 101u8, 95u8, 105u8, 110u8, 116u8, 101u8, 114u8, 118u8, 97u8, 108u8]
}

/// The dictionary key `keep_alive_manager_open_port`.
pub open spec fn key_keep_alive_manager_open_port() -> Seq<u8> {
    seq![107u8, 101u8, 101u8, 112u8, 95u8, 97u8, 108u8, 105u8, 118u8, 101u8, 95u8, 109u8, 97u8, 110u8, 97u8, 103u8, 101u8, 114u8, 95u8, 111u8, 112u8, 101u8, 110u8, 95u8, 112u8, 111u8, 114u8, 116u8]
}

/// The dictionary key `peer_info`.
pub open spec fn key_peer_info() -> Seq<u8> {
    seq![112u8, 101u8, 101u8, 114u8, 95u8, 105u8, 110u8, 102u8, 111u8]
}

/// The dictionary key `peer_info_sync_open_port`.
pub open spec fn key_peer_info_sync_open_port() -> Seq<u8> {
    seq![112u8, 101u8, 101u8, 114u8, 95u8, 105u8, 110u8, 102u8, 111u8, 95u8, 115u8, 121u8, 110u8, 99u8, 95u8, 111u8, 112u8, 101u8, 110u8, 95u8, 112u8, 111u8, 114u8, 116u8]
}

/// The dictionary key `peers_info_table`.
pub open spec fn key_peers_info_table() -> Seq<u8> {
    seq![112u8, 101u8, 101u8, 114u8, 115u8, 95u8, 105u8, 110u8, 102u8, 111u8, 95u8, 116u8, 97u8, 98u8, 108u8, 101u8]
}

/// The dictionary key `updated_file_meta_info`.
pub open spec fn key_updated_file_meta_info() -> Seq<u8> {
    seq![117u8, 112u8, 100u8, 97u8, 116u8, 101u8, 100u8, 95u8, 102u8, 105u8, 108u8, 101u8, 95u8, 109u8, 101u8, 116u8, 97u8, 95u8, 105u8, 110u8, 102u8, 111u8]
}

/// The registration of a peer as a dictionary.
pub open spec fn enc_register(y: RegisterView) -> Seq<u8> {
    seq![100u8] + (enc_bytes(key_file_meta_info_report()) + (enc_metas(y.file_meta_info_report) + (enc_bytes(key_file_share_port()) + (enc_int(y.file_share_port as nat) + (enc_bytes(key_peer_info_sync_open_port()) + (enc_int(y.peer_info_sync_open_port as nat) + (seq![101u8])))))))
}

fn write_register(out: &mut Vec<u8>, x: &RegisterPayload)
    ensures
        final(out)@ == old(out)@ + enc_register(x@),
{
    let ghost o0 = out@;
    write_byte(out, 100u8);
    let ghost o1 = out@;
    let k_file_meta_info_report: [u8; 21] = [102u8, 105u8, 108u8, 101u8, 95u8, 109u8, 101u8, 116u8, 97u8, 95u8, 105u8, 110u8, 102u8, 111u8, 95u8, 114u8, 101u8, 112u8, 111u8, 114u8, 116u8];
    assert(k_file_meta_info_report@ =~= key_file_meta_info_report());
    write_bytes(out, &k_file_meta_info_report);
    let ghost o2 = out@;
    write_metas(out, &x.file_meta_info_report);
    let ghost o3 = out@;
    let k_file_share_port: [u8; 15] = [102u8, 105u8, 108u8, 101u8, 95u8, 115u8, 104u8, 97u8, 114u8, 101u8, 95u8, 112u8, 111u8, 114u8, 116u8];
    assert(k_file_share_port@ =~= key_file_share_port());
    write_bytes(out, &k_file_share_port);
    let ghost o4 = out@;
    write_int(out, x.file_share_port as u64);
    let ghost o5 = out@;
    let k_peer_info_sync_open_port: [u8; 24] = [112u8, 101u8, 101u8, 114u8, 95u8, 105u8, 110u8, 102u8, 111u8, 95u8, 115u8, 121u8, 110u8, 99u8, 95u8, 111u8, 112u8, 101u8, 110u8, 95u8, 112u8, 111u8, 114u8, 116u8];
    assert(k_peer_info_sync_open_port@ =~= key_peer_info_sync_open_port());
    write_bytes(out, &k_peer_info_sync_open_port);
    let ghost o6 = out@;
    write_int(out, x.peer_info_sync_open_port as u64);
    let ghost o7 = out@;
    write_byte(out, 101u8);
    let ghost o8 = out@;
    proof {
        lemma_seq_assoc(o0, seq![100u8], enc_bytes(key_file_meta_info_report()) + (enc_metas(x@.file_meta_info_report) + (enc_bytes(key_file_share_port()) + (enc_int(x@.file_share_port as nat) + (enc_bytes(key_peer_info_sync_open_port()) + (enc_int(x@.peer_info_sync_open_port as nat) + (seq![101u8])))))));
        lemma_seq_assoc(o1, enc_bytes(key_file_meta_info_report()), enc_metas(x@.file_meta_info_report) + (enc_bytes(key_file_share_port()) + (enc_int(x@.file_share_port as nat) + (enc_bytes(key_peer_info_sync_open_port()) + (enc_int(x@.peer_info_sync_open_port as nat) + (seq![101u8]))))));
        lemma_seq_assoc(o2, enc_metas(x@.file_meta_info_report), enc_bytes(key_file_share_port()) + (enc_int(x@.file_share_port as nat) + (enc_bytes(key_peer_info_sync_open_port()) + (enc_int(x@.peer_info_sync_open_port as nat) + (seq![101u8])))));
        lemma_seq_assoc(o3, enc_bytes(key_file_share_port()), enc_int(x@.file_share_port as nat) + (enc_bytes(key_peer_info_sync_open_port()) + (enc_int(x@.peer_info_sync_open_port as nat) + (seq![101u8]))));
        lemma_seq_assoc(o4, enc_int(x@.file_share_port as nat), enc_bytes(key_peer_info_sync_open_port()) + (enc_int(x@.peer_info_sync_open_port as nat) + (seq![101u8])));
        lemma_seq_assoc(o5, enc_bytes(key_peer_info_sync_open_port()), enc_int(x@.peer_info_sync_open_port as nat) + (seq![101u8]));
        lemma_seq_assoc(o6, enc_int(x@.peer_info_sync_open_port as nat), seq![101u8]);
        assert(enc_register(x@) == seq![100u8] + (enc_bytes(key_file_meta_info_report()) + (enc_metas(x@.file_meta_info_report) + (enc_bytes(key_file_share_port()) + (enc_int(x@.file_share_port as nat) + (enc_bytes(key_peer_info_sync_open_port()) + (enc_int(x@.peer_info_sync_open_port as nat) + (seq![101u8]))))))));
    }
}

#[verifier::rlimit(40)]
fn read_register(s: &[u8], pos: usize) -> (r: Option<(RegisterPayload, usize)>)
    requires
        pos <= s@.len(),
    ensures
        r matches Some((x, e)) ==> e == pos + enc_register(x@).len() && e <= s@.len()
            && starts_with(s@.skip(pos as int), enc_register(x@)),
        forall|y: RegisterView| starts_with(s@.skip(pos as int), #[trigger] enc_register(y)) ==> (r matches Some((x, _)) && x@ == y),
{
    let ghost rest = s@.skip(pos as int);
    let p0 = pos;
    proof {
        assert forall|y: RegisterView| starts_with(rest, #[trigger] enc_register(y)) implies starts_with(s@.skip(p0 as int), seq![100u8] + (enc_bytes(key_file_meta_info_report()) + (enc_metas(y.file_meta_info_report) + (enc_bytes(key_file_share_port()) + (enc_int(y.file_share_port as nat) + (enc_bytes(key_peer_info_sync_open_port()) + (enc_int(y.peer_info_sync_open_port as nat) + (seq![101u8])))))))) by {}
    }
    let l0: [u8; 1] = [100u8];
    assert(l0@ =~= seq![100u8]);
    let p1 = match read_lit(s, p0, &l0) {
        None => {
            proof {
                assert forall|y: RegisterView| starts_with(rest, #[trigger] enc_register(y)) implies false by {
                    lemma_step(s@, p0 as int, seq![100u8], enc_bytes(key_file_meta_info_report()) + (enc_metas(y.file_meta_info_report) + (enc_bytes(key_file_share_port()) + (enc_int(y.file_share_port as nat) + (enc_bytes(key_peer_info_sync_open_port()) + (enc_int(y.peer_info_sync_open_port as nat) + (seq![101u8])))))));
                }
            }
            return None;
        },
        Some(q) => q,
    };
    proof {
        assert forall|y: RegisterView| starts_with(rest, #[trigger] enc_register(y)) implies starts_with(s@.skip(p1 as int), enc_bytes(key_file_meta_info_report()) + (enc_metas(y.file_meta_info_report) + (enc_bytes(key_file_share_port()) + (enc_int(y.file_share_port as nat) + (enc_bytes(key_peer_info_sync_open_port()) + (enc_int(y.peer_info_sync_open_port as nat) + (seq![101u8]))))))) by {
            lemma_step(s@, p0 as int, seq![100u8], enc_bytes(key_file_meta_info_report()) + (enc_metas(y.file_meta_info_report) + (enc_bytes(key_file_share_port()) + (enc_int(y.file_share_port as nat) + (enc_bytes(key_peer_info_sync_open_port()) + (enc_int(y.peer_info_sync_open_port as nat) + (seq![101u8])))))));
        }
    }
    let k1: [u8; 21] = [102u8, 105u8, 108u8, 101u8, 95u8, 109u8, 101u8, 116u8, 97u8, 95u8, 105u8, 110u8, 102u8, 111u8, 95u8, 114u8, 101u8, 112u8, 111u8, 114u8, 116u8];
    assert(k1@ =~= key_file_meta_info_report());
    let p2 = match read_key(s, p1, &k1) {
        None => {
            proof {
                assert forall|y: RegisterView| starts_with(rest, #[trigger] enc_register(y)) implies false by {
                    lemma_step(s@, p1 as int, enc_bytes(key_file_meta_info_report()), enc_metas(y.file_meta_info_report) + (enc_bytes(key_file_share_port()) + (enc_int(y.file_share_port as nat) + (enc_bytes(key_peer_info_sync_open_port()) + (enc_int(y.peer_info_sync_open_port as nat) + (seq![101u8]))))));
                }
            }
            return None;
        },
        Some(q) => q,
    };
    proof {
        assert forall|y: RegisterView| starts_with(rest, #[trigger] enc_register(y)) implies starts_with(s@.skip(p2 as int), enc_metas(y.file_meta_info_report) + (enc_bytes(key_file_share_port()) + (enc_int(y.file_share_port as nat) + (enc_bytes(key_peer_info_sync_open_port()) + (enc_int(y.peer_info_sync_open_port as nat) + (seq![101u8])))))) by {
            lemma_step(s@, p1 as int, enc_bytes(key_file_meta_info_report()), enc_metas(y.file_meta_info_report) + (enc_bytes(key_file_share_port()) + (enc_int(y.file_share_port as nat) + (enc_bytes(key_peer_info_sync_open_port()) + (enc_int(y.peer_info_sync_open_port as nat) + (seq![101u8]))))));
        }
    }
    let (v_file_meta_info_report, p3) = match read_metas(s, p2) {
        None => {
            proof {
                assert forall|y: RegisterView| starts_with(rest, #[trigger] enc_register(y)) implies false by {
                    lemma_step(s@, p2 as int, enc_metas(y.file_meta_info_report), enc_bytes(key_file_share_port()) + (enc_int(y.file_share_port as nat) + (enc_bytes(key_peer_info_sync_open_port()) + (enc_int(y.peer_info_sync_open_port as nat) + (seq![101u8])))));
                }
            }
            return None;
        },
        Some(q) => q,
    };
    proof {
        assert forall|y: RegisterView| starts_with(rest, #[trigger] enc_register(y)) implies starts_with(s@.skip(p3 as int), enc_bytes(key_file_share_port()) + (enc_int(y.file_share_port as nat) + (enc_bytes(key_peer_info_sync_open_port()) + (enc_int(y.peer_info_sync_open_port as nat) + (seq![101u8]))))) && y.file_meta_info_report == metas_view(v_file_meta_info_report@) by {
            lemma_step(s@, p2 as int, enc_metas(y.file_meta_info_report), enc_bytes(key_file_share_port()) + (enc_int(y.file_share_port as nat) + (enc_bytes(key_peer_info_sync_open_port()) + (enc_int(y.peer_info_sync_open_port as nat) + (seq![101u8])))));
        }
    }
    let k3: [u8; 15] = [102u8, 105u8, 108u8, 101u8, 95u8, 115u8, 104u8, 97u8, 114u8, 101u8, 95u8, 112u8, 111u8, 114u8, 116u8];
    assert(k3@ =~= key_file_share_port());
    let p4 = match read_key(s, p3, &k3) {
        None => {
            proof {
                assert forall|y: RegisterView| starts_with(rest, #[trigger] enc_register(y)) implies false by {
                    lemma_step(s@, p3 as int, enc_bytes(key_file_share_port()), enc_int(y.file_share_port as nat) + (enc_bytes(key_peer_info_sync_open_port()) + (enc_int(y.peer_info_sync_open_port as nat) + (seq![101u8]))));
                }
            }
            return None;
        },
        Some(q) => q,
    };
    proof {
        assert forall|y: RegisterView| starts_with(rest, #[trigger] enc_register(y)) implies starts_with(s@.skip(p4 as int), enc_int(y.file_share_port as nat) + (enc_bytes(key_peer_info_sync_open_port()) + (enc_int(y.peer_info_sync_open_port as nat) + (seq![101u8])))) by {
            lemma_step(s@, p3 as int, enc_bytes(key_file_share_port()), enc_int(y.file_share_port as nat) + (enc_bytes(key_peer_info_sync_open_port()) + (enc_int(y.peer_info_sync_open_port as nat) + (seq![101u8]))));
        }
    }
    let (v_file_share_port, p5) = match read_u16(s, p4) {
        None => {
            proof {
                assert forall|y: RegisterView| starts_with(rest, #[trigger] enc_register(y)) implies false by {
                    lemma_step(s@, p4 as int, enc_int(y.file_share_port as nat), enc_bytes(key_peer_info_sync_open_port()) + (enc_int(y.peer_info_sync_open_port as nat) + (seq![101u8])));
                }
            }
            return None;
        },
        Some(q) => q,
    };
    proof {
        assert forall|y: RegisterView| starts_with(rest, #[trigger] enc_register(y)) implies starts_with(s@.skip(p5 as int), enc_bytes(key_peer_info_sync_open_port()) + (enc_int(y.peer_info_sync_open_port as nat) + (seq![101u8]))) && y.file_share_port == v_file_share_port by {
            lemma_step(s@, p4 as int, enc_int(y.file_share_port as nat), enc_bytes(key_peer_info_sync_open_port()) + (enc_int(y.peer_info_sync_open_port as nat) + (seq![101u8])));
        }
    }
    let k5: [u8; 24] = [112u8, 101u8, 101u8, 114u8, 95u8, 105u8, 110u8, 102u8, 111u8, 95u8, 115u8, 121u8, 110u8, 99u8, 95u8, 111u8, 112u8, 101u8, 110u8, 95u8, 112u8, 111u8, 114u8, 116u8];
    assert(k5@ =~= key_peer_info_sync_open_port());
    let p6 = match read_key(s, p5, &k5) {
        None => {
            proof {
                assert forall|y: RegisterView| starts_with(rest, #[trigger] enc_register(y)) implies false by {
                    lemma_step(s@, p5 as int, enc_bytes(key_peer_info_sync_open_port()), enc_int(y.peer_info_sync_open_port as nat) + (seq![101u8]));
                }
            }
            return None;
        },
        Some(q) => q,
    };
    proof {
        assert forall|y: RegisterView| starts_with(rest, #[trigger] enc_register(y)) implies starts_with(s@.skip(p6 as int), enc_int(y.peer_info_sync_open_port as nat) + (seq![101u8])) by {
            lemma_step(s@, p5 as int, enc_bytes(key_peer_info_sync_open_port()), enc_int(y.peer_info_sync_open_port as nat) + (seq![101u8]));
        }
    }
    let (v_peer_info_sync_open_port, p7) = match read_u16(s, p6) {
        None => {
            proof {
                assert forall|y: RegisterView| starts_with(rest, #[trigger] enc_register(y)) implies false by {
                    lemma_step(s@, p6 as int, enc_int(y.peer_info_sync_open_port as nat), seq![101u8]);
                }
            }
            return None;
        },
        Some(q) => q,
    };
    proof {
        assert forall|y: RegisterView| starts_with(rest, #[trigger] enc_register(y)) implies starts_with(s@.skip(p7 as int), seq![101u8]) && y.peer_info_sync_open_port == v_peer_info_sync_open_port by {
            lemma_step(s@, p6 as int, enc_int(y.peer_info_sync_open_port as nat), seq![101u8]);
        }
    }
    let l7: [u8; 1] = [101u8];
    assert(l7@ =~= seq![101u8]);
    let p8 = match read_lit(s, p7, &l7) {
        None => {
            proof {
                assert forall|y: RegisterView| starts_with(rest, #[trigger] enc_register(y)) implies false by {
                    
                }
            }
            return None;
        },
        Some(q) => q,
    };
    proof {
        assert forall|y: RegisterView| starts_with(rest, #[trigger] enc_register(y)) implies true by {
            
        }
    }
    let x = RegisterPayload { file_meta_info_report: v_file_meta_info_report, file_share_port: v_file_share_port, peer_info_sync_open_port: v_peer_info_sync_open_port };
    proof {
        assert(starts_with(s@.skip(p0 as int), seq![100u8]));
        assert(starts_with(s@.skip(p1 as int), enc_bytes(key_file_meta_info_report())));
        assert(starts_with(s@.skip(p2 as int), enc_metas(x@.file_meta_info_report)));
        assert(starts_with(s@.skip(p3 as int), enc_bytes(key_file_share_port())));
        assert(starts_with(s@.skip(p4 as int), enc_int(x@.file_share_port as nat)));
        assert(starts_with(s@.skip(p5 as int), enc_bytes(key_peer_info_sync_open_port())));
        assert(starts_with(s@.skip(p6 as int), enc_int(x@.peer_info_sync_open_port as nat)));
        assert(starts_with(s@.skip(p7 as int), seq![101u8]));
        lemma_join(s@, p6 as int, enc_int(x@.peer_info_sync_open_port as nat), seq![101u8]);
        lemma_join(s@, p5 as int, enc_bytes(key_peer_info_sync_open_port()), enc_int(x@.peer_info_sync_open_port as nat) + (seq![101u8]));
        lemma_join(s@, p4 as int, enc_int(x@.file_share_port as nat), enc_bytes(key_peer_info_sync_open_port()) + (enc_int(x@.peer_info_sync_open_port as nat) + (seq![101u8])));
        lemma_join(s@, p3 as int, enc_bytes(key_file_share_port()), enc_int(x@.file_share_port as nat) + (enc_bytes(key_peer_info_sync_open_port()) + (enc_int(x@.peer_info_sync_open_port as nat) + (seq![101u8]))));
        lemma_join(s@, p2 as int, enc_metas(x@.file_meta_info_report), enc_bytes(key_file_share_port()) + (enc_int(x@.file_share_port as nat) + (enc_bytes(key_peer_info_sync_open_port()) + (enc_int(x@.peer_info_sync_open_port as nat) + (seq![101u8])))));
        lemma_join(s@, p1 as int, enc_bytes(key_file_meta_info_report()), enc_metas(x@.file_meta_info_report) + (enc_bytes(key_file_share_port()) + (enc_int(x@.file_share_port as nat) + (enc_bytes(key_peer_info_sync_open_port()) + (enc_int(x@.peer_info_sync_open_port as nat) + (seq![101u8]))))));
        lemma_join(s@, p0 as int, seq![100u8], enc_bytes(key_file_meta_info_report()) + (enc_metas(x@.file_meta_info_report) + (enc_bytes(key_file_share_port()) + (enc_int(x@.file_share_port as nat) + (enc_bytes(key_peer_info_sync_open_port()) + (enc_int(x@.peer_info_sync_open_port as nat) + (seq![101u8])))))));
        assert(enc_register(x@) == seq![100u8] + (enc_bytes(key_file_meta_info_report()) + (enc_metas(x@.file_meta_info_report) + (enc_bytes(key_file_share_port()) + (enc_int(x@.file_share_port as nat) + (enc_bytes(key_peer_info_sync_open_port()) + (enc_int(x@.peer_info_sync_open_port as nat) + (seq![101u8]))))))));
    }
    Some((x, p8))
}

/// The announcement of a new peer as a dictionary.
pub open spec fn enc_peer_add(y: PeerInfoAddView) -> Seq<u8> {
    seq![100u8] + (enc_bytes(key_peer_info()) + (enc_peer(y.peer_info) + (seq![101u8])))
}

/// The values of `PeerInfoAddView` that are accepted.
pub open spec fn peer_add_ok(y: PeerInfoAddView) -> bool {
    peer_ok(y.peer_info)
}

fn write_peer_add(out: &mut Vec<u8>, x: &PeerInfoAddPayload)
    ensures
        final(out)@ == old(out)@ + enc_peer_add(x@),
{
    let ghost o0 = out@;
    write_byte(out, 100u8);
    let ghost o1 = out@;
    let k_peer_info: [u8; 9] = [112u8, 101u8, 101u8, 114u8, 95u8, 105u8, 110u8, 102u8, 111u8];
    assert(k_peer_info@ =~= key_peer_info());
    write_bytes(out, &k_peer_info);
    let ghost o2 = out@;
    write_peer(out, &x.peer_info);
    let ghost o3 = out@;
    write_byte(out, 101u8);
    let ghost o4 = out@;
    proof {
        lemma_seq_assoc(o0, seq![100u8], enc_bytes(key_peer_info()) + (enc_peer(x@.peer_info) + (seq![101u8])));
        lemma_seq_assoc(o1, enc_bytes(key_peer_info()), enc_peer(x@.peer_info) + (seq![101u8]));
        lemma_seq_assoc(o2, enc_peer(x@.peer_info), seq![101u8]);
        assert(enc_peer_add(x@) == seq![100u8] + (enc_bytes(key_peer_info()) + (enc_peer(x@.peer_info) + (seq![101u8]))));
    }
}

#[verifier::rlimit(40)]
fn read_peer_add(s: &[u8], pos: usize) -> (r: Option<(PeerInfoAddPayload, usize)>)
    requires
        pos <= s@.len(),
    ensures
        r matches Some((x, e)) ==> e == pos + enc_peer_add(x@).len() && e <= s@.len()
            && starts_with(s@.skip(pos as int), enc_peer_add(x@)) && peer_add_ok(x@),
        forall|y: PeerInfoAddView| starts_with(s@.skip(pos as int), #[trigger] enc_peer_add(y)) ==> (peer_add_ok(y) ==> (r matches Some((x, _)) && x@ == y)) && (!peer_add_ok(y) ==> r is None),
{
    let ghost rest = s@.skip(pos as int);
    let p0 = pos;
    proof {
        assert forall|y: PeerInfoAddView| starts_with(rest, #[trigger] enc_peer_add(y)) implies starts_with(s@.skip(p0 as int), seq![100u8] + (enc_bytes(key_peer_info()) + (enc_peer(y.peer_info) + (seq![101u8])))) by {}
    }
    let l0: [u8; 1] = [100u8];
    assert(l0@ =~= seq![100u8]);
    let p1 = match read_lit(s, p0, &l0) {
        None => {
            proof {
                assert forall|y: PeerInfoAddView| starts_with(rest, #[trigger] enc_peer_add(y)) implies !peer_add_ok(y) by {
                    lemma_step(s@, p0 as int, seq![100u8], enc_bytes(key_peer_info()) + (enc_peer(y.peer_info) + (seq![101u8])));
                }
            }
            return None;
        },
        Some(q) => q,
    };
    proof {
        assert forall|y: PeerInfoAddView| starts_with(rest, #[trigger] enc_peer_add(y)) implies starts_with(s@.skip(p1 as int), enc_bytes(key_peer_info()) + (enc_peer(y.peer_info) + (seq![101u8]))) by {
            lemma_step(s@, p0 as int, seq![100u8], enc_bytes(key_peer_info()) + (enc_peer(y.peer_info) + (seq![101u8])));
        }
    }
    let k1: [u8; 9] = [112u8, 101u8, 101u8, 114u8, 95u8, 105u8, 110u8, 102u8, 111u8];
    assert(k1@ =~= key_peer_info());
    let p2 = match read_key(s, p1, &k1) {
        None => {
            proof {
                assert forall|y: PeerInfoAddView| starts_with(rest, #[trigger] enc_peer_add(y)) implies !peer_add_ok(y) by {
                    lemma_step(s@, p1 as int, enc_bytes(key_peer_info()), enc_peer(y.peer_info) + (seq![101u8]));
                }
            }
            return None;
        },
        Some(q) => q,
    };
    proof {
        assert forall|y: PeerInfoAddView| starts_with(rest, #[trigger] enc_peer_add(y)) implies starts_with(s@.skip(p2 as int), enc_peer(y.peer_info) + (seq![101u8])) by {
            lemma_step(s@, p1 as int, enc_bytes(key_peer_info()), enc_peer(y.peer_info) + (seq![101u8]));
        }
    }
    let (v_peer_info, p3) = match read_peer(s, p2) {
        None => {
            proof {
                assert forall|y: PeerInfoAddView| starts_with(rest, #[trigger] enc_peer_add(y)) implies !peer_add_ok(y) by {
                    lemma_step(s@, p2 as int, enc_peer(y.peer_info), seq![101u8]);
                }
            }
            return None;
        },
        Some(q) => q,
    };
    proof {
        assert forall|y: PeerInfoAddView| starts_with(rest, #[trigger] enc_peer_add(y)) implies starts_with(s@.skip(p3 as int), seq![101u8]) && y.peer_info == v_peer_info@ by {
            lemma_step(s@, p2 as int, enc_peer(y.peer_info), seq![101u8]);
        }
    }
    let l3: [u8; 1] = [101u8];
    assert(l3@ =~= seq![101u8]);
    let p4 = match read_lit(s, p3, &l3) {
        None => {
            proof {
                assert forall|y: PeerInfoAddView| starts_with(rest, #[trigger] enc_peer_add(y)) implies !peer_add_ok(y) by {
                    
                }
            }
            return None;
        },
        Some(q) => q,
    };
    proof {
        assert forall|y: PeerInfoAddView| starts_with(rest, #[trigger] enc_peer_add(y)) implies true by {
            
        }
    }
    let x = PeerInfoAddPayload { peer_info: v_peer_info };
    proof {
        assert(starts_with(s@.skip(p0 as int), seq![100u8]));
        assert(starts_with(s@.skip(p1 as int), enc_bytes(key_peer_info())));
        assert(starts_with(s@.skip(p2 as int), enc_peer(x@.peer_info)));
        assert(starts_with(s@.skip(p3 as int), seq![101u8]));
        lemma_join(s@, p2 as int, enc_peer(x@.peer_info), seq![101u8]);
        lemma_join(s@, p1 as int, enc_bytes(key_peer_info()), enc_peer(x@.peer_info) + (seq![101u8]));
        lemma_join(s@, p0 as int, seq![100u8], enc_bytes(key_peer_info()) + (enc_peer(x@.peer_info) + (seq![101u8])));
        assert(enc_peer_add(x@) == seq![100u8] + (enc_bytes(key_peer_info()) + (enc_peer(x@.peer_info) + (seq![101u8]))));
    }
    Some((x, p4))
}

/// The snapshot handed to a new peer as a dictionary.
pub open spec fn enc_table_set(y: PeersInfoSetView) -> Seq<u8> {
    seq![100u8] + (enc_bytes(key_keep_alive_interval()) + (enc_int(y.keep_alive_interval as nat) + (enc_bytes(key_keep_alive_manager_open_port()) + (enc_int(y.keep_alive_manager_open_port as nat) + (enc_bytes(key_peer_id()) + (enc_int(y.peer_id as nat) + (enc_bytes(key_peer_ip()) + (enc_u8_list(y.peer_ip) + (enc_bytes(key_peers_info_table()) + (enc_table(y.peers_info_table) + (seq![101u8])))))))))))
}

/// The values of `PeersInfoSetView` that are accepted.
pub open spec fn table_set_ok(y: PeersInfoSetView) -> bool {
    peers_ok(y.peers_info_table)
}

fn write_table_set(out: &mut Vec<u8>, x: &PeersInfoSetPayload)
    ensures
        final(out)@ == old(out)@ + enc_table_set(x@),
{
    let ghost o0 = out@;
    write_byte(out, 100u8);
    let ghost o1 = out@;
    let k_keep_alive_interval: [u8; 19] = [107u8, 101u8, 101u8, 112u8, 95u8, 97u8, 108u8, 105u8, 118u8, 101u8, 95u8, 105u8, 110u8, 116u8, 101u8, 114u8, 118u8, 97u8, 108u8];
    assert(k_keep_alive_interval@ =~= key_keep_alive_interval());
    write_bytes(out, &k_keep_alive_interval);
    let ghost o2 = out@;
    write_int(out, x.keep_alive_interval);
    let ghost o3 = out@;
    let k_keep_alive_manager_open_port: [u8; 28] = [107u8, 101u8, 101u8, 112u8, 95u8, 97u8, 108u8, 105u8, 118u8, 101u8, 95u8, 109u8, 97u8, 110u8, 97u8, 103u8, 101u8, 114u8, 95u8, 111u8, 112u8, 101u8, 110u8, 95u8, 112u8, 111u8, 114u8, 116u8];
    assert(k_keep_alive_manager_open_port@ =~= key_keep_alive_manager_open_port());
    write_bytes(out, &k_keep_alive_manager_open_port);
    let ghost o4 = out@;
    write_int(out, x.keep_alive_manager_open_port as u64);
    let ghost o5 = out@;
    let k_peer_id: [u8; 7] = [112u8, 101u8, 101u8, 114u8, 95u8, 105u8, 100u8];
    assert(k_peer_id@ =~= key_peer_id());
    write_bytes(out, &k_peer_id);
    let ghost o6 = out@;
    write_int(out, x.peer_id as u64);
    let ghost o7 = out@;
    let k_peer_ip: [u8; 7] = [112u8, 101u8, 101u8, 114u8, 95u8, 105u8, 112u8];
    assert(k_peer_ip@ =~= key_peer_ip());
    write_bytes(out, &k_peer_ip);
    let ghost o8 = out@;
    write_u8_list(out, x.peer_ip.as_slice());
    let ghost o9 = out@;
    let k_peers_info_table: [u8; 16] = [112u8, 101u8, 101u8, 114u8, 115u8, 95u8, 105u8, 110u8, 102u8, 111u8, 95u8, 116u8, 97u8, 98u8, 108u8, 101u8];
    assert(k_peers_info_table@ =~= key_peers_info_table());
    write_bytes(out, &k_peers_info_table);
    let ghost o10 = out@;
    x.peers_info_table.write_bencode(out);
    let ghost o11 = out@;
    write_byte(out, 101u8);
    let ghost o12 = out@;
    proof {
        lemma_seq_assoc(o0, seq![100u8], enc_bytes(key_keep_alive_interval()) + (enc_int(x@.keep_alive_interval as nat) + (enc_bytes(key_keep_alive_manager_open_port()) + (enc_int(x@.keep_alive_manager_open_port as nat) + (enc_bytes(key_peer_id()) + (enc_int(x@.peer_id as nat) + (enc_bytes(key_peer_ip()) + (enc_u8_list(x@.peer_ip) + (enc_bytes(key_peers_info_table()) + (enc_table(x@.peers_info_table) + (seq![101u8])))))))))));
        lemma_seq_assoc(o1, enc_bytes(key_keep_alive_interval()), enc_int(x@.keep_alive_interval as nat) + (enc_bytes(key_keep_alive_manager_open_port()) + (enc_int(x@.keep_alive_manager_open_port as nat) + (enc_bytes(key_peer_id()) + (enc_int(x@.peer_id as nat) + (enc_bytes(key_peer_ip()) + (enc_u8_list(x@.peer_ip) + (enc_bytes(key_peers_info_table()) + (enc_table(x@.peers_info_table) + (seq![101u8]))))))))));
        lemma_seq_assoc(o2, enc_int(x@.keep_alive_interval as nat), enc_bytes(key_keep_alive_manager_open_port()) + (enc_int(x@.keep_alive_manager_open_port as nat) + (enc_bytes(key_peer_id()) + (enc_int(x@.peer_id as nat) + (enc_bytes(key_peer_ip()) + (enc_u8_list(x@.peer_ip) + (enc_bytes(key_peers_info_table()) + (enc_table(x@.peers_info_table) + (seq![101u8])))))))));
        lemma_seq_assoc(o3, enc_bytes(key_keep_alive_manager_open_port()), enc_int(x@.keep_alive_manager_open_port as nat) + (enc_bytes(key_peer_id()) + (enc_int(x@.peer_id as nat) + (enc_bytes(key_peer_ip()) + (enc_u8_list(x@.peer_ip) + (enc_bytes(key_peers_info_table()) + (enc_table(x@.peers_info_table) + (seq![101u8]))))))));
        lemma_seq_assoc(o4, enc_int(x@.keep_alive_manager_open_port as nat), enc_bytes(key_peer_id()) + (enc_int(x@.peer_id as nat) + (enc_bytes(key_peer_ip()) + (enc_u8_list(x@.peer_ip) + (enc_bytes(key_peers_info_table()) + (enc_table(x@.peers_info_table) + (seq![101u8])))))));
        lemma_seq_assoc(o5, enc_bytes(key_peer_id()), enc_int(x@.peer_id as nat) + (enc_bytes(key_peer_ip()) + (enc_u8_list(x@.peer_ip) + (enc_bytes(key_peers_info_table()) + (enc_table(x@.peers_info_table) + (seq![101u8]))))));
        lemma_seq_assoc(o6, enc_int(x@.peer_id as nat), enc_bytes(key_peer_ip()) + (enc_u8_list(x@.peer_ip) + (enc_bytes(key_peers_info_table()) + (enc_table(x@.peers_info_table) + (seq![101u8])))));
        lemma_seq_assoc(o7, enc_bytes(key_peer_ip()), enc_u8_list(x@.peer_ip) + (enc_bytes(key_peers_info_table()) + (enc_table(x@.peers_info_table) + (seq![101u8]))));
        lemma_seq_assoc(o8, enc_u8_list(x@.peer_ip), enc_bytes(key_peers_info_table()) + (enc_table(x@.peers_info_table) + (seq![101u8])));
        lemma_seq_assoc(o9, enc_bytes(key_peers_info_table()), enc_table(x@.peers_info_table) + (seq![101u8]));
        lemma_seq_assoc(o10, enc_table(x@.peers_info_table), seq![101u8]);
        assert(enc_table_set(x@) == seq![100u8] + (enc_bytes(key_keep_alive_interval()) + (enc_int(x@.keep_alive_interval as nat) + (enc_bytes(key_keep_alive_manager_open_port()) + (enc_int(x@.keep_alive_manager_open_port as nat) + (enc_bytes(key_peer_id()) + (enc_int(x@.peer_id as nat) + (enc_bytes(key_peer_ip()) + (enc_u8_list(x@.peer_ip) + (enc_bytes(key_peers_info_table()) + (enc_table(x@.peers_info_table) + (seq![101u8]))))))))))));
    }
}

#[verifier::rlimit(100)]
#[verifier::spinoff_prover]
fn read_table_set(s: &[u8], pos: usize) -> (r: Option<(PeersInfoSetPayload, usize)>)
    requires
        pos <= s@.len(),
    ensures
        r matches Some((x, e)) ==> e == pos + enc_table_set(x@).len() && e <= s@.len()
            && starts_with(s@.skip(pos as int), enc_table_set(x@)) && table_set_ok(x@) && x.wf() && x.table_view() == table_from_peers(x@.peers_info_table),
        forall|y: PeersInfoSetView| starts_with(s@.skip(pos as int), #[trigger] enc_table_set(y)) ==> (table_set_ok(y) ==> (r matches Some((x, _)) && x@ == y)) && (!table_set_ok(y) ==> r is None),
{
    let ghost rest = s@.skip(pos as int);
    let p0 = pos;
    proof {
        assert forall|y: PeersInfoSetView| starts_with(rest, #[trigger] enc_table_set(y)) implies starts_with(s@.skip(p0 as int), seq![100u8] + (enc_bytes(key_keep_alive_interval()) + (enc_int(y.keep_alive_interval as nat) + (enc_bytes(key_keep_alive_manager_open_port()) + (enc_int(y.keep_alive_manager_open_port as nat) + (enc_bytes(key_peer_id()) + (enc_int(y.peer_id as nat) + (enc_bytes(key_peer_ip()) + (enc_u8_list(y.peer_ip) + (enc_bytes(key_peers_info_table()) + (enc_table(y.peers_info_table) + (seq![101u8])))))))))))) by {}
    }
    let l0: [u8; 1] = [100u8];
    assert(l0@ =~= seq![100u8]);
    let p1 = match read_lit(s, p0, &l0) {
        None => {
            proof {
                assert forall|y: PeersInfoSetView| starts_with(rest, #[trigger] enc_table_set(y)) implies !table_set_ok(y) by {
                    lemma_step(s@, p0 as int, seq![100u8], enc_bytes(key_keep_alive_interval()) + (enc_int(y.keep_alive_interval as nat) + (enc_bytes(key_keep_alive_manager_open_port()) + (enc_int(y.keep_alive_manager_open_port as nat) + (enc_bytes(key_peer_id()) + (enc_int(y.peer_id as nat) + (enc_bytes(key_peer_ip()) + (enc_u8_list(y.peer_ip) + (enc_bytes(key_peers_info_table()) + (enc_table(y.peers_info_table) + (seq![101u8])))))))))));
                }
            }
            return None;
        },
        Some(q) => q,
    };
    proof {
        assert forall|y: PeersInfoSetView| starts_with(rest, #[trigger] enc_table_set(y)) implies starts_with(s@.skip(p1 as int), enc_bytes(key_keep_alive_interval()) + (enc_int(y.keep_alive_interval as nat) + (enc_bytes(key_keep_alive_manager_open_port()) + (enc_int(y.keep_alive_manager_open_port as nat) + (enc_bytes(key_peer_id()) + (enc_int(y.peer_id as nat) + (enc_bytes(key_peer_ip()) + (enc_u8_list(y.peer_ip) + (enc_bytes(key_peers_info_table()) + (enc_table(y.peers_info_table) + (seq![101u8]))))))))))) by {
            lemma_step(s@, p0 as int, seq![100u8], enc_bytes(key_keep_alive_interval()) + (enc_int(y.keep_alive_interval as nat) + (enc_bytes(key_keep_alive_manager_open_port()) + (enc_int(y.keep_alive_manager_open_port as nat) + (enc_bytes(key_peer_id()) + (enc_int(y.peer_id as nat) + (enc_bytes(key_peer_ip()) + (enc_u8_list(y.peer_ip) + (enc_bytes(key_peers_info_table()) + (enc_table(y.peers_info_table) + (seq![101u8])))))))))));
        }
    }
    let k1: [u8; 19] = [107u8, 101u8, 101u8, 112u8, 95u8, 97u8, 108u8, 105u8, 118u8, 101u8, 95u8, 105u8, 110u8, 116u8, 101u8, 114u8, 118u8, 97u8, 108u8];
    assert(k1@ =~= key_keep_alive_interval());
    let p2 = match read_key(s, p1, &k1) {
        None => {
            proof {
                assert forall|y: PeersInfoSetView| starts_with(rest, #[trigger] enc_table_set(y)) implies !table_set_ok(y) by {
                    lemma_step(s@, p1 as int, enc_bytes(key_keep_alive_interval()), enc_int(y.keep_alive_interval as nat) + (enc_bytes(key_keep_alive_manager_open_port()) + (enc_int(y.keep_alive_manager_open_port as nat) + (enc_bytes(key_peer_id()) + (enc_int(y.peer_id as nat) + (enc_bytes(key_peer_ip()) + (enc_u8_list(y.peer_ip) + (enc_bytes(key_peers_info_table()) + (enc_table(y.peers_info_table) + (seq![101u8]))))))))));
                }
            }
            return None;
        },
        Some(q) => q,
    };
    proof {
        assert forall|y: PeersInfoSetView| starts_with(rest, #[trigger] enc_table_set(y)) implies starts_with(s@.skip(p2 as int), enc_int(y.keep_alive_interval as nat) + (enc_bytes(key_keep_alive_manager_open_port()) + (enc_int(y.keep_alive_manager_open_port as nat) + (enc_bytes(key_peer_id()) + (enc_int(y.peer_id as nat) + (enc_bytes(key_peer_ip()) + (enc_u8_list(y.peer_ip) + (enc_bytes(key_peers_info_table()) + (enc_table(y.peers_info_table) + (seq![101u8])))))))))) by {
            lemma_step(s@, p1 as int, enc_bytes(key_keep_alive_interval()), enc_int(y.keep_alive_interval as nat) + (enc_bytes(key_keep_alive_manager_open_port()) + (enc_int(y.keep_alive_manager_open_port as nat) + (enc_bytes(key_peer_id()) + (enc_int(y.peer_id as nat) + (enc_bytes(key_peer_ip()) + (enc_u8_list(y.peer_ip) + (enc_bytes(key_peers_info_table()) + (enc_table(y.peers_info_table) + (seq![101u8]))))))))));
        }
    }
    let (v_keep_alive_interval, p3) = match read_u64(s, p2) {
        None => {
            proof {
                assert forall|y: PeersInfoSetView| starts_with(rest, #[trigger] enc_table_set(y)) implies !table_set_ok(y) by {
                    lemma_step(s@, p2 as int, enc_int(y.keep_alive_interval as nat), enc_bytes(key_keep_alive_manager_open_port()) + (enc_int(y.keep_alive_manager_open_port as nat) + (enc_bytes(key_peer_id()) + (enc_int(y.peer_id as nat) + (enc_bytes(key_peer_ip()) + (enc_u8_list(y.peer_ip) + (enc_bytes(key_peers_info_table()) + (enc_table(y.peers_info_table) + (seq![101u8])))))))));
                }
            }
            return None;
        },
        Some(q) => q,
    };
    proof {
        assert forall|y: PeersInfoSetView| starts_with(rest, #[trigger] enc_table_set(y)) implies starts_with(s@.skip(p3 as int), enc_bytes(key_keep_alive_manager_open_port()) + (enc_int(y.keep_alive_manager_open_port as nat) + (enc_bytes(key_peer_id()) + (enc_int(y.peer_id as nat) + (enc_bytes(key_peer_ip()) + (enc_u8_list(y.peer_ip) + (enc_bytes(key_peers_info_table()) + (enc_table(y.peers_info_table) + (seq![101u8]))))))))) && y.keep_alive_interval == v_keep_alive_interval by {
            lemma_step(s@, p2 as int, enc_int(y.keep_alive_interval as nat), enc_bytes(key_keep_alive_manager_open_port()) + (enc_int(y.keep_alive_manager_open_port as nat) + (enc_bytes(key_peer_id()) + (enc_int(y.peer_id as nat) + (enc_bytes(key_peer_ip()) + (enc_u8_list(y.peer_ip) + (enc_bytes(key_peers_info_table()) + (enc_table(y.peers_info_table) + (seq![101u8])))))))));
        }
    }
    let k3: [u8; 28] = [107u8, 101u8, 101u8, 112u8, 95u8, 97u8, 108u8, 105u8, 118u8, 101u8, 95u8, 109u8, 97u8, 110u8, 97u8, 103u8, 101u8, 114u8, 95u8, 111u8, 112u8, 101u8, 110u8, 95u8, 112u8, 111u8, 114u8, 116u8];
    assert(k3@ =~= key_keep_alive_manager_open_port());
    let p4 = match read_key(s, p3, &k3) {
        None => {
            proof {
                assert forall|y: PeersInfoSetView| starts_with(rest, #[trigger] enc_table_set(y)) implies !table_set_ok(y) by {
                    lemma_step(s@, p3 as int, enc_bytes(key_keep_alive_manager_open_port()), enc_int(y.keep_alive_manager_open_port as nat) + (enc_bytes(key_peer_id()) + (enc_int(y.peer_id as nat) + (enc_bytes(key_peer_ip()) + (enc_u8_list(y.peer_ip) + (enc_bytes(key_peers_info_table()) + (enc_table(y.peers_info_table) + (seq![101u8]))))))));
                }
            }
            return None;
        },
        Some(q) => q,
    };
    proof {
        assert forall|y: PeersInfoSetView| starts_with(rest, #[trigger] enc_table_set(y)) implies starts_with(s@.skip(p4 as int), enc_int(y.keep_alive_manager_open_port as nat) + (enc_bytes(key_peer_id()) + (enc_int(y.peer_id as nat) + (enc_bytes(key_peer_ip()) + (enc_u8_list(y.peer_ip) + (enc_bytes(key_peers_info_table()) + (enc_table(y.peers_info_table) + (seq![101u8])))))))) by {
            lemma_step(s@, p3 as int, enc_bytes(key_keep_alive_manager_open_port()), enc_int(y.keep_alive_manager_open_port as nat) + (enc_bytes(key_peer_id()) + (enc_int(y.peer_id as nat) + (enc_bytes(key_peer_ip()) + (enc_u8_list(y.peer_ip) + (enc_bytes(key_peers_info_table()) + (enc_table(y.peers_info_table) + (seq![101u8]))))))));
        }
    }
    let (v_keep_alive_manager_open_port, p5) = match read_u16(s, p4) {
        None => {
            proof {
                assert forall|y: PeersInfoSetView| starts_with(rest, #[trigger] enc_table_set(y)) implies !table_set_ok(y) by {
                    lemma_step(s@, p4 as int, enc_int(y.keep_alive_manager_open_port as nat), enc_bytes(key_peer_id()) + (enc_int(y.peer_id as nat) + (enc_bytes(key_peer_ip()) + (enc_u8_list(y.peer_ip) + (enc_bytes(key_peers_info_table()) + (enc_table(y.peers_info_table) + (seq![101u8])))))));
                }
            }
            return None;
        },
        Some(q) => q,
    };
    proof {
        assert forall|y: PeersInfoSetView| starts_with(rest, #[trigger] enc_table_set(y)) implies starts_with(s@.skip(p5 as int), enc_bytes(key_peer_id()) + (enc_int(y.peer_id as nat) + (enc_bytes(key_peer_ip()) + (enc_u8_list(y.peer_ip) + (enc_bytes(key_peers_info_table()) + (enc_table(y.peers_info_table) + (seq![101u8]))))))) && y.keep_alive_manager_open_port == v_keep_alive_manager_open_port by {
            lemma_step(s@, p4 as int, enc_int(y.keep_alive_manager_open_port as nat), enc_bytes(key_peer_id()) + (enc_int(y.peer_id as nat) + (enc_bytes(key_peer_ip()) + (enc_u8_list(y.peer_ip) + (enc_bytes(key_peers_info_table()) + (enc_table(y.peers_info_table) + (seq![101u8])))))));
        }
    }
    let k5: [u8; 7] = [112u8, 101u8, 101u8, 114u8, 95u8, 105u8, 100u8];
    assert(k5@ =~= key_peer_id());
    let p6 = match read_key(s, p5, &k5) {
        None => {
            proof {
                assert forall|y: PeersInfoSetView| starts_with(rest, #[trigger] enc_table_set(y)) implies !table_set_ok(y) by {
                    lemma_step(s@, p5 as int, enc_bytes(key_peer_id()), enc_int(y.peer_id as nat) + (enc_bytes(key_peer_ip()) + (enc_u8_list(y.peer_ip) + (enc_bytes(key_peers_info_table()) + (enc_table(y.peers_info_table) + (seq![101u8]))))));
                }
            }
            return None;
        },
        Some(q) => q,
    };
    proof {
        assert forall|y: PeersInfoSetView| starts_with(rest, #[trigger] enc_table_set(y)) implies starts_with(s@.skip(p6 as int), enc_int(y.peer_id as nat) + (enc_bytes(key_peer_ip()) + (enc_u8_list(y.peer_ip) + (enc_bytes(key_peers_info_table()) + (enc_table(y.peers_info_table) + (seq![101u8])))))) by {
            lemma_step(s@, p5 as int, enc_bytes(key_peer_id()), enc_int(y.peer_id as nat) + (enc_bytes(key_peer_ip()) + (enc_u8_list(y.peer_ip) + (enc_bytes(key_peers_info_table()) + (enc_table(y.peers_info_table) + (seq![101u8]))))));
        }
    }
    let (v_peer_id, p7) = match read_u32(s, p6) {
        None => {
            proof {
                assert forall|y: PeersInfoSetView| starts_with(rest, #[trigger] enc_table_set(y)) implies !table_set_ok(y) by {
                    lemma_step(s@, p6 as int, enc_int(y.peer_id as nat), enc_bytes(key_peer_ip()) + (enc_u8_list(y.peer_ip) + (enc_bytes(key_peers_info_table()) + (enc_table(y.peers_info_table) + (seq![101u8])))));
                }
            }
            return None;
        },
        Some(q) => q,
    };
    proof {
        assert forall|y: PeersInfoSetView| starts_with(rest, #[trigger] enc_table_set(y)) implies starts_with(s@.skip(p7 as int), enc_bytes(key_peer_ip()) + (enc_u8_list(y.peer_ip) + (enc_bytes(key_peers_info_table()) + (enc_table(y.peers_info_table) + (seq![101u8]))))) && y.peer_id == v_peer_id by {
            lemma_step(s@, p6 as int, enc_int(y.peer_id as nat), enc_bytes(key_peer_ip()) + (enc_u8_list(y.peer_ip) + (enc_bytes(key_peers_info_table()) + (enc_table(y.peers_info_table) + (seq![101u8])))));
        }
    }
    let k7: [u8; 7] = [112u8, 101u8, 101u8, 114u8, 95u8, 105u8, 112u8];
    assert(k7@ =~= key_peer_ip());
    let p8 = match read_key(s, p7, &k7) {
        None => {
            proof {
                assert forall|y: PeersInfoSetView| starts_with(rest, #[trigger] enc_table_set(y)) implies !table_set_ok(y) by {
                    lemma_step(s@, p7 as int, enc_bytes(key_peer_ip()), enc_u8_list(y.peer_ip) + (enc_bytes(key_peers_info_table()) + (enc_table(y.peers_info_table) + (seq![101u8]))));
                }
            }
            return None;
        },
        Some(q) => q,
    };
    proof {
        assert forall|y: PeersInfoSetView| starts_with(rest, #[trigger] enc_table_set(y)) implies starts_with(s@.skip(p8 as int), enc_u8_list(y.peer_ip) + (enc_bytes(key_peers_info_table()) + (enc_table(y.peers_info_table) + (seq![101u8])))) by {
            lemma_step(s@, p7 as int, enc_bytes(key_peer_ip()), enc_u8_list(y.peer_ip) + (enc_bytes(key_peers_info_table()) + (enc_table(y.peers_info_table) + (seq![101u8]))));
        }
    }
    let (v_peer_ip, p9) = match read_u8_list(s, p8) {
        None => {
            proof {
                assert forall|y: PeersInfoSetView| starts_with(rest, #[trigger] enc_table_set(y)) implies !table_set_ok(y) by {
                    lemma_step(s@, p8 as int, enc_u8_list(y.peer_ip), enc_bytes(key_peers_info_table()) + (enc_table(y.peers_info_table) + (seq![101u8])));
                }
            }
            return None;
        },
        Some(q) => q,
    };
    proof {
        assert forall|y: PeersInfoSetView| starts_with(rest, #[trigger] enc_table_set(y)) implies starts_with(s@.skip(p9 as int), enc_bytes(key_peers_info_table()) + (enc_table(y.peers_info_table) + (seq![101u8]))) && y.peer_ip == v_peer_ip@ by {
            lemma_step(s@, p8 as int, enc_u8_list(y.peer_ip), enc_bytes(key_peers_info_table()) + (enc_table(y.peers_info_table) + (seq![101u8])));
        }
    }
    let k9: [u8; 16] = [112u8, 101u8, 101u8, 114u8, 115u8, 95u8, 105u8, 110u8, 102u8, 111u8, 95u8, 116u8, 97u8, 98u8, 108u8, 101u8];
    assert(k9@ =~= key_peers_info_table());
    let p10 = match read_key(s, p9, &k9) {
        None => {
            proof {
                assert forall|y: PeersInfoSetView| starts_with(rest, #[trigger] enc_table_set(y)) implies !table_set_ok(y) by {
                    lemma_step(s@, p9 as int, enc_bytes(key_peers_info_table()), enc_table(y.peers_info_table) + (seq![101u8]));
                }
            }
            return None;
        },
        Some(q) => q,
    };
    proof {
        assert forall|y: PeersInfoSetView| starts_with(rest, #[trigger] enc_table_set(y)) implies starts_with(s@.skip(p10 as int), enc_table(y.peers_info_table) + (seq![101u8])) by {
            lemma_step(s@, p9 as int, enc_bytes(key_peers_info_table()), enc_table(y.peers_info_table) + (seq![101u8]));
        }
    }
    let (v_peers_info_table, p11) = match PeersInfoTable::read_bencode(s, p10) {
        None => {
            proof {
                assert forall|y: PeersInfoSetView| starts_with(rest, #[trigger] enc_table_set(y)) implies !table_set_ok(y) by {
                    lemma_step(s@, p10 as int, enc_table(y.peers_info_table), seq![101u8]);
                }
            }
            return None;
        },
        Some(q) => q,
    };
    proof {
        assert forall|y: PeersInfoSetView| starts_with(rest, #[trigger] enc_table_set(y)) implies starts_with(s@.skip(p11 as int), seq![101u8]) && y.peers_info_table == v_peers_info_table@.peers_info by {
            lemma_step(s@, p10 as int, enc_table(y.peers_info_table), seq![101u8]);
        }
    }
    let l11: [u8; 1] = [101u8];
    assert(l11@ =~= seq![101u8]);
    let p12 = match read_lit(s, p11, &l11) {
        None => {
            proof {
                assert forall|y: PeersInfoSetView| starts_with(rest, #[trigger] enc_table_set(y)) implies !table_set_ok(y) by {
                    
                }
            }
            return None;
        },
        Some(q) => q,
    };
    proof {
        assert forall|y: PeersInfoSetView| starts_with(rest, #[trigger] enc_table_set(y)) implies true by {
            
        }
    }
    let x = PeersInfoSetPayload { keep_alive_interval: v_keep_alive_interval, keep_alive_manager_open_port: v_keep_alive_manager_open_port, peer_id: v_peer_id, peer_ip: v_peer_ip, peers_info_table: v_peers_info_table };
    proof {
        assert(starts_with(s@.skip(p0 as int), seq![100u8]));
        assert(starts_with(s@.skip(p1 as int), enc_bytes(key_keep_alive_interval())));
        assert(starts_with(s@.skip(p2 as int), enc_int(x@.keep_alive_interval as nat)));
        assert(starts_with(s@.skip(p3 as int), enc_bytes(key_keep_alive_manager_open_port())));
        assert(starts_with(s@.skip(p4 as int), enc_int(x@.keep_alive_manager_open_port as nat)));
        assert(starts_with(s@.skip(p5 as int), enc_bytes(key_peer_id())));
        assert(starts_with(s@.skip(p6 as int), enc_int(x@.peer_id as nat)));
        assert(starts_with(s@.skip(p7 as int), enc_bytes(key_peer_ip())));
        assert(starts_with(s@.skip(p8 as int), enc_u8_list(x@.peer_ip)));
        assert(starts_with(s@.skip(p9 as int), enc_bytes(key_peers_info_table())));
        assert(starts_with(s@.skip(p10 as int), enc_table(x@.peers_info_table)));
        assert(starts_with(s@.skip(p11 as int), seq![101u8]));
        lemma_join(s@, p10 as int, enc_table(x@.peers_info_table), seq![101u8]);
        lemma_join(s@, p9 as int, enc_bytes(key_peers_info_table()), enc_table(x@.peers_info_table) + (seq![101u8]));
        lemma_join(s@, p8 as int, enc_u8_list(x@.peer_ip), enc_bytes(key_peers_info_table()) + (enc_table(x@.peers_info_table) + (seq![101u8])));
        lemma_join(s@, p7 as int, enc_bytes(key_peer_ip()), enc_u8_list(x@.peer_ip) + (enc_bytes(key_peers_info_table()) + (enc_table(x@.peers_info_table) + (seq![101u8]))));
        lemma_join(s@, p6 as int, enc_int(x@.peer_id as nat), enc_bytes(key_peer_ip()) + (enc_u8_list(x@.peer_ip) + (enc_bytes(key_peers_info_table()) + (enc_table(x@.peers_info_table) + (seq![101u8])))));
        lemma_join(s@, p5 as int, enc_bytes(key_peer_id()), enc_int(x@.peer_id as nat) + (enc_bytes(key_peer_ip()) + (enc_u8_list(x@.peer_ip) + (enc_bytes(key_peers_info_table()) + (enc_table(x@.peers_info_table) + (seq![101u8]))))));
        lemma_join(s@, p4 as int, enc_int(x@.keep_alive_manager_open_port as nat), enc_bytes(key_peer_id()) + (enc_int(x@.peer_id as nat) + (enc_bytes(key_peer_ip()) + (enc_u8_list(x@.peer_ip) + (enc_bytes(key_peers_info_table()) + (enc_table(x@.peers_info_table) + (seq![101u8])))))));
        lemma_join(s@, p3 as int, enc_bytes(key_keep_alive_manager_open_port()), enc_int(x@.keep_alive_manager_open_port as nat) + (enc_bytes(key_peer_id()) + (enc_int(x@.peer_id as nat) + (enc_bytes(key_peer_ip()) + (enc_u8_list(x@.peer_ip) + (enc_bytes(key_peers_info_table()) + (enc_table(x@.peers_info_table) + (seq![101u8]))))))));
        lemma_join(s@, p2 as int, enc_int(x@.keep_alive_interval as nat), enc_bytes(key_keep_alive_manager_open_port()) + (enc_int(x@.keep_alive_manager_open_port as nat) + (enc_bytes(key_peer_id()) + (enc_int(x@.peer_id as nat) + (enc_bytes(key_peer_ip()) + (enc_u8_list(x@.peer_ip) + (enc_bytes(key_peers_info_table()) + (enc_table(x@.peers_info_table) + (seq![101u8])))))))));
        lemma_join(s@, p1 as int, enc_bytes(key_keep_alive_interval()), enc_int(x@.keep_alive_interval as nat) + (enc_bytes(key_keep_alive_manager_open_port()) + (enc_int(x@.keep_alive_manager_open_port as nat) + (enc_bytes(key_peer_id()) + (enc_int(x@.peer_id as nat) + (enc_bytes(key_peer_ip()) + (enc_u8_list(x@.peer_ip) + (enc_bytes(key_peers_info_table()) + (enc_table(x@.peers_info_table) + (seq![101u8]))))))))));
        lemma_join(s@, p0 as int, seq![100u8], enc_bytes(key_keep_alive_interval()) + (enc_int(x@.keep_alive_interval as nat) + (enc_bytes(key_keep_alive_manager_open_port()) + (enc_int(x@.keep_alive_manager_open_port as nat) + (enc_bytes(key_peer_id()) + (enc_int(x@.peer_id as nat) + (enc_bytes(key_peer_ip()) + (enc_u8_list(x@.peer_ip) + (enc_bytes(key_peers_info_table()) + (enc_table(x@.peers_info_table) + (seq![101u8])))))))))));
        assert(enc_table_set(x@) == seq![100u8] + (enc_bytes(key_keep_alive_interval()) + (enc_int(x@.keep_alive_interval as nat) + (enc_bytes(key_keep_alive_manager_open_port()) + (enc_int(x@.keep_alive_manager_open_port as nat) + (enc_bytes(key_peer_id()) + (enc_int(x@.peer_id as nat) + (enc_bytes(key_peer_ip()) + (enc_u8_list(x@.peer_ip) + (enc_bytes(key_peers_info_table()) + (enc_table(x@.peers_info_table) + (seq![101u8]))))))))))));
    }
    Some((x, p12))
}

/// The files added by a peer as a dictionary.
pub open spec fn enc_files_update(y: PeersInfoUpdateView) -> Seq<u8> {
    seq![100u8] + (enc_bytes(key_peer_id()) + (enc_int(y.peer_id as nat) + (enc_bytes(key_updated_file_meta_info()) + (enc_metas(y.updated_file_meta_info) + (seq![101u8])))))
}

fn write_files_update(out: &mut Vec<u8>, x: &PeersInfoUpdatePayload)
    ensures
        final(out)@ == old(out)@ + enc_files_update(x@),
{
    let ghost o0 = out@;
    write_byte(out, 100u8);
    let ghost o1 = out@;
    let k_peer_id: [u8; 7] = [112u8, 101u8, 101u8, 114u8, 95u8, 105u8, 100u8];
    assert(k_peer_id@ =~= key_peer_id());
    write_bytes(out, &k_peer_id);
    let ghost o2 = out@;
    write_int(out, x.peer_id as u64);
    let ghost o3 = out@;
    let k_updated_file_meta_info: [u8; 22] = [117u8, 112u8, 100u8, 97u8, 116u8, 101u8, 100u8, 95u8, 102u8, 105u8, 108u8, 101u8, 95u8, 109u8, 101u8, 116u8, 97u8, 95u8, 105u8, 110u8, 102u8, 111u8];
    assert(k_updated_file_meta_info@ =~= key_updated_file_meta_info());
    write_bytes(out, &k_updated_file_meta_info);
    let ghost o4 = out@;
    write_metas(out, &x.updated_file_meta_info);
    let ghost o5 = out@;
    write_byte(out, 101u8);
    let ghost o6 = out@;
    proof {
        lemma_seq_assoc(o0, seq![100u8], enc_bytes(key_peer_id()) + (enc_int(x@.peer_id as nat) + (enc_bytes(key_updated_file_meta_info()) + (enc_metas(x@.updated_file_meta_info) + (seq![101u8])))));
        lemma_seq_assoc(o1, enc_bytes(key_peer_id()), enc_int(x@.peer_id as nat) + (enc_bytes(key_updated_file_meta_info()) + (enc_metas(x@.updated_file_meta_info) + (seq![101u8]))));
        lemma_seq_assoc(o2, enc_int(x@.peer_id as nat), enc_bytes(key_updated_file_meta_info()) + (enc_metas(x@.updated_file_meta_info) + (seq![101u8])));
        lemma_seq_assoc(o3, enc_bytes(key_updated_file_meta_info()), enc_metas(x@.updated_file_meta_info) + (seq![101u8]));
        lemma_seq_assoc(o4, enc_metas(x@.updated_file_meta_info), seq![101u8]);
        assert(enc_files_update(x@) == seq![100u8] + (enc_bytes(key_peer_id()) + (enc_int(x@.peer_id as nat) + (enc_bytes(key_updated_file_meta_info()) + (enc_metas(x@.updated_file_meta_info) + (seq![101u8]))))));
    }
}

#[verifier::rlimit(40)]
fn read_files_update(s: &[u8], pos: usize) -> (r: Option<(PeersInfoUpdatePayload, usize)>)
    requires
        pos <= s@.len(),
    ensures
        r matches Some((x, e)) ==> e == pos + enc_files_update(x@).len() && e <= s@.len()
            && starts_with(s@.skip(pos as int), enc_files_update(x@)),
        forall|y: PeersInfoUpdateView| starts_with(s@.skip(pos as int), #[trigger] enc_files_update(y)) ==> (r matches Some((x, _)) && x@ == y),
{
    let ghost rest = s@.skip(pos as int);
    let p0 = pos;
    proof {
        assert forall|y: PeersInfoUpdateView| starts_with(rest, #[trigger] enc_files_update(y)) implies starts_with(s@.skip(p0 as int), seq![100u8] + (enc_bytes(key_peer_id()) + (enc_int(y.peer_id as nat) + (enc_bytes(key_updated_file_meta_info()) + (enc_metas(y.updated_file_meta_info) + (seq![101u8])))))) by {}
    }
    let l0: [u8; 1] = [100u8];
    assert(l0@ =~= seq![100u8]);
    let p1 = match read_lit(s, p0, &l0) {
        None => {
            proof {
                assert forall|y: PeersInfoUpdateView| starts_with(rest, #[trigger] enc_files_update(y)) implies false by {
                    lemma_step(s@, p0 as int, seq![100u8], enc_bytes(key_peer_id()) + (enc_int(y.peer_id as nat) + (enc_bytes(key_updated_file_meta_info()) + (enc_metas(y.updated_file_meta_info) + (seq![101u8])))));
                }
            }
            return None;
        },
        Some(q) => q,
    };
    proof {
        assert forall|y: PeersInfoUpdateView| starts_with(rest, #[trigger] enc_files_update(y)) implies starts_with(s@.skip(p1 as int), enc_bytes(key_peer_id()) + (enc_int(y.peer_id as nat) + (enc_bytes(key_updated_file_meta_info()) + (enc_metas(y.updated_file_meta_info) + (seq![101u8]))))) by {
            lemma_step(s@, p0 as int, seq![100u8], enc_bytes(key_peer_id()) + (enc_int(y.peer_id as nat) + (enc_bytes(key_updated_file_meta_info()) + (enc_metas(y.updated_file_meta_info) + (seq![101u8])))));
        }
    }
    let k1: [u8; 7] = [112u8, 101u8, 101u8, 114u8, 95u8, 105u8, 100u8];
    assert(k1@ =~= key_peer_id());
    let p2 = match read_key(s, p1, &k1) {
        None => {
            proof {
                assert forall|y: PeersInfoUpdateView| starts_with(rest, #[trigger] enc_files_update(y)) implies false by {
                    lemma_step(s@, p1 as int, enc_bytes(key_peer_id()), enc_int(y.peer_id as nat) + (enc_bytes(key_updated_file_meta_info()) + (enc_metas(y.updated_file_meta_info) + (seq![101u8]))));
                }
            }
            return None;
        },
        Some(q) => q,
    };
    proof {
        assert forall|y: PeersInfoUpdateView| starts_with(rest, #[trigger] enc_files_update(y)) implies starts_with(s@.skip(p2 as int), enc_int(y.peer_id as nat) + (enc_bytes(key_updated_file_meta_info()) + (enc_metas(y.updated_file_meta_info) + (seq![101u8])))) by {
            lemma_step(s@, p1 as int, enc_bytes(key_peer_id()), enc_int(y.peer_id as nat) + (enc_bytes(key_updated_file_meta_info()) + (enc_metas(y.updated_file_meta_info) + (seq![101u8]))));
        }
    }
    let (v_peer_id, p3) = match read_u32(s, p2) {
        None => {
            proof {
                assert forall|y: PeersInfoUpdateView| starts_with(rest, #[trigger] enc_files_update(y)) implies false by {
                    lemma_step(s@, p2 as int, enc_int(y.peer_id as nat), enc_bytes(key_updated_file_meta_info()) + (enc_metas(y.updated_file_meta_info) + (seq![101u8])));
                }
            }
            return None;
        },
        Some(q) => q,
    };
    proof {
        assert forall|y: PeersInfoUpdateView| starts_with(rest, #[trigger] enc_files_update(y)) implies starts_with(s@.skip(p3 as int), enc_bytes(key_updated_file_meta_info()) + (enc_metas(y.updated_file_meta_info) + (seq![101u8]))) && y.peer_id == v_peer_id by {
            lemma_step(s@, p2 as int, enc_int(y.peer_id as nat), enc_bytes(key_updated_file_meta_info()) + (enc_metas(y.updated_file_meta_info) + (seq![101u8])));
        }
    }
    let k3: [u8; 22] = [117u8, 112u8, 100u8, 97u8, 116u8, 101u8, 100u8, 95u8, 102u8, 105u8, 108u8, 101u8, 95u8, 109u8, 101u8, 116u8, 97u8, 95u8, 105u8, 110u8, 102u8, 111u8];
    assert(k3@ =~= key_updated_file_meta_info());
    let p4 = match read_key(s, p3, &k3) {
        None => {
            proof {
                assert forall|y: PeersInfoUpdateView| starts_with(rest, #[trigger] enc_files_update(y)) implies false by {
                    lemma_step(s@, p3 as int, enc_bytes(key_updated_file_meta_info()), enc_metas(y.updated_file_meta_info) + (seq![101u8]));
                }
            }
            return None;
        },
        Some(q) => q,
    };
    proof {
        assert forall|y: PeersInfoUpdateView| starts_with(rest, #[trigger] enc_files_update(y)) implies starts_with(s@.skip(p4 as int), enc_metas(y.updated_file_meta_info) + (seq![101u8])) by {
            lemma_step(s@, p3 as int, enc_bytes(key_updated_file_meta_info()), enc_metas(y.updated_file_meta_info) + (seq![101u8]));
        }
    }
    let (v_updated_file_meta_info, p5) = match read_metas(s, p4) {
        None => {
            proof {
                assert forall|y: PeersInfoUpdateView| starts_with(rest, #[trigger] enc_files_update(y)) implies false by {
                    lemma_step(s@, p4 as int, enc_metas(y.updated_file_meta_info), seq![101u8]);
                }
            }
            return None;
        },
        Some(q) => q,
    };
    proof {
        assert forall|y: PeersInfoUpdateView| starts_with(rest, #[trigger] enc_files_update(y)) implies starts_with(s@.skip(p5 as int), seq![101u8]) && y.updated_file_meta_info == metas_view(v_updated_file_meta_info@) by {
            lemma_step(s@, p4 as int, enc_metas(y.updated_file_meta_info), seq![101u8]);
        }
    }
    let l5: [u8; 1] = [101u8];
    assert(l5@ =~= seq![101u8]);
    let p6 = match read_lit(s, p5, &l5) {
        None => {
            proof {
                assert forall|y: PeersInfoUpdateView| starts_with(rest, #[trigger] enc_files_update(y)) implies false by {
                    
                }
            }
            return None;
        },
        Some(q) => q,
    };
    proof {
        assert forall|y: PeersInfoUpdateView| starts_with(rest, #[trigger] enc_files_update(y)) implies true by {
            
        }
    }
    let x = PeersInfoUpdatePayload { peer_id: v_peer_id, updated_file_meta_info: v_updated_file_meta_info };
    proof {
        assert(starts_with(s@.skip(p0 as int), seq![100u8]));
        assert(starts_with(s@.skip(p1 as int), enc_bytes(key_peer_id())));
        assert(starts_with(s@.skip(p2 as int), enc_int(x@.peer_id as nat)));
        assert(starts_with(s@.skip(p3 as int), enc_bytes(key_updated_file_meta_info())));
        assert(starts_with(s@.skip(p4 as int), enc_metas(x@.updated_file_meta_info)));
        assert(starts_with(s@.skip(p5 as int), seq![101u8]));
        lemma_join(s@, p4 as int, enc_metas(x@.updated_file_meta_info), seq![101u8]);
        lemma_join(s@, p3 as int, enc_bytes(key_updated_file_meta_info()), enc_metas(x@.updated_file_meta_info) + (seq![101u8]));
        lemma_join(s@, p2 as int, enc_int(x@.peer_id as nat), enc_bytes(key_updated_file_meta_info()) + (enc_metas(x@.updated_file_meta_info) + (seq![101u8])));
        lemma_join(s@, p1 as int, enc_bytes(key_peer_id()), enc_int(x@.peer_id as nat) + (enc_bytes(key_updated_file_meta_info()) + (enc_metas(x@.updated_file_meta_info) + (seq![101u8]))));
        lemma_join(s@, p0 as int, seq![100u8], enc_bytes(key_peer_id()) + (enc_int(x@.peer_id as nat) + (enc_bytes(key_updated_file_meta_info()) + (enc_metas(x@.updated_file_meta_info) + (seq![101u8])))));
        assert(enc_files_update(x@) == seq![100u8] + (enc_bytes(key_peer_id()) + (enc_int(x@.peer_id as nat) + (enc_bytes(key_updated_file_meta_info()) + (enc_metas(x@.updated_file_meta_info) + (seq![101u8]))))));
    }
    Some((x, p6))
}

/// The departure of a peer as a dictionary.
pub open spec fn enc_peer_dropped(y: PeerDroppedView) -> Seq<u8> {
    seq![100u8] + (enc_bytes(key_peer_id()) + (enc_int(y.peer_id as nat) + (seq![101u8])))
}

fn write_peer_dropped(out: &mut Vec<u8>, x: &PeerDroppedPayload)
    ensures
        final(out)@ == old(out)@ + enc_peer_dropped(x@),
{
    let ghost o0 = out@;
    write_byte(out, 100u8);
    let ghost o1 = out@;
    let k_peer_id: [u8; 7] = [112u8, 101u8, 101u8, 114u8, 95u8, 105u8, 100u8];
    assert(k_peer_id@ =~= key_peer_id());
    write_bytes(out, &k_peer_id);
    let ghost o2 = out@;
    write_int(out, x.peer_id as u64);
    let ghost o3 = out@;
    write_byte(out, 101u8);
    let ghost o4 = out@;
    proof {
        lemma_seq_assoc(o0, seq![100u8], enc_bytes(key_peer_id()) + (enc_int(x@.peer_id as nat) + (seq![101u8])));
        lemma_seq_assoc(o1, enc_bytes(key_peer_id()), enc_int(x@.peer_id as nat) + (seq![101u8]));
        lemma_seq_assoc(o2, enc_int(x@.peer_id as nat), seq![101u8]);
        assert(enc_peer_dropped(x@) == seq![100u8] + (enc_bytes(key_peer_id()) + (enc_int(x@.peer_id as nat) + (seq![101u8]))));
    }
}

#[verifier::rlimit(40)]
fn read_peer_dropped(s: &[u8], pos: usize) -> (r: Option<(PeerDroppedPayload, usize)>)
    requires
        pos <= s@.len(),
    ensures
        r matches Some((x, e)) ==> e == pos + enc_peer_dropped(x@).len() && e <= s@.len()
            && starts_with(s@.skip(pos as int), enc_peer_dropped(x@)),
        forall|y: PeerDroppedView| starts_with(s@.skip(pos as int), #[trigger] enc_peer_dropped(y)) ==> (r matches Some((x, _)) && x@ == y),
{
    let ghost rest = s@.skip(pos as int);
    let p0 = pos;
    proof {
        assert forall|y: PeerDroppedView| starts_with(rest, #[trigger] enc_peer_dropped(y)) implies starts_with(s@.skip(p0 as int), seq![100u8] + (enc_bytes(key_peer_id()) + (enc_int(y.peer_id as nat) + (seq![101u8])))) by {}
    }
    let l0: [u8; 1] = [100u8];
    assert(l0@ =~= seq![100u8]);
    let p1 = match read_lit(s, p0, &l0) {
        None => {
            proof {
                assert forall|y: PeerDroppedView| starts_with(rest, #[trigger] enc_peer_dropped(y)) implies false by {
                    lemma_step(s@, p0 as int, seq![100u8], enc_bytes(key_peer_id()) + (enc_int(y.peer_id as nat) + (seq![101u8])));
                }
            }
            return None;
        },
        Some(q) => q,
    };
    proof {
        assert forall|y: PeerDroppedView| starts_with(rest, #[trigger] enc_peer_dropped(y)) implies starts_with(s@.skip(p1 as int), enc_bytes(key_peer_id()) + (enc_int(y.peer_id as nat) + (seq![101u8]))) by {
            lemma_step(s@, p0 as int, seq![100u8], enc_bytes(key_peer_id()) + (enc_int(y.peer_id as nat) + (seq![101u8])));
        }
    }
    let k1: [u8; 7] = [112u8, 101u8, 101u8, 114u8, 95u8, 105u8, 100u8];
    assert(k1@ =~= key_peer_id());
    let p2 = match read_key(s, p1, &k1) {
        None => {
            proof {
                assert forall|y: PeerDroppedView| starts_with(rest, #[trigger] enc_peer_dropped(y)) implies false by {
                    lemma_step(s@, p1 as int, enc_bytes(key_peer_id()), enc_int(y.peer_id as nat) + (seq![101u8]));
                }
            }
            return None;
        },
        Some(q) => q,
    };
    proof {
        assert forall|y: PeerDroppedView| starts_with(rest, #[trigger] enc_peer_dropped(y)) implies starts_with(s@.skip(p2 as int), enc_int(y.peer_id as nat) + (seq![101u8])) by {
            lemma_step(s@, p1 as int, enc_bytes(key_peer_id()), enc_int(y.peer_id as nat) + (seq![101u8]));
        }
    }
    let (v_peer_id, p3) = match read_u32(s, p2) {
        None => {
            proof {
                assert forall|y: PeerDroppedView| starts_with(rest, #[trigger] enc_peer_dropped(y)) implies false by {
                    lemma_step(s@, p2 as int, enc_int(y.peer_id as nat), seq![101u8]);
                }
            }
            return None;
        },
        Some(q) => q,
    };
    proof {
        assert forall|y: PeerDroppedView| starts_with(rest, #[trigger] enc_peer_dropped(y)) implies starts_with(s@.skip(p3 as int), seq![101u8]) && y.peer_id == v_peer_id by {
            lemma_step(s@, p2 as int, enc_int(y.peer_id as nat), seq![101u8]);
        }
    }
    let l3: [u8; 1] = [101u8];
    assert(l3@ =~= seq![101u8]);
    let p4 = match read_lit(s, p3, &l3) {
        None => {
            proof {
                assert forall|y: PeerDroppedView| starts_with(rest, #[trigger] enc_peer_dropped(y)) implies false by {
                    
                }
            }
            return None;
        },
        Some(q) => q,
    };
    proof {
        assert forall|y: PeerDroppedView| starts_with(rest, #[trigger] enc_peer_dropped(y)) implies true by {
            
        }
    }
    let x = PeerDroppedPayload { peer_id: v_peer_id };
    proof {
        assert(starts_with(s@.skip(p0 as int), seq![100u8]));
        assert(starts_with(s@.skip(p1 as int), enc_bytes(key_peer_id())));
        assert(starts_with(s@.skip(p2 as int), enc_int(x@.peer_id as nat)));
        assert(starts_with(s@.skip(p3 as int), seq![101u8]));
        lemma_join(s@, p2 as int, enc_int(x@.peer_id as nat), seq![101u8]);
        lemma_join(s@, p1 as int, enc_bytes(key_peer_id()), enc_int(x@.peer_id as nat) + (seq![101u8]));
        lemma_join(s@, p0 as int, seq![100u8], enc_bytes(key_peer_id()) + (enc_int(x@.peer_id as nat) + (seq![101u8])));
        assert(enc_peer_dropped(x@) == seq![100u8] + (enc_bytes(key_peer_id()) + (enc_int(x@.peer_id as nat) + (seq![101u8]))));
    }
    Some((x, p4))
}

/// A request for a piece as a dictionary.
pub open spec fn enc_piece_request(y: FilePieceRequestView) -> Seq<u8> {
    seq![100u8] + (enc_bytes(key_file_piece_index()) + (enc_int(y.file_piece_index as nat) + (enc_bytes(key_file_piece_sha3_code()) + (enc_u8_list(y.file_piece_sha3_code) + (enc_bytes(key_file_piece_size()) + (enc_int(y.file_piece_size as nat) + (enc_bytes(key_file_sha3_code()) + (enc_u8_list(y.file_sha3_code) + (seq![101u8])))))))))
}

fn write_piece_request(out: &mut Vec<u8>, x: &FilePieceRequestPayload)
    ensures
        final(out)@ == old(out)@ + enc_piece_request(x@),
{
    let ghost o0 = out@;
    write_byte(out, 100u8);
    let ghost o1 = out@;
    let k_file_piece_index: [u8; 16] = [102u8, 105u8, 108u8, 101u8, 95u8, 112u8, 105u8, 101u8, 99u8, 101u8, 95u8, 105u8, 110u8, 100u8, 101u8, 120u8];
    assert(k_file_piece_index@ =~= key_file_piece_index());
    write_bytes(out, &k_file_piece_index);
    let ghost o2 = out@;
    write_int(out, x.file_piece_index as u64);
    let ghost o3 = out@;
    let k_file_piece_sha3_code: [u8; 20] = [102u8, 105u8, 108u8, 101u8, 95u8, 112u8, 105u8, 101u8, 99u8, 101u8, 95u8, 115u8, 104u8, 97u8, 51u8, 95u8, 99u8, 111u8, 100u8, 101u8];
    assert(k_file_piece_sha3_code@ =~= key_file_piece_sha3_code());
    write_bytes(out, &k_file_piece_sha3_code);
    let ghost o4 = out@;
    write_u8_list(out, x.file_piece_sha3_code.as_slice());
    let ghost o5 = out@;
    let k_file_piece_size: [u8; 15] = [102u8, 105u8, 108u8, 101u8, 95u8, 112u8, 105u8, 101u8, 99u8, 101u8, 95u8, 115u8, 105u8, 122u8, 101u8];
    assert(k_file_piece_size@ =~= key_file_piece_size());
    write_bytes(out, &k_file_piece_size);
    let ghost o6 = out@;
    write_int(out, x.file_piece_size as u64);
    let ghost o7 = out@;
    let k_file_sha3_code: [u8; 14] = [102u8, 105u8, 108u8, 101u8, 95u8, 115u8, 104u8, 97u8, 51u8, 95u8, 99u8, 111u8, 100u8, 101u8];
    assert(k_file_sha3_code@ =~= key_file_sha3_code());
    write_bytes(out, &k_file_sha3_code);
    let ghost o8 = out@;
    write_u8_list(out, x.file_sha3_code.as_slice());
    let ghost o9 = out@;
    write_byte(out, 101u8);
    let ghost o10 = out@;
    proof {
        lemma_seq_assoc(o0, seq![100u8], enc_bytes(key_file_piece_index()) + (enc_int(x@.file_piece_index as nat) + (enc_bytes(key_file_piece_sha3_code()) + (enc_u8_list(x@.file_piece_sha3_code) + (enc_bytes(key_file_piece_size()) + (enc_int(x@.file_piece_size as nat) + (enc_bytes(key_file_sha3_code()) + (enc_u8_list(x@.file_sha3_code) + (seq![101u8])))))))));
        lemma_seq_assoc(o1, enc_bytes(key_file_piece_index()), enc_int(x@.file_piece_index as nat) + (enc_bytes(key_file_piece_sha3_code()) + (enc_u8_list(x@.file_piece_sha3_code) + (enc_bytes(key_file_piece_size()) + (enc_int(x@.file_piece_size as nat) + (enc_bytes(key_file_sha3_code()) + (enc_u8_list(x@.file_sha3_code) + (seq![101u8]))))))));
        lemma_seq_assoc(o2, enc_int(x@.file_piece_index as nat), enc_bytes(key_file_piece_sha3_code()) + (enc_u8_list(x@.file_piece_sha3_code) + (enc_bytes(key_file_piece_size()) + (enc_int(x@.file_piece_size as nat) + (enc_bytes(key_file_sha3_code()) + (enc_u8_list(x@.file_sha3_code) + (seq![101u8])))))));
        lemma_seq_assoc(o3, enc_bytes(key_file_piece_sha3_code()), enc_u8_list(x@.file_piece_sha3_code) + (enc_bytes(key_file_piece_size()) + (enc_int(x@.file_piece_size as nat) + (enc_bytes(key_file_sha3_code()) + (enc_u8_list(x@.file_sha3_code) + (seq![101u8]))))));
        lemma_seq_assoc(o4, enc_u8_list(x@.file_piece_sha3_code), enc_bytes(key_file_piece_size()) + (enc_int(x@.file_piece_size as nat) + (enc_bytes(key_file_sha3_code()) + (enc_u8_list(x@.file_sha3_code) + (seq![101u8])))));
        lemma_seq_assoc(o5, enc_bytes(key_file_piece_size()), enc_int(x@.file_piece_size as nat) + (enc_bytes(key_file_sha3_code()) + (enc_u8_list(x@.file_sha3_code) + (seq![101u8]))));
        lemma_seq_assoc(o6, enc_int(x@.file_piece_size as nat), enc_bytes(key_file_sha3_code()) + (enc_u8_list(x@.file_sha3_code) + (seq![101u8])));
        lemma_seq_assoc(o7, enc_bytes(key_file_sha3_code()), enc_u8_list(x@.file_sha3_code) + (seq![101u8]));
        lemma_seq_assoc(o8, enc_u8_list(x@.file_sha3_code), seq![101u8]);
        assert(enc_piece_request(x@) == seq![100u8] + (enc_bytes(key_file_piece_index()) + (enc_int(x@.file_piece_index as nat) + (enc_bytes(key_file_piece_sha3_code()) + (enc_u8_list(x@.file_piece_sha3_code) + (enc_bytes(key_file_piece_size()) + (enc_int(x@.file_piece_size as nat) + (enc_bytes(key_file_sha3_code()) + (enc_u8_list(x@.file_sha3_code) + (seq![101u8]))))))))));
    }
}

#[verifier::rlimit(40)]
fn read_piece_request(s: &[u8], pos: usize) -> (r: Option<(FilePieceRequestPayload, usize)>)
    requires
        pos <= s@.len(),
    ensures
        r matches Some((x, e)) ==> e == pos + enc_piece_request(x@).len() && e <= s@.len()
            && starts_with(s@.skip(pos as int), enc_piece_request(x@)),
        forall|y: FilePieceRequestView| starts_with(s@.skip(pos as int), #[trigger] enc_piece_request(y)) ==> (r matches Some((x, _)) && x@ == y),
{
    let ghost rest = s@.skip(pos as int);
    let p0 = pos;
    proof {
        assert forall|y: FilePieceRequestView| starts_with(rest, #[trigger] enc_piece_request(y)) implies starts_with(s@.skip(p0 as int), seq![100u8] + (enc_bytes(key_file_piece_index()) + (enc_int(y.file_piece_index as nat) + (enc_bytes(key_file_piece_sha3_code()) + (enc_u8_list(y.file_piece_sha3_code) + (enc_bytes(key_file_piece_size()) + (enc_int(y.file_piece_size as nat) + (enc_bytes(key_file_sha3_code()) + (enc_u8_list(y.file_sha3_code) + (seq![101u8])))))))))) by {}
    }
    let l0: [u8; 1] = [100u8];
    assert(l0@ =~= seq![100u8]);
    let p1 = match read_lit(s, p0, &l0) {
        None => {
            proof {
                assert forall|y: FilePieceRequestView| starts_with(rest, #[trigger] enc_piece_request(y)) implies false by {
                    lemma_step(s@, p0 as int, seq![100u8], enc_bytes(key_file_piece_index()) + (enc_int(y.file_piece_index as nat) + (enc_bytes(key_file_piece_sha3_code()) + (enc_u8_list(y.file_piece_sha3_code) + (enc_bytes(key_file_piece_size()) + (enc_int(y.file_piece_size as nat) + (enc_bytes(key_file_sha3_code()) + (enc_u8_list(y.file_sha3_code) + (seq![101u8])))))))));
                }
            }
            return None;
        },
        Some(q) => q,
    };
    proof {
        assert forall|y: FilePieceRequestView| starts_with(rest, #[trigger] enc_piece_request(y)) implies starts_with(s@.skip(p1 as int), enc_bytes(key_file_piece_index()) + (enc_int(y.file_piece_index as nat) + (enc_bytes(key_file_piece_sha3_code()) + (enc_u8_list(y.file_piece_sha3_code) + (enc_bytes(key_file_piece_size()) + (enc_int(y.file_piece_size as nat) + (enc_bytes(key_file_sha3_code()) + (enc_u8_list(y.file_sha3_code) + (seq![101u8]))))))))) by {
            lemma_step(s@, p0 as int, seq![100u8], enc_bytes(key_file_piece_index()) + (enc_int(y.file_piece_index as nat) + (enc_bytes(key_file_piece_sha3_code()) + (enc_u8_list(y.file_piece_sha3_code) + (enc_bytes(key_file_piece_size()) + (enc_int(y.file_piece_size as nat) + (enc_bytes(key_file_sha3_code()) + (enc_u8_list(y.file_sha3_code) + (seq![101u8])))))))));
        }
    }
    let k1: [u8; 16] = [102u8, 105u8, 108u8, 101u8, 95u8, 112u8, 105u8, 101u8, 99u8, 101u8, 95u8, 105u8, 110u8, 100u8, 101u8, 120u8];
    assert(k1@ =~= key_file_piece_index());
    let p2 = match read_key(s, p1, &k1) {
        None => {
            proof {
                assert forall|y: FilePieceRequestView| starts_with(rest, #[trigger] enc_piece_request(y)) implies false by {
                    lemma_step(s@, p1 as int, enc_bytes(key_file_piece_index()), enc_int(y.file_piece_index as nat) + (enc_bytes(key_file_piece_sha3_code()) + (enc_u8_list(y.file_piece_sha3_code) + (enc_bytes(key_file_piece_size()) + (enc_int(y.file_piece_size as nat) + (enc_bytes(key_file_sha3_code()) + (enc_u8_list(y.file_sha3_code) + (seq![101u8]))))))));
                }
            }
            return None;
        },
        Some(q) => q,
    };
    proof {
        assert forall|y: FilePieceRequestView| starts_with(rest, #[trigger] enc_piece_request(y)) implies starts_with(s@.skip(p2 as int), enc_int(y.file_piece_index as nat) + (enc_bytes(key_file_piece_sha3_code()) + (enc_u8_list(y.file_piece_sha3_code) + (enc_bytes(key_file_piece_size()) + (enc_int(y.file_piece_size as nat) + (enc_bytes(key_file_sha3_code()) + (enc_u8_list(y.file_sha3_code) + (seq![101u8])))))))) by {
            lemma_step(s@, p1 as int, enc_bytes(key_file_piece_index()), enc_int(y.file_piece_index as nat) + (enc_bytes(key_file_piece_sha3_code()) + (enc_u8_list(y.file_piece_sha3_code) + (enc_bytes(key_file_piece_size()) + (enc_int(y.file_piece_size as nat) + (enc_bytes(key_file_sha3_code()) + (enc_u8_list(y.file_sha3_code) + (seq![101u8]))))))));
        }
    }
    let (v_file_piece_index, p3) = match read_u32(s, p2) {
        None => {
            proof {
                assert forall|y: FilePieceRequestView| starts_with(rest, #[trigger] enc_piece_request(y)) implies false by {
                    lemma_step(s@, p2 as int, enc_int(y.file_piece_index as nat), enc_bytes(key_file_piece_sha3_code()) + (enc_u8_list(y.file_piece_sha3_code) + (enc_bytes(key_file_piece_size()) + (enc_int(y.file_piece_size as nat) + (enc_bytes(key_file_sha3_code()) + (enc_u8_list(y.file_sha3_code) + (seq![101u8])))))));
                }
            }
            return None;
        },
        Some(q) => q,
    };
    proof {
        assert forall|y: FilePieceRequestView| starts_with(rest, #[trigger] enc_piece_request(y)) implies starts_with(s@.skip(p3 as int), enc_bytes(key_file_piece_sha3_code()) + (enc_u8_list(y.file_piece_sha3_code) + (enc_bytes(key_file_piece_size()) + (enc_int(y.file_piece_size as nat) + (enc_bytes(key_file_sha3_code()) + (enc_u8_list(y.file_sha3_code) + (seq![101u8]))))))) && y.file_piece_index == v_file_piece_index by {
            lemma_step(s@, p2 as int, enc_int(y.file_piece_index as nat), enc_bytes(key_file_piece_sha3_code()) + (enc_u8_list(y.file_piece_sha3_code) + (enc_bytes(key_file_piece_size()) + (enc_int(y.file_piece_size as nat) + (enc_bytes(key_file_sha3_code()) + (enc_u8_list(y.file_sha3_code) + (seq![101u8])))))));
        }
    }
    let k3: [u8; 20] = [102u8, 105u8, 108u8, 101u8, 95u8, 112u8, 105u8, 101u8, 99u8, 101u8, 95u8, 115u8, 104u8, 97u8, 51u8, 95u8, 99u8, 111u8, 100u8, 101u8];
    assert(k3@ =~= key_file_piece_sha3_code());
    let p4 = match read_key(s, p3, &k3) {
        None => {
            proof {
                assert forall|y: FilePieceRequestView| starts_with(rest, #[trigger] enc_piece_request(y)) implies false by {
                    lemma_step(s@, p3 as int, enc_bytes(key_file_piece_sha3_code()), enc_u8_list(y.file_piece_sha3_code) + (enc_bytes(key_file_piece_size()) + (enc_int(y.file_piece_size as nat) + (enc_bytes(key_file_sha3_code()) + (enc_u8_list(y.file_sha3_code) + (seq![101u8]))))));
                }
            }
            return None;
        },
        Some(q) => q,
    };
    proof {
        assert forall|y: FilePieceRequestView| starts_with(rest, #[trigger] enc_piece_request(y)) implies starts_with(s@.skip(p4 as int), enc_u8_list(y.file_piece_sha3_code) + (enc_bytes(key_file_piece_size()) + (enc_int(y.file_piece_size as nat) + (enc_bytes(key_file_sha3_code()) + (enc_u8_list(y.file_sha3_code) + (seq![101u8])))))) by {
            lemma_step(s@, p3 as int, enc_bytes(key_file_piece_sha3_code()), enc_u8_list(y.file_piece_sha3_code) + (enc_bytes(key_file_piece_size()) + (enc_int(y.file_piece_size as nat) + (enc_bytes(key_file_sha3_code()) + (enc_u8_list(y.file_sha3_code) + (seq![101u8]))))));
        }
    }
    let (v_file_piece_sha3_code, p5) = match read_u8_list(s, p4) {
        None => {
            proof {
                assert forall|y: FilePieceRequestView| starts_with(rest, #[trigger] enc_piece_request(y)) implies false by {
                    lemma_step(s@, p4 as int, enc_u8_list(y.file_piece_sha3_code), enc_bytes(key_file_piece_size()) + (enc_int(y.file_piece_size as nat) + (enc_bytes(key_file_sha3_code()) + (enc_u8_list(y.file_sha3_code) + (seq![101u8])))));
                }
            }
            return None;
        },
        Some(q) => q,
    };
    proof {
        assert forall|y: FilePieceRequestView| starts_with(rest, #[trigger] enc_piece_request(y)) implies starts_with(s@.skip(p5 as int), enc_bytes(key_file_piece_size()) + (enc_int(y.file_piece_size as nat) + (enc_bytes(key_file_sha3_code()) + (enc_u8_list(y.file_sha3_code) + (seq![101u8]))))) && y.file_piece_sha3_code == v_file_piece_sha3_code@ by {
            lemma_step(s@, p4 as int, enc_u8_list(y.file_piece_sha3_code), enc_bytes(key_file_piece_size()) + (enc_int(y.file_piece_size as nat) + (enc_bytes(key_file_sha3_code()) + (enc_u8_list(y.file_sha3_code) + (seq![101u8])))));
        }
    }
    let k5: [u8; 15] = [102u8, 105u8, 108u8, 101u8, 95u8, 112u8, 105u8, 101u8, 99u8, 101u8, 95u8, 115u8, 105u8, 122u8, 101u8];
    assert(k5@ =~= key_file_piece_size());
    let p6 = match read_key(s, p5, &k5) {
        None => {
            proof {
                assert forall|y: FilePieceRequestView| starts_with(rest, #[trigger] enc_piece_request(y)) implies false by {
                    lemma_step(s@, p5 as int, enc_bytes(key_file_piece_size()), enc_int(y.file_piece_size as nat) + (enc_bytes(key_file_sha3_code()) + (enc_u8_list(y.file_sha3_code) + (seq![101u8]))));
                }
            }
            return None;
        },
        Some(q) => q,
    };
    proof {
        assert forall|y: FilePieceRequestView| starts_with(rest, #[trigger] enc_piece_request(y)) implies starts_with(s@.skip(p6 as int), enc_int(y.file_piece_size as nat) + (enc_bytes(key_file_sha3_code()) + (enc_u8_list(y.file_sha3_code) + (seq![101u8])))) by {
            lemma_step(s@, p5 as int, enc_bytes(key_file_piece_size()), enc_int(y.file_piece_size as nat) + (enc_bytes(key_file_sha3_code()) + (enc_u8_list(y.file_sha3_code) + (seq![101u8]))));
        }
    }
    let (v_file_piece_size, p7) = match read_u32(s, p6) {
        None => {
            proof {
                assert forall|y: FilePieceRequestView| starts_with(rest, #[trigger] enc_piece_request(y)) implies false by {
                    lemma_step(s@, p6 as int, enc_int(y.file_piece_size as nat), enc_bytes(key_file_sha3_code()) + (enc_u8_list(y.file_sha3_code) + (seq![101u8])));
                }
            }
            return None;
        },
        Some(q) => q,
    };
    proof {
        assert forall|y: FilePieceRequestView| starts_with(rest, #[trigger] enc_piece_request(y)) implies starts_with(s@.skip(p7 as int), enc_bytes(key_file_sha3_code()) + (enc_u8_list(y.file_sha3_code) + (seq![101u8]))) && y.file_piece_size == v_file_piece_size by {
            lemma_step(s@, p6 as int, enc_int(y.file_piece_size as nat), enc_bytes(key_file_sha3_code()) + (enc_u8_list(y.file_sha3_code) + (seq![101u8])));
        }
    }
    let k7: [u8; 14] = [102u8, 105u8, 108u8, 101u8, 95u8, 115u8, 104u8, 97u8, 51u8, 95u8, 99u8, 111u8, 100u8, 101u8];
    assert(k7@ =~= key_file_sha3_code());
    let p8 = match read_key(s, p7, &k7) {
        None => {
            proof {
                assert forall|y: FilePieceRequestView| starts_with(rest, #[trigger] enc_piece_request(y)) implies false by {
                    lemma_step(s@, p7 as int, enc_bytes(key_file_sha3_code()), enc_u8_list(y.file_sha3_code) + (seq![101u8]));
                }
            }
            return None;
        },
        Some(q) => q,
    };
    proof {
        assert forall|y: FilePieceRequestView| starts_with(rest, #[trigger] enc_piece_request(y)) implies starts_with(s@.skip(p8 as int), enc_u8_list(y.file_sha3_code) + (seq![101u8])) by {
            lemma_step(s@, p7 as int, enc_bytes(key_file_sha3_code()), enc_u8_list(y.file_sha3_code) + (seq![101u8]));
        }
    }
    let (v_file_sha3_code, p9) = match read_u8_list(s, p8) {
        None => {
            proof {
                assert forall|y: FilePieceRequestView| starts_with(rest, #[trigger] enc_piece_request(y)) implies false by {
                    lemma_step(s@, p8 as int, enc_u8_list(y.file_sha3_code), seq![101u8]);
                }
            }
            return None;
        },
        Some(q) => q,
    };
    proof {
        assert forall|y: FilePieceRequestView| starts_with(rest, #[trigger] enc_piece_request(y)) implies starts_with(s@.skip(p9 as int), seq![101u8]) && y.file_sha3_code == v_file_sha3_code@ by {
            lemma_step(s@, p8 as int, enc_u8_list(y.file_sha3_code), seq![101u8]);
        }
    }
    let l9: [u8; 1] = [101u8];
    assert(l9@ =~= seq![101u8]);
    let p10 = match read_lit(s, p9, &l9) {
        None => {
            proof {
                assert forall|y: FilePieceRequestView| starts_with(rest, #[trigger] enc_piece_request(y)) implies false by {
                    
                }
            }
            return None;
        },
        Some(q) => q,
    };
    proof {
        assert forall|y: FilePieceRequestView| starts_with(rest, #[trigger] enc_piece_request(y)) implies true by {
            
        }
    }
    let x = FilePieceRequestPayload { file_piece_index: v_file_piece_index, file_piece_sha3_code: v_file_piece_sha3_code, file_piece_size: v_file_piece_size, file_sha3_code: v_file_sha3_code };
    proof {
        assert(starts_with(s@.skip(p0 as int), seq![100u8]));
        assert(starts_with(s@.skip(p1 as int), enc_bytes(key_file_piece_index())));
        assert(starts_with(s@.skip(p2 as int), enc_int(x@.file_piece_index as nat)));
        assert(starts_with(s@.skip(p3 as int), enc_bytes(key_file_piece_sha3_code())));
        assert(starts_with(s@.skip(p4 as int), enc_u8_list(x@.file_piece_sha3_code)));
        assert(starts_with(s@.skip(p5 as int), enc_bytes(key_file_piece_size())));
        assert(starts_with(s@.skip(p6 as int), enc_int(x@.file_piece_size as nat)));
        assert(starts_with(s@.skip(p7 as int), enc_bytes(key_file_sha3_code())));
        assert(starts_with(s@.skip(p8 as int), enc_u8_list(x@.file_sha3_code)));
        assert(starts_with(s@.skip(p9 as int), seq![101u8]));
        lemma_join(s@, p8 as int, enc_u8_list(x@.file_sha3_code), seq![101u8]);
        lemma_join(s@, p7 as int, enc_bytes(key_file_sha3_code()), enc_u8_list(x@.file_sha3_code) + (seq![101u8]));
        lemma_join(s@, p6 as int, enc_int(x@.file_piece_size as nat), enc_bytes(key_file_sha3_code()) + (enc_u8_list(x@.file_sha3_code) + (seq![101u8])));
        lemma_join(s@, p5 as int, enc_bytes(key_file_piece_size()), enc_int(x@.file_piece_size as nat) + (enc_bytes(key_file_sha3_code()) + (enc_u8_list(x@.file_sha3_code) + (seq![101u8]))));
        lemma_join(s@, p4 as int, enc_u8_list(x@.file_piece_sha3_code), enc_bytes(key_file_piece_size()) + (enc_int(x@.file_piece_size as nat) + (enc_bytes(key_file_sha3_code()) + (enc_u8_list(x@.file_sha3_code) + (seq![101u8])))));
        lemma_join(s@, p3 as int, enc_bytes(key_file_piece_sha3_code()), enc_u8_list(x@.file_piece_sha3_code) + (enc_bytes(key_file_piece_size()) + (enc_int(x@.file_piece_size as nat) + (enc_bytes(key_file_sha3_code()) + (enc_u8_list(x@.file_sha3_code) + (seq![101u8]))))));
        lemma_join(s@, p2 as int, enc_int(x@.file_piece_index as nat), enc_bytes(key_file_piece_sha3_code()) + (enc_u8_list(x@.file_piece_sha3_code) + (enc_bytes(key_file_piece_size()) + (enc_int(x@.file_piece_size as nat) + (enc_bytes(key_file_sha3_code()) + (enc_u8_list(x@.file_sha3_code) + (seq![101u8])))))));
        lemma_join(s@, p1 as int, enc_bytes(key_file_piece_index()), enc_int(x@.file_piece_index as nat) + (enc_bytes(key_file_piece_sha3_code()) + (enc_u8_list(x@.file_piece_sha3_code) + (enc_bytes(key_file_piece_size()) + (enc_int(x@.file_piece_size as nat) + (enc_bytes(key_file_sha3_code()) + (enc_u8_list(x@.file_sha3_code) + (seq![101u8]))))))));
        lemma_join(s@, p0 as int, seq![100u8], enc_bytes(key_file_piece_index()) + (enc_int(x@.file_piece_index as nat) + (enc_bytes(key_file_piece_sha3_code()) + (enc_u8_list(x@.file_piece_sha3_code) + (enc_bytes(key_file_piece_size()) + (enc_int(x@.file_piece_size as nat) + (enc_bytes(key_file_sha3_code()) + (enc_u8_list(x@.file_sha3_code) + (seq![101u8])))))))));
        assert(enc_piece_request(x@) == seq![100u8] + (enc_bytes(key_file_piece_index()) + (enc_int(x@.file_piece_index as nat) + (enc_bytes(key_file_piece_sha3_code()) + (enc_u8_list(x@.file_piece_sha3_code) + (enc_bytes(key_file_piece_size()) + (enc_int(x@.file_piece_size as nat) + (enc_bytes(key_file_sha3_code()) + (enc_u8_list(x@.file_sha3_code) + (seq![101u8]))))))))));
    }
    Some((x, p10))
}

/// The acquisition of a piece as a dictionary.
pub open spec fn enc_piece_add(y: FilePieceInfoAddView) -> Seq<u8> {
    seq![100u8] + (enc_bytes(key_file_meta_info_with_empty_piece()) + (enc_meta(y.file_meta_info_with_empty_piece) + (enc_bytes(key_file_piece_info()) + (enc_piece(y.file_piece_info) + (enc_bytes(key_peer_id()) + (enc_int(y.peer_id as nat) + (seq![101u8])))))))
}

fn write_piece_add(out: &mut Vec<u8>, x: &FilePieceInfoAddPayload)
    ensures
        final(out)@ == old(out)@ + enc_piece_add(x@),
{
    let ghost o0 = out@;
    write_byte(out, 100u8);
    let ghost o1 = out@;
    let k_file_meta_info_with_empty_piece: [u8; 31] = [102u8, 105u8, 108u8, 101u8, 95u8, 109u8, 101u8, 116u8, 97u8, 95u8, 105u8, 110u8, 102u8, 111u8, 95u8, 119u8, 105u8, 116u8, 104u8, 95u8, 101u8, 109u8, 112u8, 116u8, 121u8, 95u8, 112u8, 105u8, 101u8, 99u8, 101u8];
    assert(k_file_meta_info_with_empty_piece@ =~= key_file_meta_info_with_empty_piece());
    write_bytes(out, &k_file_meta_info_with_empty_piece);
    let ghost o2 = out@;
    write_meta(out, &x.file_meta_info_with_empty_piece);
    let ghost o3 = out@;
    let k_file_piece_info: [u8; 15] = [102u8, 105u8, 108u8, 101u8, 95u8, 112u8, 105u8, 101u8, 99u8, 101u8, 95u8, 105u8, 110u8, 102u8, 111u8];
    assert(k_file_piece_info@ =~= key_file_piece_info());
    write_bytes(out, &k_file_piece_info);
    let ghost o4 = out@;
    write_piece(out, &x.file_piece_info);
    let ghost o5 = out@;
    let k_peer_id: [u8; 7] = [112u8, 101u8, 101u8, 114u8, 95u8, 105u8, 100u8];
    assert(k_peer_id@ =~= key_peer_id());
    write_bytes(out, &k_peer_id);
    let ghost o6 = out@;
    write_int(out, x.peer_id as u64);
    let ghost o7 = out@;
    write_byte(out, 101u8);
    let ghost o8 = out@;
    proof {
        lemma_seq_assoc(o0, seq![100u8], enc_bytes(key_file_meta_info_with_empty_piece()) + (enc_meta(x@.file_meta_info_with_empty_piece) + (enc_bytes(key_file_piece_info()) + (enc_piece(x@.file_piece_info) + (enc_bytes(key_peer_id()) + (enc_int(x@.peer_id as nat) + (seq![101u8])))))));
        lemma_seq_assoc(o1, enc_bytes(key_file_meta_info_with_empty_piece()), enc_meta(x@.file_meta_info_with_empty_piece) + (enc_bytes(key_file_piece_info()) + (enc_piece(x@.file_piece_info) + (enc_bytes(key_peer_id()) + (enc_int(x@.peer_id as nat) + (seq![101u8]))))));
        lemma_seq_assoc(o2, enc_meta(x@.file_meta_info_with_empty_piece), enc_bytes(key_file_piece_info()) + (enc_piece(x@.file_piece_info) + (enc_bytes(key_peer_id()) + (enc_int(x@.peer_id as nat) + (seq![101u8])))));
        lemma_seq_assoc(o3, enc_bytes(key_file_piece_info()), enc_piece(x@.file_piece_info) + (enc_bytes(key_peer_id()) + (enc_int(x@.peer_id as nat) + (seq![101u8]))));
        lemma_seq_assoc(o4, enc_piece(x@.file_piece_info), enc_bytes(key_peer_id()) + (enc_int(x@.peer_id as nat) + (seq![101u8])));
        lemma_seq_assoc(o5, enc_bytes(key_peer_id()), enc_int(x@.peer_id as nat) + (seq![101u8]));
        lemma_seq_assoc(o6, enc_int(x@.peer_id as nat), seq![101u8]);
        assert(enc_piece_add(x@) == seq![100u8] + (enc_bytes(key_file_meta_info_with_empty_piece()) + (enc_meta(x@.file_meta_info_with_empty_piece) + (enc_bytes(key_file_piece_info()) + (enc_piece(x@.file_piece_info) + (enc_bytes(key_peer_id()) + (enc_int(x@.peer_id as nat) + (seq![101u8]))))))));
    }
}

#[verifier::rlimit(40)]
fn read_piece_add(s: &[u8], pos: usize) -> (r: Option<(FilePieceInfoAddPayload, usize)>)
    requires
        pos <= s@.len(),
    ensures
        r matches Some((x, e)) ==> e == pos + enc_piece_add(x@).len() && e <= s@.len()
            && starts_with(s@.skip(pos as int), enc_piece_add(x@)),
        forall|y: FilePieceInfoAddView| starts_with(s@.skip(pos as int), #[trigger] enc_piece_add(y)) ==> (r matches Some((x, _)) && x@ == y),
{
    let ghost rest = s@.skip(pos as int);
    let p0 = pos;
    proof {
        assert forall|y: FilePieceInfoAddView| starts_with(rest, #[trigger] enc_piece_add(y)) implies starts_with(s@.skip(p0 as int), seq![100u8] + (enc_bytes(key_file_meta_info_with_empty_piece()) + (enc_meta(y.file_meta_info_with_empty_piece) + (enc_bytes(key_file_piece_info()) + (enc_piece(y.file_piece_info) + (enc_bytes(key_peer_id()) + (enc_int(y.peer_id as nat) + (seq![101u8])))))))) by {}
    }
    let l0: [u8; 1] = [100u8];
    assert(l0@ =~= seq![100u8]);
    let p1 = match read_lit(s, p0, &l0) {
        None => {
            proof {
                assert forall|y: FilePieceInfoAddView| starts_with(rest, #[trigger] enc_piece_add(y)) implies false by {
                    lemma_step(s@, p0 as int, seq![100u8], enc_bytes(key_file_meta_info_with_empty_piece()) + (enc_meta(y.file_meta_info_with_empty_piece) + (enc_bytes(key_file_piece_info()) + (enc_piece(y.file_piece_info) + (enc_bytes(key_peer_id()) + (enc_int(y.peer_id as nat) + (seq![101u8])))))));
                }
            }
            return None;
        },
        Some(q) => q,
    };
    proof {
        assert forall|y: FilePieceInfoAddView| starts_with(rest, #[trigger] enc_piece_add(y)) implies starts_with(s@.skip(p1 as int), enc_bytes(key_file_meta_info_with_empty_piece()) + (enc_meta(y.file_meta_info_with_empty_piece) + (enc_bytes(key_file_piece_info()) + (enc_piece(y.file_piece_info) + (enc_bytes(key_peer_id()) + (enc_int(y.peer_id as nat) + (seq![101u8]))))))) by {
            lemma_step(s@, p0 as int, seq![100u8], enc_bytes(key_file_meta_info_with_empty_piece()) + (enc_meta(y.file_meta_info_with_empty_piece) + (enc_bytes(key_file_piece_info()) + (enc_piece(y.file_piece_info) + (enc_bytes(key_peer_id()) + (enc_int(y.peer_id as nat) + (seq![101u8])))))));
        }
    }
    let k1: [u8; 31] = [102u8, 105u8, 108u8, 101u8, 95u8, 109u8, 101u8, 116u8, 97u8, 95u8, 105u8, 110u8, 102u8, 111u8, 95u8, 119u8, 105u8, 116u8, 104u8, 95u8, 101u8, 109u8, 112u8, 116u8, 121u8, 95u8, 112u8, 105u8, 101u8, 99u8, 101u8];
    assert(k1@ =~= key_file_meta_info_with_empty_piece());
    let p2 = match read_key(s, p1, &k1) {
        None => {
            proof {
                assert forall|y: FilePieceInfoAddView| starts_with(rest, #[trigger] enc_piece_add(y)) implies false by {
                    lemma_step(s@, p1 as int, enc_bytes(key_file_meta_info_with_empty_piece()), enc_meta(y.file_meta_info_with_empty_piece) + (enc_bytes(key_file_piece_info()) + (enc_piece(y.file_piece_info) + (enc_bytes(key_peer_id()) + (enc_int(y.peer_id as nat) + (seq![101u8]))))));
                }
            }
            return None;
        },
        Some(q) => q,
    };
    proof {
        assert forall|y: FilePieceInfoAddView| starts_with(rest, #[trigger] enc_piece_add(y)) implies starts_with(s@.skip(p2 as int), enc_meta(y.file_meta_info_with_empty_piece) + (enc_bytes(key_file_piece_info()) + (enc_piece(y.file_piece_info) + (enc_bytes(key_peer_id()) + (enc_int(y.peer_id as nat) + (seq![101u8])))))) by {
            lemma_step(s@, p1 as int, enc_bytes(key_file_meta_info_with_empty_piece()), enc_meta(y.file_meta_info_with_empty_piece) + (enc_bytes(key_file_piece_info()) + (enc_piece(y.file_piece_info) + (enc_bytes(key_peer_id()) + (enc_int(y.peer_id as nat) + (seq![101u8]))))));
        }
    }
    let (v_file_meta_info_with_empty_piece, p3) = match read_meta(s, p2) {
        None => {
            proof {
                assert forall|y: FilePieceInfoAddView| starts_with(rest, #[trigger] enc_piece_add(y)) implies false by {
                    lemma_step(s@, p2 as int, enc_meta(y.file_meta_info_with_empty_piece), enc_bytes(key_file_piece_info()) + (enc_piece(y.file_piece_info) + (enc_bytes(key_peer_id()) + (enc_int(y.peer_id as nat) + (seq![101u8])))));
                }
            }
            return None;
        },
        Some(q) => q,
    };
    proof {
        assert forall|y: FilePieceInfoAddView| starts_with(rest, #[trigger] enc_piece_add(y)) implies starts_with(s@.skip(p3 as int), enc_bytes(key_file_piece_info()) + (enc_piece(y.file_piece_info) + (enc_bytes(key_peer_id()) + (enc_int(y.peer_id as nat) + (seq![101u8]))))) && y.file_meta_info_with_empty_piece == v_file_meta_info_with_empty_piece@ by {
            lemma_step(s@, p2 as int, enc_meta(y.file_meta_info_with_empty_piece), enc_bytes(key_file_piece_info()) + (enc_piece(y.file_piece_info) + (enc_bytes(key_peer_id()) + (enc_int(y.peer_id as nat) + (seq![101u8])))));
        }
    }
    let k3: [u8; 15] = [102u8, 105u8, 108u8, 101u8, 95u8, 112u8, 105u8, 101u8, 99u8, 101u8, 95u8, 105u8, 110u8, 102u8, 111u8];
    assert(k3@ =~= key_file_piece_info());
    let p4 = match read_key(s, p3, &k3) {
        None => {
            proof {
                assert forall|y: FilePieceInfoAddView| starts_with(rest, #[trigger] enc_piece_add(y)) implies false by {
                    lemma_step(s@, p3 as int, enc_bytes(key_file_piece_info()), enc_piece(y.file_piece_info) + (enc_bytes(key_peer_id()) + (enc_int(y.peer_id as nat) + (seq![101u8]))));
                }
            }
            return None;
        },
        Some(q) => q,
    };
    proof {
        assert forall|y: FilePieceInfoAddView| starts_with(rest, #[trigger] enc_piece_add(y)) implies starts_with(s@.skip(p4 as int), enc_piece(y.file_piece_info) + (enc_bytes(key_peer_id()) + (enc_int(y.peer_id as nat) + (seq![101u8])))) by {
            lemma_step(s@, p3 as int, enc_bytes(key_file_piece_info()), enc_piece(y.file_piece_info) + (enc_bytes(key_peer_id()) + (enc_int(y.peer_id as nat) + (seq![101u8]))));
        }
    }
    let (v_file_piece_info, p5) = match read_piece(s, p4) {
        None => {
            proof {
                assert forall|y: FilePieceInfoAddView| starts_with(rest, #[trigger] enc_piece_add(y)) implies false by {
                    lemma_step(s@, p4 as int, enc_piece(y.file_piece_info), enc_bytes(key_peer_id()) + (enc_int(y.peer_id as nat) + (seq![101u8])));
                }
            }
            return None;
        },
        Some(q) => q,
    };
    proof {
        assert forall|y: FilePieceInfoAddView| starts_with(rest, #[trigger] enc_piece_add(y)) implies starts_with(s@.skip(p5 as int), enc_bytes(key_peer_id()) + (enc_int(y.peer_id as nat) + (seq![101u8]))) && y.file_piece_info == v_file_piece_info@ by {
            lemma_step(s@, p4 as int, enc_piece(y.file_piece_info), enc_bytes(key_peer_id()) + (enc_int(y.peer_id as nat) + (seq![101u8])));
        }
    }
    let k5: [u8; 7] = [112u8, 101u8, 101u8, 114u8, 95u8, 105u8, 100u8];
    assert(k5@ =~= key_peer_id());
    let p6 = match read_key(s, p5, &k5) {
        None => {
            proof {
                assert forall|y: FilePieceInfoAddView| starts_with(rest, #[trigger] enc_piece_add(y)) implies false by {
                    lemma_step(s@, p5 as int, enc_bytes(key_peer_id()), enc_int(y.peer_id as nat) + (seq![101u8]));
                }
            }
            return None;
        },
        Some(q) => q,
    };
    proof {
        assert forall|y: FilePieceInfoAddView| starts_with(rest, #[trigger] enc_piece_add(y)) implies starts_with(s@.skip(p6 as int), enc_int(y.peer_id as nat) + (seq![101u8])) by {
            lemma_step(s@, p5 as int, enc_bytes(key_peer_id()), enc_int(y.peer_id as nat) + (seq![101u8]));
        }
    }
    let (v_peer_id, p7) = match read_u32(s, p6) {
        None => {
            proof {
                assert forall|y: FilePieceInfoAddView| starts_with(rest, #[trigger] enc_piece_add(y)) implies false by {
                    lemma_step(s@, p6 as int, enc_int(y.peer_id as nat), seq![101u8]);
                }
            }
            return None;
        },
        Some(q) => q,
    };
    proof {
        assert forall|y: FilePieceInfoAddView| starts_with(rest, #[trigger] enc_piece_add(y)) implies starts_with(s@.skip(p7 as int), seq![101u8]) && y.peer_id == v_peer_id by {
            lemma_step(s@, p6 as int, enc_int(y.peer_id as nat), seq![101u8]);
        }
    }
    let l7: [u8; 1] = [101u8];
    assert(l7@ =~= seq![101u8]);
    let p8 = match read_lit(s, p7, &l7) {
        None => {
            proof {
                assert forall|y: FilePieceInfoAddView| starts_with(rest, #[trigger] enc_piece_add(y)) implies false by {
                    
                }
            }
            return None;
        },
        Some(q) => q,
    };
    proof {
        assert forall|y: FilePieceInfoAddView| starts_with(rest, #[trigger] enc_piece_add(y)) implies true by {
            
        }
    }
    let x = FilePieceInfoAddPayload { file_meta_info_with_empty_piece: v_file_meta_info_with_empty_piece, file_piece_info: v_file_piece_info, peer_id: v_peer_id };
    proof {
        assert(starts_with(s@.skip(p0 as int), seq![100u8]));
        assert(starts_with(s@.skip(p1 as int), enc_bytes(key_file_meta_info_with_empty_piece())));
        assert(starts_with(s@.skip(p2 as int), enc_meta(x@.file_meta_info_with_empty_piece)));
        assert(starts_with(s@.skip(p3 as int), enc_bytes(key_file_piece_info())));
        assert(starts_with(s@.skip(p4 as int), enc_piece(x@.file_piece_info)));
        assert(starts_with(s@.skip(p5 as int), enc_bytes(key_peer_id())));
        assert(starts_with(s@.skip(p6 as int), enc_int(x@.peer_id as nat)));
        assert(starts_with(s@.skip(p7 as int), seq![101u8]));
        lemma_join(s@, p6 as int, enc_int(x@.peer_id as nat), seq![101u8]);
        lemma_join(s@, p5 as int, enc_bytes(key_peer_id()), enc_int(x@.peer_id as nat) + (seq![101u8]));
        lemma_join(s@, p4 as int, enc_piece(x@.file_piece_info), enc_bytes(key_peer_id()) + (enc_int(x@.peer_id as nat) + (seq![101u8])));
        lemma_join(s@, p3 as int, enc_bytes(key_file_piece_info()), enc_piece(x@.file_piece_info) + (enc_bytes(key_peer_id()) + (enc_int(x@.peer_id as nat) + (seq![101u8]))));
        lemma_join(s@, p2 as int, enc_meta(x@.file_meta_info_with_empty_piece), enc_bytes(key_file_piece_info()) + (enc_piece(x@.file_piece_info) + (enc_bytes(key_peer_id()) + (enc_int(x@.peer_id as nat) + (seq![101u8])))));
        lemma_join(s@, p1 as int, enc_bytes(key_file_meta_info_with_empty_piece()), enc_meta(x@.file_meta_info_with_empty_piece) + (enc_bytes(key_file_piece_info()) + (enc_piece(x@.file_piece_info) + (enc_bytes(key_peer_id()) + (enc_int(x@.peer_id as nat) + (seq![101u8]))))));
        lemma_join(s@, p0 as int, seq![100u8], enc_bytes(key_file_meta_info_with_empty_piece()) + (enc_meta(x@.file_meta_info_with_empty_piece) + (enc_bytes(key_file_piece_info()) + (enc_piece(x@.file_piece_info) + (enc_bytes(key_peer_id()) + (enc_int(x@.peer_id as nat) + (seq![101u8])))))));
        assert(enc_piece_add(x@) == seq![100u8] + (enc_bytes(key_file_meta_info_with_empty_piece()) + (enc_meta(x@.file_meta_info_with_empty_piece) + (enc_bytes(key_file_piece_info()) + (enc_piece(x@.file_piece_info) + (enc_bytes(key_peer_id()) + (enc_int(x@.peer_id as nat) + (seq![101u8]))))))));
    }
    Some((x, p8))
}

impl RegisterPayload {
    /// A registration with the peer's files and its two ports.
    pub fn new(
        file_meta_info_report: Vec<FileMetaInfo>,
        file_share_port: u16,
        peer_info_sync_open_port: u16,
    ) -> (r: Self)
        ensures
            r@ == (RegisterView {
                file_meta_info_report: metas_view(file_meta_info_report@),
                file_share_port,
                peer_info_sync_open_port,
            }),
    {
        Self { file_share_port, file_meta_info_report, peer_info_sync_open_port }
    }

    /// A copy of the files the peer reports.
    pub fn get_file_meta_info_report(&self) -> (r: Vec<FileMetaInfo>)
        ensures
            metas_view(r@) == self@.file_meta_info_report,
    {
        duplicate_metas(&self.file_meta_info_report)
    }

    /// The port on which the peer serves pieces.
    pub fn get_file_share_port(&self) -> (r: u16)
        ensures
            r == self@.file_share_port,
    {
        self.file_share_port
    }

    /// The port on which the peer listens for table updates.
    pub fn get_peer_info_sync_port(&self) -> (r: u16)
        ensures
            r == self@.peer_info_sync_open_port,
    {
        self.peer_info_sync_open_port
    }

    /// Encodes the payload.
    pub fn to_bencode(&self) -> (r: Result<Vec<u8>, EncodeError>)
        ensures
            r matches Ok(b) && b@ == enc_register(self@),
    {
        let mut out: Vec<u8> = Vec::new();
        write_register(&mut out, self);
        assert(out@ =~= enc_register(self@));
        Ok(out)
    }

    /// Decodes the payload from the beginning of `bytes`; bytes behind it are ignored.
    pub fn from_bencode(bytes: &[u8]) -> (r: Result<Self, DecodeError>)
        ensures
            r matches Ok(x) ==> starts_with(bytes@, enc_register(x@)),
            r is Err ==> forall|y: RegisterView| !starts_with(bytes@, #[trigger] enc_register(y)),
            forall|y: RegisterView| #[trigger] starts_with(bytes@, enc_register(y)) ==> (r matches Ok(
                x,
            ) && x@ == y),
    {
        assert(bytes@.skip(0) =~= bytes@);
        match read_register(bytes, 0) {
            Some((x, _)) => Ok(x),
            None => Err(DecodeError::Malformed),
        }
    }
}

impl PeerInfoAddPayload {
    /// The announcement of `peer_info`.
    pub fn new(peer_info: PeerInfo) -> (r: Self)
        ensures
            r@ == (PeerInfoAddView { peer_info: peer_info@ }),
    {
        Self { peer_info }
    }

    /// The announced peer.
    pub fn get_inner_peer_info(self) -> (r: PeerInfo)
        ensures
            r@ == self@.peer_info,
    {
        self.peer_info
    }

    /// Encodes the payload.
    pub fn to_bencode(&self) -> (r: Result<Vec<u8>, EncodeError>)
        ensures
            r matches Ok(b) && b@ == enc_peer_add(self@),
    {
        let mut out: Vec<u8> = Vec::new();
        write_peer_add(&mut out, self);
        assert(out@ =~= enc_peer_add(self@));
        Ok(out)
    }

    /// Decodes the payload from the beginning of `bytes`; bytes behind it are
    /// ignored. A peer whose address is not four bytes is refused.
    pub fn from_bencode(bytes: &[u8]) -> (r: Result<Self, DecodeError>)
        ensures
            r matches Ok(x) ==> starts_with(bytes@, enc_peer_add(x@)) && peer_add_ok(x@),
            r is Err ==> forall|y: PeerInfoAddView| #[trigger] starts_with(bytes@, enc_peer_add(y)) ==> !peer_add_ok(y),
            forall|y: PeerInfoAddView| #[trigger] starts_with(bytes@, enc_peer_add(y)) && !peer_add_ok(y) ==> r is Err,
            forall|y: PeerInfoAddView| #[trigger] starts_with(bytes@, enc_peer_add(y)) && peer_add_ok(y) ==> (r matches Ok(
                x,
            ) && x@ == y),
    {
        assert(bytes@.skip(0) =~= bytes@);
        match read_peer_add(bytes, 0) {
            Some((x, _)) => Ok(x),
            None => Err(DecodeError::Malformed),
        }
    }
}

impl PeersInfoSetPayload {
    /// The table inside is well formed.
    pub closed spec fn wf(&self) -> bool {
        self.peers_info_table.wf()
    }

    /// The whole table inside, indexes included.
    pub closed spec fn table_view(&self) -> crate::peers_info_table::PeersInfoTableView {
        self.peers_info_table@
    }

    /// The snapshot for the peer `peer_id` at `peer_ip`.
    pub fn new(
        peer_id: u32,
        peer_ip: Vec<u8>,
        peers_info_table: PeersInfoTable,
        keep_alive_interval: u64,
        keep_alive_manager_open_port: u16,
    ) -> (r: Self)
        requires
            peers_info_table.wf(),
        ensures
            r.wf(),
            r.table_view() == peers_info_table@,
            r@ == (PeersInfoSetView {
                keep_alive_interval,
                keep_alive_manager_open_port,
                peer_id,
                peer_ip: peer_ip@,
                peers_info_table: peers_info_table@.peers_info,
            }),
    {
        Self { peer_id, peer_ip, peers_info_table, keep_alive_interval, keep_alive_manager_open_port }
    }

    /// The id given to the peer.
    pub fn get_peer_id(&self) -> (r: u32)
        ensures
            r == self@.peer_id,
    {
        self.peer_id
    }

    /// The address of the peer as the tracker saw it.
    pub fn get_peer_ip(&self) -> (r: Vec<u8>)
        ensures
            r@ == self@.peer_ip,
    {
        copy_bytes(&self.peer_ip)
    }

    /// The interval of the keep-alive messages, in milliseconds.
    pub fn get_keep_alive_interval(&self) -> (r: u64)
        ensures
            r == self@.keep_alive_interval,
    {
        self.keep_alive_interval
    }

    /// A copy of the table.
    pub fn get_peers_info_table(&self) -> (r: PeersInfoTable)
        requires
            self.wf(),
        ensures
            r.wf(),
            r@ == self.table_view(),
    {
        self.peers_info_table.get_a_snapshot()
    }

    /// The port on which the tracker expects keep-alive messages.
    pub fn get_keep_alive_manager_open_port(&self) -> (r: u16)
        ensures
            r == self@.keep_alive_manager_open_port,
    {
        self.keep_alive_manager_open_port
    }

    /// Encodes the payload; of the table only its peers are written.
    pub fn to_bencode(&self) -> (r: Result<Vec<u8>, EncodeError>)
        ensures
            r matches Ok(b) && b@ == enc_table_set(self@),
    {
        let mut out: Vec<u8> = Vec::new();
        write_table_set(&mut out, self);
        assert(out@ =~= enc_table_set(self@));
        Ok(out)
    }

    /// Decodes the payload from the beginning of `bytes`; bytes behind it are
    /// ignored. The table is rebuilt from its peers; a peer whose address is not
    /// four bytes is refused.
    pub fn from_bencode(bytes: &[u8]) -> (r: Result<Self, DecodeError>)
        ensures
            r matches Ok(x) ==> starts_with(bytes@, enc_table_set(x@)) && table_set_ok(x@) && x.wf()
                && x.table_view() == table_from_peers(x@.peers_info_table),
            r is Err ==> forall|y: PeersInfoSetView| #[trigger] starts_with(bytes@, enc_table_set(y)) ==> !table_set_ok(y),
            forall|y: PeersInfoSetView| #[trigger] starts_with(bytes@, enc_table_set(y)) && !table_set_ok(y) ==> r is Err,
            forall|y: PeersInfoSetView| #[trigger] starts_with(bytes@, enc_table_set(y)) && table_set_ok(y) ==> (r matches Ok(
                x,
            ) && x@ == y),
    {
        assert(bytes@.skip(0) =~= bytes@);
        match read_table_set(bytes, 0) {
            Some((x, _)) => Ok(x),
            None => Err(DecodeError::Malformed),
        }
    }
}

impl PeersInfoUpdatePayload {
    /// The files `updated_file_meta_info` added by `peer_id`.
    pub fn new(peer_id: u32, updated_file_meta_info: Vec<FileMetaInfo>) -> (r: Self)
        ensures
            r@ == (PeersInfoUpdateView {
                peer_id,
                updated_file_meta_info: metas_view(updated_file_meta_info@),
            }),
    {
        Self { peer_id, updated_file_meta_info }
    }

    /// The peer that added the files.
    pub fn get_peer_id(&self) -> (r: u32)
        ensures
            r == self@.peer_id,
    {
        self.peer_id
    }

    /// A copy of the added files.
    pub fn get_updated_file_meta_info(&self) -> (r: Vec<FileMetaInfo>)
        ensures
            metas_view(r@) == self@.updated_file_meta_info,
    {
        duplicate_metas(&self.updated_file_meta_info)
    }

    /// Encodes the payload.
    pub fn to_bencode(&self) -> (r: Result<Vec<u8>, EncodeError>)
        ensures
            r matches Ok(b) && b@ == enc_files_update(self@),
    {
        let mut out: Vec<u8> = Vec::new();
        write_files_update(&mut out, self);
        assert(out@ =~= enc_files_update(self@));
        Ok(out)
    }

    /// Decodes the payload from the beginning of `bytes`; bytes behind it are ignored.
    pub fn from_bencode(bytes: &[u8]) -> (r: Result<Self, DecodeError>)
        ensures
            r matches Ok(x) ==> starts_with(bytes@, enc_files_update(x@)),
            r is Err ==> forall|y: PeersInfoUpdateView| !starts_with(bytes@, #[trigger] enc_files_update(y)),
            forall|y: PeersInfoUpdateView| #[trigger] starts_with(bytes@, enc_files_update(y)) ==> (r matches Ok(
                x,
            ) && x@ == y),
    {
        assert(bytes@.skip(0) =~= bytes@);
        match read_files_update(bytes, 0) {
            Some((x, _)) => Ok(x),
            None => Err(DecodeError::Malformed),
        }
    }
}

impl PeerDroppedPayload {
    /// The departure of `peer_id`.
    pub fn new(peer_id: u32) -> (r: Self)
        ensures
            r@ == (PeerDroppedView { peer_id }),
    {
        Self { peer_id }
    }

    /// The peer that left.
    pub fn get_dropped_peer_id(&self) -> (r: u32)
        ensures
            r == self@.peer_id,
    {
        self.peer_id
    }

    /// Encodes the payload.
    pub fn to_bencode(&self) -> (r: Result<Vec<u8>, EncodeError>)
        ensures
            r matches Ok(b) && b@ == enc_peer_dropped(self@),
    {
        let mut out: Vec<u8> = Vec::new();
        write_peer_dropped(&mut out, self);
        assert(out@ =~= enc_peer_dropped(self@));
        Ok(out)
    }

    /// Decodes the payload from the beginning of `bytes`; bytes behind it are ignored.
    pub fn from_bencode(bytes: &[u8]) -> (r: Result<Self, DecodeError>)
        ensures
            r matches Ok(x) ==> starts_with(bytes@, enc_peer_dropped(x@)),
            r is Err ==> forall|y: PeerDroppedView| !starts_with(bytes@, #[trigger] enc_peer_dropped(y)),
            forall|y: PeerDroppedView| #[trigger] starts_with(bytes@, enc_peer_dropped(y)) ==> (r matches Ok(
                x,
            ) && x@ == y),
    {
        assert(bytes@.skip(0) =~= bytes@);
        match read_peer_dropped(bytes, 0) {
            Some((x, _)) => Ok(x),
            None => Err(DecodeError::Malformed),
        }
    }
}

impl FilePieceRequestPayload {
    /// A request for the piece `file_piece_index`, of digest
    /// `file_piece_sha3_code`, of the file of digest `file_sha3_code`.
    pub fn new(
        file_sha3_code: Vec<u8>,
        file_piece_sha3_code: Vec<u8>,
        file_piece_index: u32,
        file_piece_size: u32,
    ) -> (r: Self)
        ensures
            r@ == (FilePieceRequestView {
                file_piece_index,
                file_piece_sha3_code: file_piece_sha3_code@,
                file_piece_size,
                file_sha3_code: file_sha3_code@,
            }),
    {
        Self { file_sha3_code, file_piece_sha3_code, file_piece_index, file_piece_size }
    }

    /// The file's digest, the piece's digest, its index and the piece size.
    pub fn get_inner_info(self) -> (r: (Vec<u8>, Vec<u8>, u32, u32))
        ensures
            r.0@ == self@.file_sha3_code,
            r.1@ == self@.file_piece_sha3_code,
            r.2 == self@.file_piece_index,
            r.3 == self@.file_piece_size,
    {
        (self.file_sha3_code, self.file_piece_sha3_code, self.file_piece_index, self.file_piece_size)
    }

    /// Encodes the payload.
    pub fn to_bencode(&self) -> (r: Result<Vec<u8>, EncodeError>)
        ensures
            r matches Ok(b) && b@ == enc_piece_request(self@),
    {
        let mut out: Vec<u8> = Vec::new();
        write_piece_request(&mut out, self);
        assert(out@ =~= enc_piece_request(self@));
        Ok(out)
    }

    /// Decodes the payload from the beginning of `bytes`; bytes behind it are ignored.
    pub fn from_bencode(bytes: &[u8]) -> (r: Result<Self, DecodeError>)
        ensures
            r matches Ok(x) ==> starts_with(bytes@, enc_piece_request(x@)),
            r is Err ==> forall|y: FilePieceRequestView| !starts_with(bytes@, #[trigger] enc_piece_request(y)),
            forall|y: FilePieceRequestView| #[trigger] starts_with(bytes@, enc_piece_request(y)) ==> (r matches Ok(
                x,
            ) && x@ == y),
    {
        assert(bytes@.skip(0) =~= bytes@);
        match read_piece_request(bytes, 0) {
            Some((x, _)) => Ok(x),
            None => Err(DecodeError::Malformed),
        }
    }
}

impl FilePieceInfoAddPayload {
    /// The news that `peer_id` acquired `file_piece_info` of the file
    /// described, without its pieces, by `file_meta_info_with_empty_piece`.
    pub fn new(
        peer_id: u32,
        file_piece_info: FilePieceInfo,
        file_meta_info_with_empty_piece: FileMetaInfo,
    ) -> (r: Self)
        ensures
            r@ == (FilePieceInfoAddView {
                file_meta_info_with_empty_piece: file_meta_info_with_empty_piece@,
                file_piece_info: file_piece_info@,
                peer_id,
            }),
    {
        Self { peer_id, file_piece_info, file_meta_info_with_empty_piece }
    }

    /// The peer, the piece and the file.
    pub fn get_inner_info(self) -> (r: (u32, FilePieceInfo, FileMetaInfo))
        ensures
            r.0 == self@.peer_id,
            r.1@ == self@.file_piece_info,
            r.2@ == self@.file_meta_info_with_empty_piece,
    {
        (self.peer_id, self.file_piece_info, self.file_meta_info_with_empty_piece)
    }

    /// Encodes the payload.
    pub fn to_bencode(&self) -> (r: Result<Vec<u8>, EncodeError>)
        ensures
            r matches Ok(b) && b@ == enc_piece_add(self@),
    {
        let mut out: Vec<u8> = Vec::new();
        write_piece_add(&mut out, self);
        assert(out@ =~= enc_piece_add(self@));
        Ok(out)
    }

    /// Decodes the payload from the beginning of `bytes`; bytes behind it are ignored.
    pub fn from_bencode(bytes: &[u8]) -> (r: Result<Self, DecodeError>)
        ensures
            r matches Ok(x) ==> starts_with(bytes@, enc_piece_add(x@)),
            r is Err ==> forall|y: FilePieceInfoAddView| !starts_with(bytes@, #[trigger] enc_piece_add(y)),
            forall|y: FilePieceInfoAddView| #[trigger] starts_with(bytes@, enc_piece_add(y)) ==> (r matches Ok(
                x,
            ) && x@ == y),
    {
        assert(bytes@.skip(0) =~= bytes@);
        match read_piece_add(bytes, 0) {
            Some((x, _)) => Ok(x),
            None => Err(DecodeError::Malformed),
        }
    }
}

} // verus!
