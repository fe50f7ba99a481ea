//! The messages that the parts of a peer or of the tracker pass to the part
//! that keeps the global table.
use vstd::prelude::*;
use crate::types::{duplicate_metas, metas_view, FileMetaInfo, FilePieceInfo, MetaView, PeerInfo};

verus! {

/// From the local files to the table: files found in the shared directory.
pub struct LFToPIMessage {
    new_files_meta_info: Vec<FileMetaInfo>,
}

impl View for LFToPIMessage {
    type V = Seq<MetaView>;

    closed spec fn view(&self) -> Seq<MetaView> {
        metas_view(self.new_files_meta_info@)
    }
}

impl LFToPIMessage {
    /// No file yet.
    pub fn new() -> (r: Self)
        ensures
            r@ == Seq::<MetaView>::empty(),
    {
        let r = LFToPIMessage { new_files_meta_info: Vec::new() };
        assert(r@ =~= Seq::<MetaView>::empty());
        r
    }

    /// One more file.
    pub fn add_file_meta_info(&mut self, file_meta_info: FileMetaInfo)
        ensures
            final(self)@ == old(self)@.push(file_meta_info@),
    {
        let ghost v0 = self@;
        let ghost m = file_meta_info@;
        self.new_files_meta_info.push(file_meta_info);
        assert(self@ =~= v0.push(m));
    }

    /// A copy of the files.
    pub fn get_inner_files_meta_info(&self) -> (r: Vec<FileMetaInfo>)
        ensures
            metas_view(r@) == self@,
    {
        duplicate_metas(&self.new_files_meta_info)
    }
}

/// From the connection to the tracker to the table of a peer.
pub enum P2TToPIMessage {
    AddOnePeerInfo { peer_info: PeerInfo },
    UpdatePeerInfo { peer_id: u32, updated_file_meta_info: Vec<FileMetaInfo> },
    UpdatePieceDownloadedInfo {
        peer_id: u32,
        file_piece_info: FilePieceInfo,
        file_meta_info_with_empty_piece: FileMetaInfo,
    },
}

impl P2TToPIMessage {
    /// A peer joined.
    pub fn new_add_one_peer_info(peer_info: PeerInfo) -> (r: Self)
        ensures
            r matches P2TToPIMessage::AddOnePeerInfo { peer_info: p } && p@ == peer_info@,
    {
        P2TToPIMessage::AddOnePeerInfo { peer_info }
    }

    /// A peer added files.
    pub fn new_update_one_peer_info(peer_id: u32, updated_file_meta_info: Vec<FileMetaInfo>) -> (r: Self)
        ensures
            r matches P2TToPIMessage::UpdatePeerInfo { peer_id: id, updated_file_meta_info: f } && id == peer_id
                && metas_view(f@) == metas_view(updated_file_meta_info@),
    {
        P2TToPIMessage::UpdatePeerInfo { peer_id, updated_file_meta_info }
    }

    /// A peer acquired a piece.
    pub fn new_update_piece_downloaded_info(
        peer_id: u32,
        file_piece_info: FilePieceInfo,
        file_meta_info_with_empty_piece: FileMetaInfo,
    ) -> (r: Self)
        ensures
            r matches P2TToPIMessage::UpdatePieceDownloadedInfo {
                peer_id: id,
                file_piece_info: p,
                file_meta_info_with_empty_piece: m,
            } && id == peer_id && p@ == file_piece_info@ && m@ == file_meta_info_with_empty_piece@,
    {
        P2TToPIMessage::UpdatePieceDownloadedInfo { peer_id, file_piece_info, file_meta_info_with_empty_piece }
    }
}

/// From the tracker's peer connections to its table.
pub enum T2PToPIMessage {
    AddOnePeerInfo { peer_info: PeerInfo, peer_info_sync_open_port: u16 },
    UpdatePeerInfo { peer_id: u32, updated_file_meta_info: Vec<FileMetaInfo> },
    UpdatePieceDownloadedInfo {
        peer_id: u32,
        file_piece_info: FilePieceInfo,
        file_meta_info_with_empty_piece: FileMetaInfo,
    },
}

impl T2PToPIMessage {
    /// A peer registered; it takes table updates on `peer_info_sync_open_port`.
    pub fn new_add_one_peer_info(peer_info: PeerInfo, peer_info_sync_open_port: u16) -> (r: Self)
        ensures
            r matches T2PToPIMessage::AddOnePeerInfo { peer_info: p, peer_info_sync_open_port: port } && p@
                == peer_info@ && port == peer_info_sync_open_port,
    {
        T2PToPIMessage::AddOnePeerInfo { peer_info, peer_info_sync_open_port }
    }

    /// A peer added files.
    pub fn new_update_one_peer_info(peer_id: u32, updated_file_meta_info: Vec<FileMetaInfo>) -> (r: Self)
        ensures
            r matches T2PToPIMessage::UpdatePeerInfo { peer_id: id, updated_file_meta_info: f } && id == peer_id
                && metas_view(f@) == metas_view(updated_file_meta_info@),
    {
        T2PToPIMessage::UpdatePeerInfo { peer_id, updated_file_meta_info }
    }

    /// A peer acquired a piece.
    pub fn new_update_piece_downloaded_info(
        peer_id: u32,
        file_piece_info: FilePieceInfo,
        file_meta_info_with_empty_piece: FileMetaInfo,
    ) -> (r: Self)
        ensures
            r matches T2PToPIMessage::UpdatePieceDownloadedInfo {
                peer_id: id,
                file_piece_info: p,
                file_meta_info_with_empty_piece: m,
            } && id == peer_id && p@ == file_piece_info@ && m@ == file_meta_info_with_empty_piece@,
    {
        T2PToPIMessage::UpdatePieceDownloadedInfo { peer_id, file_piece_info, file_meta_info_with_empty_piece }
    }
}

/// Between the keep-alive service and the tracker's table. Addresses are IPv4
/// addresses as big-endian numbers.
pub enum KAToPIMessage {
    PeerOnlineMessage { peer_id: u32, peer_ip: u32 },
    PeerDroppedMessage { peer_id: u32 },
}

impl KAToPIMessage {
    /// Peer `peer_id` at `peer_ip` is to be watched.
    pub fn new_peer_online_message(peer_id: u32, peer_ip: u32) -> (r: Self)
        ensures
            r == (KAToPIMessage::PeerOnlineMessage { peer_id, peer_ip }),
    {
        KAToPIMessage::PeerOnlineMessage { peer_id, peer_ip }
    }

    /// Peer `peer_id` stopped answering.
    pub fn new_peer_dropped_message(peer_id: u32) -> (r: Self)
        ensures
            r == (KAToPIMessage::PeerDroppedMessage { peer_id }),
    {
        KAToPIMessage::PeerDroppedMessage { peer_id }
    }
}

} // verus!
