//! The exchanges between a peer and the tracker over the peer's connection:
//! the peer registers and later reports files and pieces; the tracker reads
//! each packet, gives every registering peer a new id and passes the rest on.
use vstd::prelude::*;
use crate::bytes_map::copy_bytes;
use crate::message::{
    enc_files_update, enc_piece_add, enc_register, FilePieceInfoAddPayload, FilePieceInfoAddView,
    PeersInfoUpdatePayload, PeersInfoUpdateView, RegisterPayload, RegisterView,
};
use crate::bencode::starts_with;
use crate::packet::{frame, le_value, make_packet};
use crate::types::{
    duplicate_metas, metas_view, FileMetaInfo, FilePieceInfo, MetaView, PeerInfo, PeerView,
    PieceView,
};

verus! {

/// The peer's side of its connection to the tracker.
pub struct PeerToTrackerManager {
    tracker_ip: Vec<u8>,
    tracker_port: u16,
}

impl PeerToTrackerManager {
    /// A peer that will register with the tracker at `tracker_ip` (four
    /// bytes) and `tracker_port`.
    pub fn new(tracker_ip: Vec<u8>, tracker_port: u16) -> (r: Self)
        ensures
            r.tracker_ip()@ == tracker_ip@,
            r.tracker_port() == tracker_port,
    {
        PeerToTrackerManager { tracker_ip, tracker_port }
    }

    /// The tracker's address.
    pub closed spec fn tracker_ip(&self) -> Vec<u8> {
        self.tracker_ip
    }

    /// The tracker's port.
    pub closed spec fn tracker_port(&self) -> u16 {
        self.tracker_port
    }

    /// The address of the tracker, to connect to.
    pub fn get_tracker_addr(&self) -> (r: (Vec<u8>, u16))
        ensures
            r.0@ == self.tracker_ip()@,
            r.1 == self.tracker_port(),
    {
        (copy_bytes(&self.tracker_ip), self.tracker_port)
    }

    /// The registration packet (type 1): the peer's files, the port on which
    /// it serves pieces and the port on which it takes table updates.
    pub fn register_packet(
        &self,
        file_meta_info_report: Vec<FileMetaInfo>,
        open_port: u16,
        peer_info_sync_open_port: u16,
    ) -> (r: Vec<u8>)
        ensures
            r@ == frame(
                1,
                enc_register(
                    RegisterView {
                        file_meta_info_report: metas_view(file_meta_info_report@),
                        file_share_port: open_port,
                        peer_info_sync_open_port,
                    },
                ),
            ),
    {
        let payload = RegisterPayload::new(file_meta_info_report, open_port, peer_info_sync_open_port).to_bencode();
        let bytes = match payload {
            Ok(b) => b,
            Err(_) => Vec::new(),
        };
        make_packet(1, bytes.as_slice())
    }
}

/// What a packet from a peer asks of the tracker.
pub enum PeerRequest {
    /// A peer registered and got an id; it takes table updates on the port.
    Register { peer_info: PeerInfo, peer_info_sync_open_port: u16 },
    /// A peer reported new files.
    UpdatePeerInfo { peer_id: u32, updated_file_meta_info: Vec<FileMetaInfo> },
    /// A peer acquired a piece of a file.
    UpdatePieceDownloadedInfo {
        peer_id: u32,
        file_piece_info: FilePieceInfo,
        file_meta_info_with_empty_piece: FileMetaInfo,
    },
    /// Nothing to do: a chunk too short for a header, an unknown type, or a
    /// payload that does not decode.
    Ignored,
}

/// A chunk whose header announces another length than the chunk carries.
#[derive(Debug, Clone, Copy, PartialEq, Eq)]
pub enum FramingError {
    LengthMismatch,
}

/// The chunk holds a header and exactly the payload it announces.
pub open spec fn chunk_is_one_packet(chunk: Seq<u8>) -> bool {
    chunk.len() >= 5 && le_value(chunk.subrange(1, 5)) + 5 == chunk.len()
}

/// The id given after `n`: the next one, where there is one.
pub open spec fn next_after(n: u32) -> u32 {
    if n < u32::MAX {
        (n + 1) as u32
    } else {
        n
    }
}

/// Law: the ids handed out by successive registrations, starting from a new
/// manager (first id 1) and each the `next_after` of the one before, are 1,
/// 2, 3, ... in order: never 0 (the tracker's own id) and never twice, for as
/// many registrations as there are ids.
pub proof fn lemma_registrations_get_ids_in_order(ids: Seq<u32>)
    requires
        ids.len() <= u32::MAX,
        ids.len() > 0 ==> ids[0] == 1,
        forall|i: int| 0 <= i < ids.len() - 1 ==> #[trigger] ids[i + 1] == next_after(ids[i]),
    ensures
        forall|i: int| 0 <= i < ids.len() ==> #[trigger] ids[i] == i + 1,
        forall|i: int| 0 <= i < ids.len() ==> #[trigger] ids[i] != 0,
        forall|i: int, j: int| 0 <= i < j < ids.len() ==> #[trigger] ids[i] != #[trigger] ids[j],
    decreases ids.len(),
{
    if ids.len() > 0 {
        let pre = ids.drop_last();
        assert forall|i: int| 0 <= i < pre.len() - 1 implies #[trigger] pre[i + 1] == next_after(pre[i]) by {
            assert(pre[i + 1] == ids[i + 1]);
            assert(pre[i] == ids[i]);
        }
        lemma_registrations_get_ids_in_order(pre);
        assert forall|i: int| 0 <= i < ids.len() implies #[trigger] ids[i] == i + 1 by {
            if i < ids.len() - 1 {
                assert(pre[i] == ids[i]);
            } else if i > 0 {
                assert(pre[i - 1] == ids[i - 1]);
                assert(ids[(i - 1) + 1] == next_after(ids[i - 1]));
            }
        }
    }
}

/// The tracker's side of the peers' connections: the next id to give.
pub struct TrackerToPeerManager {
    peer_id_allocated_begin_with: u32,
    tracker_ip: Vec<u8>,
    tracker_port: u16,
    interval: u32,
}

impl TrackerToPeerManager {
    /// The id the next registering peer gets.
    pub closed spec fn next_id(&self) -> u32 {
        self.peer_id_allocated_begin_with
    }

    /// The address on which the tracker listens.
    pub closed spec fn listen_ip(&self) -> Seq<u8> {
        self.tracker_ip@
    }

    /// The port on which the tracker listens.
    pub closed spec fn listen_port(&self) -> u16 {
        self.tracker_port
    }

    /// The interval of the keep-alive messages, in milliseconds.
    pub closed spec fn interval(&self) -> u32 {
        self.interval
    }

    /// A tracker at `tracker_ip` and `tracker_port`, that expects keep-alive
    /// messages every `interval` milliseconds; the tracker is peer 0, so peers
    /// get ids from 1 on.
    pub fn new(tracker_ip: Vec<u8>, tracker_port: u16, interval: u32) -> (r: Self)
        ensures
            r.next_id() == 1,
            r.listen_ip() == tracker_ip@,
            r.listen_port() == tracker_port,
            r.interval() == interval,
    {
        TrackerToPeerManager { peer_id_allocated_begin_with: 1, tracker_ip, tracker_port, interval }
    }

    /// The address on which the tracker listens.
    pub fn get_listen_addr(&self) -> (r: (Vec<u8>, u16))
        ensures
            r.0@ == self.listen_ip(),
            r.1 == self.listen_port(),
    {
        (copy_bytes(&self.tracker_ip), self.tracker_port)
    }

    /// Whether `chunk` may be handed to `handle_peer_chunk`: shorter than a
    /// header, or exactly one packet.
    pub fn chunk_is_acceptable(chunk: &[u8]) -> (r: bool)
        ensures
            r == (chunk@.len() < 5 || chunk_is_one_packet(chunk@)),
    {
        if chunk.len() < 5 {
            return true;
        }
        let len: u64 = chunk[1] as u64 + 256 * (chunk[2] as u64 + 256 * (chunk[3] as u64 + 256 * chunk[4] as u64));
        assert(le_value(chunk@.subrange(1, 5)) == len);
        len + 5 == chunk.len() as u64
    }

    /// Reads one chunk that the peer at `peer_ip` (four bytes) sent. Each
    /// packet is expected in one chunk; a chunk that holds a header and another
    /// amount of payload is an error. A registration (type 1) gives the peer
    /// the next id; files (type 4) and pieces (type 8) are passed on.
    pub fn handle_peer_chunk(&mut self, chunk: &[u8], peer_ip: &Vec<u8>) -> (r: Result<PeerRequest, FramingError>)
        requires
            peer_ip@.len() == 4,
        ensures
            r is Err <==> (chunk@.len() >= 5 && !chunk_is_one_packet(chunk@)),
            r is Err || chunk@.len() < 5 ==> final(self).next_id() == old(self).next_id(),
            chunk@.len() < 5 ==> r matches Ok(PeerRequest::Ignored),
            chunk_is_one_packet(chunk@) ==> ({
                let t = chunk@[0];
                let p = chunk@.skip(5);
                &&& (t == 1 ==> (forall|y: RegisterView| #[trigger] starts_with(p, enc_register(y))
                    ==> (r matches Ok(PeerRequest::Register { peer_info, peer_info_sync_open_port })
                    && peer_info@ == (PeerView {
                        peer_id: old(self).next_id(),
                        peer_ip: peer_ip@,
                        peer_open_port: y.file_share_port,
                        peer_file_meta_info_report: y.file_meta_info_report,
                    }) && peer_info_sync_open_port == y.peer_info_sync_open_port
                    && final(self).next_id() == next_after(old(self).next_id()))))
                &&& (t == 4 ==> (forall|y: PeersInfoUpdateView| #[trigger] starts_with(p, enc_files_update(y))
                    ==> (r matches Ok(PeerRequest::UpdatePeerInfo { peer_id, updated_file_meta_info })
                    && peer_id == y.peer_id && metas_view(updated_file_meta_info@) == y.updated_file_meta_info)))
                &&& (t == 8 ==> (forall|y: FilePieceInfoAddView| #[trigger] starts_with(p, enc_piece_add(y))
                    ==> (r matches Ok(PeerRequest::UpdatePieceDownloadedInfo {
                        peer_id,
                        file_piece_info,
                        file_meta_info_with_empty_piece,
                    }) && peer_id == y.peer_id && file_piece_info@ == y.file_piece_info
                    && file_meta_info_with_empty_piece@ == y.file_meta_info_with_empty_piece)))
                &&& (t == 1 && !(exists|y: RegisterView| #[trigger] starts_with(p, enc_register(y))) ==> r matches Ok(
                    PeerRequest::Ignored,
                ))
                &&& (t == 4 && !(exists|y: PeersInfoUpdateView| #[trigger] starts_with(p, enc_files_update(y)))
                    ==> r matches Ok(PeerRequest::Ignored))
                &&& (t == 8 && !(exists|y: FilePieceInfoAddView| #[trigger] starts_with(p, enc_piece_add(y)))
                    ==> r matches Ok(PeerRequest::Ignored))
                &&& (t != 1 ==> final(self).next_id() == old(self).next_id())
                &&& (t != 1 && t != 4 && t != 8 ==> r matches Ok(PeerRequest::Ignored))
                &&& (r matches Ok(PeerRequest::Ignored) ==> final(self).next_id() == old(self).next_id())
            }),
    {
        if chunk.len() < 5 {
            return Ok(PeerRequest::Ignored);
        }
        if !Self::chunk_is_acceptable(chunk) {
            return Err(FramingError::LengthMismatch);
        }
        let type_id = chunk[0];
        let payload = slice_from(chunk, 5);
        assert(payload@ == chunk@.skip(5));
        if type_id == 1 {
            match RegisterPayload::from_bencode(payload.as_slice()) {
                Ok(register) => {
                    let files = register.get_file_meta_info_report();
                    let open_port = register.get_file_share_port();
                    let sync_port = register.get_peer_info_sync_port();
                    let peer_id = self.peer_id_allocated_begin_with;
                    self.peer_id_allocated_begin_with = match peer_id.checked_add(1) {
                        Some(n) => n,
                        None => peer_id,
                    };
                    let peer_info = PeerInfo::new(peer_id, copy_bytes(peer_ip), open_port, files);
                    Ok(PeerRequest::Register { peer_info, peer_info_sync_open_port: sync_port })
                },
                Err(_) => Ok(PeerRequest::Ignored),
            }
        } else if type_id == 4 {
            match PeersInfoUpdatePayload::from_bencode(payload.as_slice()) {
                Ok(update) => {
                    let peer_id = update.get_peer_id();
                    let files = update.get_updated_file_meta_info();
                    Ok(PeerRequest::UpdatePeerInfo { peer_id, updated_file_meta_info: files })
                },
                Err(_) => Ok(PeerRequest::Ignored),
            }
        } else if type_id == 8 {
            match FilePieceInfoAddPayload::from_bencode(payload.as_slice()) {
                Ok(add) => {
                    let (peer_id, piece, meta) = add.get_inner_info();
                    Ok(PeerRequest::UpdatePieceDownloadedInfo {
                        peer_id,
                        file_piece_info: piece,
                        file_meta_info_with_empty_piece: meta,
                    })
                },
                Err(_) => Ok(PeerRequest::Ignored),
            }
        } else {
            Ok(PeerRequest::Ignored)
        }
    }
}

/// The bytes of `s` from `start` on.
pub fn slice_from(s: &[u8], start: usize) -> (r: Vec<u8>)
    requires
        start <= s@.len(),
    ensures
        r@ == s@.skip(start as int),
{
    let mut r: Vec<u8> = Vec::new();
    let mut i: usize = start;
    while i < s.len()
        invariant
            start <= i <= s@.len(),
            r@ == s@.subrange(start as int, i as int),
        decreases s@.len() - i,
    {
        r.push(s[i]);
        assert(s@.subrange(start as int, i + 1) =~= s@.subrange(start as int, i as int).push(s@[i as int]));
        i = i + 1;
    }
    assert(s@.subrange(start as int, s@.len() as int) =~= s@.skip(start as int));
    r
}

} // verus!
