//! What the tracker and the peers do with the global table when something
//! happens: each event changes the table and says which packet goes to whom.
//! The sockets, tasks and timers that carry these packets are the caller's.
use vstd::prelude::*;
use crate::bytes_map::{byte_seqs, copy_bytes};
use crate::message::{
    enc_files_update, enc_peer_add, enc_peer_dropped, enc_piece_add, enc_table_set, peer_add_ok, table_set_ok,
    FilePieceInfoAddPayload, FilePieceInfoAddView, PeerDroppedPayload, PeerDroppedView,
    PeerInfoAddPayload, PeerInfoAddView, PeersInfoSetPayload, PeersInfoSetView,
    PeersInfoUpdatePayload, PeersInfoUpdateView,
};
use crate::bencode::starts_with;
use crate::packet::{frame, make_packet};
use crate::peers_info_table::{
    add_peer, add_piece, drop_peer, table_from_peers, update_files, AddrView, PeerAddr, PeersInfoTable,
    PeersInfoTableView,
};
use crate::sync::{alike, consistent, lemma_alike_apply_ops, lemma_alike_symm};
use crate::thread_communication_message::KAToPIMessage;
use crate::types::{duplicate_metas, metas_view, FileMetaInfo, FilePieceInfo, MetaView, PeerInfo, PeerView, PieceView};

verus! {

/// The addresses in a list of them.
pub open spec fn addrs_view(v: Seq<PeerAddr>) -> Seq<AddrView> {
    v.map_values(|a: PeerAddr| a@)
}

/// The recorded sync addresses, each with its peer id.
pub open spec fn sync_view(v: Seq<(u32, PeerAddr)>) -> Seq<(u32, AddrView)> {
    v.map_values(|e: (u32, PeerAddr)| (e.0, e.1@))
}

/// `s` without the entries of peer `id`.
pub open spec fn sync_without(s: Seq<(u32, AddrView)>, id: u32) -> Seq<(u32, AddrView)>
    decreases s.len(),
{
    if s.len() == 0 {
        s
    } else {
        let r = sync_without(s.drop_last(), id);
        if s.last().0 == id {
            r
        } else {
            r.push(s.last())
        }
    }
}

/// The addresses of `s`, in order, but those of peer `excluded`.
pub open spec fn sync_targets(s: Seq<(u32, AddrView)>, excluded: Option<u32>) -> Seq<AddrView>
    decreases s.len(),
{
    if s.len() == 0 {
        Seq::empty()
    } else {
        let r = sync_targets(s.drop_last(), excluded);
        if excluded == Some(s.last().0) {
            r
        } else {
            r.push(s.last().1)
        }
    }
}

/// Law: taking peer `id` out of the list of sync addresses keeps exactly the
/// entries of the other peers, in order.
pub proof fn lemma_sync_without_is_filter(s: Seq<(u32, AddrView)>, id: u32)
    ensures
        sync_without(s, id) == s.filter(|e: (u32, AddrView)| e.0 != id),
    decreases s.len(),
{
    reveal(Seq::filter);
    if s.len() > 0 {
        lemma_sync_without_is_filter(s.drop_last(), id);
    }
}

/// Law: the addresses a packet goes to are those of the list's entries, in
/// order, whose peer is not the one excluded.
pub proof fn lemma_sync_targets_are_others(s: Seq<(u32, AddrView)>, excluded: Option<u32>)
    ensures
        sync_targets(s, excluded) == s.filter(|e: (u32, AddrView)| excluded != Some(e.0)).map_values(
            |e: (u32, AddrView)| e.1,
        ),
    decreases s.len(),
{
    reveal(Seq::filter);
    if s.len() > 0 {
        lemma_sync_targets_are_others(s.drop_last(), excluded);
        let f = s.drop_last().filter(|e: (u32, AddrView)| excluded != Some(e.0));
        assert(f.push(s.last()).map_values(|e: (u32, AddrView)| e.1) =~= f.map_values(|e: (u32, AddrView)| e.1).push(
            s.last().1,
        ));
    } else {
        assert(s.filter(|e: (u32, AddrView)| excluded != Some(e.0)).map_values(|e: (u32, AddrView)| e.1)
            =~= Seq::<AddrView>::empty());
    }
}

/// A copy of an address.
pub fn copy_addr(a: &PeerAddr) -> (r: PeerAddr)
    ensures
        r@ == a@,
{
    PeerAddr { ip: copy_bytes(&a.ip), port: a.port }
}

fn without_peer(v: &Vec<(u32, PeerAddr)>, id: u32) -> (r: Vec<(u32, PeerAddr)>)
    ensures
        sync_view(r@) == sync_without(sync_view(v@), id),
{
    let mut r: Vec<(u32, PeerAddr)> = Vec::new();
    let mut i: usize = 0;
    while i < v.len()
        invariant
            0 <= i <= v@.len(),
            sync_view(r@) == sync_without(sync_view(v@).take(i as int), id),
        decreases v@.len() - i,
    {
        assert(sync_view(v@).take(i + 1).drop_last() =~= sync_view(v@).take(i as int));
        if v[i].0 != id {
            let ghost r0 = sync_view(r@);
            r.push((v[i].0, copy_addr(&v[i].1)));
            assert(sync_view(r@) =~= r0.push(sync_view(v@)[i as int]));
        }
        i = i + 1;
    }
    assert(sync_view(v@).take(v@.len() as int) =~= sync_view(v@));
    r
}

fn targets_of(v: &Vec<(u32, PeerAddr)>, excluded: Option<u32>) -> (r: Vec<PeerAddr>)
    ensures
        addrs_view(r@) == sync_targets(sync_view(v@), excluded),
{
    let mut r: Vec<PeerAddr> = Vec::new();
    let mut i: usize = 0;
    while i < v.len()
        invariant
            0 <= i <= v@.len(),
            addrs_view(r@) == sync_targets(sync_view(v@).take(i as int), excluded),
        decreases v@.len() - i,
    {
        assert(sync_view(v@).take(i + 1).drop_last() =~= sync_view(v@).take(i as int));
        let skip = match excluded {
            Some(x) => x == v[i].0,
            None => false,
        };
        if !skip {
            let ghost r0 = addrs_view(r@);
            r.push(copy_addr(&v[i].1));
            assert(addrs_view(r@) =~= r0.push(v@[i as int].1@));
        }
        i = i + 1;
    }
    assert(sync_view(v@).take(v@.len() as int) =~= sync_view(v@));
    r
}

/// A four-byte IPv4 address as a big-endian number.
pub open spec fn be_u32(ip: Seq<u8>) -> u32 {
    (ip[0] * 16777216 + ip[1] * 65536 + ip[2] * 256 + ip[3]) as u32
}

proof fn lemma_digits(a: int, b: int, c: int, d: int)
    requires
        0 <= a < 256,
        0 <= b < 256,
        0 <= c < 256,
        0 <= d < 256,
    ensures
        0 <= a * 16777216 + b * 65536 + c * 256 + d < 0x1_0000_0000,
        (a * 16777216 + b * 65536 + c * 256 + d) / 16777216 == a,
        ((a * 16777216 + b * 65536 + c * 256 + d) / 65536) % 256 == b,
        ((a * 16777216 + b * 65536 + c * 256 + d) / 256) % 256 == c,
        (a * 16777216 + b * 65536 + c * 256 + d) % 256 == d,
{
    let v = a * 16777216 + b * 65536 + c * 256 + d;
    assert(v / 16777216 == a) by (nonlinear_arith)
        requires
            v == a * 16777216 + (b * 65536 + c * 256 + d),
            0 <= b * 65536 + c * 256 + d < 16777216,
    ;
    assert(v / 65536 == a * 256 + b) by (nonlinear_arith)
        requires
            v == (a * 256 + b) * 65536 + (c * 256 + d),
            0 <= c * 256 + d < 65536,
    ;
    assert((a * 256 + b) % 256 == b) by (nonlinear_arith)
        requires
            0 <= b < 256,
            0 <= a,
    ;
    assert(v / 256 == a * 65536 + b * 256 + c) by (nonlinear_arith)
        requires
            v == (a * 65536 + b * 256 + c) * 256 + d,
            0 <= d < 256,
    ;
    assert((a * 65536 + b * 256 + c) % 256 == c) by (nonlinear_arith)
        requires
            0 <= c < 256,
            0 <= a,
            0 <= b,
    ;
    assert(v % 256 == d) by (nonlinear_arith)
        requires
            v == (a * 65536 + b * 256 + c) * 256 + d,
            0 <= d < 256,
            0 <= a,
            0 <= b,
            0 <= c,
    ;
}

/// Law: the number that stands for a four-byte address is its big-endian
/// value: taken apart again, most significant byte first, it gives back the
/// address bytes in order.
pub proof fn lemma_be_u32_bytes(ip: Seq<u8>)
    requires
        ip.len() == 4,
    ensures
        be_u32(ip) / 16777216 == ip[0],
        (be_u32(ip) / 65536) % 256 == ip[1],
        (be_u32(ip) / 256) % 256 == ip[2],
        be_u32(ip) % 256 == ip[3],
{
    lemma_digits(ip[0] as int, ip[1] as int, ip[2] as int, ip[3] as int);
}

/// Law: two four-byte addresses with the same number are the same address.
pub proof fn lemma_be_u32_injective(a: Seq<u8>, b: Seq<u8>)
    requires
        a.len() == 4,
        b.len() == 4,
        be_u32(a) == be_u32(b),
    ensures
        a == b,
{
    lemma_be_u32_bytes(a);
    lemma_be_u32_bytes(b);
    assert(a =~= b);
}

/// The address `ip` (four bytes) as a big-endian number.
pub fn ip_to_u32(ip: &Vec<u8>) -> (r: u32)
    requires
        ip@.len() == 4,
    ensures
        r == be_u32(ip@),
{
    ip[0] as u32 * 16777216 + ip[1] as u32 * 65536 + ip[2] as u32 * 256 + ip[3] as u32
}

/// A packet and the addresses it goes to; `check_downloads` says whether the
/// list of files to fetch should be looked at again; `keep_alive_online` is the
/// notice for the keep-alive service that a peer is now to be watched.
pub struct Dispatch {
    pub packet: Vec<u8>,
    pub targets: Vec<PeerAddr>,
    pub check_downloads: bool,
    pub keep_alive_online: Option<KAToPIMessage>,
}

/// The tracker's side: the global table, and the address on which each
/// registered peer listens for table updates.
pub struct PeersInfoManagerOfTracker {
    peers_info_table: PeersInfoTable,
    sync_addrs: Vec<(u32, PeerAddr)>,
}

pub struct TrackerManagerView {
    pub table: PeersInfoTableView,
    pub sync: Seq<(u32, AddrView)>,
}

impl View for PeersInfoManagerOfTracker {
    type V = TrackerManagerView;

    closed spec fn view(&self) -> TrackerManagerView {
        TrackerManagerView { table: self.peers_info_table@, sync: sync_view(self.sync_addrs@) }
    }
}

impl PeersInfoManagerOfTracker {
    /// The table is well formed.
    pub closed spec fn wf(&self) -> bool {
        self.peers_info_table.wf()
    }

    /// Starts from `peers_info_table`, with no peer to update yet.
    pub fn new(peers_info_table: PeersInfoTable) -> (r: Self)
        requires
            peers_info_table.wf(),
        ensures
            r.wf(),
            r@ == (TrackerManagerView { table: peers_info_table@, sync: Seq::empty() }),
    {
        let r = PeersInfoManagerOfTracker { peers_info_table, sync_addrs: Vec::new() };
        assert(sync_view(r.sync_addrs@) =~= Seq::<(u32, AddrView)>::empty());
        r
    }

    /// A copy of the table.
    pub fn get_snapshot(&self) -> (r: PeersInfoTable)
        requires
            self.wf(),
        ensures
            r.wf(),
            r@ == self@.table,
    {
        self.peers_info_table.get_a_snapshot()
    }

    /// The files the tracker (peer 0) does not hold yet.
    pub fn files_to_download(&self) -> (r: Vec<Vec<u8>>)
        requires
            self.wf(),
        ensures
            byte_seqs(r@).no_duplicates(),
            forall|k: Seq<u8>|
                byte_seqs(r@).contains(k) <==> (self@.table.files.dom().contains(k)
                    && !self@.table.files[k].contains(0u32)),
    {
        self.peers_info_table.get_download_file_sha3_code_list(0)
    }

    /// The tracker found new files of its own: they enter the table as held by
    /// peer 0 and every registered peer is told.
    pub fn on_local_files_added(&mut self, files: Vec<FileMetaInfo>) -> (r: Dispatch)
        requires
            old(self).wf(),
        ensures
            final(self).wf(),
            final(self)@.table == update_files(old(self)@.table, metas_view(files@), 0),
            final(self)@.sync == old(self)@.sync,
            r.packet@ == frame(
                4,
                enc_files_update(PeersInfoUpdateView { peer_id: 0, updated_file_meta_info: metas_view(files@) }),
            ),
            addrs_view(r.targets@) == sync_targets(old(self)@.sync, None),
            !r.check_downloads,
            r.keep_alive_online is None,
    {
        let payload = PeersInfoUpdatePayload::new(0, duplicate_metas(&files)).to_bencode();
        let bytes = match payload {
            Ok(b) => b,
            Err(_) => Vec::new(),
        };
        self.peers_info_table.update_file(files, 0);
        let targets = targets_of(&self.sync_addrs, None);
        Dispatch { packet: make_packet(4, bytes.as_slice()), targets, check_downloads: false, keep_alive_online: None }
    }

    /// A peer registered: it joins the table, and gets back a snapshot with its
    /// id, its address and the keep-alive settings, sent to the port it named.
    pub fn on_peer_registered(
        &mut self,
        peer_info: PeerInfo,
        peer_info_sync_open_port: u16,
        keep_alive_interval: u64,
        keep_alive_manager_open_port: u16,
    ) -> (r: Dispatch)
        requires
            old(self).wf(),
        ensures
            final(self).wf(),
            final(self)@.table == add_peer(old(self)@.table, peer_info@),
            final(self)@.sync == old(self)@.sync,
            r.packet@ == frame(
                3,
                enc_table_set(
                    PeersInfoSetView {
                        keep_alive_interval,
                        keep_alive_manager_open_port,
                        peer_id: peer_info@.peer_id,
                        peer_ip: peer_info@.peer_ip,
                        peers_info_table: final(self)@.table.peers_info,
                    },
                ),
            ),
            addrs_view(r.targets@) == seq![AddrView { ip: peer_info@.peer_ip, port: peer_info_sync_open_port }],
            r.check_downloads,
            r.keep_alive_online is None,
    {
        let peer_id = peer_info.peer_id;
        let peer_ip = copy_bytes(&peer_info.peer_ip);
        let target = PeerAddr { ip: copy_bytes(&peer_info.peer_ip), port: peer_info_sync_open_port };
        self.peers_info_table.add_one_peer_info(peer_info);
        let snapshot = self.peers_info_table.get_a_snapshot();
        let payload = PeersInfoSetPayload::new(
            peer_id,
            peer_ip,
            snapshot,
            keep_alive_interval,
            keep_alive_manager_open_port,
        ).to_bencode();
        let bytes = match payload {
            Ok(b) => b,
            Err(_) => Vec::new(),
        };
        let targets = vec![target];
        assert(addrs_view(targets@) =~= seq![targets@[0]@]);
        Dispatch { packet: make_packet(3, bytes.as_slice()), targets, check_downloads: true, keep_alive_online: None }
    }

    /// The new peer was reached on its sync port: that address is recorded and
    /// the other peers are told of the new peer.
    pub fn on_peer_connected(&mut self, peer_info: &PeerInfo, peer_info_sync_open_port: u16) -> (r: Dispatch)
        requires
            old(self).wf(),
        ensures
            final(self).wf(),
            final(self)@.table == old(self)@.table,
            final(self)@.sync == sync_without(old(self)@.sync, peer_info@.peer_id).push(
                (peer_info@.peer_id, AddrView { ip: peer_info@.peer_ip, port: peer_info_sync_open_port }),
            ),
            r.packet@ == frame(2, enc_peer_add(PeerInfoAddView { peer_info: peer_info@ })),
            addrs_view(r.targets@) == sync_targets(final(self)@.sync, Some(peer_info@.peer_id)),
            !r.check_downloads,
            peer_info@.peer_ip.len() == 4 ==> r.keep_alive_online == Some(
                KAToPIMessage::PeerOnlineMessage { peer_id: peer_info@.peer_id, peer_ip: be_u32(peer_info@.peer_ip) },
            ),
            peer_info@.peer_ip.len() != 4 ==> r.keep_alive_online is None,
    {
        let id = peer_info.peer_id;
        let mut kept = without_peer(&self.sync_addrs, id);
        let ghost k0 = sync_view(kept@);
        let addr = PeerAddr { ip: copy_bytes(&peer_info.peer_ip), port: peer_info_sync_open_port };
        kept.push((id, addr));
        assert(sync_view(kept@) =~= k0.push((id, AddrView { ip: peer_info@.peer_ip, port: peer_info_sync_open_port })));
        self.sync_addrs = kept;
        let payload = PeerInfoAddPayload::new(peer_info.duplicate()).to_bencode();
        let bytes = match payload {
            Ok(b) => b,
            Err(_) => Vec::new(),
        };
        let targets = targets_of(&self.sync_addrs, Some(id));
        let online = if peer_info.peer_ip.len() == 4 {
            Some(KAToPIMessage::new_peer_online_message(id, ip_to_u32(&peer_info.peer_ip)))
        } else {
            None
        };
        Dispatch { packet: make_packet(2, bytes.as_slice()), targets, check_downloads: false, keep_alive_online: online }
    }

    /// Peer `peer_id` reported new files: they enter the table and the other
    /// peers are told.
    pub fn on_peer_files_added(&mut self, peer_id: u32, files: Vec<FileMetaInfo>) -> (r: Dispatch)
        requires
            old(self).wf(),
        ensures
            final(self).wf(),
            final(self)@.table == update_files(old(self)@.table, metas_view(files@), peer_id),
            final(self)@.sync == old(self)@.sync,
            r.packet@ == frame(
                4,
                enc_files_update(PeersInfoUpdateView { peer_id, updated_file_meta_info: metas_view(files@) }),
            ),
            addrs_view(r.targets@) == sync_targets(old(self)@.sync, Some(peer_id)),
            r.check_downloads,
            r.keep_alive_online is None,
    {
        let payload = PeersInfoUpdatePayload::new(peer_id, duplicate_metas(&files)).to_bencode();
        let bytes = match payload {
            Ok(b) => b,
            Err(_) => Vec::new(),
        };
        self.peers_info_table.update_file(files, peer_id);
        let targets = targets_of(&self.sync_addrs, Some(peer_id));
        Dispatch { packet: make_packet(4, bytes.as_slice()), targets, check_downloads: true, keep_alive_online: None }
    }

    /// Peer `peer_id` acquired a piece: the table records it and the other
    /// peers are told.
    pub fn on_peer_piece_acquired(
        &mut self,
        peer_id: u32,
        file_piece_info: FilePieceInfo,
        file_meta_info_with_empty_piece: FileMetaInfo,
    ) -> (r: Dispatch)
        requires
            old(self).wf(),
        ensures
            final(self).wf(),
            final(self)@.table == add_piece(
                old(self)@.table,
                peer_id,
                file_meta_info_with_empty_piece@,
                file_piece_info@,
            ),
            final(self)@.sync == old(self)@.sync,
            r.packet@ == frame(
                8,
                enc_piece_add(
                    FilePieceInfoAddView {
                        file_meta_info_with_empty_piece: file_meta_info_with_empty_piece@,
                        file_piece_info: file_piece_info@,
                        peer_id,
                    },
                ),
            ),
            addrs_view(r.targets@) == sync_targets(old(self)@.sync, Some(peer_id)),
            !r.check_downloads,
            r.keep_alive_online is None,
    {
        let payload = FilePieceInfoAddPayload::new(
            peer_id,
            file_piece_info.duplicate(),
            file_meta_info_with_empty_piece.duplicate(),
        ).to_bencode();
        let bytes = match payload {
            Ok(b) => b,
            Err(_) => Vec::new(),
        };
        self.peers_info_table.add_file_piece_info(peer_id, file_meta_info_with_empty_piece, file_piece_info);
        let targets = targets_of(&self.sync_addrs, Some(peer_id));
        Dispatch { packet: make_packet(8, bytes.as_slice()), targets, check_downloads: false, keep_alive_online: None }
    }

    /// The tracker itself acquired a piece: the table records it as held by
    /// peer 0 and every registered peer is told.
    pub fn on_local_piece_acquired(
        &mut self,
        file_meta_info_with_empty_piece: FileMetaInfo,
        file_piece_info: FilePieceInfo,
    ) -> (r: Dispatch)
        requires
            old(self).wf(),
        ensures
            final(self).wf(),
            final(self)@.table == add_piece(
                old(self)@.table,
                0,
                file_meta_info_with_empty_piece@,
                file_piece_info@,
            ),
            final(self)@.sync == old(self)@.sync,
            r.packet@ == frame(
                8,
                enc_piece_add(
                    FilePieceInfoAddView {
                        file_meta_info_with_empty_piece: file_meta_info_with_empty_piece@,
                        file_piece_info: file_piece_info@,
                        peer_id: 0,
                    },
                ),
            ),
            addrs_view(r.targets@) == sync_targets(old(self)@.sync, None),
            !r.check_downloads,
            r.keep_alive_online is None,
    {
        let payload = FilePieceInfoAddPayload::new(
            0,
            file_piece_info.duplicate(),
            file_meta_info_with_empty_piece.duplicate(),
        ).to_bencode();
        let bytes = match payload {
            Ok(b) => b,
            Err(_) => Vec::new(),
        };
        self.peers_info_table.add_file_piece_info(0, file_meta_info_with_empty_piece, file_piece_info);
        let targets = targets_of(&self.sync_addrs, None);
        Dispatch { packet: make_packet(8, bytes.as_slice()), targets, check_downloads: false, keep_alive_online: None }
    }

    /// Peer `peer_id` stopped answering: it leaves the table and the list of
    /// addresses, and the remaining peers are told.
    pub fn on_peer_dropped(&mut self, peer_id: u32) -> (r: Dispatch)
        requires
            old(self).wf(),
        ensures
            final(self).wf(),
            final(self)@.table == drop_peer(old(self)@.table, peer_id),
            final(self)@.sync == sync_without(old(self)@.sync, peer_id),
            r.packet@ == frame(5, enc_peer_dropped(PeerDroppedView { peer_id })),
            addrs_view(r.targets@) == sync_targets(final(self)@.sync, None),
            !r.check_downloads,
            r.keep_alive_online is None,
    {
        self.peers_info_table.handle_peer_dropped(peer_id);
        self.sync_addrs = without_peer(&self.sync_addrs, peer_id);
        let payload = PeerDroppedPayload::new(peer_id).to_bencode();
        let bytes = match payload {
            Ok(b) => b,
            Err(_) => Vec::new(),
        };
        let targets = targets_of(&self.sync_addrs, None);
        Dispatch { packet: make_packet(5, bytes.as_slice()), targets, check_downloads: false, keep_alive_online: None }
    }
}


/// What a packet from the tracker asks of the peer besides updating the
/// table: whether to look at the files to fetch again, and the keep-alive
/// settings (interval in milliseconds, tracker port) when the keep-alive
/// messages are to start now.
pub struct PeerSyncOutcome {
    pub check_downloads: bool,
    pub start_keep_alive: Option<(u64, u16)>,
}

/// A peer's side: its copy of the global table, the id and address the
/// tracker gave it, and whether it already sends keep-alive messages.
pub struct PeersInfoManagerOfPeer {
    peers_info_table: PeersInfoTable,
    local_peer_id: Option<u32>,
    local_peer_ip: Option<Vec<u8>>,
    keep_alive_started: bool,
}

pub struct PeerManagerView {
    pub table: PeersInfoTableView,
    pub local_peer_id: Option<u32>,
    pub local_peer_ip: Option<Seq<u8>>,
    pub keep_alive_started: bool,
}

impl View for PeersInfoManagerOfPeer {
    type V = PeerManagerView;

    closed spec fn view(&self) -> PeerManagerView {
        PeerManagerView {
            table: self.peers_info_table@,
            local_peer_id: self.local_peer_id,
            local_peer_ip: match self.local_peer_ip {
                Some(ip) => Some(ip@),
                None => None,
            },
            keep_alive_started: self.keep_alive_started,
        }
    }
}

/// The payload holds the encoding of a new peer's announcement.
pub open spec fn peer_add_decodes(p: Seq<u8>) -> bool {
    exists|y: PeerInfoAddView| starts_with(p, #[trigger] enc_peer_add(y)) && peer_add_ok(y)
}

/// The payload holds the encoding of a snapshot.
pub open spec fn table_set_decodes(p: Seq<u8>) -> bool {
    exists|y: PeersInfoSetView| starts_with(p, #[trigger] enc_table_set(y)) && table_set_ok(y)
}

/// The payload holds the encoding of added files.
pub open spec fn files_update_decodes(p: Seq<u8>) -> bool {
    exists|y: PeersInfoUpdateView| starts_with(p, #[trigger] enc_files_update(y))
}

/// The payload holds the encoding of a departure.
pub open spec fn peer_dropped_decodes(p: Seq<u8>) -> bool {
    exists|y: PeerDroppedView| starts_with(p, #[trigger] enc_peer_dropped(y))
}

/// The payload holds the encoding of an acquired piece.
pub open spec fn piece_add_decodes(p: Seq<u8>) -> bool {
    exists|y: FilePieceInfoAddView| starts_with(p, #[trigger] enc_piece_add(y))
}

/// A peer after a snapshot: the table becomes the one the snapshot's peers
/// give; an id and an address already known are kept; the keep-alive
/// messages count as started.
pub open spec fn snapshot_applied(m: PeerManagerView, y: PeersInfoSetView) -> PeerManagerView {
    PeerManagerView {
        table: table_from_peers(y.peers_info_table),
        local_peer_id: if m.local_peer_id is Some {
            m.local_peer_id
        } else {
            Some(y.peer_id)
        },
        local_peer_ip: if m.local_peer_ip is Some {
            m.local_peer_ip
        } else {
            Some(y.peer_ip)
        },
        keep_alive_started: true,
    }
}

/// The keep-alive settings to start with after a snapshot: those of the first
/// one.
pub open spec fn keep_alive_to_start(m: PeerManagerView, y: PeersInfoSetView) -> Option<(u64, u16)> {
    if m.keep_alive_started {
        None
    } else {
        Some((y.keep_alive_interval, y.keep_alive_manager_open_port))
    }
}

impl PeersInfoManagerOfPeer {
    /// The table is well formed.
    pub closed spec fn wf(&self) -> bool {
        self.peers_info_table.wf()
    }

    /// Starts from `peers_info_table`, before the tracker answered.
    pub fn new(peers_info_table: PeersInfoTable) -> (r: Self)
        requires
            peers_info_table.wf(),
        ensures
            r.wf(),
            r@ == (PeerManagerView {
                table: peers_info_table@,
                local_peer_id: None,
                local_peer_ip: None,
                keep_alive_started: false,
            }),
    {
        PeersInfoManagerOfPeer {
            peers_info_table,
            local_peer_id: None,
            local_peer_ip: None,
            keep_alive_started: false,
        }
    }

    /// The id the tracker gave this peer, once known.
    pub fn local_peer_id(&self) -> (r: Option<u32>)
        ensures
            r == self@.local_peer_id,
    {
        self.local_peer_id
    }

    /// A copy of the table.
    pub fn get_snapshot(&self) -> (r: PeersInfoTable)
        requires
            self.wf(),
        ensures
            r.wf(),
            r@ == self@.table,
    {
        self.peers_info_table.get_a_snapshot()
    }

    /// The files this peer does not hold yet.
    pub fn files_to_download(&self) -> (r: Vec<Vec<u8>>)
        requires
            self.wf(),
            self@.local_peer_id is Some,
        ensures
            byte_seqs(r@).no_duplicates(),
            forall|k: Seq<u8>|
                byte_seqs(r@).contains(k) <==> (self@.table.files.dom().contains(k)
                    && !self@.table.files[k].contains(self@.local_peer_id->0)),
    {
        match self.local_peer_id {
            Some(id) => self.peers_info_table.get_download_file_sha3_code_list(id),
            None => Vec::new(),
        }
    }

    /// Handles a packet of type `type_id` from the tracker. A new peer (type
    /// 2) joins the table; a snapshot (type 3) replaces it (see
    /// `snapshot_applied`); added files (type 4) enter it; a departure (type 5)
    /// removes a peer; an acquired piece (type 8) is recorded. A payload that
    /// does not decode, or another type, changes nothing; for a snapshot that
    /// is an error, since the peer cannot go on without one. A new peer, a
    /// snapshot and added files (even broken ones) call for a new look at the
    /// files to fetch.
    pub fn on_tracker_packet(&mut self, type_id: u8, payload: &[u8]) -> (r: Result<PeerSyncOutcome, crate::types::DecodeError>)
        requires
            old(self).wf(),
        ensures
            final(self).wf(),
            r is Err <==> (type_id == 3 && !table_set_decodes(payload@)),
            r matches Ok(o) ==> o.check_downloads == ((type_id == 2 && peer_add_decodes(payload@)) || type_id == 3
                || type_id == 4),
            type_id != 3 ==> (r matches Ok(o) && o.start_keep_alive is None),
            forall|y: PeerInfoAddView|
                type_id == 2 && #[trigger] starts_with(payload@, enc_peer_add(y)) && peer_add_ok(y) ==> final(self)@ == (PeerManagerView {
                    table: add_peer(old(self)@.table, y.peer_info),
                    ..old(self)@
                }),
            forall|y: PeersInfoSetView|
                type_id == 3 && #[trigger] starts_with(payload@, enc_table_set(y)) && table_set_ok(y) ==> final(self)@ == snapshot_applied(
                    old(self)@,
                    y,
                ) && (r matches Ok(o) && o.start_keep_alive == keep_alive_to_start(old(self)@, y)),
            forall|y: PeersInfoUpdateView|
                type_id == 4 && #[trigger] starts_with(payload@, enc_files_update(y)) ==> final(self)@ == (PeerManagerView {
                    table: update_files(old(self)@.table, y.updated_file_meta_info, y.peer_id),
                    ..old(self)@
                }),
            forall|y: PeerDroppedView|
                type_id == 5 && #[trigger] starts_with(payload@, enc_peer_dropped(y)) ==> final(self)@ == (PeerManagerView {
                    table: drop_peer(old(self)@.table, y.peer_id),
                    ..old(self)@
                }),
            forall|y: FilePieceInfoAddView|
                type_id == 8 && #[trigger] starts_with(payload@, enc_piece_add(y)) ==> final(self)@ == (PeerManagerView {
                    table: add_piece(
                        old(self)@.table,
                        y.peer_id,
                        y.file_meta_info_with_empty_piece,
                        y.file_piece_info,
                    ),
                    ..old(self)@
                }),
            (type_id == 2 && !peer_add_decodes(payload@)) || (type_id == 3 && !table_set_decodes(payload@)) || (
            type_id == 4 && !files_update_decodes(payload@)) || (type_id == 5 && !peer_dropped_decodes(payload@))
                || (type_id == 8 && !piece_add_decodes(payload@)) || (type_id != 2 && type_id != 3 && type_id != 4
                && type_id != 5 && type_id != 8) ==> final(self)@ == old(self)@,
    {
        if type_id == 2 {
            let d = self.apply_peer_add(payload);
            Ok(PeerSyncOutcome { check_downloads: d, start_keep_alive: None })
        } else if type_id == 3 {
            self.apply_table_set(payload)
        } else if type_id == 4 {
            self.apply_files_update(payload);
            Ok(PeerSyncOutcome { check_downloads: true, start_keep_alive: None })
        } else if type_id == 5 {
            self.apply_peer_dropped(payload);
            Ok(PeerSyncOutcome { check_downloads: false, start_keep_alive: None })
        } else if type_id == 8 {
            self.apply_piece_add(payload);
            Ok(PeerSyncOutcome { check_downloads: false, start_keep_alive: None })
        } else {
            Ok(PeerSyncOutcome { check_downloads: false, start_keep_alive: None })
        }
    }

    fn apply_peer_add(&mut self, payload: &[u8]) -> (d: bool)
        requires
            old(self).wf(),
        ensures
            final(self).wf(),
            d == peer_add_decodes(payload@),
            forall|y: PeerInfoAddView|
                #[trigger] starts_with(payload@, enc_peer_add(y)) && peer_add_ok(y) ==> final(self)@ == (PeerManagerView {
                    table: add_peer(old(self)@.table, y.peer_info),
                    ..old(self)@
                }),
            !peer_add_decodes(payload@) ==> final(self)@ == old(self)@,
    {
        match PeerInfoAddPayload::from_bencode(payload) {
            Ok(p) => {
                assert(starts_with(payload@, enc_peer_add(p@)));
                let info = p.get_inner_peer_info();
                self.peers_info_table.add_one_peer_info(info);
                true
            },
            Err(_) => false,
        }
    }

    fn apply_table_set(&mut self, payload: &[u8]) -> (r: Result<PeerSyncOutcome, crate::types::DecodeError>)
        requires
            old(self).wf(),
        ensures
            final(self).wf(),
            r is Err <==> !table_set_decodes(payload@),
            r is Err ==> final(self)@ == old(self)@,
            r matches Ok(o) ==> o.check_downloads,
            forall|y: PeersInfoSetView|
                #[trigger] starts_with(payload@, enc_table_set(y)) && table_set_ok(y) ==> final(self)@ == snapshot_applied(old(self)@, y) && (
                r matches Ok(o) && o.start_keep_alive == keep_alive_to_start(old(self)@, y)),
    {
        match PeersInfoSetPayload::from_bencode(payload) {
            Ok(p) => {
                assert(starts_with(payload@, enc_table_set(p@)));
                if self.local_peer_id.is_none() {
                    self.local_peer_id = Some(p.get_peer_id());
                }
                if self.local_peer_ip.is_none() {
                    self.local_peer_ip = Some(p.get_peer_ip());
                }
                let table = p.get_peers_info_table();
                self.peers_info_table.update_from_set_peer_info_table_packet(table);
                let start = if self.keep_alive_started {
                    None
                } else {
                    Some((p.get_keep_alive_interval(), p.get_keep_alive_manager_open_port()))
                };
                self.keep_alive_started = true;
                Ok(PeerSyncOutcome { check_downloads: true, start_keep_alive: start })
            },
            Err(e) => Err(e),
        }
    }

    fn apply_files_update(&mut self, payload: &[u8])
        requires
            old(self).wf(),
        ensures
            final(self).wf(),
            forall|y: PeersInfoUpdateView|
                #[trigger] starts_with(payload@, enc_files_update(y)) ==> final(self)@ == (PeerManagerView {
                    table: update_files(old(self)@.table, y.updated_file_meta_info, y.peer_id),
                    ..old(self)@
                }),
            !files_update_decodes(payload@) ==> final(self)@ == old(self)@,
    {
        match PeersInfoUpdatePayload::from_bencode(payload) {
            Ok(p) => {
                assert(starts_with(payload@, enc_files_update(p@)));
                let id = p.get_peer_id();
                let files = p.get_updated_file_meta_info();
                self.peers_info_table.update_file(files, id);
            },
            Err(_) => {},
        }
    }

    fn apply_peer_dropped(&mut self, payload: &[u8])
        requires
            old(self).wf(),
        ensures
            final(self).wf(),
            forall|y: PeerDroppedView|
                #[trigger] starts_with(payload@, enc_peer_dropped(y)) ==> final(self)@ == (PeerManagerView {
                    table: drop_peer(old(self)@.table, y.peer_id),
                    ..old(self)@
                }),
            !peer_dropped_decodes(payload@) ==> final(self)@ == old(self)@,
    {
        match PeerDroppedPayload::from_bencode(payload) {
            Ok(p) => {
                assert(starts_with(payload@, enc_peer_dropped(p@)));
                self.peers_info_table.handle_peer_dropped(p.get_dropped_peer_id());
            },
            Err(_) => {},
        }
    }

    fn apply_piece_add(&mut self, payload: &[u8])
        requires
            old(self).wf(),
        ensures
            final(self).wf(),
            forall|y: FilePieceInfoAddView|
                #[trigger] starts_with(payload@, enc_piece_add(y)) ==> final(self)@ == (PeerManagerView {
                    table: add_piece(
                        old(self)@.table,
                        y.peer_id,
                        y.file_meta_info_with_empty_piece,
                        y.file_piece_info,
                    ),
                    ..old(self)@
                }),
            !piece_add_decodes(payload@) ==> final(self)@ == old(self)@,
    {
        match FilePieceInfoAddPayload::from_bencode(payload) {
            Ok(p) => {
                assert(starts_with(payload@, enc_piece_add(p@)));
                let (id, piece, meta) = p.get_inner_info();
                self.peers_info_table.add_file_piece_info(id, meta, piece);
            },
            Err(_) => {},
        }
    }

    /// This peer found new files of its own. Before the tracker gave it an id
    /// nothing happens; after, the files enter the table as held by this peer
    /// and the packet that tells the tracker is returned.
    pub fn on_local_files_added(&mut self, files: Vec<FileMetaInfo>) -> (r: Option<Vec<u8>>)
        requires
            old(self).wf(),
        ensures
            final(self).wf(),
            old(self)@.local_peer_id is None ==> r is None && final(self)@ == old(self)@,
            old(self)@.local_peer_id matches Some(id) ==> r matches Some(b) && b@ == frame(
                4,
                enc_files_update(PeersInfoUpdateView { peer_id: id, updated_file_meta_info: metas_view(files@) }),
            ) && final(self)@ == (PeerManagerView {
                table: update_files(old(self)@.table, metas_view(files@), id),
                ..old(self)@
            }),
    {
        match self.local_peer_id {
            None => None,
            Some(id) => {
                let payload = PeersInfoUpdatePayload::new(id, duplicate_metas(&files)).to_bencode();
                let bytes = match payload {
                    Ok(b) => b,
                    Err(_) => Vec::new(),
                };
                self.peers_info_table.update_file(files, id);
                Some(make_packet(4, bytes.as_slice()))
            },
        }
    }

    /// This peer acquired a piece: the table records it as held by this peer,
    /// and the packet that tells the tracker is returned.
    pub fn on_local_piece_acquired(
        &mut self,
        file_meta_info_with_empty_piece: FileMetaInfo,
        file_piece_info: FilePieceInfo,
    ) -> (r: Vec<u8>)
        requires
            old(self).wf(),
            old(self)@.local_peer_id is Some,
        ensures
            final(self).wf(),
            final(self)@ == (PeerManagerView {
                table: add_piece(
                    old(self)@.table,
                    old(self)@.local_peer_id->0,
                    file_meta_info_with_empty_piece@,
                    file_piece_info@,
                ),
                ..old(self)@
            }),
            r@ == frame(
                8,
                enc_piece_add(
                    FilePieceInfoAddView {
                        file_meta_info_with_empty_piece: file_meta_info_with_empty_piece@,
                        file_piece_info: file_piece_info@,
                        peer_id: old(self)@.local_peer_id->0,
                    },
                ),
            ),
    {
        let id = match self.local_peer_id {
            Some(id) => id,
            None => 0,
        };
        let payload = FilePieceInfoAddPayload::new(
            id,
            file_piece_info.duplicate(),
            file_meta_info_with_empty_piece.duplicate(),
        ).to_bencode();
        let bytes = match payload {
            Ok(b) => b,
            Err(_) => Vec::new(),
        };
        self.peers_info_table.add_file_piece_info(id, file_meta_info_with_empty_piece, file_piece_info);
        make_packet(8, bytes.as_slice())
    }
}

/// Law: the packets the tracker broadcasts never go back to the peer they
/// are about: every address in `sync_targets(s, Some(x))` is the address of
/// some other peer in `s`, and every other peer's address is there.
pub proof fn lemma_broadcast_skips_origin(s: Seq<(u32, AddrView)>, x: u32)
    ensures
        forall|k: int|
            0 <= k < sync_targets(s, Some(x)).len() ==> exists|j: int|
                0 <= j < s.len() && s[j].0 != x && s[j].1 == #[trigger] sync_targets(s, Some(x))[k],
        forall|j: int| 0 <= j < s.len() && s[j].0 != x ==> sync_targets(s, Some(x)).contains(#[trigger] s[j].1),
    decreases s.len(),
{
    if s.len() > 0 {
        let d = s.drop_last();
        lemma_broadcast_skips_origin(d, x);
        let r = sync_targets(d, Some(x));
        assert forall|k: int| 0 <= k < sync_targets(s, Some(x)).len() implies exists|j: int|
            0 <= j < s.len() && s[j].0 != x && s[j].1 == #[trigger] sync_targets(s, Some(x))[k] by {
            if k < r.len() {
                let j = choose|j: int| 0 <= j < d.len() && d[j].0 != x && d[j].1 == #[trigger] r[k];
                assert(s[j] == d[j]);
            } else {
                assert(s[s.len() - 1] == s.last());
            }
        }
        assert forall|j: int| 0 <= j < s.len() && s[j].0 != x implies sync_targets(s, Some(x)).contains(
            #[trigger] s[j].1,
        ) by {
            if j < d.len() {
                assert(d[j] == s[j]);
                assert(r.contains(d[j].1));
                crate::peers_info_table::lemma_push_contains(r, s.last().1, s[j].1);
            } else {
                assert(s[j] == s.last());
                crate::peers_info_table::lemma_push_contains(r, s.last().1, s[j].1);
            }
        }
    }
}

/// Law: a peer that registers with a tracker whose table was built from its
/// peers (as `PeersInfoTable::tracker_new` and each further registration
/// keep it), and then applies the snapshot the tracker sends back, holds
/// exactly the tracker's table.
pub proof fn lemma_registration_syncs_tables(
    ps: Seq<PeerView>,
    p: PeerView,
    m: PeerManagerView,
    keep_alive_interval: u64,
    keep_alive_manager_open_port: u16,
)
    requires
        crate::types::peers_ok(ps),
        crate::types::peer_ok(p),
    ensures
        ({
            let tracker = add_peer(table_from_peers(ps), p);
            let y = PeersInfoSetView {
                keep_alive_interval,
                keep_alive_manager_open_port,
                peer_id: p.peer_id,
                peer_ip: p.peer_ip,
                peers_info_table: tracker.peers_info,
            };
            &&& tracker == table_from_peers(ps.push(p))
            &&& starts_with(enc_table_set(y), enc_table_set(y))
            &&& table_set_ok(y)
            &&& snapshot_applied(m, y).table == tracker
        }),
{
    crate::peers_info_table::lemma_add_peer_rebuilds(ps, p);
    let tracker = add_peer(table_from_peers(ps), p);
    let y = PeersInfoSetView {
        keep_alive_interval,
        keep_alive_manager_open_port,
        peer_id: p.peer_id,
        peer_ip: p.peer_ip,
        peers_info_table: tracker.peers_info,
    };
    crate::bencode::lemma_encoding_prefix(enc_table_set(y), Seq::empty());
    assert(enc_table_set(y) + Seq::<u8>::empty() =~= enc_table_set(y));
    assert(crate::types::peers_ok(ps.push(p))) by {
        assert forall|i: int| 0 <= i < ps.push(p).len() implies #[trigger] crate::types::peer_ok(ps.push(p)[i]) by {
            if i < ps.len() {
                assert(ps.push(p)[i] == ps[i]);
            }
        }
    }
}

/// A change of the global table, as the tracker makes it and tells the peers.
pub enum TableOp {
    AddPeer(PeerView),
    UpdateFiles(u32, Seq<MetaView>),
    DropPeer(u32),
    AddPiece(u32, MetaView, PieceView),
}

/// The table after one change.
pub open spec fn apply_op(t: PeersInfoTableView, op: TableOp) -> PeersInfoTableView {
    match op {
        TableOp::AddPeer(p) => add_peer(t, p),
        TableOp::UpdateFiles(id, ms) => update_files(t, ms, id),
        TableOp::DropPeer(id) => drop_peer(t, id),
        TableOp::AddPiece(id, meta, piece) => add_piece(t, id, meta, piece),
    }
}

/// The table after a run of changes, in order.
pub open spec fn apply_ops(t: PeersInfoTableView, ops: Seq<TableOp>) -> PeersInfoTableView
    decreases ops.len(),
{
    if ops.len() == 0 {
        t
    } else {
        apply_op(apply_ops(t, ops.drop_last()), ops.last())
    }
}

/// The type and payload of the packet the tracker sends the peers for a
/// change (see the packets of `PeersInfoManagerOfTracker`'s handlers).
pub open spec fn op_packet(op: TableOp) -> (u8, Seq<u8>) {
    match op {
        TableOp::AddPeer(p) => (2u8, enc_peer_add(PeerInfoAddView { peer_info: p })),
        TableOp::UpdateFiles(id, ms) => (
            4u8,
            enc_files_update(PeersInfoUpdateView { peer_id: id, updated_file_meta_info: ms }),
        ),
        TableOp::DropPeer(id) => (5u8, enc_peer_dropped(PeerDroppedView { peer_id: id })),
        TableOp::AddPiece(id, meta, piece) => (
            8u8,
            enc_piece_add(
                FilePieceInfoAddView { file_meta_info_with_empty_piece: meta, file_piece_info: piece, peer_id: id },
            ),
        ),
    }
}

/// A change the tracker can announce: a new peer has a four-byte address.
pub open spec fn op_ok(op: TableOp) -> bool {
    match op {
        TableOp::AddPeer(p) => crate::types::peer_ok(p),
        _ => true,
    }
}

/// The packet for `op` is one that `on_tracker_packet` reads back as `op`:
/// its payload starts with the encoding of that very change, which is valid.
pub open spec fn op_packet_reads_back(op: TableOp) -> bool {
    let (t, payload) = op_packet(op);
    match op {
        TableOp::AddPeer(p) => t == 2 && starts_with(payload, enc_peer_add(PeerInfoAddView { peer_info: p }))
            && peer_add_ok(PeerInfoAddView { peer_info: p }),
        TableOp::UpdateFiles(id, ms) => t == 4 && starts_with(
            payload,
            enc_files_update(PeersInfoUpdateView { peer_id: id, updated_file_meta_info: ms }),
        ),
        TableOp::DropPeer(id) => t == 5 && starts_with(payload, enc_peer_dropped(PeerDroppedView { peer_id: id })),
        TableOp::AddPiece(id, meta, piece) => t == 8 && starts_with(
            payload,
            enc_piece_add(
                FilePieceInfoAddView { file_meta_info_with_empty_piece: meta, file_piece_info: piece, peer_id: id },
            ),
        ),
    }
}

/// Every payload starts with itself.
proof fn lemma_starts_with_self(e: Seq<u8>)
    ensures
        starts_with(e, e),
{
    crate::bencode::lemma_encoding_prefix(e, Seq::empty());
    assert(e + Seq::<u8>::empty() =~= e);
}

/// Law: take a tracker's table that a history made as the protocol has it left
/// (see `lemma_tracker_stays_consistent`), and a snapshot of it. A peer that
/// applies the snapshot and then, in order, the changes the tracker makes
/// afterwards (each told by the packet `op_packet`, which the peer reads back
/// as that change) holds, after every change, a table alike to the tracker's:
/// the same peers, addresses and digests with records, and the same holders of
/// each file and piece, each as many times, in possibly another order.
pub proof fn lemma_peer_follows_tracker(
    tracker: PeersInfoTableView,
    m: PeerManagerView,
    y: PeersInfoSetView,
    ops: Seq<TableOp>,
)
    requires
        consistent(tracker),
        crate::types::peers_ok(tracker.peers_info),
        y.peers_info_table == tracker.peers_info,
        forall|i: int| 0 <= i < ops.len() ==> op_ok(#[trigger] ops[i]),
    ensures
        starts_with(enc_table_set(y), enc_table_set(y)),
        table_set_ok(y),
        snapshot_applied(m, y).table == table_from_peers(tracker.peers_info),
        forall|i: int| 0 <= i < ops.len() ==> op_packet_reads_back(#[trigger] ops[i]),
        forall|k: int| 0 <= k <= ops.len() ==> alike(
            #[trigger] apply_ops(snapshot_applied(m, y).table, ops.take(k)),
            apply_ops(tracker, ops.take(k)),
        ),
{
    lemma_starts_with_self(enc_table_set(y));
    lemma_alike_symm(tracker, table_from_peers(tracker.peers_info));
    assert forall|i: int| 0 <= i < ops.len() implies op_packet_reads_back(#[trigger] ops[i]) by {
        assert(op_ok(ops[i]));
        lemma_starts_with_self(op_packet(ops[i]).1);
    }
    assert forall|k: int| 0 <= k <= ops.len() implies alike(
        #[trigger] apply_ops(snapshot_applied(m, y).table, ops.take(k)),
        apply_ops(tracker, ops.take(k)),
    ) by {
        lemma_alike_apply_ops(table_from_peers(tracker.peers_info), tracker, ops.take(k));
    }
}

} // verus!
