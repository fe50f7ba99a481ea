//! The global information table that the tracker keeps and every peer copies:
//! the peers, and indexes of who holds which file and which piece.
use vstd::prelude::*;
use crate::bencode::{enc_bytes, starts_with, write_byte, write_bytes};
use crate::bytes_map::{byte_seqs, bytes_eq_vec, copy_bytes, copy_ids, BytesMap, IdMap};
use crate::types::{
    duplicate_peers, enc_table, peers_ok, peers_view, read_table_wire, write_peers, DecodeError,
    EncodeError, FileMetaInfo, FilePieceInfo, MetaView, PeerInfo, PeerView, PieceView,
    TableWireView,
};

verus! {

/// An IPv4 address and a port, as a peer is reached.
#[derive(Debug, Clone, PartialEq, Eq)]
pub struct PeerAddr {
    pub ip: Vec<u8>,
    pub port: u16,
}

pub struct AddrView {
    pub ip: Seq<u8>,
    pub port: u16,
}

impl View for PeerAddr {
    type V = AddrView;

    open spec fn view(&self) -> AddrView {
        AddrView { ip: self.ip@, port: self.port }
    }
}

/// The global table.
pub struct PeersInfoTable {
    peers_info: Vec<PeerInfo>,
    file_meta_info_hash_map: BytesMap<FileMetaInfo>,
    files_info_hash_map: BytesMap<Vec<u32>>,
    files_piece_info_hash_map: BytesMap<Vec<u32>>,
    peer_socket_addr_hash_map: IdMap<PeerAddr>,
}

/// What the table holds: the peers in the order they joined; the record of
/// each file by its digest (the first one seen); the ids of the holders of each
/// file and of each piece, in the order they were registered; the address of
/// each peer by its id.
pub struct PeersInfoTableView {
    pub peers_info: Seq<PeerView>,
    pub file_meta: Map<Seq<u8>, MetaView>,
    pub files: Map<Seq<u8>, Seq<u32>>,
    pub pieces: Map<Seq<u8>, Seq<u32>>,
    pub addrs: Map<u32, AddrView>,
}

impl View for PeersInfoTable {
    type V = PeersInfoTableView;

    closed spec fn view(&self) -> PeersInfoTableView {
        PeersInfoTableView {
            peers_info: peers_view(self.peers_info@),
            file_meta: self.file_meta_info_hash_map.map(),
            files: self.files_info_hash_map.map(),
            pieces: self.files_piece_info_hash_map.map(),
            addrs: self.peer_socket_addr_hash_map.map(),
        }
    }
}

/// The holders of `k` in `m`, none when `k` is not a key.
pub open spec fn owners(m: Map<Seq<u8>, Seq<u32>>, k: Seq<u8>) -> Seq<u32> {
    if m.dom().contains(k) {
        m[k]
    } else {
        Seq::empty()
    }
}

/// `id` appended to the holders of `k`.
pub open spec fn add_owner(m: Map<Seq<u8>, Seq<u32>>, k: Seq<u8>, id: u32) -> Map<Seq<u8>, Seq<u32>> {
    m.insert(k, owners(m, k).push(id))
}

pub open spec fn piece_owner_step(id: u32) -> spec_fn(Map<Seq<u8>, Seq<u32>>, PieceView) -> Map<
    Seq<u8>,
    Seq<u32>,
> {
    |m: Map<Seq<u8>, Seq<u32>>, p: PieceView| add_owner(m, p.sha3_code, id)
}

/// `id` appended to the holders of each piece in turn.
pub open spec fn add_piece_owners(m: Map<Seq<u8>, Seq<u32>>, ps: Seq<PieceView>, id: u32) -> Map<
    Seq<u8>,
    Seq<u32>,
> {
    ps.fold_left(m, piece_owner_step(id))
}

/// A file held by `id` entered into the indexes: its record when its digest is
/// new, `id` among its holders and among the holders of each of its pieces.
pub open spec fn register_file(t: PeersInfoTableView, m: MetaView, id: u32) -> PeersInfoTableView {
    PeersInfoTableView {
        file_meta: if t.file_meta.dom().contains(m.sha3_code) {
            t.file_meta
        } else {
            t.file_meta.insert(m.sha3_code, m)
        },
        files: add_owner(t.files, m.sha3_code, id),
        pieces: add_piece_owners(t.pieces, m.pieces_info, id),
        ..t
    }
}

pub open spec fn file_step(id: u32) -> spec_fn(PeersInfoTableView, MetaView) -> PeersInfoTableView {
    |t: PeersInfoTableView, m: MetaView| register_file(t, m, id)
}

/// Files held by `id` entered into the indexes in turn.
pub open spec fn register_files(t: PeersInfoTableView, ms: Seq<MetaView>, id: u32) -> PeersInfoTableView {
    ms.fold_left(t, file_step(id))
}

pub open spec fn peer_addr(p: PeerView) -> AddrView {
    AddrView { ip: p.peer_ip, port: p.peer_open_port }
}

/// A peer entered into the indexes: its address, then its files.
pub open spec fn register_peer(t: PeersInfoTableView, p: PeerView) -> PeersInfoTableView {
    register_files(
        PeersInfoTableView { addrs: t.addrs.insert(p.peer_id, peer_addr(p)), ..t },
        p.peer_file_meta_info_report,
        p.peer_id,
    )
}

pub open spec fn peer_step() -> spec_fn(PeersInfoTableView, PeerView) -> PeersInfoTableView {
    |t: PeersInfoTableView, p: PeerView| register_peer(t, p)
}

pub open spec fn empty_table() -> PeersInfoTableView {
    PeersInfoTableView {
        peers_info: Seq::empty(),
        file_meta: Map::empty(),
        files: Map::empty(),
        pieces: Map::empty(),
        addrs: Map::empty(),
    }
}

/// The table that holds exactly `ps`, with indexes built peer by peer.
pub open spec fn table_from_peers(ps: Seq<PeerView>) -> PeersInfoTableView {
    PeersInfoTableView { peers_info: ps, ..ps.fold_left(empty_table(), peer_step()) }
}

/// `t` after a new peer joined.
pub open spec fn add_peer(t: PeersInfoTableView, p: PeerView) -> PeersInfoTableView {
    PeersInfoTableView { peers_info: t.peers_info.push(p), ..register_peer(t, p) }
}


/// The peers with `ms` appended to the files of each peer whose id is `id`.
pub open spec fn extend_reports(ps: Seq<PeerView>, id: u32, ms: Seq<MetaView>) -> Seq<PeerView> {
    ps.map_values(
        |p: PeerView|
            if p.peer_id == id {
                PeerView { peer_file_meta_info_report: p.peer_file_meta_info_report + ms, ..p }
            } else {
                p
            },
    )
}

/// `t` after peer `id` reported new files `ms`.
pub open spec fn update_files(t: PeersInfoTableView, ms: Seq<MetaView>, id: u32) -> PeersInfoTableView {
    PeersInfoTableView { peers_info: extend_reports(t.peers_info, id, ms), ..register_files(t, ms, id) }
}

/// `r` holds a file with digest `code`.
pub open spec fn has_meta(r: Seq<MetaView>, code: Seq<u8>) -> bool {
    exists|j: int| 0 <= j < r.len() && #[trigger] r[j].sha3_code == code
}

/// `j` is the first position in `r` of a file with digest `code`.
pub open spec fn is_first_meta(r: Seq<MetaView>, code: Seq<u8>, j: int) -> bool {
    &&& 0 <= j < r.len()
    &&& r[j].sha3_code == code
    &&& forall|k: int| 0 <= k < j ==> #[trigger] r[k].sha3_code != code
}

pub open spec fn first_meta(r: Seq<MetaView>, code: Seq<u8>) -> int {
    choose|j: int| is_first_meta(r, code, j)
}

pub proof fn lemma_first_meta_unique(r: Seq<MetaView>, code: Seq<u8>, j: int)
    requires
        is_first_meta(r, code, j),
    ensures
        has_meta(r, code),
        first_meta(r, code) == j,
{
    assert(r[j].sha3_code == code);
    let k = first_meta(r, code);
    assert(is_first_meta(r, code, k));
    if k < j {
        assert(r[k].sha3_code != code);
    }
    if j < k {
        assert(r[j].sha3_code != code);
    }
}

/// What adding a downloaded piece has done after some of the peers.
pub struct PieceAddState {
    pub peers: Seq<PeerView>,
    pub files: Map<Seq<u8>, Seq<u32>>,
    pub meta: MetaView,
}

/// One peer passed while adding `piece` of the file with digest `code` to
/// peer `id`: a peer with another id stays; for peer `id`, the piece joins the
/// first record of the file, or, where it has none, the file (with the piece)
/// joins its files and `id` the holders of the file.
pub open spec fn piece_step(id: u32, code: Seq<u8>, piece: PieceView) -> spec_fn(PieceAddState, PeerView) -> PieceAddState {
    |st: PieceAddState, p: PeerView|
        if p.peer_id != id {
            PieceAddState { peers: st.peers.push(p), ..st }
        } else if has_meta(p.peer_file_meta_info_report, code) {
            let j = first_meta(p.peer_file_meta_info_report, code);
            let m = p.peer_file_meta_info_report[j];
            PieceAddState {
                peers: st.peers.push(
                    PeerView {
                        peer_file_meta_info_report: p.peer_file_meta_info_report.update(
                            j,
                            MetaView { pieces_info: m.pieces_info.push(piece), ..m },
                        ),
                        ..p
                    },
                ),
                ..st
            }
        } else {
            let m2 = MetaView { pieces_info: st.meta.pieces_info.push(piece), ..st.meta };
            PieceAddState {
                peers: st.peers.push(
                    PeerView { peer_file_meta_info_report: p.peer_file_meta_info_report.push(m2), ..p },
                ),
                files: add_owner(st.files, code, id),
                meta: m2,
            }
        }
}

/// `t` after peer `id` got `piece` of the file `meta` (a record of the file
/// whose own pieces are not taken into account): the peers pass in turn as
/// `piece_step` says, then `id` joins the holders of the piece.
pub open spec fn add_piece(t: PeersInfoTableView, id: u32, meta: MetaView, piece: PieceView) -> PeersInfoTableView {
    let st = t.peers_info.fold_left(
        PieceAddState { peers: Seq::empty(), files: t.files, meta },
        piece_step(id, meta.sha3_code, piece),
    );
    PeersInfoTableView {
        peers_info: st.peers,
        files: st.files,
        pieces: add_owner(t.pieces, piece.sha3_code, id),
        ..t
    }
}

/// `i` is the first position of `d` in `l`.
pub open spec fn is_first_pos(l: Seq<u32>, d: u32, i: int) -> bool {
    &&& 0 <= i < l.len()
    &&& l[i] == d
    &&& forall|k: int| 0 <= k < i ==> #[trigger] l[k] != d
}

pub open spec fn first_pos(l: Seq<u32>, d: u32) -> int {
    choose|i: int| is_first_pos(l, d, i)
}

pub proof fn lemma_first_pos_unique(l: Seq<u32>, d: u32, i: int)
    requires
        is_first_pos(l, d, i),
    ensures
        l.contains(d),
        first_pos(l, d) == i,
{
    assert(l[i] == d);
    let k = first_pos(l, d);
    assert(is_first_pos(l, d, k));
    if k < i {
        assert(l[k] != d);
    }
    if i < k {
        assert(l[i] != d);
    }
}

/// The first occurrence of `d` taken out of the holders of `k`; a key left
/// without holders goes.
pub open spec fn drop_owner(m: Map<Seq<u8>, Seq<u32>>, k: Seq<u8>, d: u32) -> Map<Seq<u8>, Seq<u32>> {
    if m.dom().contains(k) && m[k].contains(d) {
        let l = m[k].remove(first_pos(m[k], d));
        if l.len() == 0 {
            m.remove(k)
        } else {
            m.insert(k, l)
        }
    } else {
        m
    }
}

/// `d` is the only holder of `k`, once.
pub open spec fn only_owner(m: Map<Seq<u8>, Seq<u32>>, k: Seq<u8>, d: u32) -> bool {
    m.dom().contains(k) && m[k] == seq![d]
}

/// The indexes while a peer is taken out.
pub struct DropState {
    pub file_meta: Map<Seq<u8>, MetaView>,
    pub files: Map<Seq<u8>, Seq<u32>>,
    pub pieces: Map<Seq<u8>, Seq<u32>>,
}

pub open spec fn piece_drop_step(d: u32) -> spec_fn(Map<Seq<u8>, Seq<u32>>, PieceView) -> Map<Seq<u8>, Seq<u32>> {
    |m: Map<Seq<u8>, Seq<u32>>, p: PieceView| drop_owner(m, p.sha3_code, d)
}

/// One file record passed while taking out `d`: `d` leaves the holders of the
/// file (with the file's record when it was its only holder) and the holders
/// of each of its pieces.
pub open spec fn drop_meta(st: DropState, m: MetaView, d: u32) -> DropState {
    DropState {
        file_meta: if only_owner(st.files, m.sha3_code, d) {
            st.file_meta.remove(m.sha3_code)
        } else {
            st.file_meta
        },
        files: drop_owner(st.files, m.sha3_code, d),
        pieces: m.pieces_info.fold_left(st.pieces, piece_drop_step(d)),
    }
}

pub open spec fn meta_drop_step(d: u32) -> spec_fn(DropState, MetaView) -> DropState {
    |st: DropState, m: MetaView| drop_meta(st, m, d)
}

pub open spec fn peer_drop_step(d: u32) -> spec_fn(DropState, PeerView) -> DropState {
    |st: DropState, p: PeerView| p.peer_file_meta_info_report.fold_left(st, meta_drop_step(d))
}

/// `i` is the last position of a peer with id `d`.
pub open spec fn is_last_peer(ps: Seq<PeerView>, d: u32, i: int) -> bool {
    &&& 0 <= i < ps.len()
    &&& ps[i].peer_id == d
    &&& forall|k: int| i < k < ps.len() ==> #[trigger] ps[k].peer_id != d
}

pub open spec fn has_peer(ps: Seq<PeerView>, d: u32) -> bool {
    exists|i: int| 0 <= i < ps.len() && #[trigger] ps[i].peer_id == d
}

/// The peers without the last one whose id is `d`.
pub open spec fn drop_peer_entry(ps: Seq<PeerView>, d: u32) -> Seq<PeerView> {
    if has_peer(ps, d) {
        ps.remove(choose|i: int| is_last_peer(ps, d, i))
    } else {
        ps
    }
}

pub proof fn lemma_last_peer_unique(ps: Seq<PeerView>, d: u32, i: int)
    requires
        is_last_peer(ps, d, i),
    ensures
        has_peer(ps, d),
        (choose|k: int| is_last_peer(ps, d, k)) == i,
{
    assert(ps[i].peer_id == d);
    let k = choose|k: int| is_last_peer(ps, d, k);
    assert(is_last_peer(ps, d, k));
    if k < i {
        assert(ps[i].peer_id != d);
    }
    if i < k {
        assert(ps[k].peer_id != d);
    }
}

/// `t` after peer `d` dropped: its address goes; for every file record of
/// every peer, in turn, `drop_meta`; the last peer with id `d` goes.
pub open spec fn drop_peer(t: PeersInfoTableView, d: u32) -> PeersInfoTableView {
    let st = t.peers_info.fold_left(
        DropState { file_meta: t.file_meta, files: t.files, pieces: t.pieces },
        peer_drop_step(d),
    );
    PeersInfoTableView {
        peers_info: drop_peer_entry(t.peers_info, d),
        file_meta: st.file_meta,
        files: st.files,
        pieces: st.pieces,
        addrs: t.addrs.remove(d),
    }
}

/// Entering files into the indexes neither reads nor changes the list of peers.
proof fn lemma_register_files_frame(t: PeersInfoTableView, ms: Seq<MetaView>, id: u32, x: Seq<PeerView>)
    ensures
        register_files(PeersInfoTableView { peers_info: x, ..t }, ms, id) == (PeersInfoTableView {
            peers_info: x,
            ..register_files(t, ms, id)
        }),
    decreases ms.len(),
{
    if ms.len() > 0 {
        lemma_register_files_frame(t, ms.drop_last(), id, x);
    }
}

/// Law: a peer joining the table built from some peers gives the table built
/// from those peers and the new one. A table built peer by peer is thus the
/// table a snapshot of its peers rebuilds.
pub proof fn lemma_add_peer_rebuilds(ps: Seq<PeerView>, p: PeerView)
    ensures
        add_peer(table_from_peers(ps), p) == table_from_peers(ps.push(p)),
{
    let f = ps.fold_left(empty_table(), peer_step());
    let with_addr = PeersInfoTableView { addrs: f.addrs.insert(p.peer_id, peer_addr(p)), ..f };
    lemma_register_files_frame(with_addr, p.peer_file_meta_info_report, p.peer_id, ps);
    assert(ps.push(p).drop_last() =~= ps);
    assert(ps.push(p).fold_left(empty_table(), peer_step()) == register_peer(f, p));
}

/// Law: once peer `d` dropped, its address is gone, and when the table held
/// one peer with that id, no peer with that id is left; the other peers stay
/// in their order.
pub proof fn lemma_dropped_peer_is_gone(t: PeersInfoTableView, d: u32)
    requires
        forall|i: int, j: int|
            0 <= i < t.peers_info.len() && 0 <= j < t.peers_info.len() && t.peers_info[i].peer_id == d
                && t.peers_info[j].peer_id == d ==> i == j,
    ensures
        !drop_peer(t, d).addrs.dom().contains(d),
        !has_peer(drop_peer(t, d).peers_info, d),
        drop_peer(t, d).peers_info == t.peers_info.filter(|p: PeerView| p.peer_id != d),
{
    let ps = t.peers_info;
    let keep = |p: PeerView| p.peer_id != d;
    if has_peer(ps, d) {
        let i = choose|i: int| 0 <= i < ps.len() && #[trigger] ps[i].peer_id == d;
        assert(is_last_peer(ps, d, i));
        lemma_last_peer_unique(ps, d, i);
        let r = ps.remove(i);
        assert(!has_peer(r, d)) by {
            if has_peer(r, d) {
                let k = choose|k: int| 0 <= k < r.len() && #[trigger] r[k].peer_id == d;
                if k < i {
                    assert(ps[k].peer_id == d);
                } else {
                    assert(ps[k + 1].peer_id == d);
                }
            }
        }
        lemma_filter_all_but(ps, d, i);
    } else {
        lemma_filter_keeps_all(ps, d);
    }
}

/// No holder list of `m` names `d`.
pub open spec fn no_owner(m: Map<Seq<u8>, Seq<u32>>, d: u32) -> bool {
    forall|k: Seq<u8>| #[trigger] m.dom().contains(k) ==> !m[k].contains(d)
}

/// Taking `d` out of the holders of pieces that `d` does not hold changes nothing.
proof fn lemma_piece_drop_noop(m: Map<Seq<u8>, Seq<u32>>, ps: Seq<PieceView>, d: u32)
    requires
        no_owner(m, d),
    ensures
        ps.fold_left(m, piece_drop_step(d)) == m,
    decreases ps.len(),
{
    if ps.len() > 0 {
        lemma_piece_drop_noop(m, ps.drop_last(), d);
    }
}

/// Taking `d` out of the holders of files that `d` does not hold changes nothing.
proof fn lemma_meta_drop_noop(st: DropState, ms: Seq<MetaView>, d: u32)
    requires
        no_owner(st.files, d),
        no_owner(st.pieces, d),
    ensures
        ms.fold_left(st, meta_drop_step(d)) == st,
    decreases ms.len(),
{
    if ms.len() > 0 {
        lemma_meta_drop_noop(st, ms.drop_last(), d);
        let m = ms.last();
        if st.files.dom().contains(m.sha3_code) {
            assert(!st.files[m.sha3_code].contains(d));
            assert(seq![d][0] == d);
            assert(st.files[m.sha3_code] != seq![d]);
        }
        lemma_piece_drop_noop(st.pieces, m.pieces_info, d);
    }
}

/// Taking `d` out of the indexes, peer by peer, changes nothing where `d`
/// holds nothing.
proof fn lemma_peer_drop_noop(st: DropState, ps: Seq<PeerView>, d: u32)
    requires
        no_owner(st.files, d),
        no_owner(st.pieces, d),
    ensures
        ps.fold_left(st, peer_drop_step(d)) == st,
    decreases ps.len(),
{
    if ps.len() > 0 {
        lemma_peer_drop_noop(st, ps.drop_last(), d);
        lemma_meta_drop_noop(st, ps.last().peer_file_meta_info_report, d);
    }
}

/// Law: dropping a peer that the table does not know (no peer with that id,
/// no address, and the id among the holders of no file and no piece) leaves
/// the table unchanged; so dropping a peer a second time does nothing more.
pub proof fn lemma_drop_absent_peer(t: PeersInfoTableView, d: u32)
    requires
        !has_peer(t.peers_info, d),
        !t.addrs.dom().contains(d),
        no_owner(t.files, d),
        no_owner(t.pieces, d),
    ensures
        drop_peer(t, d) == t,
{
    let st0 = DropState { file_meta: t.file_meta, files: t.files, pieces: t.pieces };
    lemma_peer_drop_noop(st0, t.peers_info, d);
    assert(t.addrs.remove(d) =~= t.addrs);
}

/// `t` after peer `id` got the pieces `pcs` of the file `meta`, one after the other.
pub open spec fn add_pieces(t: PeersInfoTableView, id: u32, meta: MetaView, pcs: Seq<PieceView>) -> PeersInfoTableView
    decreases pcs.len(),
{
    if pcs.len() == 0 {
        t
    } else {
        add_piece(add_pieces(t, id, meta, pcs.drop_last()), id, meta, pcs.last())
    }
}

/// The peers with the files of the peer at `i` replaced by `r`.
pub open spec fn with_report(ps: Seq<PeerView>, i: int, r: Seq<MetaView>) -> Seq<PeerView> {
    ps.update(i, PeerView { peer_file_meta_info_report: r, ..ps[i] })
}

/// The position `i0` is the only peer with id `id`.
pub open spec fn only_peer_at(ps: Seq<PeerView>, id: u32, i0: int) -> bool {
    &&& 0 <= i0 < ps.len()
    &&& ps[i0].peer_id == id
    &&& forall|i: int| 0 <= i < ps.len() && i != i0 ==> #[trigger] ps[i].peer_id != id
}

/// The peers passed while adding a piece of a file that the only peer with
/// the id does not hold yet: that peer gets the file with the one piece.
pub proof fn lemma_piece_fold_new_file(
    ps: Seq<PeerView>,
    id: u32,
    code: Seq<u8>,
    pc: PieceView,
    files: Map<Seq<u8>, Seq<u32>>,
    meta: MetaView,
    i0: int,
    k: int,
)
    requires
        only_peer_at(ps, id, i0),
        !has_meta(ps[i0].peer_file_meta_info_report, code),
        0 <= k <= ps.len(),
    ensures
        ({
            let m2 = MetaView { pieces_info: meta.pieces_info.push(pc), ..meta };
            ps.take(k).fold_left(PieceAddState { peers: Seq::empty(), files, meta }, piece_step(id, code, pc)) == if k
                <= i0 {
                PieceAddState { peers: ps.take(k), files, meta }
            } else {
                PieceAddState {
                    peers: with_report(ps.take(k), i0, ps[i0].peer_file_meta_info_report.push(m2)),
                    files: add_owner(files, code, id),
                    meta: m2,
                }
            }
        }),
    decreases k,
{
    let f = piece_step(id, code, pc);
    let b = PieceAddState { peers: Seq::empty(), files, meta };
    if k == 0 {
        assert(ps.take(0) =~= Seq::<PeerView>::empty());
    } else {
        lemma_piece_fold_new_file(ps, id, code, pc, files, meta, i0, k - 1);
        lemma_fold_take(ps, b, f, k - 1);
        let m2 = MetaView { pieces_info: meta.pieces_info.push(pc), ..meta };
        let p = ps[k - 1];
        if k - 1 < i0 {
            assert(p.peer_id != id);
            assert(ps.take(k - 1).push(p) =~= ps.take(k));
        } else if k - 1 == i0 {
            assert(ps.take(k - 1).push(PeerView { peer_file_meta_info_report: p.peer_file_meta_info_report.push(m2), ..p })
                =~= with_report(ps.take(k), i0, ps[i0].peer_file_meta_info_report.push(m2)));
        } else {
            assert(p.peer_id != id);
            assert(with_report(ps.take(k - 1), i0, ps[i0].peer_file_meta_info_report.push(m2)).push(p) =~= with_report(
                ps.take(k),
                i0,
                ps[i0].peer_file_meta_info_report.push(m2),
            ));
        }
    }
}

/// The peers passed while adding a piece of a file that the only peer with
/// the id holds, first at position `jj` of its files: that record gets the piece.
pub proof fn lemma_piece_fold_known_file(
    ps: Seq<PeerView>,
    id: u32,
    code: Seq<u8>,
    pc: PieceView,
    files: Map<Seq<u8>, Seq<u32>>,
    meta: MetaView,
    i0: int,
    jj: int,
    k: int,
)
    requires
        only_peer_at(ps, id, i0),
        is_first_meta(ps[i0].peer_file_meta_info_report, code, jj),
        0 <= k <= ps.len(),
    ensures
        ({
            let r = ps[i0].peer_file_meta_info_report;
            let r2 = r.update(jj, MetaView { pieces_info: r[jj].pieces_info.push(pc), ..r[jj] });
            ps.take(k).fold_left(PieceAddState { peers: Seq::empty(), files, meta }, piece_step(id, code, pc)) == if k
                <= i0 {
                PieceAddState { peers: ps.take(k), files, meta }
            } else {
                PieceAddState { peers: with_report(ps.take(k), i0, r2), files, meta }
            }
        }),
    decreases k,
{
    let f = piece_step(id, code, pc);
    let b = PieceAddState { peers: Seq::empty(), files, meta };
    let r = ps[i0].peer_file_meta_info_report;
    let r2 = r.update(jj, MetaView { pieces_info: r[jj].pieces_info.push(pc), ..r[jj] });
    if k == 0 {
        assert(ps.take(0) =~= Seq::<PeerView>::empty());
    } else {
        lemma_piece_fold_known_file(ps, id, code, pc, files, meta, i0, jj, k - 1);
        lemma_fold_take(ps, b, f, k - 1);
        let p = ps[k - 1];
        if k - 1 < i0 {
            assert(p.peer_id != id);
            assert(ps.take(k - 1).push(p) =~= ps.take(k));
        } else if k - 1 == i0 {
            lemma_first_meta_unique(r, code, jj);
            assert(ps.take(k - 1).push(PeerView { peer_file_meta_info_report: r2, ..p }) =~= with_report(ps.take(k), i0, r2));
        } else {
            assert(p.peer_id != id);
            assert(with_report(ps.take(k - 1), i0, r2).push(p) =~= with_report(ps.take(k), i0, r2));
        }
    }
}

/// The table once the first `k` pieces of `f` were added, one by one, to the
/// only peer with the id (at `i0`), which held no record of `f` before.
pub open spec fn pieces_added(t: PeersInfoTableView, id: u32, f: MetaView, i0: int, k: int) -> PeersInfoTableView {
    PeersInfoTableView {
        peers_info: with_report(
            t.peers_info,
            i0,
            t.peers_info[i0].peer_file_meta_info_report.push(MetaView { pieces_info: f.pieces_info.take(k), ..f }),
        ),
        file_meta: t.file_meta,
        files: add_owner(t.files, f.sha3_code, id),
        pieces: add_piece_owners(t.pieces, f.pieces_info.take(k), id),
        addrs: t.addrs,
    }
}

proof fn lemma_add_pieces_prefix(t: PeersInfoTableView, id: u32, f: MetaView, i0: int, k: int)
    requires
        only_peer_at(t.peers_info, id, i0),
        !has_meta(t.peers_info[i0].peer_file_meta_info_report, f.sha3_code),
        1 <= k <= f.pieces_info.len(),
    ensures
        add_pieces(t, id, MetaView { pieces_info: Seq::empty(), ..f }, f.pieces_info.take(k)) == pieces_added(
            t,
            id,
            f,
            i0,
            k,
        ),
    decreases k,
{
    let pcs = f.pieces_info;
    let e = MetaView { pieces_info: Seq::empty(), ..f };
    let ps = t.peers_info;
    let r0 = ps[i0].peer_file_meta_info_report;
    let code = f.sha3_code;
    let pc = pcs[k - 1];
    assert(pcs.take(k).drop_last() =~= pcs.take(k - 1));
    assert(pcs.take(k).last() == pc);
    assert(pcs.take(k - 1).push(pc) =~= pcs.take(k));
    if k == 1 {
        assert(pcs.take(0) =~= Seq::<PieceView>::empty());
        lemma_piece_fold_new_file(ps, id, code, pc, t.files, e, i0, ps.len() as int);
        lemma_take_all(ps);
        assert(Seq::<PieceView>::empty().push(pc) =~= pcs.take(1));
        assert(pcs.take(1).drop_last() =~= Seq::<PieceView>::empty());
        assert(add_piece(t, id, e, pc) =~= pieces_added(t, id, f, i0, 1));
        assert(add_pieces(t, id, e, pcs.take(0)) == t);
        assert(add_pieces(t, id, e, pcs.take(1)) == add_piece(add_pieces(t, id, e, pcs.take(0)), id, e, pc));
    } else {
        lemma_add_pieces_prefix(t, id, f, i0, k - 1);
        let tk = pieces_added(t, id, f, i0, k - 1);
        let qs = tk.peers_info;
        let mk = MetaView { pieces_info: pcs.take(k - 1), ..f };
        let mk2 = MetaView { pieces_info: pcs.take(k), ..f };
        assert(only_peer_at(qs, id, i0)) by {
            assert forall|i: int| 0 <= i < qs.len() && i != i0 implies #[trigger] qs[i].peer_id != id by {
                assert(qs[i] == ps[i]);
            }
        }
        assert(qs[i0].peer_file_meta_info_report == r0.push(mk));
        assert(is_first_meta(r0.push(mk), code, r0.len() as int)) by {
            assert forall|j: int| 0 <= j < r0.len() implies #[trigger] r0.push(mk)[j].sha3_code != code by {
                assert(r0.push(mk)[j] == r0[j]);
                if r0[j].sha3_code == code {
                    assert(has_meta(r0, code));
                }
            }
        }
        lemma_piece_fold_known_file(qs, id, code, pc, tk.files, e, i0, r0.len() as int, qs.len() as int);
        lemma_take_all(qs);
        let rk = r0.push(mk);
        assert(rk.update(r0.len() as int, MetaView { pieces_info: rk[r0.len() as int].pieces_info.push(pc), ..rk[r0.len() as int] })
            =~= r0.push(mk2));
        assert(with_report(qs, i0, r0.push(mk2)) =~= with_report(ps, i0, r0.push(mk2)));
        assert(add_piece(tk, id, e, pc) =~= pieces_added(t, id, f, i0, k));
        assert(add_pieces(t, id, e, pcs.take(k)) == add_piece(add_pieces(t, id, e, pcs.take(k - 1)), id, e, pc));
    }
}

/// Law: a peer (the only one with its id, and without a record of the file
/// `f`, which the table already knows) that acquires every piece of `f`, one
/// after the other and each announced with the file's record without
/// pieces, ends with the table it would have had by reporting the whole file
/// at once.
pub proof fn lemma_pieces_make_the_file(t: PeersInfoTableView, id: u32, f: MetaView, i0: int)
    requires
        only_peer_at(t.peers_info, id, i0),
        !has_meta(t.peers_info[i0].peer_file_meta_info_report, f.sha3_code),
        t.file_meta.dom().contains(f.sha3_code),
        f.pieces_info.len() > 0,
    ensures
        add_pieces(t, id, MetaView { pieces_info: Seq::empty(), ..f }, f.pieces_info) == update_files(t, seq![f], id),
{
    let pcs = f.pieces_info;
    let ps = t.peers_info;
    let r0 = ps[i0].peer_file_meta_info_report;
    lemma_add_pieces_prefix(t, id, f, i0, pcs.len() as int);
    lemma_take_all(pcs);
    assert(MetaView { pieces_info: pcs, ..f } == f);
    lemma_fold_take(seq![f], t, file_step(id), 0);
    assert(seq![f].take(1) =~= seq![f]);
    assert(seq![f].take(0) =~= Seq::<MetaView>::empty());
    assert(Seq::<MetaView>::empty().fold_left(t, file_step(id)) == t);
    assert(register_files(t, seq![f], id) == register_file(t, f, id));
    assert(extend_reports(ps, id, seq![f]) =~= with_report(ps, i0, r0.push(f))) by {
        assert(r0 + seq![f] =~= r0.push(f));
    }
    assert(pieces_added(t, id, f, i0, pcs.len() as int) =~= update_files(t, seq![f], id));
}

/// Filtering out `d` from peers none of which has id `d` keeps them all.
proof fn lemma_filter_keeps_all(ps: Seq<PeerView>, d: u32)
    requires
        !has_peer(ps, d),
    ensures
        ps.filter(|p: PeerView| p.peer_id != d) == ps,
    decreases ps.len(),
{
    reveal(Seq::filter);
    if ps.len() > 0 {
        let q = ps.drop_last();
        assert(!has_peer(q, d)) by {
            if has_peer(q, d) {
                let k = choose|k: int| 0 <= k < q.len() && #[trigger] q[k].peer_id == d;
                assert(ps[k].peer_id == d);
            }
        }
        lemma_filter_keeps_all(q, d);
        assert(ps.last().peer_id != d) by {
            assert(ps[ps.len() - 1].peer_id != d);
        }
        assert(q.push(ps.last()) =~= ps);
    }
}

/// Filtering out `d` from peers where only position `i` has id `d` removes
/// that position.
proof fn lemma_filter_all_but(ps: Seq<PeerView>, d: u32, i: int)
    requires
        0 <= i < ps.len(),
        ps[i].peer_id == d,
        forall|j: int| 0 <= j < ps.len() && j != i ==> #[trigger] ps[j].peer_id != d,
    ensures
        ps.filter(|p: PeerView| p.peer_id != d) == ps.remove(i),
    decreases ps.len(),
{
    reveal(Seq::filter);
    let q = ps.drop_last();
    if i == ps.len() - 1 {
        assert(!has_peer(q, d)) by {
            if has_peer(q, d) {
                let k = choose|k: int| 0 <= k < q.len() && #[trigger] q[k].peer_id == d;
                assert(ps[k].peer_id == d);
            }
        }
        lemma_filter_keeps_all(q, d);
        assert(ps.remove(i) =~= q);
    } else {
        assert forall|j: int| 0 <= j < q.len() && j != i implies #[trigger] q[j].peer_id != d by {
            assert(ps[j].peer_id != d);
        }
        lemma_filter_all_but(q, d, i);
        assert(ps.last().peer_id != d) by {
            assert(ps[ps.len() - 1].peer_id != d);
        }
        assert(q.remove(i).push(ps.last()) =~= ps.remove(i));
    }
}

pub proof fn lemma_push_contains<A>(s: Seq<A>, x: A, y: A)
    ensures
        s.push(x).contains(y) <==> (s.contains(y) || x == y),
{
    if s.contains(y) {
        let i = choose|i: int| 0 <= i < s.len() && s[i] == y;
        assert(s.push(x)[i] == y);
    }
    if x == y {
        assert(s.push(x)[s.len() as int] == y);
    }
    if s.push(x).contains(y) {
        let i = choose|i: int| 0 <= i < s.push(x).len() && s.push(x)[i] == y;
        if i < s.len() {
            assert(s[i] == y);
        }
    }
}

pub proof fn lemma_fold_take<A, B>(xs: Seq<A>, b: B, f: spec_fn(B, A) -> B, i: int)
    requires
        0 <= i < xs.len(),
    ensures
        xs.take(i + 1).fold_left(b, f) == f(xs.take(i).fold_left(b, f), xs[i]),
{
    assert(xs.take(i + 1).drop_last() =~= xs.take(i));
}

pub proof fn lemma_take_all<A>(xs: Seq<A>)
    ensures
        xs.take(xs.len() as int) == xs,
{
    assert(xs.take(xs.len() as int) =~= xs);
}

impl PeersInfoTable {
    /// The maps keep their keys unique.
    pub closed spec fn wf(&self) -> bool {
        &&& self.file_meta_info_hash_map.wf()
        &&& self.files_info_hash_map.wf()
        &&& self.files_piece_info_hash_map.wf()
        &&& self.peer_socket_addr_hash_map.wf()
    }

    /// An empty table.
    pub fn new() -> (r: Self)
        ensures
            r.wf(),
            r@ == empty_table(),
    {
        let r = PeersInfoTable {
            peers_info: Vec::new(),
            file_meta_info_hash_map: BytesMap::new(),
            files_info_hash_map: BytesMap::new(),
            files_piece_info_hash_map: BytesMap::new(),
            peer_socket_addr_hash_map: IdMap::new(),
        };
        assert(peers_view(r.peers_info@) =~= Seq::<PeerView>::empty());
        r
    }

    fn add_owner_to(m: &mut BytesMap<Vec<u32>>, k: &Vec<u8>, id: u32)
        requires
            old(m).wf(),
        ensures
            final(m).wf(),
            final(m).map() == add_owner(old(m).map(), k@, id),
    {
        let mut l: Vec<u32> = match m.get(k.as_slice()) {
            Some(v) => copy_ids(v),
            None => Vec::new(),
        };
        assert(l@ =~= owners(m.map(), k@));
        l.push(id);
        m.insert(copy_bytes(k), l);
    }

    fn register_file_exec(&mut self, meta: &FileMetaInfo, id: u32)
        requires
            old(self).wf(),
        ensures
            final(self).wf(),
            final(self)@ == register_file(old(self)@, meta@, id),
            final(self).peers_info@ == old(self).peers_info@,
    {
        let ghost t0 = self@;
        let ghost p0 = self.peers_info@;
        if !self.file_meta_info_hash_map.contains_key(meta.sha3_code.as_slice()) {
            self.file_meta_info_hash_map.insert(copy_bytes(&meta.sha3_code), meta.duplicate());
        }
        Self::add_owner_to(&mut self.files_info_hash_map, &meta.sha3_code, id);
        let ghost ps = meta@.pieces_info;
        let ghost start = self.files_piece_info_hash_map.map();
        let ghost fm = self.file_meta_info_hash_map.map();
        let ghost fs = self.files_info_hash_map.map();
        let ghost ad = self.peer_socket_addr_hash_map.map();
        let mut l: usize = 0;
        while l < meta.pieces_info.len()
            invariant
                0 <= l <= meta.pieces_info@.len(),
                ps == meta@.pieces_info,
                self.wf(),
                self.peers_info@ == p0,
                self.file_meta_info_hash_map.map() == fm,
                self.files_info_hash_map.map() == fs,
                self.peer_socket_addr_hash_map.map() == ad,
                self.files_piece_info_hash_map.map() == ps.take(l as int).fold_left(
                    start,
                    piece_owner_step(id),
                ),
            decreases meta.pieces_info@.len() - l,
        {
            Self::add_owner_to(&mut self.files_piece_info_hash_map, &meta.pieces_info[l].sha3_code, id);
            proof {
                lemma_fold_take(ps, start, piece_owner_step(id), l as int);
            }
            l = l + 1;
        }
        proof {
            lemma_take_all(ps);
        }
        assert(self@ == register_file(t0, meta@, id));
    }

    fn register_files_exec(&mut self, metas: &Vec<FileMetaInfo>, id: u32)
        requires
            old(self).wf(),
        ensures
            final(self).wf(),
            final(self)@ == register_files(old(self)@, crate::types::metas_view(metas@), id),
            final(self).peers_info@ == old(self).peers_info@,
    {
        let ghost ms = crate::types::metas_view(metas@);
        let ghost t0 = self@;
        let ghost p0 = self.peers_info@;
        let mut j: usize = 0;
        while j < metas.len()
            invariant
                0 <= j <= metas@.len(),
                ms == crate::types::metas_view(metas@),
                self.wf(),
                self@ == ms.take(j as int).fold_left(t0, file_step(id)),
                self.peers_info@ == p0,
            decreases metas@.len() - j,
        {
            self.register_file_exec(&metas[j], id);
            proof {
                lemma_fold_take(ms, t0, file_step(id), j as int);
            }
            j = j + 1;
        }
        proof {
            lemma_take_all(ms);
        }
    }

    fn register_peer_exec(&mut self, p: &PeerInfo)
        requires
            old(self).wf(),
        ensures
            final(self).wf(),
            final(self)@ == register_peer(old(self)@, p@),
            final(self).peers_info@ == old(self).peers_info@,
    {
        self.peer_socket_addr_hash_map.insert(
            p.peer_id,
            PeerAddr { ip: copy_bytes(&p.peer_ip), port: p.peer_open_port },
        );
        self.register_files_exec(&p.peer_file_meta_info_report, p.peer_id);
    }

    /// The table that holds `peers_info`, with the indexes built peer by peer.
    pub fn from_peers_info(peers_info: Vec<PeerInfo>) -> (r: Self)
        ensures
            r.wf(),
            r@ == table_from_peers(peers_view(peers_info@)),
    {
        let mut t = Self::new();
        assert(t@.peers_info == peers_view(t.peers_info@));
        let ghost ps = peers_view(peers_info@);
        let mut i: usize = 0;
        while i < peers_info.len()
            invariant
                0 <= i <= peers_info@.len(),
                ps == peers_view(peers_info@),
                t.wf(),
                t.peers_info@.len() == 0,
                t@ == ps.take(i as int).fold_left(empty_table(), peer_step()),
            decreases peers_info@.len() - i,
        {
            t.register_peer_exec(&peers_info[i]);
            proof {
                lemma_fold_take(ps, empty_table(), peer_step(), i as int);
            }
            i = i + 1;
        }
        proof {
            lemma_take_all(ps);
        }
        t.peers_info = peers_info;
        t
    }

    /// The tracker's own table: the tracker is peer 0 with its address, port
    /// and files.
    pub fn tracker_new(tracker_ip: Vec<u8>, peer_open_port: u16, files_meta_info: Vec<FileMetaInfo>) -> (r: Self)
        requires
            tracker_ip@.len() == 4,
        ensures
            r.wf(),
            r@ == table_from_peers(
                seq![PeerView {
                    peer_id: 0,
                    peer_ip: tracker_ip@,
                    peer_open_port,
                    peer_file_meta_info_report: crate::types::metas_view(files_meta_info@),
                }],
            ),
    {
        let peer_info = PeerInfo::new(0, tracker_ip, peer_open_port, files_meta_info);
        let v = vec![peer_info];
        assert(peers_view(v@) =~= seq![peer_info@]);
        Self::from_peers_info(v)
    }

    /// Takes over the contents of `peer_info_table`.
    pub fn update_from_set_peer_info_table_packet(&mut self, peer_info_table: PeersInfoTable)
        requires
            peer_info_table.wf(),
        ensures
            final(self).wf(),
            final(self)@ == peer_info_table@,
    {
        *self = peer_info_table;
    }

    /// A new peer joins: its address and files enter the indexes and it is
    /// appended to the peers.
    pub fn add_one_peer_info(&mut self, peer_info: PeerInfo)
        requires
            old(self).wf(),
        ensures
            final(self).wf(),
            final(self)@ == add_peer(old(self)@, peer_info@),
    {
        self.register_peer_exec(&peer_info);
        let ghost mid = self@;
        let ghost pv = peer_info@;
        self.peers_info.push(peer_info);
        assert(peers_view(self.peers_info@) =~= mid.peers_info.push(pv));
    }

    /// Peer `peer_id` reported new files: they are appended to the files of
    /// every peer with that id and enter the indexes as held by it.
    pub fn update_file(&mut self, updated_file_meta_info: Vec<FileMetaInfo>, peer_id: u32)
        requires
            old(self).wf(),
        ensures
            final(self).wf(),
            final(self)@ == update_files(old(self)@, crate::types::metas_view(updated_file_meta_info@), peer_id),
    {
        let ghost ms = crate::types::metas_view(updated_file_meta_info@);
        let ghost t0 = self@;
        self.register_files_exec(&updated_file_meta_info, peer_id);
        let ghost mid = self@;
        let ghost p0 = peers_view(self.peers_info@);
        let ghost target = extend_reports(p0, peer_id, ms);
        let mut i: usize = 0;
        while i < self.peers_info.len()
            invariant
                0 <= i <= self.peers_info@.len(),
                self.wf(),
                ms == crate::types::metas_view(updated_file_meta_info@),
                target == extend_reports(p0, peer_id, ms),
                self.peers_info@.len() == p0.len(),
                forall|j: int| 0 <= j < i ==> #[trigger] self.peers_info@[j]@ == target[j],
                forall|j: int| i <= j < p0.len() ==> #[trigger] self.peers_info@[j]@ == p0[j],
                self@ == (PeersInfoTableView { peers_info: peers_view(self.peers_info@), ..mid }),
            decreases p0.len() - i,
        {
            if self.peers_info[i].peer_id == peer_id {
                let mut p = self.peers_info[i].duplicate();
                let extra = crate::types::duplicate_metas(&updated_file_meta_info);
                let ghost before = p@;
                let mut extra_mut = extra;
                p.peer_file_meta_info_report.append(&mut extra_mut);
                assert(p@ == target[i as int]) by {
                    assert(crate::types::metas_view(p.peer_file_meta_info_report@) =~= before.peer_file_meta_info_report + ms);
                }
                self.peers_info.set(i, p);
            } else {
                assert(self.peers_info@[i as int]@ == target[i as int]);
            }
            i = i + 1;
        }
        assert(peers_view(self.peers_info@) =~= target);
        assert(mid.peers_info == t0.peers_info);
    }

    /// Peer `peer_id` got `file_piece_info`, a piece of the file described by
    /// `file_meta_info_with_empty_piece`: see `add_piece`.
    pub fn add_file_piece_info(
        &mut self,
        peer_id: u32,
        file_meta_info_with_empty_piece: FileMetaInfo,
        file_piece_info: FilePieceInfo,
    )
        requires
            old(self).wf(),
        ensures
            final(self).wf(),
            final(self)@ == add_piece(old(self)@, peer_id, file_meta_info_with_empty_piece@, file_piece_info@),
    {
        let ghost t0 = self@;
        let ghost p0 = peers_view(self.peers_info@);
        let ghost code = file_meta_info_with_empty_piece@.sha3_code;
        let ghost pv = file_piece_info@;
        let ghost init = PieceAddState { peers: Seq::empty(), files: t0.files, meta: file_meta_info_with_empty_piece@ };
        let ghost step = piece_step(peer_id, code, pv);
        let mut meta_var = file_meta_info_with_empty_piece;
        let file_sha3_code = meta_var.get_file_sha3_code();
        let mut i: usize = 0;
        while i < self.peers_info.len()
            invariant
                0 <= i <= self.peers_info@.len(),
                self.wf(),
                self.peers_info@.len() == p0.len(),
                file_sha3_code@ == code,
                file_piece_info@ == pv,
                step == piece_step(peer_id, code, pv),
                p0.take(i as int).fold_left(init, step).peers.len() == i,
                forall|j: int| 0 <= j < i ==> #[trigger] self.peers_info@[j]@ == p0.take(i as int).fold_left(init, step).peers[j],
                forall|j: int| i <= j < p0.len() ==> #[trigger] self.peers_info@[j]@ == p0[j],
                self.files_info_hash_map.map() == p0.take(i as int).fold_left(init, step).files,
                meta_var@ == p0.take(i as int).fold_left(init, step).meta,
                self.file_meta_info_hash_map.map() == t0.file_meta,
                self.files_piece_info_hash_map.map() == t0.pieces,
                self.peer_socket_addr_hash_map.map() == t0.addrs,
            decreases p0.len() - i,
        {
            let ghost st = p0.take(i as int).fold_left(init, step);
            proof {
                lemma_fold_take(p0, init, step, i as int);
            }
            let ghost q = p0[i as int];
            assert(self.peers_info@[i as int]@ == q);
            if self.peers_info[i].peer_id == peer_id {
                let report_len = self.peers_info[i].peer_file_meta_info_report.len();
                let mut j: usize = 0;
                let mut found = false;
                assert(self.peers_info@[i as int]@ == q);
                while j < report_len && !found
                    invariant
                        0 <= j <= report_len,
                        report_len == q.peer_file_meta_info_report.len(),
                        self.peers_info@[i as int]@ == q,
                        i < self.peers_info@.len(),
                        file_sha3_code@ == code,
                        found ==> is_first_meta(q.peer_file_meta_info_report, code, j as int),
                        !found ==> forall|k: int| 0 <= k < j ==> #[trigger] q.peer_file_meta_info_report[k].sha3_code != code,
                    decreases report_len - j + (if found { 0int } else { 1int }),
                {
                    if bytes_eq_vec(&self.peers_info[i].peer_file_meta_info_report[j].sha3_code, &file_sha3_code) {
                        found = true;
                    } else {
                        j = j + 1;
                    }
                }
                if found {
                    proof {
                        lemma_first_meta_unique(q.peer_file_meta_info_report, code, j as int);
                    }
                    let mut p = self.peers_info[i].duplicate();
                    let mut m = p.peer_file_meta_info_report[j].duplicate();
                    let ghost old_m = m@;
                    m.pieces_info.push(file_piece_info.duplicate());
                    assert(m@.pieces_info =~= old_m.pieces_info.push(pv));
                    let ghost mv = m@;
                    p.peer_file_meta_info_report.set(j, m);
                    assert(p@ == step(st, q).peers.last()) by {
                        assert(crate::types::metas_view(p.peer_file_meta_info_report@) =~= q.peer_file_meta_info_report.update(j as int, mv));
                    }
                    self.peers_info.set(i, p);
                    assert(step(st, q).files == st.files);
                    assert(step(st, q).meta == st.meta);
                } else {
                    assert(!has_meta(q.peer_file_meta_info_report, code));
                    let ghost old_mv = meta_var@;
                    meta_var.pieces_info.push(file_piece_info.duplicate());
                    assert(meta_var@.pieces_info =~= old_mv.pieces_info.push(pv));
                    let mut p = self.peers_info[i].duplicate();
                    p.peer_file_meta_info_report.push(meta_var.duplicate());
                    Self::add_owner_to(&mut self.files_info_hash_map, &file_sha3_code, peer_id);
                    assert(step(st, q).files == add_owner(st.files, code, peer_id));
                    assert(step(st, q).meta == meta_var@);
                    assert(p@ == step(st, q).peers.last()) by {
                        assert(crate::types::metas_view(p.peer_file_meta_info_report@) =~= q.peer_file_meta_info_report.push(meta_var@));
                    }
                    self.peers_info.set(i, p);
                }
            }
            else {
                assert(step(st, q).files == st.files);
                assert(step(st, q).meta == st.meta);
            }
            proof {
                assert(step(st, q).peers == st.peers.push(step(st, q).peers.last()));
            }
            i = i + 1;
        }
        proof {
            lemma_take_all(p0);
        }
        Self::add_owner_to(&mut self.files_piece_info_hash_map, &file_piece_info.sha3_code, peer_id);
        assert(peers_view(self.peers_info@) =~= p0.fold_left(init, step).peers);
    }

    fn drop_owner_exec(m: &mut BytesMap<Vec<u32>>, k: &Vec<u8>, d: u32) -> (emptied: bool)
        requires
            old(m).wf(),
        ensures
            final(m).wf(),
            final(m).map() == drop_owner(old(m).map(), k@, d),
            emptied == only_owner(old(m).map(), k@, d),
    {
        let ghost m0 = m.map();
        let l = match m.get(k.as_slice()) {
            None => {
                return false;
            },
            Some(l) => copy_ids(l),
        };
        let mut idx: usize = 0;
        let mut found = false;
        while idx < l.len() && !found
            invariant
                0 <= idx <= l@.len(),
                found ==> is_first_pos(l@, d, idx as int),
                !found ==> forall|q: int| 0 <= q < idx ==> #[trigger] l@[q] != d,
            decreases l@.len() - idx + (if found { 0int } else { 1int }),
        {
            if l[idx] == d {
                found = true;
            } else {
                idx = idx + 1;
            }
        }
        if !found {
            assert(!l@.contains(d));
            assert(l@ != seq![d]) by {
                if l@ == seq![d] {
                    assert(l@[0] == d);
                }
            }
            return false;
        }
        proof {
            lemma_first_pos_unique(l@, d, idx as int);
        }
        let mut l2 = l;
        l2.remove(idx);
        if l2.len() == 0 {
            m.remove(k.as_slice());
            proof {
                assert(l@.len() == 1);
                assert(l@ =~= seq![d]);
            }
            true
        } else {
            m.insert(copy_bytes(k), l2);
            proof {
                assert(l@ != seq![d]);
            }
            false
        }
    }

    fn drop_meta_exec(
        fm: &mut BytesMap<FileMetaInfo>,
        files: &mut BytesMap<Vec<u32>>,
        pieces: &mut BytesMap<Vec<u32>>,
        meta: &FileMetaInfo,
        d: u32,
    )
        requires
            old(fm).wf(),
            old(files).wf(),
            old(pieces).wf(),
        ensures
            final(fm).wf(),
            final(files).wf(),
            final(pieces).wf(),
            (DropState { file_meta: final(fm).map(), files: final(files).map(), pieces: final(pieces).map() })
                == drop_meta(
                DropState { file_meta: old(fm).map(), files: old(files).map(), pieces: old(pieces).map() },
                meta@,
                d,
            ),
    {
        let emptied = Self::drop_owner_exec(files, &meta.sha3_code, d);
        if emptied {
            fm.remove(meta.sha3_code.as_slice());
        }
        let ghost ps = meta@.pieces_info;
        let ghost start = pieces.map();
        let mut l: usize = 0;
        while l < meta.pieces_info.len()
            invariant
                0 <= l <= meta.pieces_info@.len(),
                ps == meta@.pieces_info,
                pieces.wf(),
                pieces.map() == ps.take(l as int).fold_left(start, piece_drop_step(d)),
            decreases meta.pieces_info@.len() - l,
        {
            Self::drop_owner_exec(pieces, &meta.pieces_info[l].sha3_code, d);
            proof {
                lemma_fold_take(ps, start, piece_drop_step(d), l as int);
            }
            l = l + 1;
        }
        proof {
            lemma_take_all(ps);
        }
    }

    /// Peer `dropped_peer_id` left: see `drop_peer`.
    pub fn handle_peer_dropped(&mut self, dropped_peer_id: u32)
        requires
            old(self).wf(),
        ensures
            final(self).wf(),
            final(self)@ == drop_peer(old(self)@, dropped_peer_id),
    {
        let d = dropped_peer_id;
        let ghost t0 = self@;
        let ghost p0 = peers_view(self.peers_info@);
        let ghost init = DropState { file_meta: t0.file_meta, files: t0.files, pieces: t0.pieces };
        let ghost step = peer_drop_step(d);
        let mut dropped_peer_index = self.peers_info.len();
        self.peer_socket_addr_hash_map.remove(d);
        let mut i: usize = 0;
        while i < self.peers_info.len()
            invariant
                0 <= i <= self.peers_info@.len(),
                self.wf(),
                peers_view(self.peers_info@) == p0,
                step == peer_drop_step(d),
                self.peer_socket_addr_hash_map.map() == t0.addrs.remove(d),
                (DropState {
                    file_meta: self.file_meta_info_hash_map.map(),
                    files: self.files_info_hash_map.map(),
                    pieces: self.files_piece_info_hash_map.map(),
                }) == p0.take(i as int).fold_left(init, step),
                dropped_peer_index == p0.len() ==> forall|k: int| 0 <= k < i ==> #[trigger] p0[k].peer_id != d,
                dropped_peer_index != p0.len() ==> dropped_peer_index < i && p0[dropped_peer_index as int].peer_id
                    == d && forall|k: int| dropped_peer_index < k < i ==> #[trigger] p0[k].peer_id != d,
            decreases p0.len() - i,
        {
            proof {
                lemma_fold_take(p0, init, step, i as int);
            }
            if self.peers_info[i].peer_id == d {
                dropped_peer_index = i;
            }
            let ghost st_i = p0.take(i as int).fold_left(init, step);
            let ghost report = p0[i as int].peer_file_meta_info_report;
            assert(report == crate::types::metas_view(self.peers_info@[i as int].peer_file_meta_info_report@));
            let report_len = self.peers_info[i].peer_file_meta_info_report.len();
            let ghost pinfo = self.peers_info@;
            let mut j: usize = 0;
            while j < report_len
                invariant
                    0 <= j <= report_len,
                    self.peers_info@ == pinfo,
                    self.peer_socket_addr_hash_map.wf(),
                    self.peer_socket_addr_hash_map.map() == t0.addrs.remove(d),
                    i < self.peers_info@.len(),
                    report_len == report.len(),
                    report == crate::types::metas_view(self.peers_info@[i as int].peer_file_meta_info_report@),
                    self.file_meta_info_hash_map.wf(),
                    self.files_info_hash_map.wf(),
                    self.files_piece_info_hash_map.wf(),
                    (DropState {
                        file_meta: self.file_meta_info_hash_map.map(),
                        files: self.files_info_hash_map.map(),
                        pieces: self.files_piece_info_hash_map.map(),
                    }) == report.take(j as int).fold_left(st_i, meta_drop_step(d)),
                decreases report_len - j,
            {
                Self::drop_meta_exec(
                    &mut self.file_meta_info_hash_map,
                    &mut self.files_info_hash_map,
                    &mut self.files_piece_info_hash_map,
                    &self.peers_info[i].peer_file_meta_info_report[j],
                    d,
                );
                proof {
                    lemma_fold_take(report, st_i, meta_drop_step(d), j as int);
                }
                j = j + 1;
            }
            proof {
                lemma_take_all(report);
            }
            i = i + 1;
        }
        proof {
            lemma_take_all(p0);
        }
        let ghost mid = self.peers_info@;
        if dropped_peer_index < self.peers_info.len() {
            proof {
                lemma_last_peer_unique(p0, d, dropped_peer_index as int);
            }
            self.peers_info.remove(dropped_peer_index);
            assert(peers_view(self.peers_info@) =~= p0.remove(dropped_peer_index as int));
        } else {
            assert(!has_peer(p0, d));
        }
    }

    /// The digests of the files that `local_peer_id` does not hold, each once:
    /// the keys of the holders index whose holders do not include it.
    pub fn get_download_file_sha3_code_list(&self, local_peer_id: u32) -> (r: Vec<Vec<u8>>)
        requires
            self.wf(),
        ensures
            byte_seqs(r@).no_duplicates(),
            forall|k: Seq<u8>|
                byte_seqs(r@).contains(k) <==> (self@.files.dom().contains(k)
                    && !self@.files[k].contains(local_peer_id)),
    {
        let keys = self.files_info_hash_map.keys();
        let ghost ks = self.files_info_hash_map.key_seq();
        let ghost files = self@.files;
        let mut out: Vec<Vec<u8>> = Vec::new();
        let mut i: usize = 0;
        while i < keys.len()
            invariant
                0 <= i <= keys@.len(),
                self.wf(),
                files == self@.files,
                keys@.map_values(|k: Vec<u8>| k@) == ks,
                ks == self.files_info_hash_map.key_seq(),
                ks.no_duplicates(),
                forall|k: Seq<u8>| files.dom().contains(k) <==> ks.contains(k),
                byte_seqs(out@).no_duplicates(),
                forall|k: Seq<u8>|
                    byte_seqs(out@).contains(k) <==> (ks.take(i as int).contains(k)
                        && !files[k].contains(local_peer_id)),
            decreases keys@.len() - i,
        {
            let ghost k = ks[i as int];
            assert(keys@[i as int]@ == k);
            assert(ks.contains(k));
            let owners = match self.files_info_hash_map.get(keys[i].as_slice()) {
                Some(o) => o,
                None => {
                    assert(false);
                    return out;
                },
            };
            let mut has_local = false;
            let mut q: usize = 0;
            while q < owners.len()
                invariant
                    0 <= q <= owners@.len(),
                    has_local == owners@.take(q as int).contains(local_peer_id),
                decreases owners@.len() - q,
            {
                assert(owners@.take(q + 1) =~= owners@.take(q as int).push(owners@[q as int]));
                proof {
                    lemma_push_contains(owners@.take(q as int), owners@[q as int], local_peer_id);
                }
                if owners[q] == local_peer_id {
                    has_local = true;
                }
                q = q + 1;
            }
            assert(owners@.take(owners@.len() as int) =~= owners@);
            let ghost old_out = byte_seqs(out@);
            assert(ks.take(i + 1) =~= ks.take(i as int).push(k));
            assert(has_local == files[k].contains(local_peer_id));
            assert(!ks.take(i as int).contains(k)) by {
                if ks.take(i as int).contains(k) {
                    let a = choose|a: int| 0 <= a < i && ks.take(i as int)[a] == k;
                    assert(ks[a] == ks[i as int]);
                }
            }
            assert(!old_out.contains(k));
            proof {
                assert forall|x: Seq<u8>| ks.take(i + 1).contains(x) <==> (ks.take(i as int).contains(x) || x == k) by {
                    lemma_push_contains(ks.take(i as int), k, x);
                }
            }
            if !has_local {
                out.push(copy_bytes(&keys[i]));
                proof {
                    assert(byte_seqs(out@) =~= old_out.push(k));
                    assert forall|x: int, y: int|
                        0 <= x < old_out.push(k).len() && 0 <= y < old_out.push(k).len() && x != y implies old_out.push(
                        k,
                    )[x] != old_out.push(k)[y] by {
                        if x < old_out.len() && y < old_out.len() {
                        } else if x < old_out.len() {
                            assert(old_out.contains(old_out[x]));
                        } else {
                            assert(old_out.contains(old_out[y]));
                        }
                    }
                }
            }
            proof {
                assert forall|x: Seq<u8>|
                    byte_seqs(out@).contains(x) <==> (ks.take(i + 1).contains(x)
                        && !files[x].contains(local_peer_id)) by {
                    lemma_push_contains(ks.take(i as int), k, x);
                    if !has_local {
                        lemma_push_contains(old_out, k, x);
                    } else {
                        assert(byte_seqs(out@) == old_out);
                    }
                }
            }
            i = i + 1;
        }
        assert(ks.take(keys@.len() as int) =~= ks);
        assert forall|x: Seq<u8>|
            byte_seqs(out@).contains(x) <==> (self@.files.dom().contains(x)
                && !self@.files[x].contains(local_peer_id)) by {
            assert(ks.take(keys@.len() as int).contains(x) == ks.contains(x));
            if self@.files.dom().contains(x) {
                assert(ks.contains(x));
            }
        }
        out
    }

    /// The record of the file with digest `code`, when it is known.
    pub fn get_file_meta_info_from_sha3_code(&self, code: &[u8]) -> (r: Option<FileMetaInfo>)
        requires
            self.wf(),
        ensures
            r matches Some(m) ==> self@.file_meta.dom().contains(code@) && m@ == self@.file_meta[code@],
            r is None ==> !self@.file_meta.dom().contains(code@),
    {
        match self.file_meta_info_hash_map.get(code) {
            Some(m) => Some(m.duplicate()),
            None => None,
        }
    }

    /// The holders of the piece with digest `code`, when it is known.
    pub fn get_piece_owners(&self, code: &[u8]) -> (r: Option<Vec<u32>>)
        requires
            self.wf(),
        ensures
            r matches Some(o) ==> self@.pieces.dom().contains(code@) && o@ == self@.pieces[code@],
            r is None ==> !self@.pieces.dom().contains(code@),
    {
        match self.files_piece_info_hash_map.get(code) {
            Some(o) => Some(copy_ids(o)),
            None => None,
        }
    }

    /// The holders of the file with digest `code`, when it is known.
    pub fn get_file_owners(&self, code: &[u8]) -> (r: Option<Vec<u32>>)
        requires
            self.wf(),
        ensures
            r matches Some(o) ==> self@.files.dom().contains(code@) && o@ == self@.files[code@],
            r is None ==> !self@.files.dom().contains(code@),
    {
        match self.files_info_hash_map.get(code) {
            Some(o) => Some(copy_ids(o)),
            None => None,
        }
    }

    /// The address of peer `id`, when it is known.
    pub fn get_peer_addr(&self, id: u32) -> (r: Option<PeerAddr>)
        requires
            self.wf(),
        ensures
            r matches Some(a) ==> self@.addrs.dom().contains(id) && a@ == self@.addrs[id],
            r is None ==> !self@.addrs.dom().contains(id),
    {
        match self.peer_socket_addr_hash_map.get(id) {
            Some(a) => Some(PeerAddr { ip: copy_bytes(&a.ip), port: a.port }),
            None => None,
        }
    }

    /// A copy of the table.
    pub fn get_a_snapshot(&self) -> (r: Self)
        requires
            self.wf(),
        ensures
            r.wf(),
            r@ == self@,
    {
        let r = PeersInfoTable {
            peers_info: duplicate_peers(&self.peers_info),
            file_meta_info_hash_map: self.file_meta_info_hash_map.duplicate(),
            files_info_hash_map: self.files_info_hash_map.duplicate(),
            files_piece_info_hash_map: self.files_piece_info_hash_map.duplicate(),
            peer_socket_addr_hash_map: self.peer_socket_addr_hash_map.duplicate(),
        };
        r
    }

    /// The peers, in the order they joined.
    pub fn get_peers_info(&self) -> (r: &Vec<PeerInfo>)
        ensures
            peers_view(r@) == self@.peers_info,
    {
        &self.peers_info
    }

    /// Appends the wire form of the table: a dictionary with its list of peers.
    pub fn write_bencode(&self, out: &mut Vec<u8>)
        ensures
            final(out)@ == old(out)@ + enc_table(self@.peers_info),
    {
        let ghost o0 = out@;
        write_byte(out, 100u8);
        let key: [u8; 10] = [112u8, 101u8, 101u8, 114u8, 115u8, 95u8, 105u8, 110u8, 102u8, 111u8];
        assert(key@ =~= crate::types::key_peers_info());
        write_bytes(out, &key);
        write_peers(out, &self.peers_info);
        write_byte(out, 101u8);
        assert(out@ =~= o0 + enc_table(self@.peers_info));
    }

    /// Encodes the table: a dictionary with its list of peers.
    pub fn to_bencode(&self) -> (r: Result<Vec<u8>, EncodeError>)
        ensures
            r matches Ok(b) && b@ == enc_table(self@.peers_info),
    {
        let mut out: Vec<u8> = Vec::new();
        self.write_bencode(&mut out);
        assert(out@ =~= enc_table(self@.peers_info));
        Ok(out)
    }

    /// Reads a table at `pos`: its list of peers, from which the indexes are
    /// built anew.
    pub fn read_bencode(s: &[u8], pos: usize) -> (r: Option<(Self, usize)>)
        requires
            pos <= s@.len(),
        ensures
            r matches Some((t, e)) ==> t.wf() && t@ == table_from_peers(t@.peers_info) && e == pos
                + enc_table(t@.peers_info).len() && e <= s@.len() && starts_with(
                s@.skip(pos as int),
                enc_table(t@.peers_info),
            ) && peers_ok(t@.peers_info),
            forall|w: Seq<PeerView>|
                starts_with(s@.skip(pos as int), #[trigger] enc_table(w)) ==> (peers_ok(w) ==> (r matches Some((t, _))
                    && t@.peers_info == w)) && (!peers_ok(w) ==> r is None),
    {
        proof {
            assert forall|w: Seq<PeerView>| #[trigger] enc_table(w) == crate::types::enc_table_wire(
                TableWireView { peers_info: w },
            ) by {}
        }
        match read_table_wire(s, pos) {
            None => None,
            Some((wire, e)) => {
                let t = Self::from_peers_info(wire.peers_info);
                Some((t, e))
            },
        }
    }

    /// Decodes a table from the beginning of `bytes`; bytes behind it are ignored.
    pub fn from_bencode(bytes: &[u8]) -> (r: Result<Self, DecodeError>)
        ensures
            r matches Ok(t) ==> t.wf() && t@ == table_from_peers(t@.peers_info) && starts_with(
                bytes@,
                enc_table(t@.peers_info),
            ) && peers_ok(t@.peers_info),
            r is Err ==> forall|w: Seq<PeerView>| #[trigger] starts_with(bytes@, enc_table(w)) ==> !peers_ok(w),
            forall|w: Seq<PeerView>| #[trigger] starts_with(bytes@, enc_table(w)) && !peers_ok(w) ==> r is Err,
            forall|w: Seq<PeerView>| #[trigger] starts_with(bytes@, enc_table(w)) && peers_ok(w) ==> (r matches Ok(t)
                && t@.peers_info == w),
    {
        assert(bytes@.skip(0) =~= bytes@);
        match Self::read_bencode(bytes, 0) {
            Some((t, _)) => Ok(t),
            None => Err(DecodeError::Malformed),
        }
    }
}

} // verus!
