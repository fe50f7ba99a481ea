//! Fetching a file from the peers: its pieces are requested rarest first,
//! each from its holders in turn, and the file is put together once every
//! piece arrived.
use vstd::prelude::*;
use crate::bytes_map::{copy_bytes, BytesMap};
use crate::digest::{sha3_256, sha3_256_digest};
use crate::message::{enc_piece_request, FilePieceRequestPayload, FilePieceRequestView};
use crate::packet::{frame, make_packet};
use crate::peer_to_peer::FilePieceDownloadedBuffer;
use crate::peers_info_manager::{addrs_view, copy_addr};
use crate::peers_info_table::{AddrView, PeerAddr, PeersInfoTable, PeersInfoTableView};
use crate::types::{pieces_view, FileMetaInfo, FilePieceInfo, MetaView, PieceView};

verus! {

/// `s`, sorted by count, with `x` put after every entry whose count is not
/// larger than its own.
pub open spec fn insert_by_count(s: Seq<(PieceView, nat)>, x: (PieceView, nat)) -> Seq<(PieceView, nat)>
    decreases s.len(),
{
    if s.len() == 0 {
        seq![x]
    } else if s.last().1 <= x.1 {
        s.push(x)
    } else {
        insert_by_count(s.drop_last(), x).push(s.last())
    }
}

/// `s` sorted by count, entries of equal count kept in their order.
pub open spec fn sort_by_count(s: Seq<(PieceView, nat)>) -> Seq<(PieceView, nat)>
    decreases s.len(),
{
    if s.len() == 0 {
        s
    } else {
        insert_by_count(sort_by_count(s.drop_last()), s.last())
    }
}

/// Counts do not decrease along `s`.
pub open spec fn sorted_by_count(s: Seq<(PieceView, nat)>) -> bool {
    forall|i: int, j: int| 0 <= i <= j < s.len() ==> #[trigger] s[i].1 <= #[trigger] s[j].1
}

/// Inserting into a sorted list keeps, for every count, the entries of that
/// count in their order, with `x` last among its own.
proof fn lemma_insert_stable(s: Seq<(PieceView, nat)>, x: (PieceView, nat), c: nat)
    requires
        sorted_by_count(s),
    ensures
        insert_by_count(s, x).filter(|e: (PieceView, nat)| e.1 == c) == if x.1 == c {
            s.filter(|e: (PieceView, nat)| e.1 == c).push(x)
        } else {
            s.filter(|e: (PieceView, nat)| e.1 == c)
        },
    decreases s.len(),
{
    reveal(Seq::filter);
    let f = |e: (PieceView, nat)| e.1 == c;
    if s.len() == 0 {
        assert(seq![x] =~= Seq::<(PieceView, nat)>::empty().push(x));
        assert(seq![x].drop_last() =~= s);
        assert(s.filter(f) == s);
    } else if s.last().1 <= x.1 {
        assert(s.push(x).drop_last() =~= s);
        assert(s.push(x).last() == x);
    } else {
        let pre = s.drop_last();
        assert(sorted_by_count(pre)) by {
            assert forall|i: int, j: int| 0 <= i <= j < pre.len() implies #[trigger] pre[i].1 <= #[trigger] pre[j].1 by {
                assert(pre[i] == s[i]);
                assert(pre[j] == s[j]);
            }
        }
        lemma_insert_stable(pre, x, c);
        let ins = insert_by_count(pre, x);
        assert(insert_by_count(s, x) == ins.push(s.last()));
        assert(ins.push(s.last()).drop_last() =~= ins);
        assert(ins.push(s.last()).last() == s.last());
        assert(ins.push(s.last()).filter(f) == if s.last().1 == c {
            ins.filter(f).push(s.last())
        } else {
            ins.filter(f)
        });
        assert(s.filter(f) == if s.last().1 == c {
            pre.filter(f).push(s.last())
        } else {
            pre.filter(f)
        });
    }
}

/// Law: the sort by count is stable: for every count, the entries of that
/// count come out in the order they came in.
pub proof fn lemma_sort_by_count_stable(s: Seq<(PieceView, nat)>, c: nat)
    ensures
        sort_by_count(s).filter(|e: (PieceView, nat)| e.1 == c) == s.filter(|e: (PieceView, nat)| e.1 == c),
    decreases s.len(),
{
    reveal(Seq::filter);
    if s.len() > 0 {
        lemma_sort_by_count_stable(s.drop_last(), c);
        lemma_sort_by_count(s.drop_last());
        lemma_insert_stable(sort_by_count(s.drop_last()), s.last(), c);
    }
}

/// The holders of a piece, by their addresses.
pub open spec fn owner_addrs(t: PeersInfoTableView, code: Seq<u8>) -> Seq<AddrView> {
    t.pieces[code].map_values(|id: u32| t.addrs[id])
}

/// The pieces of a file, each with its number of holders.
pub open spec fn counted_pieces(t: PeersInfoTableView, ps: Seq<PieceView>) -> Seq<(PieceView, nat)> {
    ps.map_values(|p: PieceView| (p, t.pieces[p.sha3_code].len()))
}

/// The order in which the pieces are requested: rarest first.
pub open spec fn request_order(t: PeersInfoTableView, ps: Seq<PieceView>) -> Seq<PieceView> {
    sort_by_count(counted_pieces(t, ps)).map_values(|e: (PieceView, nat)| e.0)
}

/// The table knows the holders of every piece of `m`, and the address of
/// each holder.
pub open spec fn can_plan(t: PeersInfoTableView, m: MetaView) -> bool {
    forall|i: int|
        0 <= i < m.pieces_info.len() ==> {
            let code = #[trigger] m.pieces_info[i].sha3_code;
            &&& t.pieces.dom().contains(code)
            &&& forall|j: int| 0 <= j < t.pieces[code].len() ==> t.addrs.dom().contains(#[trigger] t.pieces[code][j])
        }
}

proof fn lemma_insert_is_insert(s: Seq<(PieceView, nat)>, x: (PieceView, nat), j: int)
    requires
        0 <= j <= s.len(),
        forall|k: int| j <= k < s.len() ==> #[trigger] s[k].1 > x.1,
        j > 0 ==> s[j - 1].1 <= x.1,
    ensures
        insert_by_count(s, x) == s.insert(j, x),
    decreases s.len(),
{
    if s.len() == 0 {
        assert(s.insert(j, x) =~= seq![x]);
    } else if j == s.len() {
        assert(s.last().1 <= x.1);
        assert(s.insert(j, x) =~= s.push(x));
    } else {
        assert(s.last().1 > x.1);
        lemma_insert_is_insert(s.drop_last(), x, j);
        assert(s.drop_last().insert(j, x).push(s.last()) =~= s.insert(j, x));
    }
}

/// Law: inserting into a sorted list keeps it sorted and adds exactly the
/// entry inserted.
pub proof fn lemma_insert_sorted(s: Seq<(PieceView, nat)>, x: (PieceView, nat))
    requires
        sorted_by_count(s),
    ensures
        sorted_by_count(insert_by_count(s, x)),
        insert_by_count(s, x).to_multiset() == s.to_multiset().insert(x),
    decreases s.len(),
{
    broadcast use vstd::seq_lib::group_to_multiset_ensures;
    if s.len() == 0 {
        assert(seq![x] =~= Seq::<(PieceView, nat)>::empty().push(x));
    } else if s.last().1 <= x.1 {
    } else {
        let d = s.drop_last();
        assert(sorted_by_count(d));
        lemma_insert_sorted(d, x);
        let r = insert_by_count(d, x);
        assert forall|i: int| 0 <= i < r.len() implies #[trigger] r[i].1 <= s.last().1 by {
            assert(r.to_multiset().count(r[i]) > 0);
            assert(d.to_multiset().insert(x).count(r[i]) > 0);
            if r[i] != x {
                assert(d.to_multiset().count(r[i]) > 0);
                assert(d.contains(r[i]));
                let k = choose|k: int| 0 <= k < d.len() && d[k] == r[i];
                assert(s[k] == d[k]);
                assert(s[s.len() - 1] == s.last());
            }
        }
        assert(s =~= d.push(s.last()));
    }
}

/// Law: the request order holds every piece exactly as often as the file
/// does, with counts that do not decrease.
pub proof fn lemma_sort_by_count(s: Seq<(PieceView, nat)>)
    ensures
        sorted_by_count(sort_by_count(s)),
        sort_by_count(s).to_multiset() == s.to_multiset(),
    decreases s.len(),
{
    broadcast use vstd::seq_lib::group_to_multiset_ensures;
    if s.len() > 0 {
        lemma_sort_by_count(s.drop_last());
        lemma_insert_sorted(sort_by_count(s.drop_last()), s.last());
        assert(s =~= s.drop_last().push(s.last()));
    } else {
        assert(sorted_by_count(s));
    }
}

/// The pieces of a file in the order they are requested, and the addresses of
/// the holders of each piece.
pub struct FilePieceOwnerTable {
    sorted_piece_request_list: Vec<FilePieceInfo>,
    piece_owner_hash_table: BytesMap<Vec<PeerAddr>>,
}

/// Pieces with their numbers of holders.
pub open spec fn items_view(v: Seq<(FilePieceInfo, usize)>) -> Seq<(PieceView, nat)> {
    v.map_values(|e: (FilePieceInfo, usize)| (e.0@, e.1 as nat))
}

/// The digests of some pieces.
pub open spec fn piece_codes(ps: Seq<PieceView>) -> Set<Seq<u8>> {
    Set::new(|code: Seq<u8>| exists|i: int| 0 <= i < ps.len() && #[trigger] ps[i].sha3_code == code)
}

impl FilePieceOwnerTable {
    /// The map of holders keeps its keys unique.
    pub closed spec fn wf(&self) -> bool {
        self.piece_owner_hash_table.wf()
    }

    /// The pieces in the order they are to be requested.
    pub closed spec fn request_list(&self) -> Seq<PieceView> {
        pieces_view(self.sorted_piece_request_list@)
    }

    /// The addresses of the holders, by piece digest.
    pub closed spec fn owner_map(&self) -> Map<Seq<u8>, Seq<PeerAddr>> {
        self.piece_owner_hash_table.map()
    }

    /// Plans the download of the file `file_meta_info` from what
    /// `peers_info_table` knows: the pieces rarest first (pieces with as many
    /// holders keep their order in the file), and the addresses of the
    /// holders of each piece.
    pub fn new_from_peers_info_table(file_meta_info: &FileMetaInfo, peers_info_table: &PeersInfoTable) -> (r: Self)
        requires
            peers_info_table.wf(),
            can_plan(peers_info_table@, file_meta_info@),
        ensures
            r.wf(),
            r.request_list() == request_order(peers_info_table@, file_meta_info@.pieces_info),
            r.owner_map().dom() == piece_codes(file_meta_info@.pieces_info),
            forall|k: int| 0 <= k < r.request_list().len() ==> r.owner_map().dom().contains(#[trigger] r.request_list()[k].sha3_code),
            forall|code: Seq<u8>|
                #[trigger] r.owner_map().dom().contains(code) ==> addrs_view(r.owner_map()[code]) == owner_addrs(
                    peers_info_table@,
                    code,
                ),
    {
        let ghost t = peers_info_table@;
        let ghost ps = file_meta_info@.pieces_info;
        let ghost counted = counted_pieces(t, ps);
        let pieces = &file_meta_info.pieces_info;
        let mut owner_table: BytesMap<Vec<PeerAddr>> = BytesMap::new();
        let mut items: Vec<(FilePieceInfo, usize)> = Vec::new();
        let mut i: usize = 0;
        while i < pieces.len()
            invariant
                0 <= i <= pieces@.len(),
                peers_info_table.wf(),
                t == peers_info_table@,
                ps == file_meta_info@.pieces_info,
                ps == pieces_view(pieces@),
                counted == counted_pieces(t, ps),
                can_plan(t, file_meta_info@),
                owner_table.wf(),
                items_view(items@) == sort_by_count(counted.take(i as int)),
                sorted_by_count(items_view(items@)),
                owner_table.map().dom() == piece_codes(ps.take(i as int)),
                forall|k: int| 0 <= k < items@.len() ==> owner_table.map().dom().contains(#[trigger] items_view(items@)[k].0.sha3_code),
                forall|code: Seq<u8>|
                    #[trigger] owner_table.map().dom().contains(code) ==> addrs_view(owner_table.map()[code])
                        == owner_addrs(t, code),
            decreases pieces@.len() - i,
        {
            let p = &pieces[i];
            assert(ps[i as int] == p@);
            let ghost code = p@.sha3_code;
            assert(t.pieces.dom().contains(code));
            let owners = match peers_info_table.get_piece_owners(p.sha3_code.as_slice()) {
                Some(o) => o,
                None => Vec::new(),
            };
            let count = owners.len();
            // place the piece after the last one held by no more peers
            let mut j = items.len();
            while j > 0 && items[j - 1].1 > count
                invariant
                    0 <= j <= items@.len(),
                    forall|k: int| j <= k < items@.len() ==> #[trigger] items@[k].1 > count,
                decreases j,
            {
                j = j - 1;
            }
            let ghost x = (p@, count as nat);
            assert(counted[i as int] == x);
            proof {
                let s = items_view(items@);
                assert forall|k: int| j <= k < s.len() implies #[trigger] s[k].1 > x.1 by {
                    assert(s[k].1 == items@[k].1);
                }
                if j > 0 {
                    assert(s[j - 1].1 == items@[j - 1].1);
                }
                lemma_insert_is_insert(s, x, j as int);
                lemma_insert_sorted(s, x);
                assert(counted.take(i + 1).drop_last() =~= counted.take(i as int));
                assert(counted.take(i + 1).last() == x);
            }
            let ghost before = items_view(items@);
            items.insert(j, (p.duplicate(), count));
            assert(items_view(items@) =~= before.insert(j as int, x));
            // the addresses of the holders
            let mut addrs: Vec<PeerAddr> = Vec::new();
            let mut q: usize = 0;
            while q < owners.len()
                invariant
                    0 <= q <= owners@.len(),
                    peers_info_table.wf(),
                    t == peers_info_table@,
                    owners@ == t.pieces[code],
                    forall|k: int| 0 <= k < t.pieces[code].len() ==> t.addrs.dom().contains(#[trigger] t.pieces[code][k]),
                    addrs_view(addrs@) == owners@.take(q as int).map_values(|id: u32| t.addrs[id]),
                decreases owners@.len() - q,
            {
                let a = match peers_info_table.get_peer_addr(owners[q]) {
                    Some(a) => a,
                    None => PeerAddr { ip: Vec::new(), port: 0 },
                };
                let ghost a0 = addrs_view(addrs@);
                addrs.push(a);
                assert(addrs_view(addrs@) =~= a0.push(t.addrs[owners@[q as int]]));
                assert(owners@.take(q + 1).map_values(|id: u32| t.addrs[id]) =~= owners@.take(q as int).map_values(
                    |id: u32| t.addrs[id],
                ).push(t.addrs[owners@[q as int]]));
                q = q + 1;
            }
            assert(owners@.take(owners@.len() as int) =~= owners@);
            owner_table.insert(copy_bytes(&p.sha3_code), addrs);
            proof {
                assert forall|c: Seq<u8>| #[trigger] piece_codes(ps.take(i + 1)).contains(c) <==> (piece_codes(
                    ps.take(i as int),
                ).contains(c) || c == code) by {
                    if piece_codes(ps.take(i + 1)).contains(c) {
                        let k = choose|k: int| 0 <= k < ps.take(i + 1).len() && #[trigger] ps.take(i + 1)[k].sha3_code == c;
                        if k < i {
                            assert(ps.take(i as int)[k].sha3_code == c);
                        }
                    }
                    if piece_codes(ps.take(i as int)).contains(c) {
                        let k = choose|k: int| 0 <= k < ps.take(i as int).len() && #[trigger] ps.take(i as int)[k].sha3_code == c;
                        assert(ps.take(i + 1)[k].sha3_code == c);
                    }
                    if c == code {
                        assert(ps.take(i + 1)[i as int].sha3_code == c);
                    }
                }
                assert(owner_table.map().dom() =~= piece_codes(ps.take(i + 1)));
                assert forall|k: int| 0 <= k < items@.len() implies owner_table.map().dom().contains(#[trigger] items_view(items@)[k].0.sha3_code) by {
                    if k < j {
                        assert(items_view(items@)[k] == before[k]);
                    } else if k > j {
                        assert(items_view(items@)[k] == before[k - 1]);
                    }
                }
            }
            i = i + 1;
        }
        assert(counted.take(pieces@.len() as int) =~= counted);
        assert(ps.take(pieces@.len() as int) =~= ps);
        let mut list: Vec<FilePieceInfo> = Vec::new();
        let mut k: usize = 0;
        while k < items.len()
            invariant
                0 <= k <= items@.len(),
                forall|m: int| 0 <= m < items@.len() ==> owner_table.map().dom().contains(#[trigger] items_view(items@)[m].0.sha3_code),
                pieces_view(list@) == items_view(items@).take(k as int).map_values(|e: (PieceView, nat)| e.0),
            decreases items@.len() - k,
        {
            let ghost l0 = pieces_view(list@);
            list.push(items[k].0.duplicate());
            assert(pieces_view(list@) =~= l0.push(items@[k as int].0@));
            assert(items_view(items@).take(k + 1).map_values(|e: (PieceView, nat)| e.0) =~= items_view(items@).take(
                k as int,
            ).map_values(|e: (PieceView, nat)| e.0).push(items@[k as int].0@));
            k = k + 1;
        }
        assert(items_view(items@).take(items@.len() as int) =~= items_view(items@));
        assert forall|m: int| 0 <= m < pieces_view(list@).len() implies owner_table.map().dom().contains(#[trigger] pieces_view(list@)[m].sha3_code) by {
            assert(pieces_view(list@)[m] == items_view(items@)[m].0);
        }
        FilePieceOwnerTable { sorted_piece_request_list: list, piece_owner_hash_table: owner_table }
    }
}

/// One piece to request: the piece, the request packet (type 6), and the
/// addresses of its holders, to be tried in turn.
pub struct PieceRequest {
    pub piece: FilePieceInfo,
    pub packet: Vec<u8>,
    pub owners: Vec<PeerAddr>,
}

/// The request for piece `p` of file `m`.
pub open spec fn request_view(m: MetaView, p: PieceView) -> FilePieceRequestView {
    FilePieceRequestView {
        file_piece_index: p.index,
        file_piece_sha3_code: p.sha3_code,
        file_piece_size: m.file_piece_size,
        file_sha3_code: m.sha3_code,
    }
}

/// `m` without its pieces, as it travels with news of one piece.
pub open spec fn without_pieces(m: MetaView) -> MetaView {
    MetaView { pieces_info: Seq::empty(), ..m }
}

/// The digests of the pieces placed by their indexes in `n` slots (a later
/// piece with the same index wins); slots with no piece stay empty.
pub open spec fn codes_by_index(n: nat, ps: Seq<PieceView>) -> Seq<Seq<u8>>
    decreases ps.len(),
{
    if ps.len() == 0 {
        Seq::new(n, |i: int| Seq::<u8>::empty())
    } else {
        codes_by_index(n, ps.drop_last()).update(ps.last().index as int, ps.last().sha3_code)
    }
}

/// No piece after position `i` has the index of piece `i`.
pub open spec fn last_of_index(ps: Seq<PieceView>, i: int) -> bool {
    forall|j: int| i < j < ps.len() ==> #[trigger] ps[j].index != ps[i].index
}

/// Some piece has index `k`.
pub open spec fn names_slot(ps: Seq<PieceView>, k: int) -> bool {
    exists|i: int| 0 <= i < ps.len() && #[trigger] ps[i].index == k
}

/// Law: placing pieces by index puts every piece's digest in the slot of its
/// own index, unless a later piece has the same index; slots no piece names
/// stay empty; there are `n` slots.
pub proof fn lemma_codes_by_index_slots(n: nat, ps: Seq<PieceView>)
    requires
        forall|i: int| 0 <= i < ps.len() ==> (#[trigger] ps[i]).index < n,
    ensures
        codes_by_index(n, ps).len() == n,
        forall|i: int|
            0 <= i < ps.len() && #[trigger] last_of_index(ps, i) ==> codes_by_index(n, ps)[ps[i].index as int]
                == ps[i].sha3_code,
        forall|k: int| 0 <= k < n && !#[trigger] names_slot(ps, k) ==> codes_by_index(n, ps)[k] == Seq::<u8>::empty(),
    decreases ps.len(),
{
    if ps.len() > 0 {
        let pre = ps.drop_last();
        let q = ps.last();
        assert forall|i: int| 0 <= i < pre.len() implies (#[trigger] pre[i]).index < n by {
            assert(pre[i] == ps[i]);
        }
        lemma_codes_by_index_slots(n, pre);
        let r0 = codes_by_index(n, pre);
        let r = codes_by_index(n, ps);
        assert(ps[ps.len() - 1] == q);
        assert(q.index < n);
        assert(r == r0.update(q.index as int, q.sha3_code));
        assert forall|i: int| 0 <= i < ps.len() && #[trigger] last_of_index(ps, i) implies r[ps[i].index as int]
            == ps[i].sha3_code by {
            if i < pre.len() {
                assert(pre[i] == ps[i]);
                assert(ps[ps.len() - 1].index != ps[i].index);
                assert(last_of_index(pre, i)) by {
                    assert forall|j: int| i < j < pre.len() implies #[trigger] pre[j].index != pre[i].index by {
                        assert(pre[j] == ps[j]);
                        assert(ps[j].index != ps[i].index);
                    }
                }
            }
        }
        assert forall|k: int| 0 <= k < n && !#[trigger] names_slot(ps, k) implies r[k] == Seq::<u8>::empty() by {
            if names_slot(pre, k) {
                let i = choose|i: int| 0 <= i < pre.len() && #[trigger] pre[i].index == k;
                assert(ps[i] == pre[i]);
            }
            if q.index == k {
                assert(ps[ps.len() - 1].index == k);
            }
        }
    }
}

/// Law: for the record of a content cut into pieces, placing its pieces by
/// index gives the digests of the pieces of the content in order: the order
/// in which the downloaded pieces, put together, give back the content.
pub proof fn lemma_built_record_order(c: Seq<u8>, n: nat)
    requires
        crate::file_manager::chunks(c, n).len() <= 0xFFFF_FFFF,
    ensures
        codes_by_index(crate::file_manager::pieces_of(c, n).len(), crate::file_manager::pieces_of(c, n))
            == crate::file_manager::chunks(c, n).map_values(|x: Seq<u8>| sha3_256_digest(x)),
{
    let ps = crate::file_manager::pieces_of(c, n);
    let ch = crate::file_manager::chunks(c, n);
    assert forall|i: int| 0 <= i < ps.len() implies (#[trigger] ps[i]).index == i by {
        assert(ps[i].index == i as u32);
    }
    lemma_codes_by_index_slots(ps.len(), ps);
    let r = codes_by_index(ps.len(), ps);
    assert forall|i: int| 0 <= i < r.len() implies r[i] == ch.map_values(|x: Seq<u8>| sha3_256_digest(x))[i] by {
        assert(ps[i].index == i);
        assert(last_of_index(ps, i)) by {
            assert forall|j: int| i < j < ps.len() implies #[trigger] ps[j].index != ps[i].index by {
                assert(ps[j].index == j);
            }
        }
    }
    assert(r =~= ch.map_values(|x: Seq<u8>| sha3_256_digest(x)));
}

/// A piece index is out of range.
#[derive(Debug, Clone, Copy, PartialEq, Eq)]
pub enum PlanError {
    PieceIndexOutOfRange,
}

/// The download of one file.
pub struct FileDownloader {
    file_meta_info: FileMetaInfo,
    file_piece_owner_table: FilePieceOwnerTable,
}

impl FileDownloader {
    /// The file fetched.
    pub closed spec fn meta(&self) -> MetaView {
        self.file_meta_info@
    }

    /// The pieces in the order they are requested.
    pub closed spec fn request_list(&self) -> Seq<PieceView> {
        self.file_piece_owner_table.request_list()
    }

    /// The addresses of the holders, by piece digest.
    pub closed spec fn owner_map(&self) -> Map<Seq<u8>, Seq<PeerAddr>> {
        self.file_piece_owner_table.owner_map()
    }

    /// The plan is consistent: every piece requested has its holders listed.
    pub closed spec fn wf(&self) -> bool {
        &&& self.file_piece_owner_table.wf()
        &&& forall|k: int|
            0 <= k < self.request_list().len() ==> self.owner_map().dom().contains(
                #[trigger] self.request_list()[k].sha3_code,
            )
    }

    /// Whether `peers_info_table` knows the file with digest `sha3_code`, the
    /// holders of each of its pieces and their addresses.
    pub fn can_download(sha3_code: &[u8], peers_info_table: &PeersInfoTable) -> (r: bool)
        requires
            peers_info_table.wf(),
        ensures
            r == (peers_info_table@.file_meta.dom().contains(sha3_code@) && can_plan(
                peers_info_table@,
                peers_info_table@.file_meta[sha3_code@],
            )),
    {
        let ghost t = peers_info_table@;
        let meta = match peers_info_table.get_file_meta_info_from_sha3_code(sha3_code) {
            Some(m) => m,
            None => return false,
        };
        let ghost m = meta@;
        let mut i: usize = 0;
        while i < meta.pieces_info.len()
            invariant
                0 <= i <= meta.pieces_info@.len(),
                peers_info_table.wf(),
                t == peers_info_table@,
                m == meta@,
                m == t.file_meta[sha3_code@],
                t.file_meta.dom().contains(sha3_code@),
                forall|a: int|
                    0 <= a < i ==> {
                        let code = #[trigger] m.pieces_info[a].sha3_code;
                        &&& t.pieces.dom().contains(code)
                        &&& forall|j: int| 0 <= j < t.pieces[code].len() ==> t.addrs.dom().contains(#[trigger] t.pieces[code][j])
                    },
            decreases meta.pieces_info@.len() - i,
        {
            assert(m.pieces_info[i as int] == meta.pieces_info@[i as int]@);
            let ghost code = m.pieces_info[i as int].sha3_code;
            let owners = match peers_info_table.get_piece_owners(meta.pieces_info[i].sha3_code.as_slice()) {
                Some(o) => o,
                None => {
                    assert(!t.pieces.dom().contains(m.pieces_info[i as int].sha3_code));
                    return false;
                },
            };
            let mut q: usize = 0;
            while q < owners.len()
                invariant
                    0 <= q <= owners@.len(),
                    peers_info_table.wf(),
                    t == peers_info_table@,
                    forall|j: int| 0 <= j < q ==> t.addrs.dom().contains(#[trigger] owners@[j]),
                    owners@ == t.pieces[code],
                    code == m.pieces_info[i as int].sha3_code,
                    m == t.file_meta[sha3_code@],
                    i < m.pieces_info.len(),
                    m.pieces_info.len() == meta.pieces_info@.len(),
                decreases owners@.len() - q,
            {
                match peers_info_table.get_peer_addr(owners[q]) {
                    Some(_) => {},
                    None => {
                        assert(!can_plan(t, m)) by {
                            if can_plan(t, m) {
                                assert(0 <= i < m.pieces_info.len());
                                let c = m.pieces_info[i as int].sha3_code;
                                assert(c == code);
                                assert(t.pieces[c][q as int] == owners@[q as int]);
                                assert(t.addrs.dom().contains(t.pieces[c][q as int]));
                            }
                        }
                        return false;
                    },
                }
                q = q + 1;
            }
            i = i + 1;
        }
        true
    }

    /// Plans the download of the file with digest `sha3_code` from what
    /// `peers_info_table` knows: see `FilePieceOwnerTable`.
    pub fn new(sha3_code: Vec<u8>, peers_info_table: &PeersInfoTable) -> (r: Self)
        requires
            peers_info_table.wf(),
            peers_info_table@.file_meta.dom().contains(sha3_code@),
            can_plan(peers_info_table@, peers_info_table@.file_meta[sha3_code@]),
        ensures
            r.wf(),
            r.meta() == peers_info_table@.file_meta[sha3_code@],
            r.request_list() == request_order(peers_info_table@, r.meta().pieces_info),
            r.owner_map().dom() == piece_codes(r.meta().pieces_info),
            forall|code: Seq<u8>|
                #[trigger] r.owner_map().dom().contains(code) ==> addrs_view(r.owner_map()[code]) == owner_addrs(
                    peers_info_table@,
                    code,
                ),
    {
        let file_meta_info = match peers_info_table.get_file_meta_info_from_sha3_code(sha3_code.as_slice()) {
            Some(m) => m,
            None => FileMetaInfo::new(Vec::new(), String::new(), 0, Vec::new()),
        };
        let file_piece_owner_table = FilePieceOwnerTable::new_from_peers_info_table(&file_meta_info, peers_info_table);
        FileDownloader { file_meta_info, file_piece_owner_table }
    }

    /// The record of the file fetched.
    pub fn get_file_meta_info(&self) -> (r: FileMetaInfo)
        ensures
            r@ == self.meta(),
    {
        self.file_meta_info.duplicate()
    }

    /// The requests, in order: for each piece the request packet and the
    /// addresses of its holders.
    pub fn piece_requests(&self) -> (r: Vec<PieceRequest>)
        requires
            self.wf(),
        ensures
            r@.len() == self.request_list().len(),
            forall|k: int|
                0 <= k < r@.len() ==> {
                    let p = self.request_list()[k];
                    &&& (#[trigger] r@[k]).piece@ == p
                    &&& r@[k].packet@ == frame(6, enc_piece_request(request_view(self.meta(), p)))
                    &&& addrs_view(r@[k].owners@) == addrs_view(self.owner_map()[p.sha3_code])
                },
    {
        let list = &self.file_piece_owner_table.sorted_piece_request_list;
        let mut out: Vec<PieceRequest> = Vec::new();
        let mut k: usize = 0;
        while k < list.len()
            invariant
                0 <= k <= list@.len(),
                self.wf(),
                list@ == self.file_piece_owner_table.sorted_piece_request_list@,
                out@.len() == k,
                forall|a: int|
                    0 <= a < k ==> {
                        let p = self.request_list()[a];
                        &&& (#[trigger] out@[a]).piece@ == p
                        &&& out@[a].packet@ == frame(6, enc_piece_request(request_view(self.meta(), p)))
                        &&& addrs_view(out@[a].owners@) == addrs_view(self.owner_map()[p.sha3_code])
                    },
            decreases list@.len() - k,
        {
            let p = &list[k];
            assert(self.request_list()[k as int] == p@);
            let payload = FilePieceRequestPayload::new(
                copy_bytes(&self.file_meta_info.sha3_code),
                copy_bytes(&p.sha3_code),
                p.index,
                self.file_meta_info.file_piece_size,
            ).to_bencode();
            let bytes = match payload {
                Ok(b) => b,
                Err(_) => Vec::new(),
            };
            let packet = make_packet(6, bytes.as_slice());
            let owners_ref = self.file_piece_owner_table.piece_owner_hash_table.get(p.sha3_code.as_slice());
            let mut owners: Vec<PeerAddr> = Vec::new();
            match owners_ref {
                Some(v) => {
                    let mut q: usize = 0;
                    while q < v.len()
                        invariant
                            0 <= q <= v@.len(),
                            addrs_view(owners@) == addrs_view(v@).take(q as int),
                        decreases v@.len() - q,
                    {
                        let ghost o0 = addrs_view(owners@);
                        owners.push(copy_addr(&v[q]));
                        assert(addrs_view(owners@) =~= o0.push(v@[q as int]@));
                        assert(addrs_view(v@).take(q + 1) =~= addrs_view(v@).take(q as int).push(v@[q as int]@));
                        q = q + 1;
                    }
                    assert(addrs_view(v@).take(v@.len() as int) =~= addrs_view(v@));
                },
                None => {},
            }
            out.push(PieceRequest { piece: p.duplicate(), packet, owners });
            k = k + 1;
        }
        out
    }

    /// A holder answered the request for `piece` with a packet of type
    /// `type_id`. A piece (type 7) with the expected digest is kept in the
    /// buffer, and the news to spread is returned: the file without its
    /// pieces, and the piece. A piece with another digest is an error. Another
    /// type leaves everything as it is, and the next holder is to be tried.
    pub fn accept_piece(
        &self,
        buffer: &mut FilePieceDownloadedBuffer,
        piece: &FilePieceInfo,
        type_id: u8,
        payload: Vec<u8>,
    ) -> (r: Result<Option<(FileMetaInfo, FilePieceInfo)>, crate::peer_to_peer::PieceError>)
        requires
            old(buffer).wf(),
        ensures
            final(buffer).wf(),
            type_id != 7 ==> (r matches Ok(None) && final(buffer)@ == old(buffer)@),
            type_id == 7 ==> (r is Err <==> sha3_256_digest(payload@) != piece@.sha3_code),
            r is Err ==> final(buffer)@ == old(buffer)@,
            type_id == 7 && sha3_256_digest(payload@) == piece@.sha3_code ==> (r matches Ok(Some((m, p)))
                && m@ == without_pieces(self.meta()) && p@ == piece@ && final(buffer)@ == old(buffer)@.insert(
                piece@.sha3_code,
                payload@,
            )),
    {
        if type_id != 7 {
            return Ok(None);
        }
        let code = sha3_256(payload.as_slice());
        if !crate::bytes_map::bytes_eq(code.as_slice(), piece.sha3_code.as_slice()) {
            return Err(crate::peer_to_peer::PieceError::DigestMismatch);
        }
        buffer.add_one_piece(copy_bytes(&piece.sha3_code), payload);
        let m = FileMetaInfo::new(
            copy_bytes(&self.file_meta_info.sha3_code),
            self.file_meta_info.file_name.clone(),
            self.file_meta_info.file_piece_size,
            Vec::new(),
        );
        assert(m@.pieces_info =~= Seq::<PieceView>::empty());
        Ok(Some((m, piece.duplicate())))
    }

    /// The digests of the pieces in the order of their indexes, to write the
    /// file. An index past the number of pieces is an error.
    pub fn piece_order(&self) -> (r: Result<Vec<Vec<u8>>, PlanError>)
        ensures
            r is Err <==> exists|i: int|
                0 <= i < self.meta().pieces_info.len() && #[trigger] self.meta().pieces_info[i].index
                    >= self.meta().pieces_info.len(),
            r matches Ok(codes) ==> crate::bytes_map::byte_seqs(codes@) == codes_by_index(
                self.meta().pieces_info.len(),
                self.meta().pieces_info,
            ),
            r matches Ok(codes) ==> codes@.len() == self.meta().pieces_info.len() && forall|i: int|
                0 <= i < self.meta().pieces_info.len() && #[trigger] last_of_index(self.meta().pieces_info, i)
                    ==> codes@[self.meta().pieces_info[i].index as int]@ == self.meta().pieces_info[i].sha3_code,
    {
        let ps = &self.file_meta_info.pieces_info;
        let ghost pv = self.meta().pieces_info;
        let n = ps.len();
        let mut slots: Vec<Vec<u8>> = Vec::new();
        let mut i: usize = 0;
        while i < n
            invariant
                0 <= i <= n,
                n == ps@.len(),
                crate::bytes_map::byte_seqs(slots@) == Seq::new(i as nat, |k: int| Seq::<u8>::empty()),
            decreases n - i,
        {
            let ghost s0 = crate::bytes_map::byte_seqs(slots@);
            let e: Vec<u8> = Vec::new();
            assert(e@ =~= Seq::<u8>::empty());
            slots.push(e);
            assert(crate::bytes_map::byte_seqs(slots@) =~= s0.push(Seq::<u8>::empty()));
            assert(crate::bytes_map::byte_seqs(slots@) =~= Seq::new((i + 1) as nat, |k: int| Seq::<u8>::empty()));
            i = i + 1;
        }
        assert(crate::bytes_map::byte_seqs(slots@) == codes_by_index(n as nat, pv.take(0))) by {
            assert(pv.take(0) =~= Seq::<PieceView>::empty());
        }
        let mut j: usize = 0;
        while j < n
            invariant
                0 <= j <= n,
                n == ps@.len(),
                pv == pieces_view(ps@),
                pv == self.meta().pieces_info,
                slots@.len() == n,
                crate::bytes_map::byte_seqs(slots@) == codes_by_index(n as nat, pv.take(j as int)),
                forall|a: int| 0 <= a < j ==> #[trigger] pv[a].index < n,
            decreases n - j,
        {
            let p = &ps[j];
            assert(pv[j as int] == p@);
            if p.index as usize >= n {
                assert(self.meta().pieces_info[j as int].index >= self.meta().pieces_info.len());
                return Err(PlanError::PieceIndexOutOfRange);
            }
            let ghost s0 = crate::bytes_map::byte_seqs(slots@);
            slots.set(p.index as usize, copy_bytes(&p.sha3_code));
            proof {
                assert(pv.take(j + 1).drop_last() =~= pv.take(j as int));
                assert(pv.take(j + 1).last() == p@);
                assert(crate::bytes_map::byte_seqs(slots@) =~= s0.update(p.index as int, p@.sha3_code));
            }
            j = j + 1;
        }
        assert(pv.take(n as int) =~= pv);
        proof {
            lemma_codes_by_index_slots(n as nat, pv);
            assert forall|i: int| 0 <= i < pv.len() && #[trigger] last_of_index(pv, i) implies slots@[pv[i].index as int]@
                == pv[i].sha3_code by {
                assert(crate::bytes_map::byte_seqs(slots@)[pv[i].index as int] == slots@[pv[i].index as int]@);
            }
        }
        Ok(slots)
    }
}

/// The progress of a download: the pieces received so far out of all.
pub struct DownloadProgress {
    piece_cnt: usize,
    pieces_number: usize,
}

impl DownloadProgress {
    /// The pieces received so far.
    pub closed spec fn received(&self) -> nat {
        self.piece_cnt as nat
    }

    /// The pieces of the file.
    pub closed spec fn total(&self) -> nat {
        self.pieces_number as nat
    }

    /// Nothing received of `pieces_number` pieces.
    pub fn new(pieces_number: usize) -> (r: Self)
        ensures
            r.received() == 0,
            r.total() == pieces_number,
    {
        DownloadProgress { piece_cnt: 0, pieces_number }
    }

    /// The pieces received so far.
    pub fn piece_cnt(&self) -> (r: usize)
        ensures
            r == self.received(),
    {
        self.piece_cnt
    }

    /// One more piece arrived: says whether the file is now complete.
    pub fn on_piece_received(&mut self) -> (done: bool)
        requires
            old(self).received() < usize::MAX,
        ensures
            final(self).received() == old(self).received() + 1,
            final(self).total() == old(self).total(),
            done == (final(self).received() == final(self).total()),
    {
        self.piece_cnt = self.piece_cnt + 1;
        self.piece_cnt == self.pieces_number
    }
}

} // verus!
