//! Why a peer's copy of the global table keeps up with the tracker's: two
//! tables that differ only in the order inside holder lists stay so under
//! every change, and the tracker's table is, at all times, alike in that
//! sense to the table rebuilt from its peers, which is what a snapshot gives.
use vstd::prelude::*;
use crate::peers_info_manager::{apply_op, apply_ops, TableOp};
use crate::peers_info_table::{
    add_owner, add_piece, add_piece_owners, drop_meta, drop_owner, extend_reports, first_meta, has_meta, has_peer,
    is_first_meta, lemma_add_peer_rebuilds, lemma_piece_fold_known_file, lemma_piece_fold_new_file, lemma_take_all,
    meta_drop_step, only_owner, only_peer_at, owners, peer_drop_step, piece_drop_step, piece_step, register_file,
    register_files, table_from_peers, update_files, with_report, DropState, PeersInfoTableView, PieceAddState,
};
use crate::rebuild::{
    addr_fold, cnt, lemma_build, lemma_drop_absent_rebuilt, lemma_drop_rebuilds_indexes, lemma_register_files,
    lemma_rem_one, lemma_rem_zero, lists_ok, meta_ok, no_peer, npc, nrec, ownf, ownp, rem_n, rep,
};
use crate::types::{MetaView, PeerView, PieceView};

verus! {

/// How many times `x` is in `l`.
pub open spec fn occ(l: Seq<u32>, x: u32) -> nat
    decreases l.len(),
{
    if l.len() == 0 {
        0
    } else {
        occ(l.drop_first(), x) + if l[0] == x {
            1nat
        } else {
            0nat
        }
    }
}

/// The same holders, each as many times, in any order.
pub open spec fn same_holders(a: Seq<u32>, b: Seq<u32>) -> bool {
    forall|x: u32| #[trigger] occ(a, x) == occ(b, x)
}

/// Two maps of holder lists with the same keys and the same holders for each.
pub open spec fn lists_alike(a: Map<Seq<u8>, Seq<u32>>, b: Map<Seq<u8>, Seq<u32>>) -> bool {
    &&& a.dom() == b.dom()
    &&& forall|k: Seq<u8>| #[trigger] same_holders(owners(a, k), owners(b, k))
}

/// Two tables that differ at most in the order inside their holder lists
/// (and in which of several records of one digest they keep).
pub open spec fn alike(a: PeersInfoTableView, b: PeersInfoTableView) -> bool {
    &&& a.peers_info == b.peers_info
    &&& a.addrs == b.addrs
    &&& a.file_meta.dom() == b.file_meta.dom()
    &&& lists_alike(a.files, b.files)
    &&& lists_alike(a.pieces, b.pieces)
}

proof fn lemma_occ_concat(a: Seq<u32>, b: Seq<u32>, x: u32)
    ensures
        occ(a + b, x) == occ(a, x) + occ(b, x),
    decreases a.len(),
{
    if a.len() == 0 {
        assert(a + b =~= b);
    } else {
        lemma_occ_concat(a.drop_first(), b, x);
        assert((a + b).drop_first() =~= a.drop_first() + b);
        assert((a + b)[0] == a[0]);
    }
}

proof fn lemma_occ_push(a: Seq<u32>, y: u32, x: u32)
    ensures
        occ(a.push(y), x) == occ(a, x) + if x == y {
            1nat
        } else {
            0nat
        },
{
    lemma_occ_concat(a, seq![y], x);
    assert(a.push(y) =~= a + seq![y]);
    assert(seq![y].drop_first() =~= Seq::<u32>::empty());
    assert(occ(Seq::<u32>::empty(), x) == 0);
    assert(occ(seq![y], x) == occ(seq![y].drop_first(), x) + if seq![y][0] == x {
        1nat
    } else {
        0nat
    });
}

/// A list with no element at all is empty.
proof fn lemma_occ_empty(l: Seq<u32>)
    requires
        l.len() > 0,
    ensures
        occ(l, l[0]) > 0,
{
}

proof fn lemma_occ_contains(l: Seq<u32>, d: u32)
    ensures
        l.contains(d) <==> occ(l, d) > 0,
    decreases l.len(),
{
    if l.len() > 0 {
        let r = l.drop_first();
        lemma_occ_contains(r, d);
        if l.contains(d) && l[0] != d {
            let i = choose|i: int| 0 <= i < l.len() && l[i] == d;
            assert(r[i - 1] == d);
        }
        if r.contains(d) {
            let i = choose|i: int| 0 <= i < r.len() && r[i] == d;
            assert(l[i + 1] == d);
        }
        if l[0] == d {
            assert(l.contains(d));
        }
    }
}

proof fn lemma_occ_rem_one(l: Seq<u32>, d: u32, x: u32)
    ensures
        occ(rem_n(l, d, 1), x) == occ(l, x) - if x == d && occ(l, d) > 0 {
            1int
        } else {
            0int
        },
    decreases l.len(),
{
    if l.len() > 0 {
        let r = l.drop_first();
        if l[0] == d {
            lemma_rem_zero(r, d);
        } else {
            lemma_occ_rem_one(r, d, x);
            let w = seq![l[0]] + rem_n(r, d, 1);
            assert(w[0] == l[0]);
            assert(w.drop_first() =~= rem_n(r, d, 1));
        }
    }
}

/// Whether a list is empty, and whether it is the one element `d`, depends
/// on its holders alone.
proof fn lemma_same_holders_shape(a: Seq<u32>, b: Seq<u32>, d: u32)
    requires
        same_holders(a, b),
    ensures
        a.len() == 0 <==> b.len() == 0,
        a == seq![d] <==> b == seq![d],
        a.contains(d) <==> b.contains(d),
{
    if a.len() > 0 {
        lemma_occ_empty(a);
        assert(occ(b, a[0]) > 0);
    }
    if b.len() > 0 {
        lemma_occ_empty(b);
        assert(occ(a, b[0]) > 0);
    }
    lemma_single(a, d);
    lemma_single(b, d);
    assert(occ(a, d) == occ(b, d));
    if a == seq![d] {
        assert forall|x: u32| x != d implies #[trigger] occ(b, x) == 0 by {
            assert(occ(a, x) == occ(b, x));
        }
    }
    if b == seq![d] {
        assert forall|x: u32| x != d implies #[trigger] occ(a, x) == 0 by {
            assert(occ(a, x) == occ(b, x));
        }
    }
    lemma_occ_contains(a, d);
    lemma_occ_contains(b, d);
    assert(occ(a, d) == occ(b, d));
}

/// A list is the one element `d` exactly when it holds `d` once and nothing else.
proof fn lemma_single(l: Seq<u32>, d: u32)
    ensures
        l == seq![d] <==> (occ(l, d) == 1 && forall|x: u32| x != d ==> #[trigger] occ(l, x) == 0),
{
    if l == seq![d] {
        assert(l.drop_first() =~= Seq::<u32>::empty());
        assert forall|x: u32| #[trigger] occ(l, x) == if x == d {
            1nat
        } else {
            0nat
        } by {
            assert(occ(l.drop_first(), x) == 0);
        }
    }
    if occ(l, d) == 1 && forall|x: u32| x != d ==> #[trigger] occ(l, x) == 0 {
        lemma_occ_empty(l);
        if l[0] != d {
            assert(occ(l, l[0]) == 0);
        }
        let r = l.drop_first();
        if r.len() > 0 {
            lemma_occ_empty(r);
            assert(occ(l, r[0]) >= occ(r, r[0]));
            if r[0] == d {
                assert(occ(l, d) >= 2);
            } else {
                assert(occ(l, r[0]) == 0);
            }
        }
        assert(l =~= seq![d]);
    }
}

proof fn lemma_alike_add_owner(a: Map<Seq<u8>, Seq<u32>>, b: Map<Seq<u8>, Seq<u32>>, k: Seq<u8>, id: u32)
    requires
        lists_alike(a, b),
    ensures
        lists_alike(add_owner(a, k, id), add_owner(b, k, id)),
{
    assert forall|j: Seq<u8>| #[trigger] same_holders(owners(add_owner(a, k, id), j), owners(add_owner(b, k, id), j)) by {
        if j == k {
            assert forall|x: u32| #[trigger] occ(owners(add_owner(a, k, id), j), x) == occ(owners(add_owner(b, k, id), j), x) by {
                lemma_occ_push(owners(a, k), id, x);
                lemma_occ_push(owners(b, k), id, x);
                assert(same_holders(owners(a, k), owners(b, k)));
            }
        } else {
            assert(same_holders(owners(a, j), owners(b, j)));
        }
    }
    assert(add_owner(a, k, id).dom() =~= add_owner(b, k, id).dom());
}

proof fn lemma_alike_drop_owner(a: Map<Seq<u8>, Seq<u32>>, b: Map<Seq<u8>, Seq<u32>>, k: Seq<u8>, d: u32)
    requires
        lists_alike(a, b),
    ensures
        lists_alike(drop_owner(a, k, d), drop_owner(b, k, d)),
        only_owner(a, k, d) <==> only_owner(b, k, d),
{
    let la = owners(a, k);
    let lb = owners(b, k);
    assert(same_holders(la, lb));
    lemma_same_holders_shape(la, lb, d);
    lemma_rem_one(la, d);
    lemma_rem_one(lb, d);
    assert(same_holders(rem_n(la, d, 1), rem_n(lb, d, 1))) by {
        assert forall|x: u32| #[trigger] occ(rem_n(la, d, 1), x) == occ(rem_n(lb, d, 1), x) by {
            lemma_occ_rem_one(la, d, x);
            lemma_occ_rem_one(lb, d, x);
            assert(occ(la, x) == occ(lb, x));
            assert(occ(la, d) == occ(lb, d));
        }
    }
    lemma_same_holders_shape(rem_n(la, d, 1), rem_n(lb, d, 1), d);
    assert forall|j: Seq<u8>| #[trigger] same_holders(owners(drop_owner(a, k, d), j), owners(drop_owner(b, k, d), j)) by {
        if j != k {
            assert(same_holders(owners(a, j), owners(b, j)));
        }
    }
    assert(drop_owner(a, k, d).dom() =~= drop_owner(b, k, d).dom());
}

proof fn lemma_alike_piece_owners(a: Map<Seq<u8>, Seq<u32>>, b: Map<Seq<u8>, Seq<u32>>, pcs: Seq<PieceView>, id: u32)
    requires
        lists_alike(a, b),
    ensures
        lists_alike(add_piece_owners(a, pcs, id), add_piece_owners(b, pcs, id)),
    decreases pcs.len(),
{
    if pcs.len() > 0 {
        lemma_alike_piece_owners(a, b, pcs.drop_last(), id);
        lemma_alike_add_owner(
            add_piece_owners(a, pcs.drop_last(), id),
            add_piece_owners(b, pcs.drop_last(), id),
            pcs.last().sha3_code,
            id,
        );
    } else {
        assert(add_piece_owners(a, pcs, id) == a);
        assert(add_piece_owners(b, pcs, id) == b);
    }
}

/// The indexes of two tables alike: the same keys of records, and the same
/// holders.
pub open spec fn indexes_alike(a: PeersInfoTableView, b: PeersInfoTableView) -> bool {
    &&& a.file_meta.dom() == b.file_meta.dom()
    &&& lists_alike(a.files, b.files)
    &&& lists_alike(a.pieces, b.pieces)
}

proof fn lemma_alike_register_files(a: PeersInfoTableView, b: PeersInfoTableView, ms: Seq<MetaView>, id: u32)
    requires
        indexes_alike(a, b),
    ensures
        indexes_alike(register_files(a, ms, id), register_files(b, ms, id)),
        register_files(a, ms, id).peers_info == a.peers_info,
        register_files(a, ms, id).addrs == a.addrs,
        register_files(b, ms, id).peers_info == b.peers_info,
        register_files(b, ms, id).addrs == b.addrs,
    decreases ms.len(),
{
    if ms.len() > 0 {
        let pre = ms.drop_last();
        let m = ms.last();
        lemma_alike_register_files(a, b, pre, id);
        let pa = register_files(a, pre, id);
        let pb = register_files(b, pre, id);
        assert(register_files(a, ms, id) == register_file(pa, m, id));
        assert(register_files(b, ms, id) == register_file(pb, m, id));
        lemma_alike_add_owner(pa.files, pb.files, m.sha3_code, id);
        lemma_alike_piece_owners(pa.pieces, pb.pieces, m.pieces_info, id);
        assert(register_file(pa, m, id).file_meta.dom() =~= register_file(pb, m, id).file_meta.dom());
    } else {
        assert(register_files(a, ms, id) == a);
        assert(register_files(b, ms, id) == b);
    }
}

/// Two states of taking a peer out, alike.
pub open spec fn drop_alike(a: DropState, b: DropState) -> bool {
    &&& a.file_meta.dom() == b.file_meta.dom()
    &&& lists_alike(a.files, b.files)
    &&& lists_alike(a.pieces, b.pieces)
}

proof fn lemma_alike_piece_drop(a: Map<Seq<u8>, Seq<u32>>, b: Map<Seq<u8>, Seq<u32>>, pcs: Seq<PieceView>, d: u32)
    requires
        lists_alike(a, b),
    ensures
        lists_alike(pcs.fold_left(a, piece_drop_step(d)), pcs.fold_left(b, piece_drop_step(d))),
    decreases pcs.len(),
{
    if pcs.len() > 0 {
        lemma_alike_piece_drop(a, b, pcs.drop_last(), d);
        lemma_alike_drop_owner(
            pcs.drop_last().fold_left(a, piece_drop_step(d)),
            pcs.drop_last().fold_left(b, piece_drop_step(d)),
            pcs.last().sha3_code,
            d,
        );
    }
}

proof fn lemma_alike_meta_drops(a: DropState, b: DropState, ms: Seq<MetaView>, d: u32)
    requires
        drop_alike(a, b),
    ensures
        drop_alike(ms.fold_left(a, meta_drop_step(d)), ms.fold_left(b, meta_drop_step(d))),
    decreases ms.len(),
{
    if ms.len() > 0 {
        let pre = ms.drop_last();
        let m = ms.last();
        lemma_alike_meta_drops(a, b, pre, d);
        let pa = pre.fold_left(a, meta_drop_step(d));
        let pb = pre.fold_left(b, meta_drop_step(d));
        assert(ms.fold_left(a, meta_drop_step(d)) == drop_meta(pa, m, d));
        assert(ms.fold_left(b, meta_drop_step(d)) == drop_meta(pb, m, d));
        lemma_alike_drop_owner(pa.files, pb.files, m.sha3_code, d);
        lemma_alike_piece_drop(pa.pieces, pb.pieces, m.pieces_info, d);
        assert(drop_meta(pa, m, d).file_meta.dom() =~= drop_meta(pb, m, d).file_meta.dom());
    }
}

proof fn lemma_alike_peer_drops(a: DropState, b: DropState, ps: Seq<PeerView>, d: u32)
    requires
        drop_alike(a, b),
    ensures
        drop_alike(ps.fold_left(a, peer_drop_step(d)), ps.fold_left(b, peer_drop_step(d))),
    decreases ps.len(),
{
    if ps.len() > 0 {
        let pre = ps.drop_last();
        lemma_alike_peer_drops(a, b, pre, d);
        lemma_alike_meta_drops(
            pre.fold_left(a, peer_drop_step(d)),
            pre.fold_left(b, peer_drop_step(d)),
            ps.last().peer_file_meta_info_report,
            d,
        );
    }
}

proof fn lemma_alike_piece_steps(
    a: PieceAddState,
    b: PieceAddState,
    ps: Seq<PeerView>,
    id: u32,
    code: Seq<u8>,
    piece: PieceView,
)
    requires
        a.peers == b.peers,
        a.meta == b.meta,
        lists_alike(a.files, b.files),
    ensures
        ps.fold_left(a, piece_step(id, code, piece)).peers == ps.fold_left(b, piece_step(id, code, piece)).peers,
        ps.fold_left(a, piece_step(id, code, piece)).meta == ps.fold_left(b, piece_step(id, code, piece)).meta,
        lists_alike(ps.fold_left(a, piece_step(id, code, piece)).files, ps.fold_left(b, piece_step(id, code, piece)).files),
    decreases ps.len(),
{
    if ps.len() > 0 {
        let pre = ps.drop_last();
        lemma_alike_piece_steps(a, b, pre, id, code, piece);
        let pa = pre.fold_left(a, piece_step(id, code, piece));
        let pb = pre.fold_left(b, piece_step(id, code, piece));
        lemma_alike_add_owner(pa.files, pb.files, code, id);
    }
}

/// Law: two tables alike stay alike under any change.
pub proof fn lemma_alike_apply_op(a: PeersInfoTableView, b: PeersInfoTableView, op: TableOp)
    requires
        alike(a, b),
    ensures
        alike(apply_op(a, op), apply_op(b, op)),
{
    match op {
        TableOp::AddPeer(p) => {
            let a1 = PeersInfoTableView { addrs: a.addrs.insert(p.peer_id, crate::peers_info_table::peer_addr(p)), ..a };
            let b1 = PeersInfoTableView { addrs: b.addrs.insert(p.peer_id, crate::peers_info_table::peer_addr(p)), ..b };
            lemma_alike_register_files(a1, b1, p.peer_file_meta_info_report, p.peer_id);
        },
        TableOp::UpdateFiles(id, ms) => {
            lemma_alike_register_files(a, b, ms, id);
        },
        TableOp::DropPeer(d) => {
            let sa = DropState { file_meta: a.file_meta, files: a.files, pieces: a.pieces };
            let sb = DropState { file_meta: b.file_meta, files: b.files, pieces: b.pieces };
            lemma_alike_peer_drops(sa, sb, a.peers_info, d);
        },
        TableOp::AddPiece(id, meta, piece) => {
            let sa = PieceAddState { peers: Seq::empty(), files: a.files, meta };
            let sb = PieceAddState { peers: Seq::empty(), files: b.files, meta };
            lemma_alike_piece_steps(sa, sb, a.peers_info, id, meta.sha3_code, piece);
            lemma_alike_add_owner(a.pieces, b.pieces, piece.sha3_code, id);
        },
    }
}

/// Two tables alike stay alike under any run of changes.
pub proof fn lemma_alike_apply_ops(a: PeersInfoTableView, b: PeersInfoTableView, ops: Seq<TableOp>)
    requires
        alike(a, b),
    ensures
        alike(apply_ops(a, ops), apply_ops(b, ops)),
    decreases ops.len(),
{
    if ops.len() > 0 {
        lemma_alike_apply_ops(a, b, ops.drop_last());
        lemma_alike_apply_op(apply_ops(a, ops.drop_last()), apply_ops(b, ops.drop_last()), ops.last());
    }
}

proof fn lemma_occ_rep(id: u32, n: nat, x: u32)
    ensures
        occ(rep(id, n), x) == if x == id {
            n
        } else {
            0nat
        },
    decreases n,
{
    if n > 0 {
        lemma_occ_rep(id, (n - 1) as nat, x);
        assert(rep(id, n).drop_first() =~= rep(id, (n - 1) as nat));
    }
}

/// The records of digest `k` held by the peers with id `x`, all together.
pub open spec fn idsum_f(ps: Seq<PeerView>, x: u32, k: Seq<u8>) -> nat
    decreases ps.len(),
{
    if ps.len() == 0 {
        0
    } else {
        idsum_f(ps.drop_last(), x, k) + if ps.last().peer_id == x {
            nrec(ps.last().peer_file_meta_info_report, k)
        } else {
            0nat
        }
    }
}

/// The pieces of digest `c` held by the peers with id `x`, all together.
pub open spec fn idsum_p(ps: Seq<PeerView>, x: u32, c: Seq<u8>) -> nat
    decreases ps.len(),
{
    if ps.len() == 0 {
        0
    } else {
        idsum_p(ps.drop_last(), x, c) + if ps.last().peer_id == x {
            npc(ps.last().peer_file_meta_info_report, c)
        } else {
            0nat
        }
    }
}

proof fn lemma_occ_own(ps: Seq<PeerView>, x: u32, k: Seq<u8>)
    ensures
        occ(ownf(ps, k), x) == idsum_f(ps, x, k),
        occ(ownp(ps, k), x) == idsum_p(ps, x, k),
    decreases ps.len(),
{
    if ps.len() > 0 {
        let q = ps.last();
        lemma_occ_own(ps.drop_last(), x, k);
        lemma_occ_concat(ownf(ps.drop_last(), k), rep(q.peer_id, nrec(q.peer_file_meta_info_report, k)), x);
        lemma_occ_rep(q.peer_id, nrec(q.peer_file_meta_info_report, k), x);
        lemma_occ_concat(ownp(ps.drop_last(), k), rep(q.peer_id, npc(q.peer_file_meta_info_report, k)), x);
        lemma_occ_rep(q.peer_id, npc(q.peer_file_meta_info_report, k), x);
    }
}

/// Giving the only peer with id `id` other files changes its counts alone.
proof fn lemma_idsum_with_report(ps: Seq<PeerView>, id: u32, i0: int, r: Seq<MetaView>, x: u32, k: Seq<u8>)
    requires
        only_peer_at(ps, id, i0),
    ensures
        idsum_f(with_report(ps, i0, r), x, k) + (if x == id {
            nrec(ps[i0].peer_file_meta_info_report, k)
        } else {
            0nat
        }) == idsum_f(ps, x, k) + if x == id {
            nrec(r, k)
        } else {
            0nat
        },
        idsum_p(with_report(ps, i0, r), x, k) + (if x == id {
            npc(ps[i0].peer_file_meta_info_report, k)
        } else {
            0nat
        }) == idsum_p(ps, x, k) + if x == id {
            npc(r, k)
        } else {
            0nat
        },
    decreases ps.len(),
{
    let w = with_report(ps, i0, r);
    let pre = ps.drop_last();
    if i0 == ps.len() - 1 {
        assert(w.drop_last() =~= pre);
        assert(no_id(pre, id)) by {
            assert forall|i: int| 0 <= i < pre.len() implies #[trigger] pre[i].peer_id != id by {
                assert(pre[i] == ps[i]);
            }
        }
    } else {
        assert(w.drop_last() =~= with_report(pre, i0, r));
        assert(only_peer_at(pre, id, i0)) by {
            assert forall|i: int| 0 <= i < pre.len() && i != i0 implies #[trigger] pre[i].peer_id != id by {
                assert(pre[i] == ps[i]);
            }
        }
        assert(ps.last().peer_id != id) by {
            assert(ps[ps.len() - 1] == ps.last());
        }
        lemma_idsum_with_report(pre, id, i0, r, x, k);
    }
}

/// No peer has id `id`.
pub open spec fn no_id(ps: Seq<PeerView>, id: u32) -> bool {
    forall|i: int| 0 <= i < ps.len() ==> #[trigger] ps[i].peer_id != id
}

proof fn lemma_addr_with_report(ps: Seq<PeerView>, i0: int, r: Seq<MetaView>)
    requires
        0 <= i0 < ps.len(),
    ensures
        addr_fold(with_report(ps, i0, r)) == addr_fold(ps),
    decreases ps.len(),
{
    let w = with_report(ps, i0, r);
    if i0 == ps.len() - 1 {
        assert(w.drop_last() =~= ps.drop_last());
    } else {
        assert(w.drop_last() =~= with_report(ps.drop_last(), i0, r));
        lemma_addr_with_report(ps.drop_last(), i0, r);
    }
}

proof fn lemma_nrec_concat(r: Seq<MetaView>, ms: Seq<MetaView>, k: Seq<u8>)
    ensures
        nrec(r + ms, k) == nrec(r, k) + nrec(ms, k),
        npc(r + ms, k) == npc(r, k) + npc(ms, k),
    decreases ms.len(),
{
    if ms.len() == 0 {
        assert(r + ms =~= r);
    } else {
        lemma_nrec_concat(r, ms.drop_last(), k);
        assert((r + ms).drop_last() =~= r + ms.drop_last());
        assert((r + ms).last() == ms.last());
    }
}

proof fn lemma_nrec_update(r: Seq<MetaView>, j: int, m: MetaView, k: Seq<u8>)
    requires
        0 <= j < r.len(),
        m.sha3_code == r[j].sha3_code,
    ensures
        nrec(r.update(j, m), k) == nrec(r, k),
        npc(r.update(j, m), k) + cnt(r[j].pieces_info, k) == npc(r, k) + cnt(m.pieces_info, k),
    decreases r.len(),
{
    let u = r.update(j, m);
    if j == r.len() - 1 {
        assert(u.drop_last() =~= r.drop_last());
    } else {
        assert(u.drop_last() =~= r.drop_last().update(j, m));
        lemma_nrec_update(r.drop_last(), j, m, k);
    }
}

/// Two holder maps whose keys all have holders, with the same holders for
/// every key, are alike.
proof fn lemma_lists_alike_from_holders(a: Map<Seq<u8>, Seq<u32>>, b: Map<Seq<u8>, Seq<u32>>)
    requires
        lists_ok(a),
        lists_ok(b),
        forall|k: Seq<u8>| #[trigger] same_holders(owners(a, k), owners(b, k)),
    ensures
        lists_alike(a, b),
{
    assert forall|k: Seq<u8>| a.dom().contains(k) <==> b.dom().contains(k) by {
        assert(same_holders(owners(a, k), owners(b, k)));
        lemma_same_holders_shape(owners(a, k), owners(b, k), 0);
    }
    assert(a.dom() =~= b.dom());
}

pub proof fn lemma_alike_symm(a: PeersInfoTableView, b: PeersInfoTableView)
    requires
        alike(a, b),
    ensures
        alike(b, a),
{
    assert forall|k: Seq<u8>| #[trigger] same_holders(owners(b.files, k), owners(a.files, k)) by {
        assert(same_holders(owners(a.files, k), owners(b.files, k)));
    }
    assert forall|k: Seq<u8>| #[trigger] same_holders(owners(b.pieces, k), owners(a.pieces, k)) by {
        assert(same_holders(owners(a.pieces, k), owners(b.pieces, k)));
    }
}

proof fn lemma_alike_refl(a: PeersInfoTableView)
    ensures
        alike(a, a),
{
}

proof fn lemma_alike_trans(a: PeersInfoTableView, b: PeersInfoTableView, c: PeersInfoTableView)
    requires
        alike(a, b),
        alike(b, c),
    ensures
        alike(a, c),
{
    assert forall|k: Seq<u8>| #[trigger] same_holders(owners(a.files, k), owners(c.files, k)) by {
        assert(same_holders(owners(a.files, k), owners(b.files, k)));
        assert(same_holders(owners(b.files, k), owners(c.files, k)));
    }
    assert forall|k: Seq<u8>| #[trigger] same_holders(owners(a.pieces, k), owners(c.pieces, k)) by {
        assert(same_holders(owners(a.pieces, k), owners(b.pieces, k)));
        assert(same_holders(owners(b.pieces, k), owners(c.pieces, k)));
    }
}

/// The table is alike to the one a snapshot of its peers rebuilds.
pub open spec fn consistent(t: PeersInfoTableView) -> bool {
    alike(t, table_from_peers(t.peers_info))
}

/// No two peers share an id.
pub open spec fn unique_ids(ps: Seq<PeerView>) -> bool {
    forall|i: int, j: int| 0 <= i < j < ps.len() ==> #[trigger] ps[i].peer_id != #[trigger] ps[j].peer_id
}

/// A change the tracker makes as the protocol has it: a new peer has a new
/// id; files and pieces are reported by a peer the table knows; a piece is
/// of a file the table knows, announced with the file's record without pieces.
pub open spec fn op_fits(t: PeersInfoTableView, op: TableOp) -> bool {
    match op {
        TableOp::AddPeer(p) => !has_peer(t.peers_info, p.peer_id),
        TableOp::UpdateFiles(id, ms) => has_peer(t.peers_info, id),
        TableOp::DropPeer(d) => true,
        TableOp::AddPiece(id, meta, piece) => has_peer(t.peers_info, id) && t.file_meta.dom().contains(meta.sha3_code)
            && meta.pieces_info.len() == 0,
    }
}

proof fn lemma_only_peer(ps: Seq<PeerView>, id: u32) -> (i0: int)
    requires
        unique_ids(ps),
        has_peer(ps, id),
    ensures
        only_peer_at(ps, id, i0),
{
    let i0 = choose|i: int| 0 <= i < ps.len() && #[trigger] ps[i].peer_id == id;
    assert forall|i: int| 0 <= i < ps.len() && i != i0 implies #[trigger] ps[i].peer_id != id by {
        if i < i0 {
            assert(ps[i].peer_id != ps[i0].peer_id);
        } else {
            assert(ps[i0].peer_id != ps[i].peer_id);
        }
    }
    i0
}

proof fn lemma_first_meta_exists(r: Seq<MetaView>, code: Seq<u8>)
    requires
        has_meta(r, code),
    ensures
        is_first_meta(r, code, first_meta(r, code)),
    decreases r.len(),
{
    let pre = r.drop_last();
    if has_meta(pre, code) {
        lemma_first_meta_exists(pre, code);
        let j = first_meta(pre, code);
        assert(is_first_meta(r, code, j)) by {
            assert forall|k: int| 0 <= k < j implies #[trigger] r[k].sha3_code != code by {
                assert(r[k] == pre[k]);
            }
        }
    } else {
        let j = r.len() - 1;
        let w = choose|w: int| 0 <= w < r.len() && #[trigger] r[w].sha3_code == code;
        if w < j {
            assert(pre[w].sha3_code == code);
        }
        assert(is_first_meta(r, code, j)) by {
            assert forall|k: int| 0 <= k < j implies #[trigger] r[k].sha3_code != code by {
                assert(r[k] == pre[k]);
                if r[k].sha3_code == code {
                    assert(has_meta(pre, code));
                }
            }
        }
    }
}

/// The facts `lemma_build` gives, with no condition on the records.
proof fn lemma_built(ps: Seq<PeerView>)
    ensures
        lists_ok(table_from_peers(ps).files),
        lists_ok(table_from_peers(ps).pieces),
        meta_ok(table_from_peers(ps).file_meta, table_from_peers(ps).files, |m: MetaView| true),
        forall|k: Seq<u8>| #[trigger] owners(table_from_peers(ps).files, k) == ownf(ps, k),
        forall|c: Seq<u8>| #[trigger] owners(table_from_peers(ps).pieces, c) == ownp(ps, c),
        table_from_peers(ps).addrs == addr_fold(ps),
        table_from_peers(ps).peers_info == ps,
{
    lemma_build(ps, |m: MetaView| true);
}

/// Two tables with the same peers and addresses, whose keys all have holders,
/// whose records are kept for exactly the files with holders, and whose
/// holder lists have the same holders, are alike.
proof fn lemma_alike_from_counts(a: PeersInfoTableView, b: PeersInfoTableView)
    requires
        a.peers_info == b.peers_info,
        a.addrs == b.addrs,
        lists_ok(a.files),
        lists_ok(a.pieces),
        lists_ok(b.files),
        lists_ok(b.pieces),
        forall|k: Seq<u8>| #[trigger] a.file_meta.dom().contains(k) <==> a.files.dom().contains(k),
        forall|k: Seq<u8>| #[trigger] b.file_meta.dom().contains(k) <==> b.files.dom().contains(k),
        forall|k: Seq<u8>| #[trigger] same_holders(owners(a.files, k), owners(b.files, k)),
        forall|k: Seq<u8>| #[trigger] same_holders(owners(a.pieces, k), owners(b.pieces, k)),
    ensures
        alike(a, b),
{
    lemma_lists_alike_from_holders(a.files, b.files);
    lemma_lists_alike_from_holders(a.pieces, b.pieces);
    assert forall|k: Seq<u8>| a.file_meta.dom().contains(k) <==> b.file_meta.dom().contains(k) by {
        assert(a.file_meta.dom().contains(k) <==> a.files.dom().contains(k));
        assert(b.file_meta.dom().contains(k) <==> b.files.dom().contains(k));
    }
    assert(a.file_meta.dom() =~= b.file_meta.dom());
}

/// Files reported by the only peer with the id, entered into a table built
/// peer by peer, give a table alike to the one rebuilt from the peers.
proof fn lemma_update_rebuilt(ps: Seq<PeerView>, id: u32, i0: int, ms: Seq<MetaView>)
    requires
        only_peer_at(ps, id, i0),
    ensures
        alike(update_files(table_from_peers(ps), ms, id), table_from_peers(update_files(table_from_peers(ps), ms, id).peers_info)),
        update_files(table_from_peers(ps), ms, id).peers_info == with_report(ps, i0, ps[i0].peer_file_meta_info_report + ms),
{
    let t = table_from_peers(ps);
    let r0 = ps[i0].peer_file_meta_info_report;
    let ps2 = with_report(ps, i0, r0 + ms);
    assert(extend_reports(ps, id, ms) =~= ps2) by {
        assert forall|i: int| 0 <= i < ps.len() implies #[trigger] extend_reports(ps, id, ms)[i] == ps2[i] by {
            if i != i0 {
                assert(ps[i].peer_id != id);
            }
        }
    }
    let u = update_files(t, ms, id);
    let b = table_from_peers(ps2);
    lemma_built(ps);
    lemma_built(ps2);
    lemma_register_files(t, ms, id, |m: MetaView| true);
    lemma_addr_with_report(ps, i0, r0 + ms);
    assert forall|k: Seq<u8>| #[trigger] same_holders(owners(u.files, k), owners(b.files, k)) by {
        assert forall|x: u32| #[trigger] occ(owners(u.files, k), x) == occ(owners(b.files, k), x) by {
            lemma_occ_concat(ownf(ps, k), rep(id, nrec(ms, k)), x);
            lemma_occ_rep(id, nrec(ms, k), x);
            lemma_occ_own(ps, x, k);
            lemma_occ_own(ps2, x, k);
            lemma_idsum_with_report(ps, id, i0, r0 + ms, x, k);
            lemma_nrec_concat(r0, ms, k);
        }
    }
    assert forall|k: Seq<u8>| #[trigger] same_holders(owners(u.pieces, k), owners(b.pieces, k)) by {
        assert forall|x: u32| #[trigger] occ(owners(u.pieces, k), x) == occ(owners(b.pieces, k), x) by {
            lemma_occ_concat(ownp(ps, k), rep(id, npc(ms, k)), x);
            lemma_occ_rep(id, npc(ms, k), x);
            lemma_occ_own(ps, x, k);
            lemma_occ_own(ps2, x, k);
            lemma_idsum_with_report(ps, id, i0, r0 + ms, x, k);
            lemma_nrec_concat(r0, ms, k);
        }
    }
    lemma_alike_from_counts(u, b);
}

proof fn lemma_lists_ok_add_owner(m: Map<Seq<u8>, Seq<u32>>, k: Seq<u8>, id: u32)
    requires
        lists_ok(m),
    ensures
        lists_ok(add_owner(m, k, id)),
        forall|j: Seq<u8>| #[trigger] occ(owners(add_owner(m, k, id), j), id) == occ(owners(m, j), id) + if j == k {
            1nat
        } else {
            0nat
        },
        forall|j: Seq<u8>, x: u32| x != id ==> #[trigger] occ(owners(add_owner(m, k, id), j), x) == occ(owners(m, j), x),
{
    assert forall|j: Seq<u8>| #[trigger] occ(owners(add_owner(m, k, id), j), id) == occ(owners(m, j), id) + if j == k {
        1nat
    } else {
        0nat
    } by {
        lemma_occ_push(owners(m, k), id, id);
    }
    assert forall|j: Seq<u8>, x: u32| x != id implies #[trigger] occ(owners(add_owner(m, k, id), j), x) == occ(owners(m, j), x) by {
        lemma_occ_push(owners(m, k), id, x);
    }
}

/// A piece acquired by the only peer with the id, of a file the table knows,
/// announced with the file's record without pieces, recorded in a table built
/// peer by peer, gives a table alike to the one rebuilt from the peers.
proof fn lemma_add_piece_rebuilt(ps: Seq<PeerView>, id: u32, i0: int, meta: MetaView, piece: PieceView)
    requires
        only_peer_at(ps, id, i0),
        table_from_peers(ps).file_meta.dom().contains(meta.sha3_code),
        meta.pieces_info.len() == 0,
    ensures
        alike(add_piece(table_from_peers(ps), id, meta, piece), table_from_peers(add_piece(table_from_peers(ps), id, meta, piece).peers_info)),
        exists|r: Seq<MetaView>| add_piece(table_from_peers(ps), id, meta, piece).peers_info == #[trigger] with_report(ps, i0, r),
{
    let t = table_from_peers(ps);
    let code = meta.sha3_code;
    let r0 = ps[i0].peer_file_meta_info_report;
    let a = add_piece(t, id, meta, piece);
    lemma_built(ps);
    lemma_take_all(ps);
    lemma_lists_ok_add_owner(t.pieces, piece.sha3_code, id);
    let r2 = if has_meta(r0, code) {
        let jj = first_meta(r0, code);
        lemma_first_meta_exists(r0, code);
        lemma_piece_fold_known_file(ps, id, code, piece, t.files, meta, i0, jj, ps.len() as int);
        r0.update(jj, MetaView { pieces_info: r0[jj].pieces_info.push(piece), ..r0[jj] })
    } else {
        lemma_piece_fold_new_file(ps, id, code, piece, t.files, meta, i0, ps.len() as int);
        lemma_lists_ok_add_owner(t.files, code, id);
        r0.push(MetaView { pieces_info: meta.pieces_info.push(piece), ..meta })
    };
    let ps2 = with_report(ps, i0, r2);
    assert(a.peers_info == ps2);
    let b = table_from_peers(ps2);
    lemma_built(ps2);
    lemma_addr_with_report(ps, i0, r2);
    assert forall|k: Seq<u8>| #[trigger] same_holders(owners(a.files, k), owners(b.files, k)) by {
        assert forall|x: u32| #[trigger] occ(owners(a.files, k), x) == occ(owners(b.files, k), x) by {
            lemma_occ_own(ps, x, k);
            lemma_occ_own(ps2, x, k);
            lemma_idsum_with_report(ps, id, i0, r2, x, k);
            if has_meta(r0, code) {
                let jj = first_meta(r0, code);
                lemma_nrec_update(r0, jj, MetaView { pieces_info: r0[jj].pieces_info.push(piece), ..r0[jj] }, k);
            } else {
                assert(r2.drop_last() =~= r0);
            }
        }
    }
    assert forall|c: Seq<u8>| #[trigger] same_holders(owners(a.pieces, c), owners(b.pieces, c)) by {
        assert forall|x: u32| #[trigger] occ(owners(a.pieces, c), x) == occ(owners(b.pieces, c), x) by {
            lemma_occ_own(ps, x, c);
            lemma_occ_own(ps2, x, c);
            lemma_idsum_with_report(ps, id, i0, r2, x, c);
            if has_meta(r0, code) {
                let jj = first_meta(r0, code);
                let pcs = r0[jj].pieces_info;
                lemma_nrec_update(r0, jj, MetaView { pieces_info: pcs.push(piece), ..r0[jj] }, c);
                assert(pcs.push(piece).drop_last() =~= pcs);
            } else {
                assert(r2.drop_last() =~= r0);
                let pcs2 = meta.pieces_info.push(piece);
                assert(pcs2.drop_last() =~= Seq::<PieceView>::empty());
                assert(cnt(Seq::<PieceView>::empty(), c) == 0);
            }
        }
    }
    assert forall|k: Seq<u8>| #[trigger] a.file_meta.dom().contains(k) <==> a.files.dom().contains(k) by {
        assert(t.file_meta.dom().contains(k) <==> t.files.dom().contains(k));
    }
    lemma_alike_from_counts(a, b);
}

proof fn lemma_unique_with_report(ps: Seq<PeerView>, i0: int, r: Seq<MetaView>)
    requires
        unique_ids(ps),
        0 <= i0 < ps.len(),
    ensures
        unique_ids(with_report(ps, i0, r)),
{
    let w = with_report(ps, i0, r);
    assert forall|i: int, j: int| 0 <= i < j < w.len() implies #[trigger] w[i].peer_id != #[trigger] w[j].peer_id by {
        assert(w[i].peer_id == ps[i].peer_id);
        assert(w[j].peer_id == ps[j].peer_id);
    }
}

/// One change made as the protocol has it keeps the tracker's table alike to
/// the one its peers rebuild, and its ids unique.
pub proof fn lemma_consistent_step(t: PeersInfoTableView, op: TableOp)
    requires
        consistent(t),
        unique_ids(t.peers_info),
        op_fits(t, op),
    ensures
        consistent(apply_op(t, op)),
        unique_ids(apply_op(t, op).peers_info),
{
    let ps = t.peers_info;
    let rt = table_from_peers(ps);
    lemma_built(ps);
    lemma_alike_apply_op(t, rt, op);
    let ro = apply_op(rt, op);
    assert(apply_op(t, op).peers_info == ro.peers_info);
    match op {
        TableOp::AddPeer(p) => {
            lemma_add_peer_rebuilds(ps, p);
            assert(table_from_peers(ps.push(p)).peers_info == ps.push(p));
            assert forall|i: int, j: int| 0 <= i < j < ps.push(p).len() implies #[trigger] ps.push(p)[i].peer_id
                != #[trigger] ps.push(p)[j].peer_id by {
                if j == ps.len() {
                    assert(ps.push(p)[i] == ps[i]);
                    if ps[i].peer_id == p.peer_id {
                        assert(has_peer(ps, p.peer_id));
                    }
                } else {
                    assert(ps.push(p)[i] == ps[i]);
                    assert(ps.push(p)[j] == ps[j]);
                }
            }
            lemma_alike_refl(ro);
        },
        TableOp::DropPeer(d) => {
            if has_peer(ps, d) {
                let i0 = lemma_only_peer(ps, d);
                lemma_drop_rebuilds_indexes(ps, d, i0);
                lemma_built(ps.remove(i0));
                assert(alike(ro, table_from_peers(ro.peers_info)));
                assert forall|i: int, j: int| 0 <= i < j < ps.remove(i0).len() implies #[trigger] ps.remove(i0)[i].peer_id
                    != #[trigger] ps.remove(i0)[j].peer_id by {
                    let ii = if i < i0 { i } else { i + 1 };
                    let jj = if j < i0 { j } else { j + 1 };
                    assert(ps.remove(i0)[i] == ps[ii]);
                    assert(ps.remove(i0)[j] == ps[jj]);
                }
            } else {
                assert(no_peer(ps, d)) by {
                    assert forall|i: int| 0 <= i < ps.len() implies #[trigger] ps[i].peer_id != d by {
                        if ps[i].peer_id == d {
                            assert(has_peer(ps, d));
                        }
                    }
                }
                lemma_drop_absent_rebuilt(ps, d);
                lemma_alike_refl(ro);
            }
        },
        TableOp::UpdateFiles(id, ms) => {
            let i0 = lemma_only_peer(ps, id);
            lemma_update_rebuilt(ps, id, i0, ms);
            lemma_unique_with_report(ps, i0, ps[i0].peer_file_meta_info_report + ms);
        },
        TableOp::AddPiece(id, meta, piece) => {
            let i0 = lemma_only_peer(ps, id);
            assert(rt.file_meta.dom().contains(meta.sha3_code));
            lemma_add_piece_rebuilt(ps, id, i0, meta, piece);
            let r = choose|r: Seq<MetaView>| ro.peers_info == #[trigger] with_report(ps, i0, r);
            lemma_unique_with_report(ps, i0, r);
        },
    }
    lemma_alike_trans(apply_op(t, op), ro, table_from_peers(ro.peers_info));
}

/// Law: a tracker's table that is alike to the table its peers rebuild (as a
/// new tracker's table is, built from the tracker's own record) stays so
/// through any run of changes made as the protocol has it (`op_fits`): new
/// peers with new ids, files and pieces reported by known peers, pieces of
/// known files announced with records without pieces, and peers dropped. So
/// a snapshot taken at any time rebuilds the tracker's table but for the order
/// inside holder lists and the choice among records of one digest.
pub proof fn lemma_tracker_stays_consistent(t: PeersInfoTableView, ops: Seq<TableOp>)
    requires
        consistent(t),
        unique_ids(t.peers_info),
        forall|i: int| 0 <= i < ops.len() ==> op_fits(apply_ops(t, ops.take(i)), #[trigger] ops[i]),
    ensures
        consistent(apply_ops(t, ops)),
        unique_ids(apply_ops(t, ops).peers_info),
    decreases ops.len(),
{
    if ops.len() > 0 {
        let pre = ops.drop_last();
        assert forall|i: int| 0 <= i < pre.len() implies op_fits(apply_ops(t, pre.take(i)), #[trigger] pre[i]) by {
            assert(pre.take(i) =~= ops.take(i));
            assert(pre[i] == ops[i]);
        }
        lemma_tracker_stays_consistent(t, pre);
        assert(ops.take(pre.len() as int) =~= pre);
        assert(op_fits(apply_ops(t, ops.take(pre.len() as int)), ops[pre.len() as int]));
        lemma_consistent_step(apply_ops(t, pre), ops.last());
    }
}

/// A table built peer by peer is consistent: so is a new tracker's table.
pub proof fn lemma_built_is_consistent(ps: Seq<PeerView>)
    ensures
        consistent(table_from_peers(ps)),
{
    lemma_built(ps);
    lemma_alike_refl(table_from_peers(ps));
}

} // verus!
