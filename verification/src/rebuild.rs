//! Why dropping a peer from a table built peer by peer gives the table built
//! from the other peers: the holder lists, counted, and how taking a peer out
//! thins them.
use vstd::prelude::*;
use crate::peers_info_table::{
    add_owner, add_piece_owners, drop_meta, drop_owner, empty_table, first_pos, is_first_pos,
    lemma_first_pos_unique, meta_drop_step, only_owner, only_peer_at, owners, peer_addr, peer_drop_step, peer_step,
    piece_drop_step, register_file, register_files, register_peer, AddrView, DropState,
    PeersInfoTableView, has_peer, lemma_drop_absent_peer, drop_peer, drop_peer_entry, is_last_peer, lemma_last_peer_unique, table_from_peers,
};
use crate::types::{MetaView, PeerView, PieceView};

verus! {

/// `n` times `id`.
pub open spec fn rep(id: u32, n: nat) -> Seq<u32> {
    Seq::new(n, |i: int| id)
}

/// `l` without its first `n` occurrences of `d`.
pub open spec fn rem_n(l: Seq<u32>, d: u32, n: nat) -> Seq<u32>
    decreases l.len(),
{
    if l.len() == 0 {
        l
    } else if l[0] == d && n > 0 {
        rem_n(l.drop_first(), d, (n - 1) as nat)
    } else {
        seq![l[0]] + rem_n(l.drop_first(), d, n)
    }
}

/// `l` without any `d`.
pub open spec fn without(l: Seq<u32>, d: u32) -> Seq<u32>
    decreases l.len(),
{
    if l.len() == 0 {
        l
    } else if l[0] == d {
        without(l.drop_first(), d)
    } else {
        seq![l[0]] + without(l.drop_first(), d)
    }
}

pub proof fn lemma_rem_zero(l: Seq<u32>, d: u32)
    ensures
        rem_n(l, d, 0) == l,
    decreases l.len(),
{
    if l.len() > 0 {
        lemma_rem_zero(l.drop_first(), d);
        assert(seq![l[0]] + l.drop_first() =~= l);
    }
}

proof fn lemma_first_pos_exists(l: Seq<u32>, d: u32)
    requires
        l.contains(d),
    ensures
        is_first_pos(l, d, first_pos(l, d)),
    decreases l.len(),
{
    if l[0] == d {
        assert(is_first_pos(l, d, 0));
    } else {
        let r = l.drop_first();
        let i = choose|i: int| 0 <= i < l.len() && l[i] == d;
        assert(r[i - 1] == d);
        lemma_first_pos_exists(r, d);
        let j = first_pos(r, d);
        assert(is_first_pos(l, d, j + 1)) by {
            assert forall|k: int| 0 <= k < j + 1 implies #[trigger] l[k] != d by {
                if k > 0 {
                    assert(l[k] == r[k - 1]);
                }
            }
        }
    }
}

/// Taking out the first `d` is `rem_n` once.
pub proof fn lemma_rem_one(l: Seq<u32>, d: u32)
    ensures
        l.contains(d) ==> l.remove(first_pos(l, d)) == rem_n(l, d, 1),
        !l.contains(d) ==> rem_n(l, d, 1) == l,
    decreases l.len(),
{
    if l.len() > 0 {
        let r = l.drop_first();
        lemma_rem_one(r, d);
        if l[0] == d {
            assert(is_first_pos(l, d, 0));
            lemma_first_pos_unique(l, d, 0);
            lemma_rem_zero(r, d);
            assert(l.remove(0) =~= r);
        } else {
            if l.contains(d) {
                let i = choose|i: int| 0 <= i < l.len() && l[i] == d;
                assert(r[i - 1] == d);
                lemma_first_pos_exists(r, d);
                let j = first_pos(r, d);
                assert(is_first_pos(l, d, j + 1)) by {
                    assert forall|k: int| 0 <= k < j + 1 implies #[trigger] l[k] != d by {
                        if k > 0 {
                            assert(l[k] == r[k - 1]);
                        }
                    }
                }
                lemma_first_pos_unique(l, d, j + 1);
                assert(l.remove(j + 1) =~= seq![l[0]] + r.remove(j));
            } else {
                assert(!r.contains(d)) by {
                    if r.contains(d) {
                        let i = choose|i: int| 0 <= i < r.len() && r[i] == d;
                        assert(l[i + 1] == d);
                    }
                }
                assert(seq![l[0]] + r =~= l);
            }
        }
    }
}

/// Taking out one more `d` after `n` of them is taking out `n + 1`.
proof fn lemma_rem_more(l: Seq<u32>, d: u32, n: nat)
    ensures
        rem_n(rem_n(l, d, n), d, 1) == rem_n(l, d, n + 1),
    decreases l.len(),
{
    if l.len() > 0 {
        let r = l.drop_first();
        if l[0] == d && n > 0 {
            lemma_rem_more(r, d, (n - 1) as nat);
        } else if l[0] == d {
            lemma_rem_zero(l, d);
            lemma_rem_zero(r, d);
        } else {
            lemma_rem_more(r, d, n);
            let x = seq![l[0]] + rem_n(r, d, n);
            assert(x[0] == l[0]);
            assert(x.drop_first() =~= rem_n(r, d, n));
        }
    }
}

/// Taking out at least as many `d` as there are elements takes out all of them.
proof fn lemma_rem_all(l: Seq<u32>, d: u32, n: nat)
    requires
        n >= l.len(),
    ensures
        rem_n(l, d, n) == without(l, d),
    decreases l.len(),
{
    if l.len() > 0 {
        let r = l.drop_first();
        if l[0] == d {
            lemma_rem_all(r, d, (n - 1) as nat);
        } else {
            lemma_rem_all(r, d, n);
        }
    }
}

proof fn lemma_without_concat(a: Seq<u32>, b: Seq<u32>, d: u32)
    ensures
        without(a + b, d) == without(a, d) + without(b, d),
    decreases a.len(),
{
    if a.len() == 0 {
        assert(a + b =~= b);
    } else {
        lemma_without_concat(a.drop_first(), b, d);
        assert((a + b).drop_first() =~= a.drop_first() + b);
        assert((a + b)[0] == a[0]);
        if a[0] != d {
            assert(seq![a[0]] + (without(a.drop_first(), d) + without(b, d)) =~= (seq![a[0]] + without(
                a.drop_first(),
                d,
            )) + without(b, d));
        }
    }
}

proof fn lemma_without_rep(id: u32, n: nat, d: u32)
    ensures
        without(rep(id, n), d) == if id == d {
            Seq::<u32>::empty()
        } else {
            rep(id, n)
        },
    decreases n,
{
    if n > 0 {
        lemma_without_rep(id, (n - 1) as nat, d);
        assert(rep(id, n).drop_first() =~= rep(id, (n - 1) as nat));
        if id != d {
            assert(seq![id] + rep(id, (n - 1) as nat) =~= rep(id, n));
        }
    }
}

/// Every key of `m` has at least one holder.
pub open spec fn lists_ok(m: Map<Seq<u8>, Seq<u32>>) -> bool {
    forall|k: Seq<u8>| #[trigger] m.dom().contains(k) ==> m[k].len() > 0
}

/// Two maps of holder lists with no empty list are equal when they give the
/// same holders everywhere.
proof fn lemma_lists_equal(m1: Map<Seq<u8>, Seq<u32>>, m2: Map<Seq<u8>, Seq<u32>>)
    requires
        lists_ok(m1),
        lists_ok(m2),
        forall|k: Seq<u8>| #[trigger] owners(m1, k) == owners(m2, k),
    ensures
        m1 == m2,
{
    assert forall|k: Seq<u8>| m1.dom().contains(k) <==> m2.dom().contains(k) by {
        assert(owners(m1, k) == owners(m2, k));
    }
    assert forall|k: Seq<u8>| m1.dom().contains(k) implies m1[k] == m2[k] by {
        assert(owners(m1, k) == owners(m2, k));
    }
    assert(m1 =~= m2);
}

/// How many of the pieces have digest `c`.
pub open spec fn cnt(pcs: Seq<PieceView>, c: Seq<u8>) -> nat
    decreases pcs.len(),
{
    if pcs.len() == 0 {
        0
    } else {
        cnt(pcs.drop_last(), c) + if pcs.last().sha3_code == c {
            1nat
        } else {
            0nat
        }
    }
}

pub proof fn lemma_rep_push(id: u32, n: nat)
    ensures
        rep(id, n).push(id) == rep(id, n + 1),
{
    assert(rep(id, n).push(id) =~= rep(id, n + 1));
}

proof fn lemma_add_piece_owners(m: Map<Seq<u8>, Seq<u32>>, pcs: Seq<PieceView>, id: u32)
    requires
        lists_ok(m),
    ensures
        lists_ok(add_piece_owners(m, pcs, id)),
        forall|c: Seq<u8>| #[trigger] owners(add_piece_owners(m, pcs, id), c) == owners(m, c) + rep(id, cnt(pcs, c)),
    decreases pcs.len(),
{
    if pcs.len() == 0 {
        assert(add_piece_owners(m, pcs, id) == m);
        assert forall|c: Seq<u8>| #[trigger] owners(add_piece_owners(m, pcs, id), c) == owners(m, c) + rep(id, cnt(pcs, c)) by {
            assert(cnt(pcs, c) == 0);
            assert(owners(m, c) + rep(id, cnt(pcs, c)) =~= owners(m, c));
        }
    } else {
        let pre = pcs.drop_last();
        lemma_add_piece_owners(m, pre, id);
        let prev = add_piece_owners(m, pre, id);
        assert(add_piece_owners(m, pcs, id) == add_owner(prev, pcs.last().sha3_code, id));
        assert forall|c: Seq<u8>| #[trigger] owners(add_piece_owners(m, pcs, id), c) == owners(m, c) + rep(id, cnt(pcs, c)) by {
            assert(owners(prev, c) == owners(m, c) + rep(id, cnt(pre, c)));
            if c == pcs.last().sha3_code {
                lemma_rep_push(id, cnt(pre, c));
                assert((owners(m, c) + rep(id, cnt(pre, c))).push(id) =~= owners(m, c) + rep(id, cnt(pre, c)).push(id));
            }
        }
    }
}

proof fn lemma_drop_owner(m: Map<Seq<u8>, Seq<u32>>, k: Seq<u8>, d: u32)
    requires
        lists_ok(m),
    ensures
        lists_ok(drop_owner(m, k, d)),
        forall|j: Seq<u8>| #[trigger] owners(drop_owner(m, k, d), j) == if j == k {
            rem_n(owners(m, k), d, 1)
        } else {
            owners(m, j)
        },
{
    lemma_rem_one(owners(m, k), d);
    if !m.dom().contains(k) {
        assert(owners(m, k) =~= Seq::<u32>::empty());
    }
}

proof fn lemma_drop_piece_owners(m: Map<Seq<u8>, Seq<u32>>, pcs: Seq<PieceView>, d: u32)
    requires
        lists_ok(m),
    ensures
        lists_ok(pcs.fold_left(m, piece_drop_step(d))),
        forall|c: Seq<u8>| #[trigger] owners(pcs.fold_left(m, piece_drop_step(d)), c) == rem_n(owners(m, c), d, cnt(pcs, c)),
    decreases pcs.len(),
{
    if pcs.len() == 0 {
        assert forall|c: Seq<u8>| #[trigger] owners(pcs.fold_left(m, piece_drop_step(d)), c) == rem_n(owners(m, c), d, cnt(pcs, c)) by {
            lemma_rem_zero(owners(m, c), d);
        }
    } else {
        let pre = pcs.drop_last();
        lemma_drop_piece_owners(m, pre, d);
        let prev = pre.fold_left(m, piece_drop_step(d));
        lemma_drop_owner(prev, pcs.last().sha3_code, d);
        assert forall|c: Seq<u8>| #[trigger] owners(pcs.fold_left(m, piece_drop_step(d)), c) == rem_n(owners(m, c), d, cnt(pcs, c)) by {
            assert(owners(prev, c) == rem_n(owners(m, c), d, cnt(pre, c)));
            if c == pcs.last().sha3_code {
                lemma_rem_more(owners(m, c), d, cnt(pre, c));
            }
        }
    }
}

/// How many of the records have digest `k`.
pub open spec fn nrec(ms: Seq<MetaView>, k: Seq<u8>) -> nat
    decreases ms.len(),
{
    if ms.len() == 0 {
        0
    } else {
        nrec(ms.drop_last(), k) + if ms.last().sha3_code == k {
            1nat
        } else {
            0nat
        }
    }
}

/// How many pieces with digest `c` the records list, all together.
pub open spec fn npc(ms: Seq<MetaView>, c: Seq<u8>) -> nat
    decreases ms.len(),
{
    if ms.len() == 0 {
        0
    } else {
        npc(ms.drop_last(), c) + cnt(ms.last().pieces_info, c)
    }
}

/// The records of the table are keyed by their digests, there is one for
/// each file with holders, and each satisfies `src`.
pub open spec fn meta_ok(fm: Map<Seq<u8>, MetaView>, files: Map<Seq<u8>, Seq<u32>>, src: spec_fn(MetaView) -> bool) -> bool {
    &&& forall|k: Seq<u8>| #[trigger] fm.dom().contains(k) <==> files.dom().contains(k)
    &&& forall|k: Seq<u8>| #[trigger] fm.dom().contains(k) ==> fm[k].sha3_code == k && src(fm[k])
}

proof fn lemma_rep_concat(id: u32, a: nat, b: nat)
    ensures
        rep(id, a) + rep(id, b) == rep(id, a + b),
{
    assert(rep(id, a) + rep(id, b) =~= rep(id, a + b));
}

pub proof fn lemma_register_files(t: PeersInfoTableView, ms: Seq<MetaView>, id: u32, src: spec_fn(MetaView) -> bool)
    requires
        lists_ok(t.files),
        lists_ok(t.pieces),
        meta_ok(t.file_meta, t.files, src),
        forall|a: int| 0 <= a < ms.len() ==> src(#[trigger] ms[a]),
    ensures
        register_files(t, ms, id).peers_info == t.peers_info,
        register_files(t, ms, id).addrs == t.addrs,
        lists_ok(register_files(t, ms, id).files),
        lists_ok(register_files(t, ms, id).pieces),
        meta_ok(register_files(t, ms, id).file_meta, register_files(t, ms, id).files, src),
        forall|k: Seq<u8>| #[trigger] owners(register_files(t, ms, id).files, k) == owners(t.files, k) + rep(id, nrec(ms, k)),
        forall|c: Seq<u8>| #[trigger] owners(register_files(t, ms, id).pieces, c) == owners(t.pieces, c) + rep(id, npc(ms, c)),
    decreases ms.len(),
{
    let r = register_files(t, ms, id);
    if ms.len() == 0 {
        assert(r == t);
        assert forall|k: Seq<u8>| #[trigger] owners(r.files, k) == owners(t.files, k) + rep(id, nrec(ms, k)) by {
            assert(owners(t.files, k) + rep(id, nrec(ms, k)) =~= owners(t.files, k));
        }
        assert forall|c: Seq<u8>| #[trigger] owners(r.pieces, c) == owners(t.pieces, c) + rep(id, npc(ms, c)) by {
            assert(owners(t.pieces, c) + rep(id, npc(ms, c)) =~= owners(t.pieces, c));
        }
    } else {
        let pre = ms.drop_last();
        let m = ms.last();
        assert forall|a: int| 0 <= a < pre.len() implies src(#[trigger] pre[a]) by {
            assert(pre[a] == ms[a]);
        }
        assert(src(ms[ms.len() - 1]));
        lemma_register_files(t, pre, id, src);
        let p = register_files(t, pre, id);
        assert(r == register_file(p, m, id));
        lemma_add_piece_owners(p.pieces, m.pieces_info, id);
        assert forall|k: Seq<u8>| #[trigger] owners(r.files, k) == owners(t.files, k) + rep(id, nrec(ms, k)) by {
            assert(owners(p.files, k) == owners(t.files, k) + rep(id, nrec(pre, k)));
            if k == m.sha3_code {
                lemma_rep_push(id, nrec(pre, k));
                assert((owners(t.files, k) + rep(id, nrec(pre, k))).push(id) =~= owners(t.files, k) + rep(id, nrec(pre, k)).push(id));
            }
        }
        assert forall|c: Seq<u8>| #[trigger] owners(r.pieces, c) == owners(t.pieces, c) + rep(id, npc(ms, c)) by {
            assert(owners(p.pieces, c) == owners(t.pieces, c) + rep(id, npc(pre, c)));
            assert(owners(r.pieces, c) == owners(p.pieces, c) + rep(id, cnt(m.pieces_info, c)));
            lemma_rep_concat(id, npc(pre, c), cnt(m.pieces_info, c));
            assert(owners(t.pieces, c) + rep(id, npc(pre, c)) + rep(id, cnt(m.pieces_info, c)) =~= owners(t.pieces, c) + (
            rep(id, npc(pre, c)) + rep(id, cnt(m.pieces_info, c))));
        }
        assert(lists_ok(r.files)) by {
            assert forall|k: Seq<u8>| #[trigger] r.files.dom().contains(k) implies r.files[k].len() > 0 by {
                if k != m.sha3_code {
                    assert(p.files.dom().contains(k));
                }
            }
        }
        assert(meta_ok(r.file_meta, r.files, src)) by {
            assert forall|k: Seq<u8>| #[trigger] r.file_meta.dom().contains(k) <==> r.files.dom().contains(k) by {
                if k != m.sha3_code {
                    assert(p.file_meta.dom().contains(k) <==> p.files.dom().contains(k));
                }
            }
            assert forall|k: Seq<u8>| #[trigger] r.file_meta.dom().contains(k) implies r.file_meta[k].sha3_code == k && src(r.file_meta[k]) by {
                if p.file_meta.dom().contains(k) {
                    assert(r.file_meta[k] == p.file_meta[k]);
                }
            }
        }
    }
}

proof fn lemma_rem_add(l: Seq<u32>, d: u32, a: nat, b: nat)
    ensures
        rem_n(rem_n(l, d, a), d, b) == rem_n(l, d, a + b),
    decreases b,
{
    if b == 0 {
        lemma_rem_zero(rem_n(l, d, a), d);
    } else {
        lemma_rem_add(l, d, a, (b - 1) as nat);
        lemma_rem_more(rem_n(l, d, a), d, (b - 1) as nat);
        lemma_rem_more(l, d, (a + b - 1) as nat);
    }
}

/// The holders of file `k`, peer by peer: each peer's id once for each of
/// its records of `k`.
pub open spec fn ownf(ps: Seq<PeerView>, k: Seq<u8>) -> Seq<u32>
    decreases ps.len(),
{
    if ps.len() == 0 {
        Seq::empty()
    } else {
        ownf(ps.drop_last(), k) + rep(ps.last().peer_id, nrec(ps.last().peer_file_meta_info_report, k))
    }
}

/// The holders of piece `c`, peer by peer: each peer's id once for each
/// piece `c` among its records.
pub open spec fn ownp(ps: Seq<PeerView>, c: Seq<u8>) -> Seq<u32>
    decreases ps.len(),
{
    if ps.len() == 0 {
        Seq::empty()
    } else {
        ownp(ps.drop_last(), c) + rep(ps.last().peer_id, npc(ps.last().peer_file_meta_info_report, c))
    }
}

proof fn lemma_drop_one_meta(st: DropState, m: MetaView, d: u32, src: spec_fn(MetaView) -> bool)
    requires
        lists_ok(st.files),
        lists_ok(st.pieces),
        meta_ok(st.file_meta, st.files, src),
    ensures
        lists_ok(drop_meta(st, m, d).files),
        lists_ok(drop_meta(st, m, d).pieces),
        meta_ok(drop_meta(st, m, d).file_meta, drop_meta(st, m, d).files, src),
        forall|k: Seq<u8>| #[trigger] drop_meta(st, m, d).file_meta.dom().contains(k) ==> drop_meta(st, m, d).file_meta[k] == st.file_meta[k],
        forall|k: Seq<u8>| #[trigger] owners(drop_meta(st, m, d).files, k) == if k == m.sha3_code {
            rem_n(owners(st.files, k), d, 1)
        } else {
            owners(st.files, k)
        },
        forall|c: Seq<u8>| #[trigger] owners(drop_meta(st, m, d).pieces, c) == rem_n(owners(st.pieces, c), d, cnt(m.pieces_info, c)),
{
    let r = drop_meta(st, m, d);
    let code = m.sha3_code;
    lemma_drop_owner(st.files, code, d);
    lemma_drop_piece_owners(st.pieces, m.pieces_info, d);
    assert forall|k: Seq<u8>| #[trigger] r.file_meta.dom().contains(k) <==> r.files.dom().contains(k) by {
        if k == code {
            if only_owner(st.files, code, d) {
                assert(st.files[code] == seq![d]);
                assert(seq![d][0] == d);
                assert(is_first_pos(seq![d], d, 0));
                lemma_first_pos_unique(seq![d], d, 0);
                assert(seq![d].remove(0).len() == 0);
                assert(!r.files.dom().contains(code));
            } else if st.files.dom().contains(code) && st.files[code].contains(d) {
                let l = st.files[code];
                lemma_first_pos_exists(l, d);
                let j = first_pos(l, d);
                if l.len() == 1 {
                    assert(j == 0);
                    assert(l =~= seq![d]);
                }
                assert(l.remove(j).len() > 0);
                assert(r.files.dom().contains(code));
                assert(st.file_meta.dom().contains(code));
            }
        } else {
            assert(st.file_meta.dom().contains(k) <==> st.files.dom().contains(k));
        }
    }
    assert forall|k: Seq<u8>| #[trigger] r.file_meta.dom().contains(k) implies r.file_meta[k].sha3_code == k && src(r.file_meta[k]) by {
        assert(st.file_meta.dom().contains(k));
    }
}

proof fn lemma_drop_metas(st: DropState, ms: Seq<MetaView>, d: u32, src: spec_fn(MetaView) -> bool)
    requires
        lists_ok(st.files),
        lists_ok(st.pieces),
        meta_ok(st.file_meta, st.files, src),
    ensures
        lists_ok(ms.fold_left(st, meta_drop_step(d)).files),
        lists_ok(ms.fold_left(st, meta_drop_step(d)).pieces),
        meta_ok(ms.fold_left(st, meta_drop_step(d)).file_meta, ms.fold_left(st, meta_drop_step(d)).files, src),
        forall|k: Seq<u8>| #[trigger] ms.fold_left(st, meta_drop_step(d)).file_meta.dom().contains(k) ==> st.file_meta.dom().contains(k)
            && ms.fold_left(st, meta_drop_step(d)).file_meta[k] == st.file_meta[k],
        forall|k: Seq<u8>| #[trigger] owners(ms.fold_left(st, meta_drop_step(d)).files, k) == rem_n(owners(st.files, k), d, nrec(ms, k)),
        forall|c: Seq<u8>| #[trigger] owners(ms.fold_left(st, meta_drop_step(d)).pieces, c) == rem_n(owners(st.pieces, c), d, npc(ms, c)),
    decreases ms.len(),
{
    let r = ms.fold_left(st, meta_drop_step(d));
    if ms.len() == 0 {
        assert(r == st);
        assert forall|k: Seq<u8>| #[trigger] owners(r.files, k) == rem_n(owners(st.files, k), d, nrec(ms, k)) by {
            lemma_rem_zero(owners(st.files, k), d);
        }
        assert forall|c: Seq<u8>| #[trigger] owners(r.pieces, c) == rem_n(owners(st.pieces, c), d, npc(ms, c)) by {
            lemma_rem_zero(owners(st.pieces, c), d);
        }
    } else {
        let pre = ms.drop_last();
        let m = ms.last();
        lemma_drop_metas(st, pre, d, src);
        let p = pre.fold_left(st, meta_drop_step(d));
        assert(r == drop_meta(p, m, d));
        lemma_drop_one_meta(p, m, d, src);
        assert forall|k: Seq<u8>| #[trigger] r.file_meta.dom().contains(k) implies st.file_meta.dom().contains(k)
            && r.file_meta[k] == st.file_meta[k] by {
            assert(p.file_meta.dom().contains(k));
        }
        assert forall|k: Seq<u8>| #[trigger] owners(r.files, k) == rem_n(owners(st.files, k), d, nrec(ms, k)) by {
            assert(owners(p.files, k) == rem_n(owners(st.files, k), d, nrec(pre, k)));
            if k == m.sha3_code {
                lemma_rem_more(owners(st.files, k), d, nrec(pre, k));
            }
        }
        assert forall|c: Seq<u8>| #[trigger] owners(r.pieces, c) == rem_n(owners(st.pieces, c), d, npc(ms, c)) by {
            assert(owners(p.pieces, c) == rem_n(owners(st.pieces, c), d, npc(pre, c)));
            lemma_rem_add(owners(st.pieces, c), d, npc(pre, c), cnt(m.pieces_info, c));
        }
    }
}

proof fn lemma_drop_peers(st: DropState, ps: Seq<PeerView>, d: u32, src: spec_fn(MetaView) -> bool)
    requires
        lists_ok(st.files),
        lists_ok(st.pieces),
        meta_ok(st.file_meta, st.files, src),
    ensures
        lists_ok(ps.fold_left(st, peer_drop_step(d)).files),
        lists_ok(ps.fold_left(st, peer_drop_step(d)).pieces),
        meta_ok(ps.fold_left(st, peer_drop_step(d)).file_meta, ps.fold_left(st, peer_drop_step(d)).files, src),
        forall|k: Seq<u8>| #[trigger] ps.fold_left(st, peer_drop_step(d)).file_meta.dom().contains(k) ==> st.file_meta.dom().contains(k)
            && ps.fold_left(st, peer_drop_step(d)).file_meta[k] == st.file_meta[k],
        forall|k: Seq<u8>| #[trigger] owners(ps.fold_left(st, peer_drop_step(d)).files, k) == rem_n(
            owners(st.files, k),
            d,
            ownf(ps, k).len(),
        ),
        forall|c: Seq<u8>| #[trigger] owners(ps.fold_left(st, peer_drop_step(d)).pieces, c) == rem_n(
            owners(st.pieces, c),
            d,
            ownp(ps, c).len(),
        ),
    decreases ps.len(),
{
    let r = ps.fold_left(st, peer_drop_step(d));
    if ps.len() == 0 {
        assert(r == st);
        assert forall|k: Seq<u8>| #[trigger] owners(r.files, k) == rem_n(owners(st.files, k), d, ownf(ps, k).len()) by {
            lemma_rem_zero(owners(st.files, k), d);
        }
        assert forall|c: Seq<u8>| #[trigger] owners(r.pieces, c) == rem_n(owners(st.pieces, c), d, ownp(ps, c).len()) by {
            lemma_rem_zero(owners(st.pieces, c), d);
        }
    } else {
        let pre = ps.drop_last();
        let q = ps.last();
        lemma_drop_peers(st, pre, d, src);
        let p = pre.fold_left(st, peer_drop_step(d));
        assert(r == q.peer_file_meta_info_report.fold_left(p, meta_drop_step(d)));
        lemma_drop_metas(p, q.peer_file_meta_info_report, d, src);
        assert forall|k: Seq<u8>| #[trigger] r.file_meta.dom().contains(k) implies st.file_meta.dom().contains(k)
            && r.file_meta[k] == st.file_meta[k] by {
            assert(p.file_meta.dom().contains(k));
        }
        assert forall|k: Seq<u8>| #[trigger] owners(r.files, k) == rem_n(owners(st.files, k), d, ownf(ps, k).len()) by {
            assert(owners(p.files, k) == rem_n(owners(st.files, k), d, ownf(pre, k).len()));
            lemma_rem_add(owners(st.files, k), d, ownf(pre, k).len(), nrec(q.peer_file_meta_info_report, k));
        }
        assert forall|c: Seq<u8>| #[trigger] owners(r.pieces, c) == rem_n(owners(st.pieces, c), d, ownp(ps, c).len()) by {
            assert(owners(p.pieces, c) == rem_n(owners(st.pieces, c), d, ownp(pre, c).len()));
            lemma_rem_add(owners(st.pieces, c), d, ownp(pre, c).len(), npc(q.peer_file_meta_info_report, c));
        }
    }
}

/// The addresses the peers give, a later peer's replacing an earlier one's.
pub open spec fn addr_fold(ps: Seq<PeerView>) -> Map<u32, AddrView>
    decreases ps.len(),
{
    if ps.len() == 0 {
        Map::empty()
    } else {
        addr_fold(ps.drop_last()).insert(ps.last().peer_id, peer_addr(ps.last()))
    }
}

/// Every record of every peer satisfies `src`.
pub open spec fn records_satisfy(ps: Seq<PeerView>, src: spec_fn(MetaView) -> bool) -> bool {
    forall|i: int, a: int|
        0 <= i < ps.len() && 0 <= a < ps[i].peer_file_meta_info_report.len() ==> src(
            #[trigger] ps[i].peer_file_meta_info_report[a],
        )
}

/// The indexes of a table built peer by peer, counted.
pub proof fn lemma_build(ps: Seq<PeerView>, src: spec_fn(MetaView) -> bool)
    requires
        records_satisfy(ps, src),
    ensures
        lists_ok(ps.fold_left(empty_table(), peer_step()).files),
        lists_ok(ps.fold_left(empty_table(), peer_step()).pieces),
        meta_ok(ps.fold_left(empty_table(), peer_step()).file_meta, ps.fold_left(empty_table(), peer_step()).files, src),
        forall|k: Seq<u8>| #[trigger] owners(ps.fold_left(empty_table(), peer_step()).files, k) == ownf(ps, k),
        forall|c: Seq<u8>| #[trigger] owners(ps.fold_left(empty_table(), peer_step()).pieces, c) == ownp(ps, c),
        ps.fold_left(empty_table(), peer_step()).addrs == addr_fold(ps),
    decreases ps.len(),
{
    let b = ps.fold_left(empty_table(), peer_step());
    if ps.len() == 0 {
        assert(b == empty_table());
    } else {
        let pre = ps.drop_last();
        let q = ps.last();
        assert(records_satisfy(pre, src)) by {
            assert forall|i: int, a: int|
                0 <= i < pre.len() && 0 <= a < pre[i].peer_file_meta_info_report.len() implies src(
                #[trigger] pre[i].peer_file_meta_info_report[a],
            ) by {
                assert(pre[i] == ps[i]);
            }
        }
        lemma_build(pre, src);
        let p = pre.fold_left(empty_table(), peer_step());
        assert(b == register_peer(p, q));
        let t1 = PeersInfoTableView { addrs: p.addrs.insert(q.peer_id, peer_addr(q)), ..p };
        assert forall|a: int| 0 <= a < q.peer_file_meta_info_report.len() implies src(
            #[trigger] q.peer_file_meta_info_report[a],
        ) by {
            assert(ps[ps.len() - 1] == q);
        }
        lemma_register_files(t1, q.peer_file_meta_info_report, q.peer_id, src);
        assert forall|k: Seq<u8>| #[trigger] owners(b.files, k) == ownf(ps, k) by {
            assert(owners(p.files, k) == ownf(pre, k));
        }
        assert forall|c: Seq<u8>| #[trigger] owners(b.pieces, c) == ownp(ps, c) by {
            assert(owners(p.pieces, c) == ownp(pre, c));
        }
    }
}

/// No peer has id `d`.
pub open spec fn no_peer(ps: Seq<PeerView>, d: u32) -> bool {
    forall|i: int| 0 <= i < ps.len() ==> #[trigger] ps[i].peer_id != d
}

proof fn lemma_no_peer_prefix(ps: Seq<PeerView>, d: u32)
    requires
        no_peer(ps, d),
        ps.len() > 0,
    ensures
        no_peer(ps.drop_last(), d),
        ps.last().peer_id != d,
{
    assert forall|i: int| 0 <= i < ps.drop_last().len() implies #[trigger] ps.drop_last()[i].peer_id != d by {
        assert(ps.drop_last()[i] == ps[i]);
    }
    assert(ps[ps.len() - 1] == ps.last());
}

pub proof fn lemma_own_no_d(ps: Seq<PeerView>, k: Seq<u8>, d: u32)
    requires
        no_peer(ps, d),
    ensures
        without(ownf(ps, k), d) == ownf(ps, k),
        without(ownp(ps, k), d) == ownp(ps, k),
        !addr_fold(ps).dom().contains(d),
    decreases ps.len(),
{
    if ps.len() > 0 {
        let pre = ps.drop_last();
        let q = ps.last();
        lemma_no_peer_prefix(ps, d);
        lemma_own_no_d(pre, k, d);
        lemma_without_concat(ownf(pre, k), rep(q.peer_id, nrec(q.peer_file_meta_info_report, k)), d);
        lemma_without_rep(q.peer_id, nrec(q.peer_file_meta_info_report, k), d);
        lemma_without_concat(ownp(pre, k), rep(q.peer_id, npc(q.peer_file_meta_info_report, k)), d);
        lemma_without_rep(q.peer_id, npc(q.peer_file_meta_info_report, k), d);
    }
}

/// Taking out the only peer with id `d` takes `d` out of the holder lists and
/// its address out of the addresses.
proof fn lemma_own_remove(ps: Seq<PeerView>, d: u32, i0: int, k: Seq<u8>)
    requires
        only_peer_at(ps, d, i0),
    ensures
        ownf(ps.remove(i0), k) == without(ownf(ps, k), d),
        ownp(ps.remove(i0), k) == without(ownp(ps, k), d),
        addr_fold(ps.remove(i0)) == addr_fold(ps).remove(d),
    decreases ps.len(),
{
    let pre = ps.drop_last();
    let q = ps.last();
    let nf = nrec(q.peer_file_meta_info_report, k);
    let np = npc(q.peer_file_meta_info_report, k);
    lemma_without_concat(ownf(pre, k), rep(q.peer_id, nf), d);
    lemma_without_rep(q.peer_id, nf, d);
    lemma_without_concat(ownp(pre, k), rep(q.peer_id, np), d);
    lemma_without_rep(q.peer_id, np, d);
    if i0 == ps.len() - 1 {
        assert(ps.remove(i0) =~= pre);
        assert(no_peer(pre, d)) by {
            assert forall|i: int| 0 <= i < pre.len() implies #[trigger] pre[i].peer_id != d by {
                assert(pre[i] == ps[i]);
            }
        }
        lemma_own_no_d(pre, k, d);
        assert(ownf(pre, k) + Seq::<u32>::empty() =~= ownf(pre, k));
        assert(ownp(pre, k) + Seq::<u32>::empty() =~= ownp(pre, k));
        assert(addr_fold(pre) =~= addr_fold(ps).remove(d));
    } else {
        let r = ps.remove(i0);
        assert(r.drop_last() =~= pre.remove(i0));
        assert(r.last() == q);
        assert(q.peer_id != d) by {
            assert(ps[ps.len() - 1] == q);
        }
        assert(only_peer_at(pre, d, i0)) by {
            assert forall|i: int| 0 <= i < pre.len() && i != i0 implies #[trigger] pre[i].peer_id != d by {
                assert(pre[i] == ps[i]);
            }
            assert(pre[i0] == ps[i0]);
        }
        lemma_own_remove(pre, d, i0, k);
        assert(addr_fold(r) =~= addr_fold(ps).remove(d));
    }
}

/// Some peer of `ps` holds the record `m`.
pub open spec fn held_by(ps: Seq<PeerView>, m: MetaView) -> bool {
    exists|i: int, a: int|
        0 <= i < ps.len() && 0 <= a < ps[i].peer_file_meta_info_report.len() && #[trigger] ps[i].peer_file_meta_info_report[a]
            == m
}

/// Records with one digest are one and the same record, whoever holds them.
pub open spec fn records_agree(ps: Seq<PeerView>) -> bool {
    forall|i: int, a: int, j: int, b: int|
        0 <= i < ps.len() && 0 <= a < ps[i].peer_file_meta_info_report.len() && 0 <= j < ps.len() && 0 <= b
            < ps[j].peer_file_meta_info_report.len() && (#[trigger] ps[i].peer_file_meta_info_report[a]).sha3_code == (
        #[trigger] ps[j].peer_file_meta_info_report[b]).sha3_code ==> ps[i].peer_file_meta_info_report[a]
            == ps[j].peer_file_meta_info_report[b]
}

/// Dropping the only peer with id `d` (at `i0`) from a table built from the
/// peers `ps` gives the table built from the other peers, but for which of
/// several records of one digest is kept: the peers, the addresses and the
/// holder lists are those of the rebuilt table, the same digests have a
/// record, and each record kept is one the table had.
pub proof fn lemma_drop_rebuilds_indexes(ps: Seq<PeerView>, d: u32, i0: int)
    requires
        only_peer_at(ps, d, i0),
    ensures
        ({
            let r = drop_peer(table_from_peers(ps), d);
            let b = table_from_peers(ps.remove(i0));
            &&& r.peers_info == b.peers_info
            &&& r.addrs == b.addrs
            &&& r.files == b.files
            &&& r.pieces == b.pieces
            &&& r.file_meta.dom() == b.file_meta.dom()
            &&& forall|k: Seq<u8>| #[trigger] r.file_meta.dom().contains(k) ==> table_from_peers(ps).file_meta.dom().contains(k)
                && r.file_meta[k] == table_from_peers(ps).file_meta[k]
        }),
{
    let src = |m: MetaView| held_by(ps, m);
    let ps2 = ps.remove(i0);
    assert(records_satisfy(ps, src)) by {
        assert forall|i: int, a: int|
            0 <= i < ps.len() && 0 <= a < ps[i].peer_file_meta_info_report.len() implies src(
            #[trigger] ps[i].peer_file_meta_info_report[a],
        ) by {
            assert(held_by(ps, ps[i].peer_file_meta_info_report[a]));
        }
    }
    assert(records_satisfy(ps2, src)) by {
        assert forall|i: int, a: int|
            0 <= i < ps2.len() && 0 <= a < ps2[i].peer_file_meta_info_report.len() implies src(
            #[trigger] ps2[i].peer_file_meta_info_report[a],
        ) by {
            if i < i0 {
                assert(ps2[i] == ps[i]);
                assert(held_by(ps, ps[i].peer_file_meta_info_report[a]));
            } else {
                assert(ps2[i] == ps[i + 1]);
                assert(held_by(ps, ps[i + 1].peer_file_meta_info_report[a]));
            }
        }
    }
    lemma_build(ps, src);
    lemma_build(ps2, src);
    let t = table_from_peers(ps);
    let b2 = ps2.fold_left(empty_table(), peer_step());
    let st0 = DropState { file_meta: t.file_meta, files: t.files, pieces: t.pieces };
    lemma_drop_peers(st0, ps, d, src);
    let r = drop_peer(t, d);
    assert forall|k: Seq<u8>| #[trigger] owners(r.files, k) == owners(b2.files, k) by {
        lemma_rem_all(ownf(ps, k), d, ownf(ps, k).len());
        lemma_own_remove(ps, d, i0, k);
    }
    lemma_lists_equal(r.files, b2.files);
    assert forall|c: Seq<u8>| #[trigger] owners(r.pieces, c) == owners(b2.pieces, c) by {
        lemma_rem_all(ownp(ps, c), d, ownp(ps, c).len());
        lemma_own_remove(ps, d, i0, c);
    }
    lemma_lists_equal(r.pieces, b2.pieces);
    assert forall|k: Seq<u8>| #[trigger] r.file_meta.dom().contains(k) <==> b2.file_meta.dom().contains(k) by {
        assert(r.file_meta.dom().contains(k) <==> r.files.dom().contains(k));
        assert(b2.file_meta.dom().contains(k) <==> b2.files.dom().contains(k));
    }
    assert(r.file_meta.dom() =~= b2.file_meta.dom());
    lemma_own_remove(ps, d, i0, Seq::empty());
    assert(is_last_peer(ps, d, i0));
    lemma_last_peer_unique(ps, d, i0);
    assert(drop_peer_entry(ps, d) == ps2);
}

/// Law: in a table built from the peers `ps` (as the tracker's table is, see
/// `lemma_add_peer_rebuilds`), dropping the only peer with id `d` (at `i0`)
/// gives the table built from the other peers: the peer, its address, and its
/// place among the holders of every file and piece are gone, a file or piece
/// left without holders goes with its record, and every other holder list
/// keeps its order. This holds where records with one digest are one and the
/// same record; otherwise the record kept for a digest is the first one seen,
/// which may have been the dropped peer's.
pub proof fn lemma_drop_rebuilds(ps: Seq<PeerView>, d: u32, i0: int)
    requires
        only_peer_at(ps, d, i0),
        records_agree(ps),
    ensures
        drop_peer(table_from_peers(ps), d) == table_from_peers(ps.remove(i0)),
{
    let src = |m: MetaView| held_by(ps, m);
    let ps2 = ps.remove(i0);
    lemma_drop_rebuilds_indexes(ps, d, i0);
    assert(records_satisfy(ps, src)) by {
        assert forall|i: int, a: int|
            0 <= i < ps.len() && 0 <= a < ps[i].peer_file_meta_info_report.len() implies src(
            #[trigger] ps[i].peer_file_meta_info_report[a],
        ) by {
            assert(held_by(ps, ps[i].peer_file_meta_info_report[a]));
        }
    }
    assert(records_satisfy(ps2, src)) by {
        assert forall|i: int, a: int|
            0 <= i < ps2.len() && 0 <= a < ps2[i].peer_file_meta_info_report.len() implies src(
            #[trigger] ps2[i].peer_file_meta_info_report[a],
        ) by {
            if i < i0 {
                assert(ps2[i] == ps[i]);
                assert(held_by(ps, ps[i].peer_file_meta_info_report[a]));
            } else {
                assert(ps2[i] == ps[i + 1]);
                assert(held_by(ps, ps[i + 1].peer_file_meta_info_report[a]));
            }
        }
    }
    lemma_build(ps, src);
    lemma_build(ps2, src);
    let t = table_from_peers(ps);
    let b2 = table_from_peers(ps2);
    let r = drop_peer(t, d);
    assert forall|k: Seq<u8>| #[trigger] r.file_meta.dom().contains(k) implies r.file_meta[k] == b2.file_meta[k] by {
        let m1 = r.file_meta[k];
        let m2 = b2.file_meta[k];
        assert(t.file_meta.dom().contains(k));
        assert(held_by(ps, m1));
        assert(held_by(ps, m2));
        let (i, a) = choose|i: int, a: int|
            0 <= i < ps.len() && 0 <= a < ps[i].peer_file_meta_info_report.len() && #[trigger] ps[i].peer_file_meta_info_report[a]
                == m1;
        let (j, b) = choose|j: int, b: int|
            0 <= j < ps.len() && 0 <= b < ps[j].peer_file_meta_info_report.len() && #[trigger] ps[j].peer_file_meta_info_report[b]
                == m2;
        assert(m1.sha3_code == k && m2.sha3_code == k);
    }
    assert(r.file_meta =~= b2.file_meta);
}

pub proof fn lemma_without_has_no(l: Seq<u32>, d: u32)
    ensures
        !without(l, d).contains(d),
    decreases l.len(),
{
    if l.len() > 0 {
        lemma_without_has_no(l.drop_first(), d);
        if l[0] != d {
            let w = seq![l[0]] + without(l.drop_first(), d);
            if w.contains(d) {
                let i = choose|i: int| 0 <= i < w.len() && w[i] == d;
                assert(i > 0);
                assert(without(l.drop_first(), d)[i - 1] == d);
            }
        }
    }
}

/// Dropping an id that no peer has from a table built peer by peer changes
/// nothing.
pub proof fn lemma_drop_absent_rebuilt(ps: Seq<PeerView>, d: u32)
    requires
        no_peer(ps, d),
    ensures
        drop_peer(table_from_peers(ps), d) == table_from_peers(ps),
{
    let t2 = table_from_peers(ps);
    let src = |m: MetaView| true;
    lemma_build(ps, src);
    assert(!has_peer(ps, d));
    lemma_own_no_d(ps, Seq::empty(), d);
    assert forall|k: Seq<u8>| #[trigger] t2.files.dom().contains(k) implies !t2.files[k].contains(d) by {
        lemma_own_no_d(ps, k, d);
        lemma_without_has_no(ownf(ps, k), d);
        assert(owners(t2.files, k) == ownf(ps, k));
    }
    assert forall|k: Seq<u8>| #[trigger] t2.pieces.dom().contains(k) implies !t2.pieces[k].contains(d) by {
        lemma_own_no_d(ps, k, d);
        lemma_without_has_no(ownp(ps, k), d);
        assert(owners(t2.pieces, k) == ownp(ps, k));
    }
    lemma_drop_absent_peer(t2, d);
}

/// Law: in the setting of `lemma_drop_rebuilds`, dropping the peer a second
/// time changes nothing more.
pub proof fn lemma_drop_twice(ps: Seq<PeerView>, d: u32, i0: int)
    requires
        only_peer_at(ps, d, i0),
        records_agree(ps),
    ensures
        drop_peer(drop_peer(table_from_peers(ps), d), d) == drop_peer(table_from_peers(ps), d),
{
    lemma_drop_rebuilds(ps, d, i0);
    let ps2 = ps.remove(i0);
    assert(no_peer(ps2, d)) by {
        assert forall|i: int| 0 <= i < ps2.len() implies #[trigger] ps2[i].peer_id != d by {
            if i < i0 {
                assert(ps2[i] == ps[i]);
            } else {
                assert(ps2[i] == ps[i + 1]);
            }
        }
    }
    lemma_drop_absent_rebuilt(ps2, d);
}

} // verus!
