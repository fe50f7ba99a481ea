//! The list of the files shared on the network, each once, with its holders:
//! what a peer shows of the global table.
use vstd::prelude::*;
use crate::bytes_map::{bytes_eq_vec, copy_bytes, copy_ids};
use crate::peers_info_table::{PeersInfoTable, PeersInfoTableView};
use crate::types::{duplicate_metas, metas_view, FileMetaInfo, MetaView, PeerView};

verus! {

/// The files reported by the peers, peer after peer.
pub open spec fn all_reports(ps: Seq<PeerView>) -> Seq<MetaView>
    decreases ps.len(),
{
    if ps.len() == 0 {
        Seq::empty()
    } else {
        all_reports(ps.drop_last()) + ps.last().peer_file_meta_info_report
    }
}

/// Some file in `ms` has digest `c`.
pub open spec fn has_code(ms: Seq<MetaView>, c: Seq<u8>) -> bool {
    exists|k: int| 0 <= k < ms.len() && #[trigger] ms[k].sha3_code == c
}

/// The files of `ms` that come before any other with the same digest.
pub open spec fn first_occurrences(ms: Seq<MetaView>) -> Seq<MetaView>
    decreases ms.len(),
{
    if ms.len() == 0 {
        Seq::empty()
    } else {
        let r = first_occurrences(ms.drop_last());
        if has_code(ms.drop_last(), ms.last().sha3_code) {
            r
        } else {
            r.push(ms.last())
        }
    }
}

/// The digests of some files.
pub open spec fn codes_of(ms: Seq<MetaView>) -> Seq<Seq<u8>> {
    ms.map_values(|m: MetaView| m.sha3_code)
}

/// A shared file: its name, its digest and its holders.
pub struct Resource {
    resource_name: String,
    resource_sha3_code: Vec<u8>,
    resource_owner: Vec<u32>,
}

pub struct ResourceView {
    pub resource_name: Seq<char>,
    pub resource_sha3_code: Seq<u8>,
    pub resource_owner: Seq<u32>,
}

impl View for Resource {
    type V = ResourceView;

    closed spec fn view(&self) -> ResourceView {
        ResourceView {
            resource_name: self.resource_name@,
            resource_sha3_code: self.resource_sha3_code@,
            resource_owner: self.resource_owner@,
        }
    }
}

/// The shared files of a table: each digest once, under the name the first
/// peer to report it gave, with the holders the table lists for it.
pub open spec fn resources_of(t: PeersInfoTableView) -> Seq<ResourceView> {
    resources_from(t, first_occurrences(all_reports(t.peers_info)))
}

/// The files `ms` with their holders in `t`.
pub open spec fn resources_from(t: PeersInfoTableView, ms: Seq<MetaView>) -> Seq<ResourceView> {
    ms.map_values(
        |m: MetaView|
            ResourceView {
                resource_name: m.file_name,
                resource_sha3_code: m.sha3_code,
                resource_owner: t.files[m.sha3_code],
            },
    )
}

/// The table lists the holders of every file its peers report.
pub open spec fn resources_known(t: PeersInfoTableView) -> bool {
    forall|k: int| 0 <= k < all_reports(t.peers_info).len() ==> t.files.dom().contains(
        #[trigger] all_reports(t.peers_info)[k].sha3_code,
    )
}

impl Resource {
    /// A file named `resource_name` with digest `resource_sha3_code`, held by
    /// `resource_owner`.
    pub fn new(resource_name: String, resource_sha3_code: Vec<u8>, resource_owner: Vec<u32>) -> (r: Self)
        ensures
            r@ == (ResourceView {
                resource_name: resource_name@,
                resource_sha3_code: resource_sha3_code@,
                resource_owner: resource_owner@,
            }),
    {
        Resource { resource_name, resource_sha3_code, resource_owner }
    }

    /// The file's name.
    pub fn get_resource_name(&self) -> (r: String)
        ensures
            r@ == self@.resource_name,
    {
        self.resource_name.clone()
    }

    /// The file's digest.
    pub fn get_resource_sha3_code(&self) -> (r: Vec<u8>)
        ensures
            r@ == self@.resource_sha3_code,
    {
        copy_bytes(&self.resource_sha3_code)
    }

    /// The holders of the file.
    pub fn get_resource_owner(&self) -> (r: Vec<u32>)
        ensures
            r@ == self@.resource_owner,
    {
        copy_ids(&self.resource_owner)
    }
}

/// A list of shared files.
pub struct ResourceTable {
    resource_table: Vec<Resource>,
}

/// The files in a list of them.
pub open spec fn resources_view(v: Seq<Resource>) -> Seq<ResourceView> {
    v.map_values(|r: Resource| r@)
}

impl View for ResourceTable {
    type V = Seq<ResourceView>;

    closed spec fn view(&self) -> Seq<ResourceView> {
        resources_view(self.resource_table@)
    }
}

impl ResourceTable {
    /// An empty list.
    pub fn new() -> (r: Self)
        ensures
            r@ == Seq::<ResourceView>::empty(),
    {
        let r = ResourceTable { resource_table: Vec::new() };
        assert(r@ =~= Seq::<ResourceView>::empty());
        r
    }

    /// Appends `resource`.
    pub fn add_one_resource(&mut self, resource: Resource)
        ensures
            final(self)@ == old(self)@.push(resource@),
    {
        let ghost v0 = self@;
        let ghost rv = resource@;
        self.resource_table.push(resource);
        assert(self@ =~= v0.push(rv));
    }

    /// The files, in order.
    pub fn get_resources(&self) -> (r: &Vec<Resource>)
        ensures
            resources_view(r@) == self@,
    {
        &self.resource_table
    }
}

/// Law: the shared files leave no digest out: a digest occurs among the
/// reported files exactly when it occurs among the files listed.
pub proof fn lemma_first_occurrences_codes(ms: Seq<MetaView>, c: Seq<u8>)
    ensures
        has_code(ms, c) <==> has_code(first_occurrences(ms), c),
    decreases ms.len(),
{
    if ms.len() > 0 {
        let d = ms.drop_last();
        lemma_first_occurrences_codes(d, c);
        let r = first_occurrences(d);
        if has_code(ms, c) {
            let k = choose|k: int| 0 <= k < ms.len() && #[trigger] ms[k].sha3_code == c;
            if k < d.len() {
                assert(d[k].sha3_code == c);
                if !has_code(d, ms.last().sha3_code) {
                    let q = choose|q: int| 0 <= q < r.len() && #[trigger] r[q].sha3_code == c;
                    assert(r.push(ms.last())[q].sha3_code == c);
                }
            } else {
                assert(ms.last().sha3_code == c);
                if !has_code(d, c) {
                    assert(r.push(ms.last())[r.len() as int].sha3_code == c);
                }
            }
        }
        if has_code(first_occurrences(ms), c) {
            let f = first_occurrences(ms);
            let k = choose|k: int| 0 <= k < f.len() && #[trigger] f[k].sha3_code == c;
            if has_code(d, ms.last().sha3_code) {
                assert(r[k].sha3_code == c);
                let q = choose|q: int| 0 <= q < d.len() && #[trigger] d[q].sha3_code == c;
                assert(ms[q].sha3_code == c);
            } else if k < r.len() {
                assert(r[k].sha3_code == c);
                let q = choose|q: int| 0 <= q < d.len() && #[trigger] d[q].sha3_code == c;
                assert(ms[q].sha3_code == c);
            } else {
                assert(ms[ms.len() - 1].sha3_code == c);
            }
        }
    }
}

/// Law: the shared files list each digest once.
pub proof fn lemma_resources_unique(ms: Seq<MetaView>)
    ensures
        codes_of(first_occurrences(ms)).no_duplicates(),
    decreases ms.len(),
{
    if ms.len() > 0 {
        let d = ms.drop_last();
        lemma_resources_unique(d);
        let r = first_occurrences(d);
        if !has_code(d, ms.last().sha3_code) {
            lemma_first_occurrences_codes(d, ms.last().sha3_code);
            let c = codes_of(r.push(ms.last()));
            assert forall|i: int, j: int| 0 <= i < c.len() && 0 <= j < c.len() && i != j implies c[i] != c[j] by {
                if i < r.len() && j < r.len() {
                    assert(c[i] == codes_of(r)[i] && c[j] == codes_of(r)[j]);
                } else if i < r.len() {
                    assert(c[i] == r[i].sha3_code);
                    assert(c[j] == ms.last().sha3_code);
                } else {
                    assert(c[j] == r[j].sha3_code);
                    assert(c[i] == ms.last().sha3_code);
                }
            }
        }
    }
}

impl PeersInfoTable {
    /// The shared files, each once with its holders (see `resources_of`).
    /// None when the table lacks the holders of a reported file.
    pub fn show_resource_table(&self) -> (r: Option<ResourceTable>)
        requires
            self.wf(),
        ensures
            r is Some <==> resources_known(self@),
            r matches Some(rt) ==> rt@ == resources_of(self@),
    {
        let ghost t = self@;
        let peers = self.get_peers_info();
        let ghost ps = t.peers_info;
        // every report, peer after peer
        let mut flat: Vec<FileMetaInfo> = Vec::new();
        let mut i: usize = 0;
        while i < peers.len()
            invariant
                0 <= i <= peers@.len(),
                ps == crate::types::peers_view(peers@),
                metas_view(flat@) == all_reports(ps.take(i as int)),
            decreases peers@.len() - i,
        {
            let reports = duplicate_metas(&peers[i].peer_file_meta_info_report);
            let ghost f0 = metas_view(flat@);
            let mut more = reports;
            flat.append(&mut more);
            proof {
                assert(ps.take(i + 1).drop_last() =~= ps.take(i as int));
                assert(ps.take(i + 1).last() == peers@[i as int]@);
                assert(metas_view(flat@) =~= f0 + metas_view(reports@));
            }
            i = i + 1;
        }
        assert(ps.take(peers@.len() as int) =~= ps);
        let ghost all = all_reports(ps);
        let mut table = ResourceTable::new();
        let mut seen: Vec<Vec<u8>> = Vec::new();
        let mut k: usize = 0;
        while k < flat.len()
            invariant
                0 <= k <= flat@.len(),
                self.wf(),
                t == self@,
                all == all_reports(t.peers_info),
                metas_view(flat@) == all,
                crate::bytes_map::byte_seqs(seen@) == codes_of(first_occurrences(all.take(k as int))),
                table@ == resources_from(t, first_occurrences(all.take(k as int))),
                forall|a: int| 0 <= a < k ==> t.files.dom().contains(#[trigger] all[a].sha3_code),
            decreases flat@.len() - k,
        {
            let m = &flat[k];
            assert(all[k as int] == m@);
            let ghost pre = all.take(k as int);
            let ghost fo = first_occurrences(pre);
            // was this digest met before?
            let mut dup = false;
            let mut q: usize = 0;
            assert(crate::bytes_map::byte_seqs(seen@).len() == seen@.len());
            assert(codes_of(fo).len() == fo.len());
            while q < seen.len() && !dup
                invariant
                    0 <= q <= seen@.len(),
                    fo.len() == seen@.len(),
                    crate::bytes_map::byte_seqs(seen@) == codes_of(fo),
                    dup == has_code(fo.take(q as int), m@.sha3_code),
                decreases seen@.len() - q,
            {
                assert(fo.take(q + 1).drop_last() =~= fo.take(q as int));
                assert(crate::bytes_map::byte_seqs(seen@)[q as int] == seen@[q as int]@);
                assert(codes_of(fo)[q as int] == fo[q as int].sha3_code);
                if bytes_eq_vec(&seen[q], &m.sha3_code) {
                    dup = true;
                    assert(fo.take(q + 1)[q as int].sha3_code == m@.sha3_code);
                } else {
                    proof {
                        if has_code(fo.take(q + 1), m@.sha3_code) {
                            let w = choose|w: int| 0 <= w < fo.take(q + 1).len() && #[trigger] fo.take(q + 1)[w].sha3_code == m@.sha3_code;
                            if w < q {
                                assert(fo.take(q as int)[w].sha3_code == m@.sha3_code);
                            }
                        }
                    }
                }
                q = q + 1;
            }
            proof {
                if !dup {
                    assert(fo.take(q as int) =~= fo);
                } else {
                    let w = choose|w: int| 0 <= w < fo.take(q as int).len() && #[trigger] fo.take(q as int)[w].sha3_code == m@.sha3_code;
                    assert(fo[w].sha3_code == m@.sha3_code);
                }
                lemma_first_occurrences_codes(pre, m@.sha3_code);
                assert(all.take(k + 1).drop_last() =~= pre);
                assert(all.take(k + 1).last() == m@);
            }
            let owners = match self.get_file_owners(m.sha3_code.as_slice()) {
                Some(o) => o,
                None => {
                    assert(!resources_known(t)) by {
                        assert(!t.files.dom().contains(all[k as int].sha3_code));
                    }
                    return None;
                },
            };
            if !dup {
                let ghost s0 = crate::bytes_map::byte_seqs(seen@);
                seen.push(copy_bytes(&m.sha3_code));
                assert(crate::bytes_map::byte_seqs(seen@) =~= s0.push(m@.sha3_code));
                table.add_one_resource(Resource::new(m.file_name.clone(), copy_bytes(&m.sha3_code), owners));
                proof {
                    assert(codes_of(fo.push(m@)) =~= codes_of(fo).push(m@.sha3_code));
                }
            }
            proof {
                assert(resources_from(t, fo.push(m@)) =~= resources_from(t, fo).push(
                    ResourceView {
                        resource_name: m@.file_name,
                        resource_sha3_code: m@.sha3_code,
                        resource_owner: t.files[m@.sha3_code],
                    },
                ));
            }
            k = k + 1;
        }
        assert(all.take(flat@.len() as int) =~= all);
        Some(table)
    }
}

} // verus!
