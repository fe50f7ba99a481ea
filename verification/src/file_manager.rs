//! The shared directory: how a file is cut into pieces and named by digests,
//! and the record of the files this machine holds.
use vstd::prelude::*;
use crate::bencode::{concat, lemma_concat_append, lemma_skip_skip};
use crate::bytes_map::{copy_bytes, BytesMap};
use crate::digest::{sha3_256, sha3_256_digest};
use crate::thread_communication_message::LFToPIMessage;
use crate::types::{duplicate_metas, metas_view, FileMetaInfo, FilePieceInfo, MetaView, PieceView};

verus! {

/// `c` cut into consecutive pieces of `n` bytes; the last one may be shorter.
pub open spec fn chunks(c: Seq<u8>, n: nat) -> Seq<Seq<u8>>
    decreases c.len(),
{
    if c.len() == 0 || n == 0 {
        Seq::empty()
    } else if c.len() <= n {
        seq![c]
    } else {
        seq![c.take(n as int)] + chunks(c.skip(n as int), n)
    }
}

/// The pieces of `c`: their positions and digests.
pub open spec fn pieces_of(c: Seq<u8>, n: nat) -> Seq<PieceView> {
    Seq::new(
        chunks(c, n).len(),
        |i: int| PieceView { index: i as u32, sha3_code: sha3_256_digest(chunks(c, n)[i]) },
    )
}

/// The record of a file named `name` with content `c`, cut into pieces of `n`
/// bytes: the file is named by the digest of its content.
pub open spec fn file_meta_of(name: Seq<char>, c: Seq<u8>, n: u32) -> MetaView {
    MetaView {
        sha3_code: sha3_256_digest(c),
        file_name: name,
        file_piece_size: n,
        pieces_info: pieces_of(c, n as nat),
    }
}

/// Law: the pieces of a content, put back together in order, are that content.
pub proof fn lemma_chunks_concat(c: Seq<u8>, n: nat)
    requires
        n > 0,
    ensures
        concat(chunks(c, n)) == c,
    decreases c.len(),
{
    if c.len() == 0 {
        assert(c =~= Seq::<u8>::empty());
    } else if c.len() <= n {
        assert(seq![c].drop_last() =~= Seq::<Seq<u8>>::empty());
        assert(Seq::<u8>::empty() + c =~= c);
        assert(concat(seq![c]) == concat(Seq::<Seq<u8>>::empty()) + c);
    } else {
        let first = c.take(n as int);
        let rest = c.skip(n as int);
        lemma_chunks_concat(rest, n);
        lemma_concat_append(seq![first], chunks(rest, n));
        assert(seq![first].drop_last() =~= Seq::<Seq<u8>>::empty());
        assert(Seq::<u8>::empty() + first =~= first);
        assert(concat(seq![first]) == concat(Seq::<Seq<u8>>::empty()) + first);
        assert(first + rest =~= c);
    }
}

/// Law: every piece holds `n` bytes but the last, which holds between one and
/// `n`.
pub proof fn lemma_chunks_sizes(c: Seq<u8>, n: nat)
    requires
        n > 0,
    ensures
        forall|i: int| 0 <= i < chunks(c, n).len() ==> 0 < #[trigger] chunks(c, n)[i].len() <= n,
        forall|i: int| 0 <= i < chunks(c, n).len() - 1 ==> #[trigger] chunks(c, n)[i].len() == n,
    decreases c.len(),
{
    if c.len() > n {
        let rest = c.skip(n as int);
        lemma_chunks_sizes(rest, n);
        assert forall|i: int| 0 < i < chunks(c, n).len() implies #[trigger] chunks(c, n)[i] == chunks(rest, n)[i - 1] by {}
    }
}

/// Law: piece `i` of a content cut into pieces of `n` bytes is the content's
/// bytes from `i * n` on, `n` of them or up to the end: what a peer reads at
/// the offset `i * n` of the file to serve that piece.
pub proof fn lemma_chunk_at_offset(c: Seq<u8>, n: nat, i: int)
    requires
        n > 0,
        0 <= i < chunks(c, n).len(),
    ensures
        i * n < c.len(),
        chunks(c, n)[i] == c.subrange(i * n, if i * n + n <= c.len() { i * n + n } else { c.len() as int }),
    decreases c.len(),
{
    if c.len() > n && i > 0 {
        let rest = c.skip(n as int);
        assert(chunks(c, n)[i] == chunks(rest, n)[i - 1]);
        lemma_chunk_at_offset(rest, n, i - 1);
        assert((i - 1) * n + n == i * n) by (nonlinear_arith);
        let e = if (i - 1) * n + n <= rest.len() { (i - 1) * n + n } else { rest.len() as int };
        assert(rest.subrange((i - 1) * n, e) =~= c.subrange(i * n, if i * n + n <= c.len() { i * n + n } else { c.len() as int }));
    } else if c.len() > n {
        assert(c.take(n as int) =~= c.subrange(0, n as int));
    } else {
        assert(i == 0);
        assert(c =~= c.subrange(0, c.len() as int));
    }
}

/// The bytes of `s` from `a` up to `b`.
pub fn slice_range(s: &[u8], a: usize, b: usize) -> (r: Vec<u8>)
    requires
        a <= b <= s@.len(),
    ensures
        r@ == s@.subrange(a as int, b as int),
{
    let mut r: Vec<u8> = Vec::new();
    let mut i: usize = a;
    while i < b
        invariant
            a <= i <= b <= s@.len(),
            r@ == s@.subrange(a as int, i as int),
        decreases b - i,
    {
        r.push(s[i]);
        assert(s@.subrange(a as int, i + 1) =~= s@.subrange(a as int, i as int).push(s@[i as int]));
        i = i + 1;
    }
    r
}

/// A content of `len` bytes can be cut into pieces of `n` bytes with 32-bit
/// piece indexes (a piece size of 0 gives no pieces at all).
pub open spec fn fits_pieces(n: u32, len: int) -> bool {
    n == 0 || len <= n as int * 0xFFFF_FFFF
}

/// Builds the record of the file `file_name` with content `content`: its
/// digest, and its pieces of `piece_size` bytes with their digests. Piece
/// indexes are 32-bit, hence the bound on the content's length.
pub fn build_file_meta_info(file_name: String, content: &[u8], piece_size: u32) -> (r: FileMetaInfo)
    requires
        fits_pieces(piece_size, content@.len() as int),
    ensures
        r@ == file_meta_of(file_name@, content@, piece_size),
{
    if piece_size == 0 {
        let code = sha3_256(content);
        let none: Vec<FilePieceInfo> = Vec::new();
        assert(crate::types::pieces_view(none@) =~= pieces_of(content@, 0));
        return FileMetaInfo::new(code, file_name, 0, none);
    }
    let n = piece_size as usize;
    let len = content.len();
    let ghost c = content@;
    let ghost all = chunks(c, n as nat);
    let mut pieces: Vec<FilePieceInfo> = Vec::new();
    let mut pos: usize = 0;
    let mut k: u32 = 0;
    assert(c.skip(0) =~= c);
    assert(all.take(0) + chunks(c, n as nat) =~= all);
    while pos < len
        invariant
            n == piece_size as usize,
            n > 0,
            len == c.len(),
            c == content@,
            c.len() <= piece_size as int * 0xFFFF_FFFF,
            all == chunks(c, n as nat),
            pos <= len,
            pos == len || pos == k as int * n as int,
            k as int <= all.len(),
            all.take(k as int) + chunks(c.skip(pos as int), n as nat) == all,
            pieces@.len() == k,
            forall|j: int|
                0 <= j < k ==> #[trigger] pieces@[j]@ == (PieceView {
                    index: j as u32,
                    sha3_code: sha3_256_digest(all[j]),
                }),
        decreases len - pos,
    {
        let ghost rest = c.skip(pos as int);
        let ghost before = all.take(k as int);
        assert(rest.len() > 0);
        assert(k < 0xFFFF_FFFFu32) by (nonlinear_arith)
            requires
                pos == k as int * n as int,
                pos < c.len(),
                c.len() <= n as int * 0xFFFF_FFFF,
                n > 0,
        ;
        let end = if len - pos <= n {
            len
        } else {
            pos + n
        };
        let piece = slice_range(content, pos, end);
        let ghost first = chunks(rest, n as nat)[0];
        proof {
            if rest.len() <= n {
                assert(piece@ =~= rest);
                assert(first == rest);
            } else {
                assert(piece@ =~= rest.take(n as int));
                assert(first == rest.take(n as int));
            }
            assert(all[k as int] == first) by {
                assert(all[k as int] == (before + chunks(rest, n as nat))[k as int]);
            }
        }
        let code = sha3_256(piece.as_slice());
        pieces.push(FilePieceInfo::new(k, code));
        proof {
            assert(all.take(k + 1) =~= before.push(first));
            if rest.len() <= n {
                assert(chunks(c.skip(end as int), n as nat) =~= Seq::<Seq<u8>>::empty());
                assert(all.take(k + 1) + chunks(c.skip(end as int), n as nat) =~= all) by {
                    assert(chunks(rest, n as nat) =~= seq![rest]);
                }
            } else {
                lemma_skip_skip(c, pos as int, n as int);
                assert(chunks(rest, n as nat) == seq![first] + chunks(c.skip(end as int), n as nat));
                assert(all.take(k + 1) + chunks(c.skip(end as int), n as nat) =~= before + chunks(rest, n as nat));
            }
            assert(end == len || end == (k + 1) * n) by (nonlinear_arith)
                requires
                    end == len || end == pos + n,
                    pos == k as int * n as int,
            ;
        }
        pos = end;
        k = k + 1;
    }
    proof {
        assert(chunks(c.skip(pos as int), n as nat) =~= Seq::<Seq<u8>>::empty());
        assert(all.take(k as int) =~= all);
    }
    let code = sha3_256(content);
    let r = FileMetaInfo::new(code, file_name, piece_size, pieces);
    assert(crate::types::pieces_view(pieces@) =~= pieces_of(c, n as nat));
    r
}

/// The paths in a list of them, in order.
pub open spec fn path_strs(v: Seq<String>) -> Seq<Seq<char>> {
    v.map_values(|p: String| p@)
}

/// The paths in a list of them.
pub open spec fn paths_view(v: Seq<String>) -> Set<Seq<char>> {
    path_strs(v).to_set()
}

/// A regular file found in the shared directory while scanning it: its path,
/// its name, and its content (read only where the path was not already
/// looked at; empty otherwise).
pub struct ScannedFile {
    pub path: String,
    pub file_name: String,
    pub content: Vec<u8>,
}

/// One file passed while scanning: a path already looked at is skipped;
/// otherwise the file is handled as `LocalFileTable::handle_entry` says, and
/// the record of a new content is announced.
pub open spec fn scan_step(v: LocalFileTableView, e: ScannedFile) -> (LocalFileTableView, Option<MetaView>) {
    if v.paths.contains(e.path@) {
        (v, None)
    } else {
        let m = file_meta_of(e.file_name@, e.content@, v.piece_size);
        if v.files.dom().contains(m.sha3_code) {
            (v, None)
        } else {
            (
                LocalFileTableView {
                    files: v.files.insert(m.sha3_code, e.path@),
                    report: v.report.push(m),
                    paths: v.paths.insert(e.path@),
                    ..v
                },
                Some(m),
            )
        }
    }
}

/// The table after scanning the files `es` in order, and the records
/// announced on the way.
pub open spec fn scan(v: LocalFileTableView, es: Seq<ScannedFile>) -> (LocalFileTableView, Seq<MetaView>)
    decreases es.len(),
{
    if es.len() == 0 {
        (v, Seq::empty())
    } else {
        let (w, ms) = scan(v, es.drop_last());
        let (w2, o) = scan_step(w, es.last());
        (
            w2,
            match o {
                Some(m) => ms.push(m),
                None => ms,
            },
        )
    }
}

/// The file `e` is no news to `w`: its path was looked at, or its content is known.
pub open spec fn covered(w: LocalFileTableView, e: ScannedFile) -> bool {
    w.paths.contains(e.path@) || w.files.dom().contains(file_meta_of(e.file_name@, e.content@, w.piece_size).sha3_code)
}

/// Scanning only adds: the piece size stays, what was no news stays so, and
/// every file scanned is no news afterwards.
pub proof fn lemma_scan_grows(v: LocalFileTableView, es: Seq<ScannedFile>, e: ScannedFile)
    ensures
        scan(v, es).0.piece_size == v.piece_size,
        covered(v, e) ==> covered(scan(v, es).0, e),
        forall|i: int| 0 <= i < es.len() ==> covered(scan(v, es).0, #[trigger] es[i]),
    decreases es.len(),
{
    if es.len() > 0 {
        let pre = es.drop_last();
        let w = scan(v, pre).0;
        lemma_scan_grows(v, pre, e);
        lemma_scan_grows(v, pre, es.last());
        assert forall|i: int| 0 <= i < es.len() implies covered(scan(v, es).0, #[trigger] es[i]) by {
            if i < pre.len() {
                assert(pre[i] == es[i]);
                lemma_scan_grows(v, pre, es[i]);
            }
        }
    }
}

/// Scanning files that are all no news changes nothing and announces nothing.
proof fn lemma_scan_quiet(w: LocalFileTableView, es: Seq<ScannedFile>)
    requires
        forall|i: int| 0 <= i < es.len() ==> covered(w, #[trigger] es[i]),
    ensures
        scan(w, es) == (w, Seq::<MetaView>::empty()),
    decreases es.len(),
{
    if es.len() > 0 {
        let pre = es.drop_last();
        assert forall|i: int| 0 <= i < pre.len() implies covered(w, #[trigger] pre[i]) by {
            assert(pre[i] == es[i]);
        }
        lemma_scan_quiet(w, pre);
        assert(covered(w, es[es.len() - 1]));
    }
}

/// Law: scanning the same directory a second time, when nothing in it
/// changed, announces nothing and leaves the table as the first scan left it.
pub proof fn lemma_rescan_is_quiet(v: LocalFileTableView, es: Seq<ScannedFile>)
    ensures
        scan(scan(v, es).0, es) == (scan(v, es).0, Seq::<MetaView>::empty()),
{
    lemma_scan_grows(v, es, es[0]);
    lemma_scan_quiet(scan(v, es).0, es);
}

/// The files of the shared directory: the directory, the piece size, the path
/// of each file by its digest, the records to report, and the paths already
/// looked at.
pub struct LocalFileTable {
    base_dir: String,
    piece_size: u32,
    files_info_hash_map: BytesMap<String>,
    file_meta_info_report: Vec<FileMetaInfo>,
    file_path_set: Vec<String>,
}

pub struct LocalFileTableView {
    pub base_dir: Seq<char>,
    pub piece_size: u32,
    pub files: Map<Seq<u8>, Seq<char>>,
    pub report: Seq<MetaView>,
    pub paths: Set<Seq<char>>,
}

impl View for LocalFileTable {
    type V = LocalFileTableView;

    closed spec fn view(&self) -> LocalFileTableView {
        LocalFileTableView {
            base_dir: self.base_dir@,
            piece_size: self.piece_size,
            files: self.files_info_hash_map.map(),
            report: metas_view(self.file_meta_info_report@),
            paths: paths_view(self.file_path_set@),
        }
    }
}

impl LocalFileTable {
    /// The map of digests keeps its keys unique.
    pub closed spec fn wf(&self) -> bool {
        self.files_info_hash_map.wf()
    }

    /// The directory `base_dir`, cut in pieces of `piece_size` bytes; nothing
    /// looked at yet.
    pub fn new(base_dir: String, piece_size: u32) -> (r: Self)
        ensures
            r.wf(),
            r@ == (LocalFileTableView {
                base_dir: base_dir@,
                piece_size,
                files: Map::empty(),
                report: Seq::empty(),
                paths: Set::empty(),
            }),
    {
        let r = LocalFileTable {
            base_dir,
            piece_size,
            files_info_hash_map: BytesMap::new(),
            file_meta_info_report: Vec::new(),
            file_path_set: Vec::new(),
        };
        assert(metas_view(r.file_meta_info_report@) =~= Seq::<MetaView>::empty());
        assert(paths_view(r.file_path_set@) =~= Set::<Seq<char>>::empty());
        r
    }

    /// The directory.
    pub fn get_base_dir(&self) -> (r: String)
        ensures
            r@ == self@.base_dir,
    {
        self.base_dir.clone()
    }

    /// The piece size.
    pub fn get_piece_size(&self) -> (r: u32)
        ensures
            r == self@.piece_size,
    {
        self.piece_size
    }

    /// A copy of the records of the local files.
    pub fn get_file_meta_info_report(&self) -> (r: Vec<FileMetaInfo>)
        ensures
            metas_view(r@) == self@.report,
    {
        duplicate_metas(&self.file_meta_info_report)
    }

    /// Whether `path` was already looked at.
    pub fn is_known_path(&self, path: &String) -> (r: bool)
        ensures
            r == self@.paths.contains(path@),
    {
        let mut i: usize = 0;
        while i < self.file_path_set.len()
            invariant
                0 <= i <= self.file_path_set@.len(),
                forall|j: int| 0 <= j < i ==> self.file_path_set@[j]@ != path@,
            decreases self.file_path_set@.len() - i,
        {
            if self.file_path_set[i] == *path {
                assert(path_strs(self.file_path_set@)[i as int] == path@);
                return true;
            }
            i = i + 1;
        }
        proof {
            if self@.paths.contains(path@) {
                let j = choose|j: int| 0 <= j < self.file_path_set@.len() && #[trigger] path_strs(self.file_path_set@)[j] == path@;
                assert(self.file_path_set@[j]@ == path@);
            }
        }
        false
    }

    fn add_path(&mut self, path: String)
        requires
            old(self).wf(),
        ensures
            final(self).wf(),
            final(self)@ == (LocalFileTableView { paths: old(self)@.paths.insert(path@), ..old(self)@ }),
    {
        if !self.is_known_path(&path) {
            let ghost v0 = self.file_path_set@;
            self.file_path_set.push(path);
            proof {
                assert(path_strs(self.file_path_set@) =~= path_strs(v0).push(self.file_path_set@.last()@));
                assert forall|y: Seq<char>| #[trigger] paths_view(self.file_path_set@).contains(y) <==> paths_view(v0).insert(path@).contains(y) by {
                    crate::peers_info_table::lemma_push_contains(path_strs(v0), path@, y);
                }
                assert(paths_view(self.file_path_set@) =~= paths_view(v0).insert(path@));
            }
        } else {
            assert(self@.paths.insert(path@) =~= self@.paths);
        }
    }

    /// A regular file at `path`, named `file_name`, with content `content`,
    /// was read. A content not yet known is recorded: its path is noted and
    /// its record reported and returned. A copy of a known content is left
    /// out, and its path is not noted.
    pub fn handle_entry(&mut self, path: String, file_name: String, content: &[u8]) -> (r: Option<FileMetaInfo>)
        requires
            old(self).wf(),
            fits_pieces(old(self)@.piece_size, content@.len() as int),
        ensures
            final(self).wf(),
            ({
                let m = file_meta_of(file_name@, content@, old(self)@.piece_size);
                if old(self)@.files.dom().contains(m.sha3_code) {
                    r is None && final(self)@ == old(self)@
                } else {
                    (r matches Some(x) && x@ == m) && final(self)@ == (LocalFileTableView {
                        files: old(self)@.files.insert(m.sha3_code, path@),
                        report: old(self)@.report.push(m),
                        paths: old(self)@.paths.insert(path@),
                        ..old(self)@
                    })
                }
            }),
    {
        let meta = build_file_meta_info(file_name, content, self.piece_size);
        if self.files_info_hash_map.contains_key(meta.sha3_code.as_slice()) {
            return None;
        }
        let code = copy_bytes(&meta.sha3_code);
        self.add_path(path.clone());
        self.files_info_hash_map.insert(code, path);
        let ghost r0 = self.file_meta_info_report@;
        self.file_meta_info_report.push(meta.duplicate());
        assert(metas_view(self.file_meta_info_report@) =~= metas_view(r0).push(meta@));
        Some(meta)
    }

    /// The path of the local file with digest `file_sha3_code`, when there is one.
    pub fn get_local_path(&self, file_sha3_code: &[u8]) -> (r: Option<String>)
        requires
            self.wf(),
        ensures
            r matches Some(p) ==> self@.files.dom().contains(file_sha3_code@) && p@ == self@.files[file_sha3_code@],
            r is None ==> !self@.files.dom().contains(file_sha3_code@),
    {
        match self.files_info_hash_map.get(file_sha3_code) {
            Some(p) => Some(p.clone()),
            None => None,
        }
    }

    /// A downloaded file was stored at `path`: it is recorded as local.
    pub fn record_downloaded_file(&mut self, file_meta_info: FileMetaInfo, path: String)
        requires
            old(self).wf(),
        ensures
            final(self).wf(),
            final(self)@ == (LocalFileTableView {
                files: old(self)@.files.insert(file_meta_info@.sha3_code, path@),
                report: old(self)@.report.push(file_meta_info@),
                paths: old(self)@.paths.insert(path@),
                ..old(self)@
            }),
    {
        let code = copy_bytes(&file_meta_info.sha3_code);
        let ghost m = file_meta_info@;
        let ghost r0 = self.file_meta_info_report@;
        self.file_meta_info_report.push(file_meta_info);
        assert(metas_view(self.file_meta_info_report@) =~= metas_view(r0).push(m));
        self.files_info_hash_map.insert(code, path.clone());
        self.add_path(path);
    }

    /// Scans the files found in the shared directory, in order: paths already
    /// looked at are skipped, the others handled by `handle_entry`. The records
    /// of new contents are returned together, where there is one.
    pub fn scan_and_update(&mut self, entries: &Vec<ScannedFile>) -> (r: Option<LFToPIMessage>)
        requires
            old(self).wf(),
            forall|i: int| 0 <= i < entries@.len() ==> fits_pieces(old(self)@.piece_size, (#[trigger] entries@[i]).content@.len() as int),
        ensures
            final(self).wf(),
            final(self)@ == scan(old(self)@, entries@).0,
            final(self)@.piece_size == old(self)@.piece_size,
            scan(old(self)@, entries@).1.len() == 0 ==> r is None,
            scan(old(self)@, entries@).1.len() > 0 ==> (r matches Some(msg) && msg@ == scan(old(self)@, entries@).1),
    {
        let ghost v0 = self@;
        let mut msg = LFToPIMessage::new();
        let mut any = false;
        let mut i: usize = 0;
        while i < entries.len()
            invariant
                0 <= i <= entries@.len(),
                self.wf(),
                self@.piece_size == v0.piece_size,
                forall|j: int| 0 <= j < entries@.len() ==> fits_pieces(v0.piece_size, (#[trigger] entries@[j]).content@.len() as int),
                self@ == scan(v0, entries@.take(i as int)).0,
                msg@ == scan(v0, entries@.take(i as int)).1,
                any == (msg@.len() > 0),
            decreases entries@.len() - i,
        {
            assert(entries@.take(i + 1).drop_last() =~= entries@.take(i as int));
            assert(entries@.take(i + 1).last() == entries@[i as int]);
            let e = &entries[i];
            if !self.is_known_path(&e.path) {
                match self.handle_entry(e.path.clone(), e.file_name.clone(), e.content.as_slice()) {
                    Some(m) => {
                        msg.add_file_meta_info(m);
                        any = true;
                    },
                    None => {},
                }
            }
            i = i + 1;
        }
        assert(entries@.take(entries@.len() as int) =~= entries@);
        proof {
            lemma_scan_grows(v0, entries@, entries@[0]);
        }
        if any {
            Some(msg)
        } else {
            None
        }
    }
}

} // verus!
