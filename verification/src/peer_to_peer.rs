//! Pieces between peers: the buffer of pieces downloaded but not yet written
//! to a file, and how a peer answers a request for a piece.
use vstd::prelude::*;
use crate::bencode::starts_with;
use crate::bytes_map::{copy_bytes, BytesMap};
use crate::digest::{sha3_256, sha3_256_digest};
use crate::message::{enc_piece_request, FilePieceRequestPayload, FilePieceRequestView};
use crate::packet::{frame, make_packet};
use crate::types::DecodeError;

verus! {

/// The pieces downloaded and not yet written out, by digest.
pub struct FilePieceDownloadedBuffer {
    file_piece_downloaded_buf_map: BytesMap<Vec<u8>>,
}

impl View for FilePieceDownloadedBuffer {
    type V = Map<Seq<u8>, Seq<u8>>;

    closed spec fn view(&self) -> Map<Seq<u8>, Seq<u8>> {
        self.file_piece_downloaded_buf_map.map()
    }
}

/// `m` without the pieces listed in `ks`, taken out one after the other.
pub open spec fn release_all(m: Map<Seq<u8>, Seq<u8>>, ks: Seq<Seq<u8>>) -> Map<Seq<u8>, Seq<u8>>
    decreases ks.len(),
{
    if ks.len() == 0 {
        m
    } else {
        release_all(m, ks.drop_last()).remove(ks.last())
    }
}

impl FilePieceDownloadedBuffer {
    /// The map keeps its keys unique.
    pub closed spec fn wf(&self) -> bool {
        self.file_piece_downloaded_buf_map.wf()
    }

    /// An empty buffer.
    pub fn new() -> (r: Self)
        ensures
            r.wf(),
            r@ == Map::<Seq<u8>, Seq<u8>>::empty(),
    {
        FilePieceDownloadedBuffer { file_piece_downloaded_buf_map: BytesMap::new() }
    }

    /// Keeps `piece_content` as the piece with digest `piece_sha3_code`.
    pub fn add_one_piece(&mut self, piece_sha3_code: Vec<u8>, piece_content: Vec<u8>)
        requires
            old(self).wf(),
        ensures
            final(self).wf(),
            final(self)@ == old(self)@.insert(piece_sha3_code@, piece_content@),
    {
        self.file_piece_downloaded_buf_map.insert(piece_sha3_code, piece_content);
    }

    /// Whether the piece with digest `piece_sha3_code` is kept.
    pub fn contains_piece(&self, piece_sha3_code: &[u8]) -> (r: bool)
        requires
            self.wf(),
        ensures
            r == self@.dom().contains(piece_sha3_code@),
    {
        self.file_piece_downloaded_buf_map.contains_key(piece_sha3_code)
    }

    /// A copy of the piece with digest `piece_sha3_code`, which is kept. Across
    /// other writes and releases, see `lemma_get_after_last_add`.
    pub fn get_one_piece_content(&self, piece_sha3_code: &Vec<u8>) -> (r: Vec<u8>)
        requires
            self.wf(),
            self@.dom().contains(piece_sha3_code@),
        ensures
            r@ == self@[piece_sha3_code@],
    {
        match self.file_piece_downloaded_buf_map.get(piece_sha3_code.as_slice()) {
            Some(c) => copy_bytes(c),
            None => Vec::new(),
        }
    }

    /// Forgets the pieces listed, once their file is written.
    pub fn release_file_piece_content(&mut self, piece_sha3_code_list: Vec<Vec<u8>>)
        requires
            old(self).wf(),
        ensures
            final(self).wf(),
            final(self)@ == release_all(old(self)@, crate::bytes_map::byte_seqs(piece_sha3_code_list@)),
    {
        let ghost m0 = self@;
        let ghost ks = crate::bytes_map::byte_seqs(piece_sha3_code_list@);
        let mut i: usize = 0;
        while i < piece_sha3_code_list.len()
            invariant
                0 <= i <= piece_sha3_code_list@.len(),
                ks == crate::bytes_map::byte_seqs(piece_sha3_code_list@),
                self.wf(),
                self@ == release_all(m0, ks.take(i as int)),
            decreases piece_sha3_code_list@.len() - i,
        {
            assert(ks.take(i + 1).drop_last() =~= ks.take(i as int));
            self.file_piece_downloaded_buf_map.remove(piece_sha3_code_list[i].as_slice());
            i = i + 1;
        }
        assert(ks.take(piece_sha3_code_list@.len() as int) =~= ks);
    }

    /// The pieces listed, put together in order: the content of the file
    /// they make up.
    pub fn file_content(&self, piece_sha3_code_list: &Vec<Vec<u8>>) -> (r: Vec<u8>)
        requires
            self.wf(),
            forall|i: int| 0 <= i < piece_sha3_code_list@.len() ==> self@.dom().contains(#[trigger] piece_sha3_code_list@[i]@),
        ensures
            r@ == crate::bencode::concat(crate::bytes_map::byte_seqs(piece_sha3_code_list@).map_values(|k: Seq<u8>| self@[k])),
    {
        let ghost parts = crate::bytes_map::byte_seqs(piece_sha3_code_list@).map_values(|k: Seq<u8>| self@[k]);
        let mut out: Vec<u8> = Vec::new();
        let mut i: usize = 0;
        while i < piece_sha3_code_list.len()
            invariant
                0 <= i <= piece_sha3_code_list@.len(),
                self.wf(),
                forall|j: int| 0 <= j < piece_sha3_code_list@.len() ==> self@.dom().contains(#[trigger] piece_sha3_code_list@[j]@),
                parts == crate::bytes_map::byte_seqs(piece_sha3_code_list@).map_values(|k: Seq<u8>| self@[k]),
                out@ == crate::bencode::concat(parts.take(i as int)),
            decreases piece_sha3_code_list@.len() - i,
        {
            let c = self.get_one_piece_content(&piece_sha3_code_list[i]);
            let mut j: usize = 0;
            let ghost o0 = out@;
            while j < c.len()
                invariant
                    0 <= j <= c@.len(),
                    out@ == o0 + c@.take(j as int),
                decreases c@.len() - j,
            {
                out.push(c[j]);
                assert(c@.take(j + 1) =~= c@.take(j as int).push(c@[j as int]));
                j = j + 1;
            }
            assert(c@.take(c@.len() as int) =~= c@);
            assert(parts.take(i + 1).drop_last() =~= parts.take(i as int));
            assert(parts[i as int] == c@);
            i = i + 1;
        }
        assert(parts.take(piece_sha3_code_list@.len() as int) =~= parts);
        out
    }
}

/// Law: a piece kept in the buffer reads back as it was written, and writing
/// one piece leaves the others as they were.
pub proof fn lemma_buffer_read_after_write(
    m: Map<Seq<u8>, Seq<u8>>,
    k: Seq<u8>,
    c: Seq<u8>,
    other: Seq<u8>,
)
    ensures
        m.insert(k, c).dom().contains(k),
        m.insert(k, c)[k] == c,
        other != k ==> (m.insert(k, c).dom().contains(other) == m.dom().contains(other)),
        other != k && m.dom().contains(other) ==> m.insert(k, c)[other] == m[other],
{
}

/// Law: after the pieces of a file are released, none of them is kept.
pub proof fn lemma_released_are_gone(m: Map<Seq<u8>, Seq<u8>>, ks: Seq<Seq<u8>>, k: Seq<u8>)
    requires
        ks.contains(k),
    ensures
        !release_all(m, ks).dom().contains(k),
    decreases ks.len(),
{
    if ks.last() != k {
        let i = choose|i: int| 0 <= i < ks.len() && ks[i] == k;
        assert(ks.drop_last()[i] == k);
        lemma_released_are_gone(m, ks.drop_last(), k);
    }
}

/// Law: releasing a list of pieces keeps every piece that the list does not
/// name, with its content.
pub proof fn lemma_release_keeps_others(m: Map<Seq<u8>, Seq<u8>>, ks: Seq<Seq<u8>>, k: Seq<u8>)
    requires
        !ks.contains(k),
    ensures
        release_all(m, ks).dom().contains(k) == m.dom().contains(k),
        m.dom().contains(k) ==> release_all(m, ks)[k] == m[k],
    decreases ks.len(),
{
    if ks.len() > 0 {
        assert(!ks.drop_last().contains(k)) by {
            if ks.drop_last().contains(k) {
                let i = choose|i: int| 0 <= i < ks.drop_last().len() && ks.drop_last()[i] == k;
                assert(ks[i] == k);
            }
        }
        assert(ks[ks.len() - 1] == ks.last());
        lemma_release_keeps_others(m, ks.drop_last(), k);
    }
}

/// One operation on the buffer: keep a piece, or release a list of pieces.
pub enum BufferOp {
    Add(Seq<u8>, Seq<u8>),
    Release(Seq<Seq<u8>>),
}

/// The buffer after one operation.
pub open spec fn apply_buffer_op(m: Map<Seq<u8>, Seq<u8>>, op: BufferOp) -> Map<Seq<u8>, Seq<u8>> {
    match op {
        BufferOp::Add(k, c) => m.insert(k, c),
        BufferOp::Release(ks) => release_all(m, ks),
    }
}

/// The buffer after a run of operations, in order.
pub open spec fn apply_buffer_ops(m: Map<Seq<u8>, Seq<u8>>, ops: Seq<BufferOp>) -> Map<Seq<u8>, Seq<u8>>
    decreases ops.len(),
{
    if ops.len() == 0 {
        m
    } else {
        apply_buffer_op(apply_buffer_ops(m, ops.drop_last()), ops.last())
    }
}

/// Whether an operation writes or releases the piece `k`.
pub open spec fn touches(op: BufferOp, k: Seq<u8>) -> bool {
    match op {
        BufferOp::Add(k2, _) => k2 == k,
        BufferOp::Release(ks) => ks.contains(k),
    }
}

/// Law: take a run of calls on a buffer, `add_one_piece` (`BufferOp::Add`)
/// and `release_file_piece_content` (`BufferOp::Release`). When the last
/// `add_one_piece` of key `k` kept content `c` and no later release listed
/// `k`, the buffer still holds `k` and `get_one_piece_content(&k)` returns `c`
/// (it takes `&self`, so reading leaves the buffer as it is).
pub proof fn lemma_get_after_last_add(
    m: Map<Seq<u8>, Seq<u8>>,
    k: Seq<u8>,
    c: Seq<u8>,
    ops: Seq<BufferOp>,
)
    requires
        forall|i: int| 0 <= i < ops.len() ==> !touches(#[trigger] ops[i], k),
    ensures
        apply_buffer_ops(m.insert(k, c), ops).dom().contains(k),
        apply_buffer_ops(m.insert(k, c), ops)[k] == c,
    decreases ops.len(),
{
    if ops.len() > 0 {
        let prev = apply_buffer_ops(m.insert(k, c), ops.drop_last());
        assert forall|i: int| 0 <= i < ops.drop_last().len() implies !touches(#[trigger] ops.drop_last()[i], k) by {
            assert(ops.drop_last()[i] == ops[i]);
        }
        lemma_get_after_last_add(m, k, c, ops.drop_last());
        assert(!touches(ops[ops.len() - 1], k));
        match ops.last() {
            BufferOp::Add(k2, c2) => {}
            BufferOp::Release(ks) => {
                lemma_release_keeps_others(prev, ks, k);
            }
        }
    }
}

/// What a peer does with a request for a piece: answer at once with the
/// piece kept in the buffer, or read the piece of the local file first.
pub enum ServeAction {
    /// The packet (type 7) to send back.
    Reply { packet: Vec<u8> },
    /// Read `file_piece_size` bytes at `offset` of the local file with digest
    /// `file_sha3_code`; the piece must have digest `file_piece_sha3_code`.
    ReadFromDisk { file_sha3_code: Vec<u8>, file_piece_sha3_code: Vec<u8>, offset: u64, file_piece_size: u32 },
}

/// The content read for a piece does not have the piece's digest.
#[derive(Debug, Clone, Copy, PartialEq, Eq)]
pub enum PieceError {
    DigestMismatch,
}

/// A peer's service of pieces: where it listens.
pub struct PeerToPeerManager {
    open_port: u16,
    local_bind_ip: Vec<u8>,
}

impl PeerToPeerManager {
    /// The port.
    pub closed spec fn port(&self) -> u16 {
        self.open_port
    }

    /// The address.
    pub closed spec fn bind_ip(&self) -> Seq<u8> {
        self.local_bind_ip@
    }

    /// A service at `local_bind_ip` and `open_port`.
    pub fn new(local_bind_ip: Vec<u8>, open_port: u16) -> (r: Self)
        ensures
            r.port() == open_port,
            r.bind_ip() == local_bind_ip@,
    {
        PeerToPeerManager { open_port, local_bind_ip }
    }

    /// The port on which pieces are served.
    pub fn get_open_port(&self) -> (r: u16)
        ensures
            r == self.port(),
    {
        self.open_port
    }

    /// The address on which pieces are served.
    pub fn get_bind_ip(&self) -> (r: Vec<u8>)
        ensures
            r@ == self.bind_ip(),
    {
        copy_bytes(&self.local_bind_ip)
    }

    /// The answer to a request (a type-6 payload): a piece in the buffer goes
    /// back at once as a type-7 packet; another is to be read from the local
    /// file, `file_piece_size` times `file_piece_index` bytes in. A payload
    /// that does not decode is an error.
    pub fn serve_request(&self, buffer: &FilePieceDownloadedBuffer, payload: &[u8]) -> (r: Result<ServeAction, DecodeError>)
        requires
            buffer.wf(),
        ensures
            r is Err <==> !(exists|y: FilePieceRequestView| #[trigger] starts_with(payload@, enc_piece_request(y))),
            forall|y: FilePieceRequestView|
                #[trigger] starts_with(payload@, enc_piece_request(y)) ==> (if buffer@.dom().contains(y.file_piece_sha3_code) {
                    r matches Ok(ServeAction::Reply { packet }) && packet@ == frame(7, buffer@[y.file_piece_sha3_code])
                } else {
                    r matches Ok(ServeAction::ReadFromDisk { file_sha3_code, file_piece_sha3_code, offset, file_piece_size })
                        && file_sha3_code@ == y.file_sha3_code && file_piece_sha3_code@ == y.file_piece_sha3_code
                        && offset == y.file_piece_size as int * y.file_piece_index as int
                        && file_piece_size == y.file_piece_size
                }),
    {
        match FilePieceRequestPayload::from_bencode(payload) {
            Err(e) => Err(e),
            Ok(req) => {
                let (file_sha3_code, file_piece_sha3_code, file_piece_index, file_piece_size) = req.get_inner_info();
                if buffer.contains_piece(file_piece_sha3_code.as_slice()) {
                    let content = buffer.get_one_piece_content(&file_piece_sha3_code);
                    Ok(ServeAction::Reply { packet: make_packet(7, content.as_slice()) })
                } else {
                    let a = file_piece_size as u64;
                    let b = file_piece_index as u64;
                    assert(a * b <= 0xFFFF_FFFF * 0xFFFF_FFFF) by (nonlinear_arith)
                        requires
                            a <= 0xFFFF_FFFF,
                            b <= 0xFFFF_FFFF,
                    ;
                    let offset: u64 = a * b;
                    Ok(ServeAction::ReadFromDisk { file_sha3_code, file_piece_sha3_code, offset, file_piece_size })
                }
            },
        }
    }

    /// The answer once the piece was read from the local file: a type-7
    /// packet, when the content has the expected digest.
    pub fn piece_reply(piece_content: &[u8], file_piece_sha3_code: &[u8]) -> (r: Result<Vec<u8>, PieceError>)
        ensures
            r is Ok <==> sha3_256_digest(piece_content@) == file_piece_sha3_code@,
            r matches Ok(p) ==> p@ == frame(7, piece_content@),
    {
        let code = sha3_256(piece_content);
        if crate::bytes_map::bytes_eq(code.as_slice(), file_piece_sha3_code) {
            Ok(make_packet(7, piece_content))
        } else {
            Err(PieceError::DigestMismatch)
        }
    }
}

} // verus!
