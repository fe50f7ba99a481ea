//! The records that describe shared files and peers, and their bencode form.
//!
//! The dictionaries are those of the wire protocol: keys in sorted order, byte
//! vectors as lists of integers, file names as UTF-8 byte strings.
use vstd::prelude::*;
use crate::bytes_map::copy_bytes;
use crate::bencode::{
    byte_end, byte_list, concat, enc_bytes, enc_int, enc_list_of, enc_str, enc_u8_list,
    item_enc_ok, lemma_concat_push, lemma_seq_assoc, lemma_join, lemma_list_close, lemma_list_grow,
    lemma_list_step, lemma_skip_skip, lemma_step, peek_byte, read_key, read_lit, read_str,
    read_u16, read_u32, read_u64, read_u8_list, starts_with, write_byte, write_bytes,
    write_int, write_str, write_u8_list,
};

verus! {

/// One piece of a file: its position in the file and the SHA3-256 digest of
/// its content.
#[derive(Debug, Clone, PartialEq, Eq)]
pub struct FilePieceInfo {
    pub index: u32,
    pub sha3_code: Vec<u8>,
}

/// A shared file: the digest of its content, its name, the size of its pieces
/// and the pieces.
#[derive(Debug, Clone, PartialEq, Eq)]
pub struct FileMetaInfo {
    pub sha3_code: Vec<u8>,
    pub file_name: String,
    pub file_piece_size: u32,
    pub pieces_info: Vec<FilePieceInfo>,
}

/// A peer of the sharing network: its id, IPv4 address, the port on which it
/// serves pieces, and the files it holds.
#[derive(Debug, Clone, PartialEq, Eq)]
pub struct PeerInfo {
    pub peer_id: u32,
    pub peer_ip: Vec<u8>,
    pub peer_open_port: u16,
    pub peer_file_meta_info_report: Vec<FileMetaInfo>,
}

pub struct PieceView {
    pub index: u32,
    pub sha3_code: Seq<u8>,
}

pub struct MetaView {
    pub sha3_code: Seq<u8>,
    pub file_name: Seq<char>,
    pub file_piece_size: u32,
    pub pieces_info: Seq<PieceView>,
}

pub struct PeerView {
    pub peer_id: u32,
    pub peer_ip: Seq<u8>,
    pub peer_open_port: u16,
    pub peer_file_meta_info_report: Seq<MetaView>,
}

pub open spec fn pieces_view(v: Seq<FilePieceInfo>) -> Seq<PieceView> {
    v.map_values(|p: FilePieceInfo| p@)
}

pub open spec fn metas_view(v: Seq<FileMetaInfo>) -> Seq<MetaView> {
    v.map_values(|m: FileMetaInfo| m@)
}

pub open spec fn peers_view(v: Seq<PeerInfo>) -> Seq<PeerView> {
    v.map_values(|p: PeerInfo| p@)
}

impl View for FilePieceInfo {
    type V = PieceView;

    open spec fn view(&self) -> PieceView {
        PieceView { index: self.index, sha3_code: self.sha3_code@ }
    }
}

impl View for FileMetaInfo {
    type V = MetaView;

    open spec fn view(&self) -> MetaView {
        MetaView {
            sha3_code: self.sha3_code@,
            file_name: self.file_name@,
            file_piece_size: self.file_piece_size,
            pieces_info: pieces_view(self.pieces_info@),
        }
    }
}

impl View for PeerInfo {
    type V = PeerView;

    open spec fn view(&self) -> PeerView {
        PeerView {
            peer_id: self.peer_id,
            peer_ip: self.peer_ip@,
            peer_open_port: self.peer_open_port,
            peer_file_meta_info_report: metas_view(self.peer_file_meta_info_report@),
        }
    }
}

/// The list of peers, which is all that travels of a peers table.
pub struct TableWire {
    pub peers_info: Vec<PeerInfo>,
}

pub struct TableWireView {
    pub peers_info: Seq<PeerView>,
}

impl View for TableWire {
    type V = TableWireView;

    open spec fn view(&self) -> TableWireView {
        TableWireView { peers_info: peers_view(self.peers_info@) }
    }
}

/// A peers table on the wire: a dictionary with the list of its peers.
pub open spec fn enc_table(peers: Seq<PeerView>) -> Seq<u8> {
    enc_table_wire(TableWireView { peers_info: peers })
}


/// The dictionary key `file_name`.
pub open spec fn key_file_name() -> Seq<u8> {
    seq![102u8, 105u8, 108u8, 101u8, 95u8, 110u8, 97u8, 109u8, 101u8]
}

/// The dictionary key `file_piece_size`.
pub open spec fn key_file_piece_size() -> Seq<u8> {
    seq![102u8, 105u8, 108u8, 101u8, 95u8, 112u8, 105u8, 101u8, 99u8, 101u8, 95u8, 115u8, 105u8, 122u8, 101u8]
}

/// The dictionary key `index`.
pub open spec fn key_index() -> Seq<u8> {
    seq![105u8, 110u8, 100u8, 101u8, 120u8]
}

/// The dictionary key `peer_file_meta_info_report`.
pub open spec fn key_peer_file_meta_info_report() -> Seq<u8> {
    seq![112u8, 101u8, 101u8, 114u8, 95u8, 102u8, 105u8, 108u8, 101u8, 95u8, 109u8, 101u8, 116u8, 97u8, 95u8, 105u8, 110u8, 102u8, 111u8, 95u8, 114u8, 101u8, 112u8, 111u8, 114u8, 116u8]
}

/// The dictionary key `peer_id`.
pub open spec fn key_peer_id() -> Seq<u8> {
    seq![112u8, 101u8, 101u8, 114u8, 95u8, 105u8, 100u8]
}

/// The dictionary key `peer_ip`.
pub open spec fn key_peer_ip() -> Seq<u8> {
    seq![112u8, 101u8, 101u8, 114u8, 95u8, 105u8, 112u8]
}

/// The dictionary key `peer_open_port`.
pub open spec fn key_peer_open_port() -> Seq<u8> {
    seq![112u8, 101u8, 101u8, 114u8, 95u8, 111u8, 112u8, 101u8, 110u8, 95u8, 112u8, 111u8, 114u8, 116u8]
}

/// The dictionary key `peers_info`.
pub open spec fn key_peers_info() -> Seq<u8> {
    seq![112u8, 101u8, 101u8, 114u8, 115u8, 95u8, 105u8, 110u8, 102u8, 111u8]
}

/// The dictionary key `pieces_info`.
pub open spec fn key_pieces_info() -> Seq<u8> {
    seq![112u8, 105u8, 101u8, 99u8, 101u8, 115u8, 95u8, 105u8, 110u8, 102u8, 111u8]
}

/// The dictionary key `sha3_code`.
pub open spec fn key_sha3_code() -> Seq<u8> {
    seq![115u8, 104u8, 97u8, 51u8, 95u8, 99u8, 111u8, 100u8, 101u8]
}

/// A piece as a dictionary.
pub open spec fn enc_piece(y: PieceView) -> Seq<u8> {
    seq![100u8] + (enc_bytes(key_index()) + (enc_int(y.index as nat) + (enc_bytes(key_sha3_code()) + (enc_u8_list(y.sha3_code) + (seq![101u8])))))
}

pub fn write_piece(out: &mut Vec<u8>, x: &FilePieceInfo)
    ensures
        final(out)@ == old(out)@ + enc_piece(x@),
{
    let ghost o0 = out@;
    write_byte(out, 100u8);
    let ghost o1 = out@;
    let k_index: [u8; 5] = [105u8, 110u8, 100u8, 101u8, 120u8];
    assert(k_index@ =~= key_index());
    write_bytes(out, &k_index);
    let ghost o2 = out@;
    write_int(out, x.index as u64);
    let ghost o3 = out@;
    let k_sha3_code: [u8; 9] = [115u8, 104u8, 97u8, 51u8, 95u8, 99u8, 111u8, 100u8, 101u8];
    assert(k_sha3_code@ =~= key_sha3_code());
    write_bytes(out, &k_sha3_code);
    let ghost o4 = out@;
    write_u8_list(out, x.sha3_code.as_slice());
    let ghost o5 = out@;
    write_byte(out, 101u8);
    let ghost o6 = out@;
    proof {
        lemma_seq_assoc(o0, seq![100u8], enc_bytes(key_index()) + (enc_int(x@.index as nat) + (enc_bytes(key_sha3_code()) + (enc_u8_list(x@.sha3_code) + (seq![101u8])))));
        lemma_seq_assoc(o1, enc_bytes(key_index()), enc_int(x@.index as nat) + (enc_bytes(key_sha3_code()) + (enc_u8_list(x@.sha3_code) + (seq![101u8]))));
        lemma_seq_assoc(o2, enc_int(x@.index as nat), enc_bytes(key_sha3_code()) + (enc_u8_list(x@.sha3_code) + (seq![101u8])));
        lemma_seq_assoc(o3, enc_bytes(key_sha3_code()), enc_u8_list(x@.sha3_code) + (seq![101u8]));
        lemma_seq_assoc(o4, enc_u8_list(x@.sha3_code), seq![101u8]);
        assert(enc_piece(x@) == seq![100u8] + (enc_bytes(key_index()) + (enc_int(x@.index as nat) + (enc_bytes(key_sha3_code()) + (enc_u8_list(x@.sha3_code) + (seq![101u8]))))));
    }
}

#[verifier::rlimit(40)]
pub fn read_piece(s: &[u8], pos: usize) -> (r: Option<(FilePieceInfo, usize)>)
    requires
        pos <= s@.len(),
    ensures
        r matches Some((x, e)) ==> e == pos + enc_piece(x@).len() && e <= s@.len()
            && starts_with(s@.skip(pos as int), enc_piece(x@)),
        forall|y: PieceView| starts_with(s@.skip(pos as int), #[trigger] enc_piece(y)) ==> (r matches Some((x, _)) && x@ == y),
{
    let ghost rest = s@.skip(pos as int);
    let p0 = pos;
    proof {
        assert forall|y: PieceView| starts_with(rest, #[trigger] enc_piece(y)) implies starts_with(s@.skip(p0 as int), seq![100u8] + (enc_bytes(key_index()) + (enc_int(y.index as nat) + (enc_bytes(key_sha3_code()) + (enc_u8_list(y.sha3_code) + (seq![101u8])))))) by {}
    }
    let l0: [u8; 1] = [100u8];
    assert(l0@ =~= seq![100u8]);
    let p1 = match read_lit(s, p0, &l0) {
        None => {
            proof {
                assert forall|y: PieceView| starts_with(rest, #[trigger] enc_piece(y)) implies false by {
                    lemma_step(s@, p0 as int, seq![100u8], enc_bytes(key_index()) + (enc_int(y.index as nat) + (enc_bytes(key_sha3_code()) + (enc_u8_list(y.sha3_code) + (seq![101u8])))));
                }
            }
            return None;
        },
        Some(q) => q,
    };
    proof {
        assert forall|y: PieceView| starts_with(rest, #[trigger] enc_piece(y)) implies starts_with(s@.skip(p1 as int), enc_bytes(key_index()) + (enc_int(y.index as nat) + (enc_bytes(key_sha3_code()) + (enc_u8_list(y.sha3_code) + (seq![101u8]))))) by {
            lemma_step(s@, p0 as int, seq![100u8], enc_bytes(key_index()) + (enc_int(y.index as nat) + (enc_bytes(key_sha3_code()) + (enc_u8_list(y.sha3_code) + (seq![101u8])))));
        }
    }
    let k1: [u8; 5] = [105u8, 110u8, 100u8, 101u8, 120u8];
    assert(k1@ =~= key_index());
    let p2 = match read_key(s, p1, &k1) {
        None => {
            proof {
                assert forall|y: PieceView| starts_with(rest, #[trigger] enc_piece(y)) implies false by {
                    lemma_step(s@, p1 as int, enc_bytes(key_index()), enc_int(y.index as nat) + (enc_bytes(key_sha3_code()) + (enc_u8_list(y.sha3_code) + (seq![101u8]))));
                }
            }
            return None;
        },
        Some(q) => q,
    };
    proof {
        assert forall|y: PieceView| starts_with(rest, #[trigger] enc_piece(y)) implies starts_with(s@.skip(p2 as int), enc_int(y.index as nat) + (enc_bytes(key_sha3_code()) + (enc_u8_list(y.sha3_code) + (seq![101u8])))) by {
            lemma_step(s@, p1 as int, enc_bytes(key_index()), enc_int(y.index as nat) + (enc_bytes(key_sha3_code()) + (enc_u8_list(y.sha3_code) + (seq![101u8]))));
        }
    }
    let (v_index, p3) = match read_u32(s, p2) {
        None => {
            proof {
                assert forall|y: PieceView| starts_with(rest, #[trigger] enc_piece(y)) implies false by {
                    lemma_step(s@, p2 as int, enc_int(y.index as nat), enc_bytes(key_sha3_code()) + (enc_u8_list(y.sha3_code) + (seq![101u8])));
                }
            }
            return None;
        },
        Some(q) => q,
    };
    proof {
        assert forall|y: PieceView| starts_with(rest, #[trigger] enc_piece(y)) implies starts_with(s@.skip(p3 as int), enc_bytes(key_sha3_code()) + (enc_u8_list(y.sha3_code) + (seq![101u8]))) && y.index == v_index by {
            lemma_step(s@, p2 as int, enc_int(y.index as nat), enc_bytes(key_sha3_code()) + (enc_u8_list(y.sha3_code) + (seq![101u8])));
        }
    }
    let k3: [u8; 9] = [115u8, 104u8, 97u8, 51u8, 95u8, 99u8, 111u8, 100u8, 101u8];
    assert(k3@ =~= key_sha3_code());
    let p4 = match read_key(s, p3, &k3) {
        None => {
            proof {
                assert forall|y: PieceView| starts_with(rest, #[trigger] enc_piece(y)) implies false by {
                    lemma_step(s@, p3 as int, enc_bytes(key_sha3_code()), enc_u8_list(y.sha3_code) + (seq![101u8]));
                }
            }
            return None;
        },
        Some(q) => q,
    };
    proof {
        assert forall|y: PieceView| starts_with(rest, #[trigger] enc_piece(y)) implies starts_with(s@.skip(p4 as int), enc_u8_list(y.sha3_code) + (seq![101u8])) by {
            lemma_step(s@, p3 as int, enc_bytes(key_sha3_code()), enc_u8_list(y.sha3_code) + (seq![101u8]));
        }
    }
    let (v_sha3_code, p5) = match read_u8_list(s, p4) {
        None => {
            proof {
                assert forall|y: PieceView| starts_with(rest, #[trigger] enc_piece(y)) implies false by {
                    lemma_step(s@, p4 as int, enc_u8_list(y.sha3_code), seq![101u8]);
                }
            }
            return None;
        },
        Some(q) => q,
    };
    proof {
        assert forall|y: PieceView| starts_with(rest, #[trigger] enc_piece(y)) implies starts_with(s@.skip(p5 as int), seq![101u8]) && y.sha3_code == v_sha3_code@ by {
            lemma_step(s@, p4 as int, enc_u8_list(y.sha3_code), seq![101u8]);
        }
    }
    let l5: [u8; 1] = [101u8];
    assert(l5@ =~= seq![101u8]);
    let p6 = match read_lit(s, p5, &l5) {
        None => {
            proof {
                assert forall|y: PieceView| starts_with(rest, #[trigger] enc_piece(y)) implies false by {
                    
                }
            }
            return None;
        },
        Some(q) => q,
    };
    proof {
        assert forall|y: PieceView| starts_with(rest, #[trigger] enc_piece(y)) implies true by {
            
        }
    }
    let x = FilePieceInfo { index: v_index, sha3_code: v_sha3_code };
    proof {
        assert(starts_with(s@.skip(p0 as int), seq![100u8]));
        assert(starts_with(s@.skip(p1 as int), enc_bytes(key_index())));
        assert(starts_with(s@.skip(p2 as int), enc_int(x@.index as nat)));
        assert(starts_with(s@.skip(p3 as int), enc_bytes(key_sha3_code())));
        assert(starts_with(s@.skip(p4 as int), enc_u8_list(x@.sha3_code)));
        assert(starts_with(s@.skip(p5 as int), seq![101u8]));
        lemma_join(s@, p4 as int, enc_u8_list(x@.sha3_code), seq![101u8]);
        lemma_join(s@, p3 as int, enc_bytes(key_sha3_code()), enc_u8_list(x@.sha3_code) + (seq![101u8]));
        lemma_join(s@, p2 as int, enc_int(x@.index as nat), enc_bytes(key_sha3_code()) + (enc_u8_list(x@.sha3_code) + (seq![101u8])));
        lemma_join(s@, p1 as int, enc_bytes(key_index()), enc_int(x@.index as nat) + (enc_bytes(key_sha3_code()) + (enc_u8_list(x@.sha3_code) + (seq![101u8]))));
        lemma_join(s@, p0 as int, seq![100u8], enc_bytes(key_index()) + (enc_int(x@.index as nat) + (enc_bytes(key_sha3_code()) + (enc_u8_list(x@.sha3_code) + (seq![101u8])))));
        assert(enc_piece(x@) == seq![100u8] + (enc_bytes(key_index()) + (enc_int(x@.index as nat) + (enc_bytes(key_sha3_code()) + (enc_u8_list(x@.sha3_code) + (seq![101u8]))))));
    }
    Some((x, p6))
}

/// A list of `piece` values.
pub open spec fn enc_pieces(w: Seq<PieceView>) -> Seq<u8> {
    enc_list_of(w, |x: PieceView| enc_piece(x))
}

pub proof fn lemma_enc_piece_item_ok()
    ensures
        item_enc_ok(|x: PieceView| enc_piece(x)),
{
    assert forall|x: PieceView| #![trigger enc_piece(x)] enc_piece(x).len() > 0 && enc_piece(x)[0] != byte_end() by {
        assert(enc_piece(x)[0] == 100u8);
    }
}

pub fn write_pieces(out: &mut Vec<u8>, v: &Vec<FilePieceInfo>)
    ensures
        final(out)@ == old(out)@ + enc_pieces(pieces_view(v@)),
{
    let ghost start = out@;
    let ghost f = |x: PieceView| enc_piece(x);
    let ghost items = pieces_view(v@).map_values(f);
    write_byte(out, 108u8);
    let mut i: usize = 0;
    while i < v.len()
        invariant
            0 <= i <= v@.len(),
            items == pieces_view(v@).map_values(f),
            f == (|x: PieceView| enc_piece(x)),
            out@ == start + seq![byte_list()] + concat(items.take(i as int)),
        decreases v@.len() - i,
    {
        write_piece(out, &v[i]);
        proof {
            assert(items.take(i + 1) =~= items.take(i as int).push(items[i as int]));
            lemma_concat_push(items.take(i as int), items[i as int]);
        }
        i = i + 1;
    }
    write_byte(out, 101u8);
    assert(items.take(v@.len() as int) =~= items);
    assert(out@ =~= start + enc_pieces(pieces_view(v@)));
}

pub fn read_pieces(s: &[u8], pos: usize) -> (r: Option<(Vec<FilePieceInfo>, usize)>)
    requires
        pos <= s@.len(),
    ensures
        r matches Some((v, e)) ==> e == pos + enc_pieces(pieces_view(v@)).len() && e <= s@.len()
            && starts_with(s@.skip(pos as int), enc_pieces(pieces_view(v@))),
        forall|w: Seq<PieceView>|
            starts_with(s@.skip(pos as int), #[trigger] enc_pieces(w)) ==> (r matches Some((v, _))
                && pieces_view(v@) == w),
{
    let ghost f = |x: PieceView| enc_piece(x);
    let ghost rest = s@.skip(pos as int);
    proof {
        lemma_enc_piece_item_ok();
    }
    let lit: [u8; 1] = [108u8];
    assert(lit@ =~= seq![byte_list()]);
    match read_lit(s, pos, &lit) {
        None => {
            proof {
                assert forall|w: Seq<PieceView>| starts_with(rest, #[trigger] enc_pieces(w)) implies false by {
                    lemma_step(s@, pos as int, seq![byte_list()], concat(w.map_values(f)) + seq![byte_end()]);
                }
            }
            return None;
        },
        Some(_) => {},
    }
    let mut v: Vec<FilePieceInfo> = Vec::new();
    let mut cur: usize = pos + 1;
    let slen = s.len();
    assert(seq![byte_list()] + concat(pieces_view(v@).map_values(f)) =~= seq![byte_list()]);
    loop
        invariant
            pos < cur <= s@.len(),
            slen == s@.len(),
            f == (|x: PieceView| enc_piece(x)),
            rest == s@.skip(pos as int),
            item_enc_ok(f),
            starts_with(rest, seq![byte_list()] + concat(pieces_view(v@).map_values(f))),
            cur == pos + 1 + concat(pieces_view(v@).map_values(f)).len(),
            forall|w: Seq<PieceView>|
                starts_with(rest, #[trigger] enc_pieces(w)) ==> pieces_view(v@).len() <= w.len() && w.take(
                    pieces_view(v@).len() as int,
                ) == pieces_view(v@),
        decreases s@.len() - cur,
    {
        let b = match peek_byte(s, cur) {
            None => {
                proof {
                    assert forall|w: Seq<PieceView>| starts_with(rest, #[trigger] enc_pieces(w)) implies false by {
                        lemma_list_step(s@, pos as int, cur as int, f, pieces_view(v@), w);
                    }
                }
                return None;
            },
            Some(b) => b,
        };
        assert(cur < s@.len());
        if b == 101u8 {
            proof {
                assert forall|w: Seq<PieceView>| starts_with(rest, #[trigger] enc_pieces(w)) implies pieces_view(v@) == w by {
                    lemma_list_step(s@, pos as int, cur as int, f, pieces_view(v@), w);
                }
                lemma_skip_skip(s@, pos as int, cur - pos);
                assert(starts_with(s@.skip(cur as int), seq![byte_end()])) by {
                    assert(s@.skip(cur as int).subrange(0, 1) =~= seq![byte_end()]);
                }
                lemma_list_close(rest, f, pieces_view(v@));
            }
            return Some((v, cur + 1));
        }
        match read_piece(s, cur) {
            None => {
                proof {
                    assert forall|w: Seq<PieceView>| starts_with(rest, #[trigger] enc_pieces(w)) implies false by {
                        lemma_list_step(s@, pos as int, cur as int, f, pieces_view(v@), w);
                        let m = w[pieces_view(v@).len() as int];
                        assert(f(m) == enc_piece(m));
                        assert(starts_with(s@.skip(cur as int), enc_piece(m)));
                    }
                }
                return None;
            },
            Some((x, e)) => {
                proof {
                    assert forall|w: Seq<PieceView>| starts_with(rest, #[trigger] enc_pieces(w)) implies pieces_view(v@).len()
                        < w.len() && w[pieces_view(v@).len() as int] == x@ by {
                        lemma_list_step(s@, pos as int, cur as int, f, pieces_view(v@), w);
                        let m = w[pieces_view(v@).len() as int];
                        assert(f(m) == enc_piece(m));
                        assert(starts_with(s@.skip(cur as int), enc_piece(m)));
                    }
                    lemma_skip_skip(s@, pos as int, cur - pos);
                    assert(f(x@) == enc_piece(x@));
                    lemma_list_grow(rest, f, pieces_view(v@), x@);
                }
                let ghost old_v = pieces_view(v@);
                v.push(x);
                proof {
                    assert(pieces_view(v@) =~= old_v.push(v@[v@.len() - 1]@));
                    assert forall|w: Seq<PieceView>| starts_with(rest, #[trigger] enc_pieces(w)) implies pieces_view(v@).len()
                        <= w.len() && w.take(pieces_view(v@).len() as int) == pieces_view(v@) by {
                        assert(w.take(old_v.len() as int) == old_v);
                        assert(w.take(pieces_view(v@).len() as int) =~= old_v.push(w[old_v.len() as int]));
                    }
                }
                cur = e;
            },
        }
    }
}

/// A file as a dictionary.
pub open spec fn enc_meta(y: MetaView) -> Seq<u8> {
    seq![100u8] + (enc_bytes(key_file_name()) + (enc_str(y.file_name) + (enc_bytes(key_file_piece_size()) + (enc_int(y.file_piece_size as nat) + (enc_bytes(key_pieces_info()) + (enc_pieces(y.pieces_info) + (enc_bytes(key_sha3_code()) + (enc_u8_list(y.sha3_code) + (seq![101u8])))))))))
}

pub fn write_meta(out: &mut Vec<u8>, x: &FileMetaInfo)
    ensures
        final(out)@ == old(out)@ + enc_meta(x@),
{
    let ghost o0 = out@;
    write_byte(out, 100u8);
    let ghost o1 = out@;
    let k_file_name: [u8; 9] = [102u8, 105u8, 108u8, 101u8, 95u8, 110u8, 97u8, 109u8, 101u8];
    assert(k_file_name@ =~= key_file_name());
    write_bytes(out, &k_file_name);
    let ghost o2 = out@;
    write_str(out, &x.file_name);
    let ghost o3 = out@;
    let k_file_piece_size: [u8; 15] = [102u8, 105u8, 108u8, 101u8, 95u8, 112u8, 105u8, 101u8, 99u8, 101u8, 95u8, 115u8, 105u8, 122u8, 101u8];
    assert(k_file_piece_size@ =~= key_file_piece_size());
    write_bytes(out, &k_file_piece_size);
    let ghost o4 = out@;
    write_int(out, x.file_piece_size as u64);
    let ghost o5 = out@;
    let k_pieces_info: [u8; 11] = [112u8, 105u8, 101u8, 99u8, 101u8, 115u8, 95u8, 105u8, 110u8, 102u8, 111u8];
    assert(k_pieces_info@ =~= key_pieces_info());
    write_bytes(out, &k_pieces_info);
    let ghost o6 = out@;
    write_pieces(out, &x.pieces_info);
    let ghost o7 = out@;
    let k_sha3_code: [u8; 9] = [115u8, 104u8, 97u8, 51u8, 95u8, 99u8, 111u8, 100u8, 101u8];
    assert(k_sha3_code@ =~= key_sha3_code());
    write_bytes(out, &k_sha3_code);
    let ghost o8 = out@;
    write_u8_list(out, x.sha3_code.as_slice());
    let ghost o9 = out@;
    write_byte(out, 101u8);
    let ghost o10 = out@;
    proof {
        lemma_seq_assoc(o0, seq![100u8], enc_bytes(key_file_name()) + (enc_str(x@.file_name) + (enc_bytes(key_file_piece_size()) + (enc_int(x@.file_piece_size as nat) + (enc_bytes(key_pieces_info()) + (enc_pieces(x@.pieces_info) + (enc_bytes(key_sha3_code()) + (enc_u8_list(x@.sha3_code) + (seq![101u8])))))))));
        lemma_seq_assoc(o1, enc_bytes(key_file_name()), enc_str(x@.file_name) + (enc_bytes(key_file_piece_size()) + (enc_int(x@.file_piece_size as nat) + (enc_bytes(key_pieces_info()) + (enc_pieces(x@.pieces_info) + (enc_bytes(key_sha3_code()) + (enc_u8_list(x@.sha3_code) + (seq![101u8]))))))));
        lemma_seq_assoc(o2, enc_str(x@.file_name), enc_bytes(key_file_piece_size()) + (enc_int(x@.file_piece_size as nat) + (enc_bytes(key_pieces_info()) + (enc_pieces(x@.pieces_info) + (enc_bytes(key_sha3_code()) + (enc_u8_list(x@.sha3_code) + (seq![101u8])))))));
        lemma_seq_assoc(o3, enc_bytes(key_file_piece_size()), enc_int(x@.file_piece_size as nat) + (enc_bytes(key_pieces_info()) + (enc_pieces(x@.pieces_info) + (enc_bytes(key_sha3_code()) + (enc_u8_list(x@.sha3_code) + (seq![101u8]))))));
        lemma_seq_assoc(o4, enc_int(x@.file_piece_size as nat), enc_bytes(key_pieces_info()) + (enc_pieces(x@.pieces_info) + (enc_bytes(key_sha3_code()) + (enc_u8_list(x@.sha3_code) + (seq![101u8])))));
        lemma_seq_assoc(o5, enc_bytes(key_pieces_info()), enc_pieces(x@.pieces_info) + (enc_bytes(key_sha3_code()) + (enc_u8_list(x@.sha3_code) + (seq![101u8]))));
        lemma_seq_assoc(o6, enc_pieces(x@.pieces_info), enc_bytes(key_sha3_code()) + (enc_u8_list(x@.sha3_code) + (seq![101u8])));
        lemma_seq_assoc(o7, enc_bytes(key_sha3_code()), enc_u8_list(x@.sha3_code) + (seq![101u8]));
        lemma_seq_assoc(o8, enc_u8_list(x@.sha3_code), seq![101u8]);
        assert(enc_meta(x@) == seq![100u8] + (enc_bytes(key_file_name()) + (enc_str(x@.file_name) + (enc_bytes(key_file_piece_size()) + (enc_int(x@.file_piece_size as nat) + (enc_bytes(key_pieces_info()) + (enc_pieces(x@.pieces_info) + (enc_bytes(key_sha3_code()) + (enc_u8_list(x@.sha3_code) + (seq![101u8]))))))))));
    }
}

#[verifier::rlimit(40)]
pub fn read_meta(s: &[u8], pos: usize) -> (r: Option<(FileMetaInfo, usize)>)
    requires
        pos <= s@.len(),
    ensures
        r matches Some((x, e)) ==> e == pos + enc_meta(x@).len() && e <= s@.len()
            && starts_with(s@.skip(pos as int), enc_meta(x@)),
        forall|y: MetaView| starts_with(s@.skip(pos as int), #[trigger] enc_meta(y)) ==> (r matches Some((x, _)) && x@ == y),
{
    let ghost rest = s@.skip(pos as int);
    let p0 = pos;
    proof {
        assert forall|y: MetaView| starts_with(rest, #[trigger] enc_meta(y)) implies starts_with(s@.skip(p0 as int), seq![100u8] + (enc_bytes(key_file_name()) + (enc_str(y.file_name) + (enc_bytes(key_file_piece_size()) + (enc_int(y.file_piece_size as nat) + (enc_bytes(key_pieces_info()) + (enc_pieces(y.pieces_info) + (enc_bytes(key_sha3_code()) + (enc_u8_list(y.sha3_code) + (seq![101u8])))))))))) by {}
    }
    let l0: [u8; 1] = [100u8];
    assert(l0@ =~= seq![100u8]);
    let p1 = match read_lit(s, p0, &l0) {
        None => {
            proof {
                assert forall|y: MetaView| starts_with(rest, #[trigger] enc_meta(y)) implies false by {
                    lemma_step(s@, p0 as int, seq![100u8], enc_bytes(key_file_name()) + (enc_str(y.file_name) + (enc_bytes(key_file_piece_size()) + (enc_int(y.file_piece_size as nat) + (enc_bytes(key_pieces_info()) + (enc_pieces(y.pieces_info) + (enc_bytes(key_sha3_code()) + (enc_u8_list(y.sha3_code) + (seq![101u8])))))))));
                }
            }
            return None;
        },
        Some(q) => q,
    };
    proof {
        assert forall|y: MetaView| starts_with(rest, #[trigger] enc_meta(y)) implies starts_with(s@.skip(p1 as int), enc_bytes(key_file_name()) + (enc_str(y.file_name) + (enc_bytes(key_file_piece_size()) + (enc_int(y.file_piece_size as nat) + (enc_bytes(key_pieces_info()) + (enc_pieces(y.pieces_info) + (enc_bytes(key_sha3_code()) + (enc_u8_list(y.sha3_code) + (seq![101u8]))))))))) by {
            lemma_step(s@, p0 as int, seq![100u8], enc_bytes(key_file_name()) + (enc_str(y.file_name) + (enc_bytes(key_file_piece_size()) + (enc_int(y.file_piece_size as nat) + (enc_bytes(key_pieces_info()) + (enc_pieces(y.pieces_info) + (enc_bytes(key_sha3_code()) + (enc_u8_list(y.sha3_code) + (seq![101u8])))))))));
        }
    }
    let k1: [u8; 9] = [102u8, 105u8, 108u8, 101u8, 95u8, 110u8, 97u8, 109u8, 101u8];
    assert(k1@ =~= key_file_name());
    let p2 = match read_key(s, p1, &k1) {
        None => {
            proof {
                assert forall|y: MetaView| starts_with(rest, #[trigger] enc_meta(y)) implies false by {
                    lemma_step(s@, p1 as int, enc_bytes(key_file_name()), enc_str(y.file_name) + (enc_bytes(key_file_piece_size()) + (enc_int(y.file_piece_size as nat) + (enc_bytes(key_pieces_info()) + (enc_pieces(y.pieces_info) + (enc_bytes(key_sha3_code()) + (enc_u8_list(y.sha3_code) + (seq![101u8]))))))));
                }
            }
            return None;
        },
        Some(q) => q,
    };
    proof {
        assert forall|y: MetaView| starts_with(rest, #[trigger] enc_meta(y)) implies starts_with(s@.skip(p2 as int), enc_str(y.file_name) + (enc_bytes(key_file_piece_size()) + (enc_int(y.file_piece_size as nat) + (enc_bytes(key_pieces_info()) + (enc_pieces(y.pieces_info) + (enc_bytes(key_sha3_code()) + (enc_u8_list(y.sha3_code) + (seq![101u8])))))))) by {
            lemma_step(s@, p1 as int, enc_bytes(key_file_name()), enc_str(y.file_name) + (enc_bytes(key_file_piece_size()) + (enc_int(y.file_piece_size as nat) + (enc_bytes(key_pieces_info()) + (enc_pieces(y.pieces_info) + (enc_bytes(key_sha3_code()) + (enc_u8_list(y.sha3_code) + (seq![101u8]))))))));
        }
    }
    let (v_file_name, p3) = match read_str(s, p2) {
        None => {
            proof {
                assert forall|y: MetaView| starts_with(rest, #[trigger] enc_meta(y)) implies false by {
                    lemma_step(s@, p2 as int, enc_str(y.file_name), enc_bytes(key_file_piece_size()) + (enc_int(y.file_piece_size as nat) + (enc_bytes(key_pieces_info()) + (enc_pieces(y.pieces_info) + (enc_bytes(key_sha3_code()) + (enc_u8_list(y.sha3_code) + (seq![101u8])))))));
                }
            }
            return None;
        },
        Some(q) => q,
    };
    proof {
        assert forall|y: MetaView| starts_with(rest, #[trigger] enc_meta(y)) implies starts_with(s@.skip(p3 as int), enc_bytes(key_file_piece_size()) + (enc_int(y.file_piece_size as nat) + (enc_bytes(key_pieces_info()) + (enc_pieces(y.pieces_info) + (enc_bytes(key_sha3_code()) + (enc_u8_list(y.sha3_code) + (seq![101u8]))))))) && y.file_name == v_file_name@ by {
            lemma_step(s@, p2 as int, enc_str(y.file_name), enc_bytes(key_file_piece_size()) + (enc_int(y.file_piece_size as nat) + (enc_bytes(key_pieces_info()) + (enc_pieces(y.pieces_info) + (enc_bytes(key_sha3_code()) + (enc_u8_list(y.sha3_code) + (seq![101u8])))))));
        }
    }
    let k3: [u8; 15] = [102u8, 105u8, 108u8, 101u8, 95u8, 112u8, 105u8, 101u8, 99u8, 101u8, 95u8, 115u8, 105u8, 122u8, 101u8];
    assert(k3@ =~= key_file_piece_size());
    let p4 = match read_key(s, p3, &k3) {
        None => {
            proof {
                assert forall|y: MetaView| starts_with(rest, #[trigger] enc_meta(y)) implies false by {
                    lemma_step(s@, p3 as int, enc_bytes(key_file_piece_size()), enc_int(y.file_piece_size as nat) + (enc_bytes(key_pieces_info()) + (enc_pieces(y.pieces_info) + (enc_bytes(key_sha3_code()) + (enc_u8_list(y.sha3_code) + (seq![101u8]))))));
                }
            }
            return None;
        },
        Some(q) => q,
    };
    proof {
        assert forall|y: MetaView| starts_with(rest, #[trigger] enc_meta(y)) implies starts_with(s@.skip(p4 as int), enc_int(y.file_piece_size as nat) + (enc_bytes(key_pieces_info()) + (enc_pieces(y.pieces_info) + (enc_bytes(key_sha3_code()) + (enc_u8_list(y.sha3_code) + (seq![101u8])))))) by {
            lemma_step(s@, p3 as int, enc_bytes(key_file_piece_size()), enc_int(y.file_piece_size as nat) + (enc_bytes(key_pieces_info()) + (enc_pieces(y.pieces_info) + (enc_bytes(key_sha3_code()) + (enc_u8_list(y.sha3_code) + (seq![101u8]))))));
        }
    }
    let (v_file_piece_size, p5) = match read_u32(s, p4) {
        None => {
            proof {
                assert forall|y: MetaView| starts_with(rest, #[trigger] enc_meta(y)) implies false by {
                    lemma_step(s@, p4 as int, enc_int(y.file_piece_size as nat), enc_bytes(key_pieces_info()) + (enc_pieces(y.pieces_info) + (enc_bytes(key_sha3_code()) + (enc_u8_list(y.sha3_code) + (seq![101u8])))));
                }
            }
            return None;
        },
        Some(q) => q,
    };
    proof {
        assert forall|y: MetaView| starts_with(rest, #[trigger] enc_meta(y)) implies starts_with(s@.skip(p5 as int), enc_bytes(key_pieces_info()) + (enc_pieces(y.pieces_info) + (enc_bytes(key_sha3_code()) + (enc_u8_list(y.sha3_code) + (seq![101u8]))))) && y.file_piece_size == v_file_piece_size by {
            lemma_step(s@, p4 as int, enc_int(y.file_piece_size as nat), enc_bytes(key_pieces_info()) + (enc_pieces(y.pieces_info) + (enc_bytes(key_sha3_code()) + (enc_u8_list(y.sha3_code) + (seq![101u8])))));
        }
    }
    let k5: [u8; 11] = [112u8, 105u8, 101u8, 99u8, 101u8, 115u8, 95u8, 105u8, 110u8, 102u8, 111u8];
    assert(k5@ =~= key_pieces_info());
    let p6 = match read_key(s, p5, &k5) {
        None => {
            proof {
                assert forall|y: MetaView| starts_with(rest, #[trigger] enc_meta(y)) implies false by {
                    lemma_step(s@, p5 as int, enc_bytes(key_pieces_info()), enc_pieces(y.pieces_info) + (enc_bytes(key_sha3_code()) + (enc_u8_list(y.sha3_code) + (seq![101u8]))));
                }
            }
            return None;
        },
        Some(q) => q,
    };
    proof {
        assert forall|y: MetaView| starts_with(rest, #[trigger] enc_meta(y)) implies starts_with(s@.skip(p6 as int), enc_pieces(y.pieces_info) + (enc_bytes(key_sha3_code()) + (enc_u8_list(y.sha3_code) + (seq![101u8])))) by {
            lemma_step(s@, p5 as int, enc_bytes(key_pieces_info()), enc_pieces(y.pieces_info) + (enc_bytes(key_sha3_code()) + (enc_u8_list(y.sha3_code) + (seq![101u8]))));
        }
    }
    let (v_pieces_info, p7) = match read_pieces(s, p6) {
        None => {
            proof {
                assert forall|y: MetaView| starts_with(rest, #[trigger] enc_meta(y)) implies false by {
                    lemma_step(s@, p6 as int, enc_pieces(y.pieces_info), enc_bytes(key_sha3_code()) + (enc_u8_list(y.sha3_code) + (seq![101u8])));
                }
            }
            return None;
        },
        Some(q) => q,
    };
    proof {
        assert forall|y: MetaView| starts_with(rest, #[trigger] enc_meta(y)) implies starts_with(s@.skip(p7 as int), enc_bytes(key_sha3_code()) + (enc_u8_list(y.sha3_code) + (seq![101u8]))) && y.pieces_info == pieces_view(v_pieces_info@) by {
            lemma_step(s@, p6 as int, enc_pieces(y.pieces_info), enc_bytes(key_sha3_code()) + (enc_u8_list(y.sha3_code) + (seq![101u8])));
        }
    }
    let k7: [u8; 9] = [115u8, 104u8, 97u8, 51u8, 95u8, 99u8, 111u8, 100u8, 101u8];
    assert(k7@ =~= key_sha3_code());
    let p8 = match read_key(s, p7, &k7) {
        None => {
            proof {
                assert forall|y: MetaView| starts_with(rest, #[trigger] enc_meta(y)) implies false by {
                    lemma_step(s@, p7 as int, enc_bytes(key_sha3_code()), enc_u8_list(y.sha3_code) + (seq![101u8]));
                }
            }
            return None;
        },
        Some(q) => q,
    };
    proof {
        assert forall|y: MetaView| starts_with(rest, #[trigger] enc_meta(y)) implies starts_with(s@.skip(p8 as int), enc_u8_list(y.sha3_code) + (seq![101u8])) by {
            lemma_step(s@, p7 as int, enc_bytes(key_sha3_code()), enc_u8_list(y.sha3_code) + (seq![101u8]));
        }
    }
    let (v_sha3_code, p9) = match read_u8_list(s, p8) {
        None => {
            proof {
                assert forall|y: MetaView| starts_with(rest, #[trigger] enc_meta(y)) implies false by {
                    lemma_step(s@, p8 as int, enc_u8_list(y.sha3_code), seq![101u8]);
                }
            }
            return None;
        },
        Some(q) => q,
    };
    proof {
        assert forall|y: MetaView| starts_with(rest, #[trigger] enc_meta(y)) implies starts_with(s@.skip(p9 as int), seq![101u8]) && y.sha3_code == v_sha3_code@ by {
            lemma_step(s@, p8 as int, enc_u8_list(y.sha3_code), seq![101u8]);
        }
    }
    let l9: [u8; 1] = [101u8];
    assert(l9@ =~= seq![101u8]);
    let p10 = match read_lit(s, p9, &l9) {
        None => {
            proof {
                assert forall|y: MetaView| starts_with(rest, #[trigger] enc_meta(y)) implies false by {
                    
                }
            }
            return None;
        },
        Some(q) => q,
    };
    proof {
        assert forall|y: MetaView| starts_with(rest, #[trigger] enc_meta(y)) implies true by {
            
        }
    }
    let x = FileMetaInfo { sha3_code: v_sha3_code, file_name: v_file_name, file_piece_size: v_file_piece_size, pieces_info: v_pieces_info };
    proof {
        assert(starts_with(s@.skip(p0 as int), seq![100u8]));
        assert(starts_with(s@.skip(p1 as int), enc_bytes(key_file_name())));
        assert(starts_with(s@.skip(p2 as int), enc_str(x@.file_name)));
        assert(starts_with(s@.skip(p3 as int), enc_bytes(key_file_piece_size())));
        assert(starts_with(s@.skip(p4 as int), enc_int(x@.file_piece_size as nat)));
        assert(starts_with(s@.skip(p5 as int), enc_bytes(key_pieces_info())));
        assert(starts_with(s@.skip(p6 as int), enc_pieces(x@.pieces_info)));
        assert(starts_with(s@.skip(p7 as int), enc_bytes(key_sha3_code())));
        assert(starts_with(s@.skip(p8 as int), enc_u8_list(x@.sha3_code)));
        assert(starts_with(s@.skip(p9 as int), seq![101u8]));
        lemma_join(s@, p8 as int, enc_u8_list(x@.sha3_code), seq![101u8]);
        lemma_join(s@, p7 as int, enc_bytes(key_sha3_code()), enc_u8_list(x@.sha3_code) + (seq![101u8]));
        lemma_join(s@, p6 as int, enc_pieces(x@.pieces_info), enc_bytes(key_sha3_code()) + (enc_u8_list(x@.sha3_code) + (seq![101u8])));
        lemma_join(s@, p5 as int, enc_bytes(key_pieces_info()), enc_pieces(x@.pieces_info) + (enc_bytes(key_sha3_code()) + (enc_u8_list(x@.sha3_code) + (seq![101u8]))));
        lemma_join(s@, p4 as int, enc_int(x@.file_piece_size as nat), enc_bytes(key_pieces_info()) + (enc_pieces(x@.pieces_info) + (enc_bytes(key_sha3_code()) + (enc_u8_list(x@.sha3_code) + (seq![101u8])))));
        lemma_join(s@, p3 as int, enc_bytes(key_file_piece_size()), enc_int(x@.file_piece_size as nat) + (enc_bytes(key_pieces_info()) + (enc_pieces(x@.pieces_info) + (enc_bytes(key_sha3_code()) + (enc_u8_list(x@.sha3_code) + (seq![101u8]))))));
        lemma_join(s@, p2 as int, enc_str(x@.file_name), enc_bytes(key_file_piece_size()) + (enc_int(x@.file_piece_size as nat) + (enc_bytes(key_pieces_info()) + (enc_pieces(x@.pieces_info) + (enc_bytes(key_sha3_code()) + (enc_u8_list(x@.sha3_code) + (seq![101u8])))))));
        lemma_join(s@, p1 as int, enc_bytes(key_file_name()), enc_str(x@.file_name) + (enc_bytes(key_file_piece_size()) + (enc_int(x@.file_piece_size as nat) + (enc_bytes(key_pieces_info()) + (enc_pieces(x@.pieces_info) + (enc_bytes(key_sha3_code()) + (enc_u8_list(x@.sha3_code) + (seq![101u8]))))))));
        lemma_join(s@, p0 as int, seq![100u8], enc_bytes(key_file_name()) + (enc_str(x@.file_name) + (enc_bytes(key_file_piece_size()) + (enc_int(x@.file_piece_size as nat) + (enc_bytes(key_pieces_info()) + (enc_pieces(x@.pieces_info) + (enc_bytes(key_sha3_code()) + (enc_u8_list(x@.sha3_code) + (seq![101u8])))))))));
        assert(enc_meta(x@) == seq![100u8] + (enc_bytes(key_file_name()) + (enc_str(x@.file_name) + (enc_bytes(key_file_piece_size()) + (enc_int(x@.file_piece_size as nat) + (enc_bytes(key_pieces_info()) + (enc_pieces(x@.pieces_info) + (enc_bytes(key_sha3_code()) + (enc_u8_list(x@.sha3_code) + (seq![101u8]))))))))));
    }
    Some((x, p10))
}

/// A list of `file` values.
pub open spec fn enc_metas(w: Seq<MetaView>) -> Seq<u8> {
    enc_list_of(w, |x: MetaView| enc_meta(x))
}

pub proof fn lemma_enc_meta_item_ok()
    ensures
        item_enc_ok(|x: MetaView| enc_meta(x)),
{
    assert forall|x: MetaView| #![trigger enc_meta(x)] enc_meta(x).len() > 0 && enc_meta(x)[0] != byte_end() by {
        assert(enc_meta(x)[0] == 100u8);
    }
}

pub fn write_metas(out: &mut Vec<u8>, v: &Vec<FileMetaInfo>)
    ensures
        final(out)@ == old(out)@ + enc_metas(metas_view(v@)),
{
    let ghost start = out@;
    let ghost f = |x: MetaView| enc_meta(x);
    let ghost items = metas_view(v@).map_values(f);
    write_byte(out, 108u8);
    let mut i: usize = 0;
    while i < v.len()
        invariant
            0 <= i <= v@.len(),
            items == metas_view(v@).map_values(f),
            f == (|x: MetaView| enc_meta(x)),
            out@ == start + seq![byte_list()] + concat(items.take(i as int)),
        decreases v@.len() - i,
    {
        write_meta(out, &v[i]);
        proof {
            assert(items.take(i + 1) =~= items.take(i as int).push(items[i as int]));
            lemma_concat_push(items.take(i as int), items[i as int]);
        }
        i = i + 1;
    }
    write_byte(out, 101u8);
    assert(items.take(v@.len() as int) =~= items);
    assert(out@ =~= start + enc_metas(metas_view(v@)));
}

pub fn read_metas(s: &[u8], pos: usize) -> (r: Option<(Vec<FileMetaInfo>, usize)>)
    requires
        pos <= s@.len(),
    ensures
        r matches Some((v, e)) ==> e == pos + enc_metas(metas_view(v@)).len() && e <= s@.len()
            && starts_with(s@.skip(pos as int), enc_metas(metas_view(v@))),
        forall|w: Seq<MetaView>|
            starts_with(s@.skip(pos as int), #[trigger] enc_metas(w)) ==> (r matches Some((v, _))
                && metas_view(v@) == w),
{
    let ghost f = |x: MetaView| enc_meta(x);
    let ghost rest = s@.skip(pos as int);
    proof {
        lemma_enc_meta_item_ok();
    }
    let lit: [u8; 1] = [108u8];
    assert(lit@ =~= seq![byte_list()]);
    match read_lit(s, pos, &lit) {
        None => {
            proof {
                assert forall|w: Seq<MetaView>| starts_with(rest, #[trigger] enc_metas(w)) implies false by {
                    lemma_step(s@, pos as int, seq![byte_list()], concat(w.map_values(f)) + seq![byte_end()]);
                }
            }
            return None;
        },
        Some(_) => {},
    }
    let mut v: Vec<FileMetaInfo> = Vec::new();
    let mut cur: usize = pos + 1;
    let slen = s.len();
    assert(seq![byte_list()] + concat(metas_view(v@).map_values(f)) =~= seq![byte_list()]);
    loop
        invariant
            pos < cur <= s@.len(),
            slen == s@.len(),
            f == (|x: MetaView| enc_meta(x)),
            rest == s@.skip(pos as int),
            item_enc_ok(f),
            starts_with(rest, seq![byte_list()] + concat(metas_view(v@).map_values(f))),
            cur == pos + 1 + concat(metas_view(v@).map_values(f)).len(),
            forall|w: Seq<MetaView>|
                starts_with(rest, #[trigger] enc_metas(w)) ==> metas_view(v@).len() <= w.len() && w.take(
                    metas_view(v@).len() as int,
                ) == metas_view(v@),
        decreases s@.len() - cur,
    {
        let b = match peek_byte(s, cur) {
            None => {
                proof {
                    assert forall|w: Seq<MetaView>| starts_with(rest, #[trigger] enc_metas(w)) implies false by {
                        lemma_list_step(s@, pos as int, cur as int, f, metas_view(v@), w);
                    }
                }
                return None;
            },
            Some(b) => b,
        };
        assert(cur < s@.len());
        if b == 101u8 {
            proof {
                assert forall|w: Seq<MetaView>| starts_with(rest, #[trigger] enc_metas(w)) implies metas_view(v@) == w by {
                    lemma_list_step(s@, pos as int, cur as int, f, metas_view(v@), w);
                }
                lemma_skip_skip(s@, pos as int, cur - pos);
                assert(starts_with(s@.skip(cur as int), seq![byte_end()])) by {
                    assert(s@.skip(cur as int).subrange(0, 1) =~= seq![byte_end()]);
                }
                lemma_list_close(rest, f, metas_view(v@));
            }
            return Some((v, cur + 1));
        }
        match read_meta(s, cur) {
            None => {
                proof {
                    assert forall|w: Seq<MetaView>| starts_with(rest, #[trigger] enc_metas(w)) implies false by {
                        lemma_list_step(s@, pos as int, cur as int, f, metas_view(v@), w);
                        let m = w[metas_view(v@).len() as int];
                        assert(f(m) == enc_meta(m));
                        assert(starts_with(s@.skip(cur as int), enc_meta(m)));
                    }
                }
                return None;
            },
            Some((x, e)) => {
                proof {
                    assert forall|w: Seq<MetaView>| starts_with(rest, #[trigger] enc_metas(w)) implies metas_view(v@).len()
                        < w.len() && w[metas_view(v@).len() as int] == x@ by {
                        lemma_list_step(s@, pos as int, cur as int, f, metas_view(v@), w);
                        let m = w[metas_view(v@).len() as int];
                        assert(f(m) == enc_meta(m));
                        assert(starts_with(s@.skip(cur as int), enc_meta(m)));
                    }
                    lemma_skip_skip(s@, pos as int, cur - pos);
                    assert(f(x@) == enc_meta(x@));
                    lemma_list_grow(rest, f, metas_view(v@), x@);
                }
                let ghost old_v = metas_view(v@);
                v.push(x);
                proof {
                    assert(metas_view(v@) =~= old_v.push(v@[v@.len() - 1]@));
                    assert forall|w: Seq<MetaView>| starts_with(rest, #[trigger] enc_metas(w)) implies metas_view(v@).len()
                        <= w.len() && w.take(metas_view(v@).len() as int) == metas_view(v@) by {
                        assert(w.take(old_v.len() as int) == old_v);
                        assert(w.take(metas_view(v@).len() as int) =~= old_v.push(w[old_v.len() as int]));
                    }
                }
                cur = e;
            },
        }
    }
}

/// A peer as a dictionary.
pub open spec fn enc_peer(y: PeerView) -> Seq<u8> {
    seq![100u8] + (enc_bytes(key_peer_file_meta_info_report()) + (enc_metas(y.peer_file_meta_info_report) + (enc_bytes(key_peer_id()) + (enc_int(y.peer_id as nat) + (enc_bytes(key_peer_ip()) + (enc_u8_list(y.peer_ip) + (enc_bytes(key_peer_open_port()) + (enc_int(y.peer_open_port as nat) + (seq![101u8])))))))))
}

/// The values of `PeerView` that are accepted.
pub open spec fn peer_ok(y: PeerView) -> bool {
    y.peer_ip.len() == 4
}

pub fn write_peer(out: &mut Vec<u8>, x: &PeerInfo)
    ensures
        final(out)@ == old(out)@ + enc_peer(x@),
{
    let ghost o0 = out@;
    write_byte(out, 100u8);
    let ghost o1 = out@;
    let k_peer_file_meta_info_report: [u8; 26] = [112u8, 101u8, 101u8, 114u8, 95u8, 102u8, 105u8, 108u8, 101u8, 95u8, 109u8, 101u8, 116u8, 97u8, 95u8, 105u8, 110u8, 102u8, 111u8, 95u8, 114u8, 101u8, 112u8, 111u8, 114u8, 116u8];
    assert(k_peer_file_meta_info_report@ =~= key_peer_file_meta_info_report());
    write_bytes(out, &k_peer_file_meta_info_report);
    let ghost o2 = out@;
    write_metas(out, &x.peer_file_meta_info_report);
    let ghost o3 = out@;
    let k_peer_id: [u8; 7] = [112u8, 101u8, 101u8, 114u8, 95u8, 105u8, 100u8];
    assert(k_peer_id@ =~= key_peer_id());
    write_bytes(out, &k_peer_id);
    let ghost o4 = out@;
    write_int(out, x.peer_id as u64);
    let ghost o5 = out@;
    let k_peer_ip: [u8; 7] = [112u8, 101u8, 101u8, 114u8, 95u8, 105u8, 112u8];
    assert(k_peer_ip@ =~= key_peer_ip());
    write_bytes(out, &k_peer_ip);
    let ghost o6 = out@;
    write_u8_list(out, x.peer_ip.as_slice());
    let ghost o7 = out@;
    let k_peer_open_port: [u8; 14] = [112u8, 101u8, 101u8, 114u8, 95u8, 111u8, 112u8, 101u8, 110u8, 95u8, 112u8, 111u8, 114u8, 116u8];
    assert(k_peer_open_port@ =~= key_peer_open_port());
    write_bytes(out, &k_peer_open_port);
    let ghost o8 = out@;
    write_int(out, x.peer_open_port as u64);
    let ghost o9 = out@;
    write_byte(out, 101u8);
    let ghost o10 = out@;
    proof {
        lemma_seq_assoc(o0, seq![100u8], enc_bytes(key_peer_file_meta_info_report()) + (enc_metas(x@.peer_file_meta_info_report) + (enc_bytes(key_peer_id()) + (enc_int(x@.peer_id as nat) + (enc_bytes(key_peer_ip()) + (enc_u8_list(x@.peer_ip) + (enc_bytes(key_peer_open_port()) + (enc_int(x@.peer_open_port as nat) + (seq![101u8])))))))));
        lemma_seq_assoc(o1, enc_bytes(key_peer_file_meta_info_report()), enc_metas(x@.peer_file_meta_info_report) + (enc_bytes(key_peer_id()) + (enc_int(x@.peer_id as nat) + (enc_bytes(key_peer_ip()) + (enc_u8_list(x@.peer_ip) + (enc_bytes(key_peer_open_port()) + (enc_int(x@.peer_open_port as nat) + (seq![101u8]))))))));
        lemma_seq_assoc(o2, enc_metas(x@.peer_file_meta_info_report), enc_bytes(key_peer_id()) + (enc_int(x@.peer_id as nat) + (enc_bytes(key_peer_ip()) + (enc_u8_list(x@.peer_ip) + (enc_bytes(key_peer_open_port()) + (enc_int(x@.peer_open_port as nat) + (seq![101u8])))))));
        lemma_seq_assoc(o3, enc_bytes(key_peer_id()), enc_int(x@.peer_id as nat) + (enc_bytes(key_peer_ip()) + (enc_u8_list(x@.peer_ip) + (enc_bytes(key_peer_open_port()) + (enc_int(x@.peer_open_port as nat) + (seq![101u8]))))));
        lemma_seq_assoc(o4, enc_int(x@.peer_id as nat), enc_bytes(key_peer_ip()) + (enc_u8_list(x@.peer_ip) + (enc_bytes(key_peer_open_port()) + (enc_int(x@.peer_open_port as nat) + (seq![101u8])))));
        lemma_seq_assoc(o5, enc_bytes(key_peer_ip()), enc_u8_list(x@.peer_ip) + (enc_bytes(key_peer_open_port()) + (enc_int(x@.peer_open_port as nat) + (seq![101u8]))));
        lemma_seq_assoc(o6, enc_u8_list(x@.peer_ip), enc_bytes(key_peer_open_port()) + (enc_int(x@.peer_open_port as nat) + (seq![101u8])));
        lemma_seq_assoc(o7, enc_bytes(key_peer_open_port()), enc_int(x@.peer_open_port as nat) + (seq![101u8]));
        lemma_seq_assoc(o8, enc_int(x@.peer_open_port as nat), seq![101u8]);
        assert(enc_peer(x@) == seq![100u8] + (enc_bytes(key_peer_file_meta_info_report()) + (enc_metas(x@.peer_file_meta_info_report) + (enc_bytes(key_peer_id()) + (enc_int(x@.peer_id as nat) + (enc_bytes(key_peer_ip()) + (enc_u8_list(x@.peer_ip) + (enc_bytes(key_peer_open_port()) + (enc_int(x@.peer_open_port as nat) + (seq![101u8]))))))))));
    }
}

#[verifier::rlimit(40)]
pub fn read_peer(s: &[u8], pos: usize) -> (r: Option<(PeerInfo, usize)>)
    requires
        pos <= s@.len(),
    ensures
        r matches Some((x, e)) ==> e == pos + enc_peer(x@).len() && e <= s@.len()
            && starts_with(s@.skip(pos as int), enc_peer(x@)) && peer_ok(x@),
        forall|y: PeerView| starts_with(s@.skip(pos as int), #[trigger] enc_peer(y)) ==> (peer_ok(y) ==> (r matches Some((x, _)) && x@ == y)) && (!peer_ok(y) ==> r is None),
{
    let ghost rest = s@.skip(pos as int);
    let p0 = pos;
    proof {
        assert forall|y: PeerView| starts_with(rest, #[trigger] enc_peer(y)) implies starts_with(s@.skip(p0 as int), seq![100u8] + (enc_bytes(key_peer_file_meta_info_report()) + (enc_metas(y.peer_file_meta_info_report) + (enc_bytes(key_peer_id()) + (enc_int(y.peer_id as nat) + (enc_bytes(key_peer_ip()) + (enc_u8_list(y.peer_ip) + (enc_bytes(key_peer_open_port()) + (enc_int(y.peer_open_port as nat) + (seq![101u8])))))))))) by {}
    }
    let l0: [u8; 1] = [100u8];
    assert(l0@ =~= seq![100u8]);
    let p1 = match read_lit(s, p0, &l0) {
        None => {
            proof {
                assert forall|y: PeerView| starts_with(rest, #[trigger] enc_peer(y)) implies !peer_ok(y) by {
                    lemma_step(s@, p0 as int, seq![100u8], enc_bytes(key_peer_file_meta_info_report()) + (enc_metas(y.peer_file_meta_info_report) + (enc_bytes(key_peer_id()) + (enc_int(y.peer_id as nat) + (enc_bytes(key_peer_ip()) + (enc_u8_list(y.peer_ip) + (enc_bytes(key_peer_open_port()) + (enc_int(y.peer_open_port as nat) + (seq![101u8])))))))));
                }
            }
            return None;
        },
        Some(q) => q,
    };
    proof {
        assert forall|y: PeerView| starts_with(rest, #[trigger] enc_peer(y)) implies starts_with(s@.skip(p1 as int), enc_bytes(key_peer_file_meta_info_report()) + (enc_metas(y.peer_file_meta_info_report) + (enc_bytes(key_peer_id()) + (enc_int(y.peer_id as nat) + (enc_bytes(key_peer_ip()) + (enc_u8_list(y.peer_ip) + (enc_bytes(key_peer_open_port()) + (enc_int(y.peer_open_port as nat) + (seq![101u8]))))))))) by {
            lemma_step(s@, p0 as int, seq![100u8], enc_bytes(key_peer_file_meta_info_report()) + (enc_metas(y.peer_file_meta_info_report) + (enc_bytes(key_peer_id()) + (enc_int(y.peer_id as nat) + (enc_bytes(key_peer_ip()) + (enc_u8_list(y.peer_ip) + (enc_bytes(key_peer_open_port()) + (enc_int(y.peer_open_port as nat) + (seq![101u8])))))))));
        }
    }
    let k1: [u8; 26] = [112u8, 101u8, 101u8, 114u8, 95u8, 102u8, 105u8, 108u8, 101u8, 95u8, 109u8, 101u8, 116u8, 97u8, 95u8, 105u8, 110u8, 102u8, 111u8, 95u8, 114u8, 101u8, 112u8, 111u8, 114u8, 116u8];
    assert(k1@ =~= key_peer_file_meta_info_report());
    let p2 = match read_key(s, p1, &k1) {
        None => {
            proof {
                assert forall|y: PeerView| starts_with(rest, #[trigger] enc_peer(y)) implies !peer_ok(y) by {
                    lemma_step(s@, p1 as int, enc_bytes(key_peer_file_meta_info_report()), enc_metas(y.peer_file_meta_info_report) + (enc_bytes(key_peer_id()) + (enc_int(y.peer_id as nat) + (enc_bytes(key_peer_ip()) + (enc_u8_list(y.peer_ip) + (enc_bytes(key_peer_open_port()) + (enc_int(y.peer_open_port as nat) + (seq![101u8]))))))));
                }
            }
            return None;
        },
        Some(q) => q,
    };
    proof {
        assert forall|y: PeerView| starts_with(rest, #[trigger] enc_peer(y)) implies starts_with(s@.skip(p2 as int), enc_metas(y.peer_file_meta_info_report) + (enc_bytes(key_peer_id()) + (enc_int(y.peer_id as nat) + (enc_bytes(key_peer_ip()) + (enc_u8_list(y.peer_ip) + (enc_bytes(key_peer_open_port()) + (enc_int(y.peer_open_port as nat) + (seq![101u8])))))))) by {
            lemma_step(s@, p1 as int, enc_bytes(key_peer_file_meta_info_report()), enc_metas(y.peer_file_meta_info_report) + (enc_bytes(key_peer_id()) + (enc_int(y.peer_id as nat) + (enc_bytes(key_peer_ip()) + (enc_u8_list(y.peer_ip) + (enc_bytes(key_peer_open_port()) + (enc_int(y.peer_open_port as nat) + (seq![101u8]))))))));
        }
    }
    let (v_peer_file_meta_info_report, p3) = match read_metas(s, p2) {
        None => {
            proof {
                assert forall|y: PeerView| starts_with(rest, #[trigger] enc_peer(y)) implies !peer_ok(y) by {
                    lemma_step(s@, p2 as int, enc_metas(y.peer_file_meta_info_report), enc_bytes(key_peer_id()) + (enc_int(y.peer_id as nat) + (enc_bytes(key_peer_ip()) + (enc_u8_list(y.peer_ip) + (enc_bytes(key_peer_open_port()) + (enc_int(y.peer_open_port as nat) + (seq![101u8])))))));
                }
            }
            return None;
        },
        Some(q) => q,
    };
    proof {
        assert forall|y: PeerView| starts_with(rest, #[trigger] enc_peer(y)) implies starts_with(s@.skip(p3 as int), enc_bytes(key_peer_id()) + (enc_int(y.peer_id as nat) + (enc_bytes(key_peer_ip()) + (enc_u8_list(y.peer_ip) + (enc_bytes(key_peer_open_port()) + (enc_int(y.peer_open_port as nat) + (seq![101u8]))))))) && y.peer_file_meta_info_report == metas_view(v_peer_file_meta_info_report@) by {
            lemma_step(s@, p2 as int, enc_metas(y.peer_file_meta_info_report), enc_bytes(key_peer_id()) + (enc_int(y.peer_id as nat) + (enc_bytes(key_peer_ip()) + (enc_u8_list(y.peer_ip) + (enc_bytes(key_peer_open_port()) + (enc_int(y.peer_open_port as nat) + (seq![101u8])))))));
        }
    }
    let k3: [u8; 7] = [112u8, 101u8, 101u8, 114u8, 95u8, 105u8, 100u8];
    assert(k3@ =~= key_peer_id());
    let p4 = match read_key(s, p3, &k3) {
        None => {
            proof {
                assert forall|y: PeerView| starts_with(rest, #[trigger] enc_peer(y)) implies !peer_ok(y) by {
                    lemma_step(s@, p3 as int, enc_bytes(key_peer_id()), enc_int(y.peer_id as nat) + (enc_bytes(key_peer_ip()) + (enc_u8_list(y.peer_ip) + (enc_bytes(key_peer_open_port()) + (enc_int(y.peer_open_port as nat) + (seq![101u8]))))));
                }
            }
            return None;
        },
        Some(q) => q,
    };
    proof {
        assert forall|y: PeerView| starts_with(rest, #[trigger] enc_peer(y)) implies starts_with(s@.skip(p4 as int), enc_int(y.peer_id as nat) + (enc_bytes(key_peer_ip()) + (enc_u8_list(y.peer_ip) + (enc_bytes(key_peer_open_port()) + (enc_int(y.peer_open_port as nat) + (seq![101u8])))))) by {
            lemma_step(s@, p3 as int, enc_bytes(key_peer_id()), enc_int(y.peer_id as nat) + (enc_bytes(key_peer_ip()) + (enc_u8_list(y.peer_ip) + (enc_bytes(key_peer_open_port()) + (enc_int(y.peer_open_port as nat) + (seq![101u8]))))));
        }
    }
    let (v_peer_id, p5) = match read_u32(s, p4) {
        None => {
            proof {
                assert forall|y: PeerView| starts_with(rest, #[trigger] enc_peer(y)) implies !peer_ok(y) by {
                    lemma_step(s@, p4 as int, enc_int(y.peer_id as nat), enc_bytes(key_peer_ip()) + (enc_u8_list(y.peer_ip) + (enc_bytes(key_peer_open_port()) + (enc_int(y.peer_open_port as nat) + (seq![101u8])))));
                }
            }
            return None;
        },
        Some(q) => q,
    };
    proof {
        assert forall|y: PeerView| starts_with(rest, #[trigger] enc_peer(y)) implies starts_with(s@.skip(p5 as int), enc_bytes(key_peer_ip()) + (enc_u8_list(y.peer_ip) + (enc_bytes(key_peer_open_port()) + (enc_int(y.peer_open_port as nat) + (seq![101u8]))))) && y.peer_id == v_peer_id by {
            lemma_step(s@, p4 as int, enc_int(y.peer_id as nat), enc_bytes(key_peer_ip()) + (enc_u8_list(y.peer_ip) + (enc_bytes(key_peer_open_port()) + (enc_int(y.peer_open_port as nat) + (seq![101u8])))));
        }
    }
    let k5: [u8; 7] = [112u8, 101u8, 101u8, 114u8, 95u8, 105u8, 112u8];
    assert(k5@ =~= key_peer_ip());
    let p6 = match read_key(s, p5, &k5) {
        None => {
            proof {
                assert forall|y: PeerView| starts_with(rest, #[trigger] enc_peer(y)) implies !peer_ok(y) by {
                    lemma_step(s@, p5 as int, enc_bytes(key_peer_ip()), enc_u8_list(y.peer_ip) + (enc_bytes(key_peer_open_port()) + (enc_int(y.peer_open_port as nat) + (seq![101u8]))));
                }
            }
            return None;
        },
        Some(q) => q,
    };
    proof {
        assert forall|y: PeerView| starts_with(rest, #[trigger] enc_peer(y)) implies starts_with(s@.skip(p6 as int), enc_u8_list(y.peer_ip) + (enc_bytes(key_peer_open_port()) + (enc_int(y.peer_open_port as nat) + (seq![101u8])))) by {
            lemma_step(s@, p5 as int, enc_bytes(key_peer_ip()), enc_u8_list(y.peer_ip) + (enc_bytes(key_peer_open_port()) + (enc_int(y.peer_open_port as nat) + (seq![101u8]))));
        }
    }
    let (v_peer_ip, p7) = match read_u8_list(s, p6) {
        None => {
            proof {
                assert forall|y: PeerView| starts_with(rest, #[trigger] enc_peer(y)) implies !peer_ok(y) by {
                    lemma_step(s@, p6 as int, enc_u8_list(y.peer_ip), enc_bytes(key_peer_open_port()) + (enc_int(y.peer_open_port as nat) + (seq![101u8])));
                }
            }
            return None;
        },
        Some(q) => q,
    };
    proof {
        assert forall|y: PeerView| starts_with(rest, #[trigger] enc_peer(y)) implies starts_with(s@.skip(p7 as int), enc_bytes(key_peer_open_port()) + (enc_int(y.peer_open_port as nat) + (seq![101u8]))) && y.peer_ip == v_peer_ip@ by {
            lemma_step(s@, p6 as int, enc_u8_list(y.peer_ip), enc_bytes(key_peer_open_port()) + (enc_int(y.peer_open_port as nat) + (seq![101u8])));
        }
    }
    if !(v_peer_ip.len() == 4) {
        proof {
            assert forall|y: PeerView| starts_with(rest, #[trigger] enc_peer(y)) implies !peer_ok(y) by {}
        }
        return None;
    }
    let k7: [u8; 14] = [112u8, 101u8, 101u8, 114u8, 95u8, 111u8, 112u8, 101u8, 110u8, 95u8, 112u8, 111u8, 114u8, 116u8];
    assert(k7@ =~= key_peer_open_port());
    let p8 = match read_key(s, p7, &k7) {
        None => {
            proof {
                assert forall|y: PeerView| starts_with(rest, #[trigger] enc_peer(y)) implies !peer_ok(y) by {
                    lemma_step(s@, p7 as int, enc_bytes(key_peer_open_port()), enc_int(y.peer_open_port as nat) + (seq![101u8]));
                }
            }
            return None;
        },
        Some(q) => q,
    };
    proof {
        assert forall|y: PeerView| starts_with(rest, #[trigger] enc_peer(y)) implies starts_with(s@.skip(p8 as int), enc_int(y.peer_open_port as nat) + (seq![101u8])) by {
            lemma_step(s@, p7 as int, enc_bytes(key_peer_open_port()), enc_int(y.peer_open_port as nat) + (seq![101u8]));
        }
    }
    let (v_peer_open_port, p9) = match read_u16(s, p8) {
        None => {
            proof {
                assert forall|y: PeerView| starts_with(rest, #[trigger] enc_peer(y)) implies !peer_ok(y) by {
                    lemma_step(s@, p8 as int, enc_int(y.peer_open_port as nat), seq![101u8]);
                }
            }
            return None;
        },
        Some(q) => q,
    };
    proof {
        assert forall|y: PeerView| starts_with(rest, #[trigger] enc_peer(y)) implies starts_with(s@.skip(p9 as int), seq![101u8]) && y.peer_open_port == v_peer_open_port by {
            lemma_step(s@, p8 as int, enc_int(y.peer_open_port as nat), seq![101u8]);
        }
    }
    let l9: [u8; 1] = [101u8];
    assert(l9@ =~= seq![101u8]);
    let p10 = match read_lit(s, p9, &l9) {
        None => {
            proof {
                assert forall|y: PeerView| starts_with(rest, #[trigger] enc_peer(y)) implies !peer_ok(y) by {
                    
                }
            }
            return None;
        },
        Some(q) => q,
    };
    proof {
        assert forall|y: PeerView| starts_with(rest, #[trigger] enc_peer(y)) implies true by {
            
        }
    }
    let x = PeerInfo { peer_id: v_peer_id, peer_ip: v_peer_ip, peer_open_port: v_peer_open_port, peer_file_meta_info_report: v_peer_file_meta_info_report };
    proof {
        assert(starts_with(s@.skip(p0 as int), seq![100u8]));
        assert(starts_with(s@.skip(p1 as int), enc_bytes(key_peer_file_meta_info_report())));
        assert(starts_with(s@.skip(p2 as int), enc_metas(x@.peer_file_meta_info_report)));
        assert(starts_with(s@.skip(p3 as int), enc_bytes(key_peer_id())));
        assert(starts_with(s@.skip(p4 as int), enc_int(x@.peer_id as nat)));
        assert(starts_with(s@.skip(p5 as int), enc_bytes(key_peer_ip())));
        assert(starts_with(s@.skip(p6 as int), enc_u8_list(x@.peer_ip)));
        assert(starts_with(s@.skip(p7 as int), enc_bytes(key_peer_open_port())));
        assert(starts_with(s@.skip(p8 as int), enc_int(x@.peer_open_port as nat)));
        assert(starts_with(s@.skip(p9 as int), seq![101u8]));
        lemma_join(s@, p8 as int, enc_int(x@.peer_open_port as nat), seq![101u8]);
        lemma_join(s@, p7 as int, enc_bytes(key_peer_open_port()), enc_int(x@.peer_open_port as nat) + (seq![101u8]));
        lemma_join(s@, p6 as int, enc_u8_list(x@.peer_ip), enc_bytes(key_peer_open_port()) + (enc_int(x@.peer_open_port as nat) + (seq![101u8])));
        lemma_join(s@, p5 as int, enc_bytes(key_peer_ip()), enc_u8_list(x@.peer_ip) + (enc_bytes(key_peer_open_port()) + (enc_int(x@.peer_open_port as nat) + (seq![101u8]))));
        lemma_join(s@, p4 as int, enc_int(x@.peer_id as nat), enc_bytes(key_peer_ip()) + (enc_u8_list(x@.peer_ip) + (enc_bytes(key_peer_open_port()) + (enc_int(x@.peer_open_port as nat) + (seq![101u8])))));
        lemma_join(s@, p3 as int, enc_bytes(key_peer_id()), enc_int(x@.peer_id as nat) + (enc_bytes(key_peer_ip()) + (enc_u8_list(x@.peer_ip) + (enc_bytes(key_peer_open_port()) + (enc_int(x@.peer_open_port as nat) + (seq![101u8]))))));
        lemma_join(s@, p2 as int, enc_metas(x@.peer_file_meta_info_report), enc_bytes(key_peer_id()) + (enc_int(x@.peer_id as nat) + (enc_bytes(key_peer_ip()) + (enc_u8_list(x@.peer_ip) + (enc_bytes(key_peer_open_port()) + (enc_int(x@.peer_open_port as nat) + (seq![101u8])))))));
        lemma_join(s@, p1 as int, enc_bytes(key_peer_file_meta_info_report()), enc_metas(x@.peer_file_meta_info_report) + (enc_bytes(key_peer_id()) + (enc_int(x@.peer_id as nat) + (enc_bytes(key_peer_ip()) + (enc_u8_list(x@.peer_ip) + (enc_bytes(key_peer_open_port()) + (enc_int(x@.peer_open_port as nat) + (seq![101u8]))))))));
        lemma_join(s@, p0 as int, seq![100u8], enc_bytes(key_peer_file_meta_info_report()) + (enc_metas(x@.peer_file_meta_info_report) + (enc_bytes(key_peer_id()) + (enc_int(x@.peer_id as nat) + (enc_bytes(key_peer_ip()) + (enc_u8_list(x@.peer_ip) + (enc_bytes(key_peer_open_port()) + (enc_int(x@.peer_open_port as nat) + (seq![101u8])))))))));
        assert(enc_peer(x@) == seq![100u8] + (enc_bytes(key_peer_file_meta_info_report()) + (enc_metas(x@.peer_file_meta_info_report) + (enc_bytes(key_peer_id()) + (enc_int(x@.peer_id as nat) + (enc_bytes(key_peer_ip()) + (enc_u8_list(x@.peer_ip) + (enc_bytes(key_peer_open_port()) + (enc_int(x@.peer_open_port as nat) + (seq![101u8]))))))))));
    }
    Some((x, p10))
}

/// The lists of `peer` values whose every element is accepted.
pub open spec fn peers_ok(w: Seq<PeerView>) -> bool {
    forall|i: int| 0 <= i < w.len() ==> #[trigger] peer_ok(w[i])
}

/// A list of `peer` values.
pub open spec fn enc_peers(w: Seq<PeerView>) -> Seq<u8> {
    enc_list_of(w, |x: PeerView| enc_peer(x))
}

pub proof fn lemma_enc_peer_item_ok()
    ensures
        item_enc_ok(|x: PeerView| enc_peer(x)),
{
    assert forall|x: PeerView| #![trigger enc_peer(x)] enc_peer(x).len() > 0 && enc_peer(x)[0] != byte_end() by {
        assert(enc_peer(x)[0] == 100u8);
    }
}

pub fn write_peers(out: &mut Vec<u8>, v: &Vec<PeerInfo>)
    ensures
        final(out)@ == old(out)@ + enc_peers(peers_view(v@)),
{
    let ghost start = out@;
    let ghost f = |x: PeerView| enc_peer(x);
    let ghost items = peers_view(v@).map_values(f);
    write_byte(out, 108u8);
    let mut i: usize = 0;
    while i < v.len()
        invariant
            0 <= i <= v@.len(),
            items == peers_view(v@).map_values(f),
            f == (|x: PeerView| enc_peer(x)),
            out@ == start + seq![byte_list()] + concat(items.take(i as int)),
        decreases v@.len() - i,
    {
        write_peer(out, &v[i]);
        proof {
            assert(items.take(i + 1) =~= items.take(i as int).push(items[i as int]));
            lemma_concat_push(items.take(i as int), items[i as int]);
        }
        i = i + 1;
    }
    write_byte(out, 101u8);
    assert(items.take(v@.len() as int) =~= items);
    assert(out@ =~= start + enc_peers(peers_view(v@)));
}

pub fn read_peers(s: &[u8], pos: usize) -> (r: Option<(Vec<PeerInfo>, usize)>)
    requires
        pos <= s@.len(),
    ensures
        r matches Some((v, e)) ==> e == pos + enc_peers(peers_view(v@)).len() && e <= s@.len()
            && starts_with(s@.skip(pos as int), enc_peers(peers_view(v@))) && peers_ok(peers_view(v@)),
        forall|w: Seq<PeerView>|
            starts_with(s@.skip(pos as int), #[trigger] enc_peers(w)) ==> (peers_ok(w) ==> (r matches Some((v, _))
                && peers_view(v@) == w)) && (!peers_ok(w) ==> r is None),
{
    let ghost f = |x: PeerView| enc_peer(x);
    let ghost rest = s@.skip(pos as int);
    proof {
        lemma_enc_peer_item_ok();
    }
    let lit: [u8; 1] = [108u8];
    assert(lit@ =~= seq![byte_list()]);
    match read_lit(s, pos, &lit) {
        None => {
            proof {
                assert forall|w: Seq<PeerView>| starts_with(rest, #[trigger] enc_peers(w)) implies !peers_ok(w) by {
                    lemma_step(s@, pos as int, seq![byte_list()], concat(w.map_values(f)) + seq![byte_end()]);
                }
            }
            return None;
        },
        Some(_) => {},
    }
    let mut v: Vec<PeerInfo> = Vec::new();
    let mut cur: usize = pos + 1;
    let slen = s.len();
    assert(seq![byte_list()] + concat(peers_view(v@).map_values(f)) =~= seq![byte_list()]);
    loop
        invariant
            pos < cur <= s@.len(),
            slen == s@.len(),
            f == (|x: PeerView| enc_peer(x)),
            rest == s@.skip(pos as int),
            item_enc_ok(f),
            peers_ok(peers_view(v@)),
            starts_with(rest, seq![byte_list()] + concat(peers_view(v@).map_values(f))),
            cur == pos + 1 + concat(peers_view(v@).map_values(f)).len(),
            forall|w: Seq<PeerView>|
                starts_with(rest, #[trigger] enc_peers(w)) ==> peers_view(v@).len() <= w.len() && w.take(
                    peers_view(v@).len() as int,
                ) == peers_view(v@),
        decreases s@.len() - cur,
    {
        let b = match peek_byte(s, cur) {
            None => {
                proof {
                    assert forall|w: Seq<PeerView>| starts_with(rest, #[trigger] enc_peers(w)) implies !peers_ok(w) by {
                        lemma_list_step(s@, pos as int, cur as int, f, peers_view(v@), w);
                    }
                }
                return None;
            },
            Some(b) => b,
        };
        assert(cur < s@.len());
        if b == 101u8 {
            proof {
                assert forall|w: Seq<PeerView>| starts_with(rest, #[trigger] enc_peers(w)) implies peers_view(v@) == w by {
                    lemma_list_step(s@, pos as int, cur as int, f, peers_view(v@), w);
                }
                lemma_skip_skip(s@, pos as int, cur - pos);
                assert(starts_with(s@.skip(cur as int), seq![byte_end()])) by {
                    assert(s@.skip(cur as int).subrange(0, 1) =~= seq![byte_end()]);
                }
                lemma_list_close(rest, f, peers_view(v@));
            }
            return Some((v, cur + 1));
        }
        match read_peer(s, cur) {
            None => {
                proof {
                    assert forall|w: Seq<PeerView>| starts_with(rest, #[trigger] enc_peers(w)) implies !peers_ok(w) by {
                        lemma_list_step(s@, pos as int, cur as int, f, peers_view(v@), w);
                        let m = w[peers_view(v@).len() as int];
                        assert(f(m) == enc_peer(m));
                        assert(starts_with(s@.skip(cur as int), enc_peer(m)));
                        assert(!peer_ok(m));
                    }
                }
                return None;
            },
            Some((x, e)) => {
                proof {
                    assert forall|w: Seq<PeerView>| starts_with(rest, #[trigger] enc_peers(w)) implies peers_view(v@).len()
                        < w.len() && w[peers_view(v@).len() as int] == x@ by {
                        lemma_list_step(s@, pos as int, cur as int, f, peers_view(v@), w);
                        let m = w[peers_view(v@).len() as int];
                        assert(f(m) == enc_peer(m));
                        assert(starts_with(s@.skip(cur as int), enc_peer(m)));
                    }
                    lemma_skip_skip(s@, pos as int, cur - pos);
                    assert(f(x@) == enc_peer(x@));
                    lemma_list_grow(rest, f, peers_view(v@), x@);
                }
                let ghost old_v = peers_view(v@);
                v.push(x);
                proof {
                    assert(peers_view(v@) =~= old_v.push(v@[v@.len() - 1]@));
                    assert forall|i: int| 0 <= i < peers_view(v@).len() implies #[trigger] peer_ok(peers_view(v@)[i]) by {
                        if i < old_v.len() {
                            assert(peers_view(v@)[i] == old_v[i]);
                        }
                    }
                    assert forall|w: Seq<PeerView>| starts_with(rest, #[trigger] enc_peers(w)) implies peers_view(v@).len()
                        <= w.len() && w.take(peers_view(v@).len() as int) == peers_view(v@) by {
                        assert(w.take(old_v.len() as int) == old_v);
                        assert(w.take(peers_view(v@).len() as int) =~= old_v.push(w[old_v.len() as int]));
                    }
                }
                cur = e;
            },
        }
    }
}

/// The list of peers of a table as a dictionary.
pub open spec fn enc_table_wire(y: TableWireView) -> Seq<u8> {
    seq![100u8] + (enc_bytes(key_peers_info()) + (enc_peers(y.peers_info) + (seq![101u8])))
}

/// The values of `TableWireView` that are accepted.
pub open spec fn table_wire_ok(y: TableWireView) -> bool {
    peers_ok(y.peers_info)
}

pub fn write_table_wire(out: &mut Vec<u8>, x: &TableWire)
    ensures
        final(out)@ == old(out)@ + enc_table_wire(x@),
{
    let ghost o0 = out@;
    write_byte(out, 100u8);
    let ghost o1 = out@;
    let k_peers_info: [u8; 10] = [112u8, 101u8, 101u8, 114u8, 115u8, 95u8, 105u8, 110u8, 102u8, 111u8];
    assert(k_peers_info@ =~= key_peers_info());
    write_bytes(out, &k_peers_info);
    let ghost o2 = out@;
    write_peers(out, &x.peers_info);
    let ghost o3 = out@;
    write_byte(out, 101u8);
    let ghost o4 = out@;
    proof {
        lemma_seq_assoc(o0, seq![100u8], enc_bytes(key_peers_info()) + (enc_peers(x@.peers_info) + (seq![101u8])));
        lemma_seq_assoc(o1, enc_bytes(key_peers_info()), enc_peers(x@.peers_info) + (seq![101u8]));
        lemma_seq_assoc(o2, enc_peers(x@.peers_info), seq![101u8]);
        assert(enc_table_wire(x@) == seq![100u8] + (enc_bytes(key_peers_info()) + (enc_peers(x@.peers_info) + (seq![101u8]))));
    }
}

#[verifier::rlimit(40)]
pub fn read_table_wire(s: &[u8], pos: usize) -> (r: Option<(TableWire, usize)>)
    requires
        pos <= s@.len(),
    ensures
        r matches Some((x, e)) ==> e == pos + enc_table_wire(x@).len() && e <= s@.len()
            && starts_with(s@.skip(pos as int), enc_table_wire(x@)) && table_wire_ok(x@),
        forall|y: TableWireView| starts_with(s@.skip(pos as int), #[trigger] enc_table_wire(y)) ==> (table_wire_ok(y) ==> (r matches Some((x, _)) && x@ == y)) && (!table_wire_ok(y) ==> r is None),
{
    let ghost rest = s@.skip(pos as int);
    let p0 = pos;
    proof {
        assert forall|y: TableWireView| starts_with(rest, #[trigger] enc_table_wire(y)) implies starts_with(s@.skip(p0 as int), seq![100u8] + (enc_bytes(key_peers_info()) + (enc_peers(y.peers_info) + (seq![101u8])))) by {}
    }
    let l0: [u8; 1] = [100u8];
    assert(l0@ =~= seq![100u8]);
    let p1 = match read_lit(s, p0, &l0) {
        None => {
            proof {
                assert forall|y: TableWireView| starts_with(rest, #[trigger] enc_table_wire(y)) implies !table_wire_ok(y) by {
                    lemma_step(s@, p0 as int, seq![100u8], enc_bytes(key_peers_info()) + (enc_peers(y.peers_info) + (seq![101u8])));
                }
            }
            return None;
        },
        Some(q) => q,
    };
    proof {
        assert forall|y: TableWireView| starts_with(rest, #[trigger] enc_table_wire(y)) implies starts_with(s@.skip(p1 as int), enc_bytes(key_peers_info()) + (enc_peers(y.peers_info) + (seq![101u8]))) by {
            lemma_step(s@, p0 as int, seq![100u8], enc_bytes(key_peers_info()) + (enc_peers(y.peers_info) + (seq![101u8])));
        }
    }
    let k1: [u8; 10] = [112u8, 101u8, 101u8, 114u8, 115u8, 95u8, 105u8, 110u8, 102u8, 111u8];
    assert(k1@ =~= key_peers_info());
    let p2 = match read_key(s, p1, &k1) {
        None => {
            proof {
                assert forall|y: TableWireView| starts_with(rest, #[trigger] enc_table_wire(y)) implies !table_wire_ok(y) by {
                    lemma_step(s@, p1 as int, enc_bytes(key_peers_info()), enc_peers(y.peers_info) + (seq![101u8]));
                }
            }
            return None;
        },
        Some(q) => q,
    };
    proof {
        assert forall|y: TableWireView| starts_with(rest, #[trigger] enc_table_wire(y)) implies starts_with(s@.skip(p2 as int), enc_peers(y.peers_info) + (seq![101u8])) by {
            lemma_step(s@, p1 as int, enc_bytes(key_peers_info()), enc_peers(y.peers_info) + (seq![101u8]));
        }
    }
    let (v_peers_info, p3) = match read_peers(s, p2) {
        None => {
            proof {
                assert forall|y: TableWireView| starts_with(rest, #[trigger] enc_table_wire(y)) implies !table_wire_ok(y) by {
                    lemma_step(s@, p2 as int, enc_peers(y.peers_info), seq![101u8]);
                }
            }
            return None;
        },
        Some(q) => q,
    };
    proof {
        assert forall|y: TableWireView| starts_with(rest, #[trigger] enc_table_wire(y)) implies starts_with(s@.skip(p3 as int), seq![101u8]) && y.peers_info == peers_view(v_peers_info@) by {
            lemma_step(s@, p2 as int, enc_peers(y.peers_info), seq![101u8]);
        }
    }
    let l3: [u8; 1] = [101u8];
    assert(l3@ =~= seq![101u8]);
    let p4 = match read_lit(s, p3, &l3) {
        None => {
            proof {
                assert forall|y: TableWireView| starts_with(rest, #[trigger] enc_table_wire(y)) implies !table_wire_ok(y) by {
                    
                }
            }
            return None;
        },
        Some(q) => q,
    };
    proof {
        assert forall|y: TableWireView| starts_with(rest, #[trigger] enc_table_wire(y)) implies true by {
            
        }
    }
    let x = TableWire { peers_info: v_peers_info };
    proof {
        assert(starts_with(s@.skip(p0 as int), seq![100u8]));
        assert(starts_with(s@.skip(p1 as int), enc_bytes(key_peers_info())));
        assert(starts_with(s@.skip(p2 as int), enc_peers(x@.peers_info)));
        assert(starts_with(s@.skip(p3 as int), seq![101u8]));
        lemma_join(s@, p2 as int, enc_peers(x@.peers_info), seq![101u8]);
        lemma_join(s@, p1 as int, enc_bytes(key_peers_info()), enc_peers(x@.peers_info) + (seq![101u8]));
        lemma_join(s@, p0 as int, seq![100u8], enc_bytes(key_peers_info()) + (enc_peers(x@.peers_info) + (seq![101u8])));
        assert(enc_table_wire(x@) == seq![100u8] + (enc_bytes(key_peers_info()) + (enc_peers(x@.peers_info) + (seq![101u8]))));
    }
    Some((x, p4))
}


impl FilePieceInfo {
    /// A piece with its index and digest.
    pub fn new(index: u32, sha3_code: Vec<u8>) -> (r: Self)
        ensures
            r@ == (PieceView { index, sha3_code: sha3_code@ }),
    {
        Self { index, sha3_code }
    }

    /// A copy of this piece.
    pub fn duplicate(&self) -> (r: Self)
        ensures
            r@ == self@,
    {
        FilePieceInfo { index: self.index, sha3_code: copy_bytes(&self.sha3_code) }
    }

    /// Encodes this piece as a bencode dictionary.
    pub fn to_bencode(&self) -> (r: Result<Vec<u8>, EncodeError>)
        ensures
            r matches Ok(b) && b@ == enc_piece(self@),
    {
        let mut out: Vec<u8> = Vec::new();
        write_piece(&mut out, self);
        assert(out@ =~= enc_piece(self@));
        Ok(out)
    }

    /// Decodes a piece from the beginning of `bytes`; bytes behind it are ignored.
    pub fn from_bencode(bytes: &[u8]) -> (r: Result<Self, DecodeError>)
        ensures
            r matches Ok(x) ==> starts_with(bytes@, enc_piece(x@)),
            r is Err ==> forall|y: PieceView| !starts_with(bytes@, #[trigger] enc_piece(y)),
            forall|y: PieceView| #[trigger] starts_with(bytes@, enc_piece(y)) ==> (r matches Ok(x) && x@ == y),
    {
        assert(bytes@.skip(0) =~= bytes@);
        match read_piece(bytes, 0) {
            Some((x, _)) => Ok(x),
            None => Err(DecodeError::Malformed),
        }
    }
}

impl FileMetaInfo {
    /// A file with its digest, name, piece size and pieces.
    pub fn new(
        sha3_code: Vec<u8>,
        file_name: String,
        file_piece_size: u32,
        pieces_info: Vec<FilePieceInfo>,
    ) -> (r: Self)
        ensures
            r@ == (MetaView {
                sha3_code: sha3_code@,
                file_name: file_name@,
                file_piece_size,
                pieces_info: pieces_view(pieces_info@),
            }),
    {
        Self { sha3_code, file_name, file_piece_size, pieces_info }
    }

    /// The digest of the file's content.
    pub fn get_file_sha3_code(&self) -> (r: Vec<u8>)
        ensures
            r@ == self@.sha3_code,
    {
        copy_bytes(&self.sha3_code)
    }

    /// The file's name.
    pub fn get_file_name(&self) -> (r: String)
        ensures
            r@ == self@.file_name,
    {
        self.file_name.clone()
    }

    /// A copy of this file's record.
    pub fn duplicate(&self) -> (r: Self)
        ensures
            r@ == self@,
    {
        let mut pieces: Vec<FilePieceInfo> = Vec::new();
        let mut i: usize = 0;
        while i < self.pieces_info.len()
            invariant
                0 <= i <= self.pieces_info@.len(),
                pieces_view(pieces@) == pieces_view(self.pieces_info@).take(i as int),
            decreases self.pieces_info@.len() - i,
        {
            let p = self.pieces_info[i].duplicate();
            let ghost old_p = pieces@;
            pieces.push(p);
            proof {
                assert(pieces_view(pieces@) =~= pieces_view(old_p).push(p@));
                assert(pieces_view(pieces@) =~= pieces_view(self.pieces_info@).take(i + 1));
            }
            i = i + 1;
        }
        assert(pieces_view(self.pieces_info@).take(self.pieces_info@.len() as int) =~= pieces_view(
            self.pieces_info@,
        ));
        FileMetaInfo {
            sha3_code: copy_bytes(&self.sha3_code),
            file_name: self.file_name.clone(),
            file_piece_size: self.file_piece_size,
            pieces_info: pieces,
        }
    }

    /// Encodes this file's record as a bencode dictionary.
    pub fn to_bencode(&self) -> (r: Result<Vec<u8>, EncodeError>)
        ensures
            r matches Ok(b) && b@ == enc_meta(self@),
    {
        let mut out: Vec<u8> = Vec::new();
        write_meta(&mut out, self);
        assert(out@ =~= enc_meta(self@));
        Ok(out)
    }

    /// Decodes a file's record from the beginning of `bytes`; bytes behind it are
    /// ignored.
    pub fn from_bencode(bytes: &[u8]) -> (r: Result<Self, DecodeError>)
        ensures
            r matches Ok(x) ==> starts_with(bytes@, enc_meta(x@)),
            r is Err ==> forall|y: MetaView| !starts_with(bytes@, #[trigger] enc_meta(y)),
            forall|y: MetaView| #[trigger] starts_with(bytes@, enc_meta(y)) ==> (r matches Ok(x) && x@ == y),
    {
        assert(bytes@.skip(0) =~= bytes@);
        match read_meta(bytes, 0) {
            Some((x, _)) => Ok(x),
            None => Err(DecodeError::Malformed),
        }
    }
}

/// Copies a list of file records.
pub fn duplicate_metas(v: &Vec<FileMetaInfo>) -> (r: Vec<FileMetaInfo>)
    ensures
        metas_view(r@) == metas_view(v@),
{
    let mut out: Vec<FileMetaInfo> = Vec::new();
    let mut i: usize = 0;
    while i < v.len()
        invariant
            0 <= i <= v@.len(),
            metas_view(out@) == metas_view(v@).take(i as int),
        decreases v@.len() - i,
    {
        let m = v[i].duplicate();
        let ghost old_o = out@;
        out.push(m);
        proof {
            assert(metas_view(out@) =~= metas_view(old_o).push(m@));
            assert(metas_view(out@) =~= metas_view(v@).take(i + 1));
        }
        i = i + 1;
    }
    assert(metas_view(v@).take(v@.len() as int) =~= metas_view(v@));
    out
}

impl PeerInfo {
    /// A peer with its id, IPv4 address (four bytes), port and files.
    pub fn new(
        peer_id: u32,
        peer_ip: Vec<u8>,
        peer_open_port: u16,
        peer_file_meta_info_report: Vec<FileMetaInfo>,
    ) -> (r: Self)
        requires
            peer_ip@.len() == 4,
        ensures
            r@ == (PeerView {
                peer_id,
                peer_ip: peer_ip@,
                peer_open_port,
                peer_file_meta_info_report: metas_view(peer_file_meta_info_report@),
            }),
    {
        Self { peer_id, peer_ip, peer_open_port, peer_file_meta_info_report }
    }

    /// The peer's address.
    pub fn get_peer_ip(&self) -> (r: Vec<u8>)
        ensures
            r@ == self@.peer_ip,
    {
        copy_bytes(&self.peer_ip)
    }

    /// The peer's id.
    pub fn get_peer_id(&self) -> (r: u32)
        ensures
            r == self@.peer_id,
    {
        self.peer_id
    }

    /// A copy of this peer's record.
    pub fn duplicate(&self) -> (r: Self)
        ensures
            r@ == self@,
    {
        PeerInfo {
            peer_id: self.peer_id,
            peer_ip: copy_bytes(&self.peer_ip),
            peer_open_port: self.peer_open_port,
            peer_file_meta_info_report: duplicate_metas(&self.peer_file_meta_info_report),
        }
    }

    /// Encodes this peer's record as a bencode dictionary.
    pub fn to_bencode(&self) -> (r: Result<Vec<u8>, EncodeError>)
        ensures
            r matches Ok(b) && b@ == enc_peer(self@),
    {
        let mut out: Vec<u8> = Vec::new();
        write_peer(&mut out, self);
        assert(out@ =~= enc_peer(self@));
        Ok(out)
    }

    /// Decodes a peer's record from the beginning of `bytes`; bytes behind it are
    /// ignored. A record whose address is not four bytes is refused.
    pub fn from_bencode(bytes: &[u8]) -> (r: Result<Self, DecodeError>)
        ensures
            r matches Ok(x) ==> starts_with(bytes@, enc_peer(x@)) && peer_ok(x@),
            r is Err ==> forall|y: PeerView| #[trigger] starts_with(bytes@, enc_peer(y)) ==> !peer_ok(y),
            forall|y: PeerView| #[trigger] starts_with(bytes@, enc_peer(y)) && !peer_ok(y) ==> r is Err,
            forall|y: PeerView| #[trigger] starts_with(bytes@, enc_peer(y)) && peer_ok(y) ==> (r matches Ok(x) && x@ == y),
    {
        assert(bytes@.skip(0) =~= bytes@);
        match read_peer(bytes, 0) {
            Some((x, _)) => Ok(x),
            None => Err(DecodeError::Malformed),
        }
    }
}

/// Copies a list of peer records.
pub fn duplicate_peers(v: &Vec<PeerInfo>) -> (r: Vec<PeerInfo>)
    ensures
        peers_view(r@) == peers_view(v@),
{
    let mut out: Vec<PeerInfo> = Vec::new();
    let mut i: usize = 0;
    while i < v.len()
        invariant
            0 <= i <= v@.len(),
            peers_view(out@) == peers_view(v@).take(i as int),
        decreases v@.len() - i,
    {
        let m = v[i].duplicate();
        let ghost old_o = out@;
        out.push(m);
        proof {
            assert(peers_view(out@) =~= peers_view(old_o).push(m@));
            assert(peers_view(out@) =~= peers_view(v@).take(i + 1));
        }
        i = i + 1;
    }
    assert(peers_view(v@).take(v@.len() as int) =~= peers_view(v@));
    out
}

/// Decoding failed: the bytes do not begin with the encoding of a value of the
/// expected type.
#[derive(Debug, Clone, Copy, PartialEq, Eq)]
pub enum DecodeError {
    Malformed,
}

/// Encoding failed. The records of this library always encode, so no value of
/// this type is ever produced; it keeps the `Result` of the protocol's encoders.
#[derive(Debug, Clone, Copy, PartialEq, Eq)]
pub enum EncodeError {
    Unencodable,
}

} // verus!
