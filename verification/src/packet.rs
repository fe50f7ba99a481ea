//! Framing of packets: `[type: 1 byte][payload length: 4 bytes, little endian][payload]`,
//! and the reassembly of a packet from the chunks a stream delivers.
use vstd::prelude::*;

verus! {

/// The four little-endian bytes of `n` modulo 2^32.
pub open spec fn le_u32(n: nat) -> Seq<u8> {
    seq![
        (n % 256) as u8,
        ((n / 256) % 256) as u8,
        ((n / 256 / 256) % 256) as u8,
        ((n / 256 / 256 / 256) % 256) as u8,
    ]
}

/// The number written by four little-endian bytes.
pub open spec fn le_value(b: Seq<u8>) -> nat {
    (b[0] + 256 * (b[1] + 256 * (b[2] + 256 * b[3]))) as nat
}

/// The packet of type `type_id` that carries `payload`; the length field holds
/// the payload's length modulo 2^32.
pub open spec fn frame(type_id: u8, payload: Seq<u8>) -> Seq<u8> {
    seq![type_id] + le_u32(payload.len() % 0x1_0000_0000) + payload
}

/// Law: the length field reads back the number it was written from.
pub proof fn lemma_le_roundtrip(n: nat)
    requires
        n < 0x1_0000_0000,
    ensures
        le_value(le_u32(n)) == n,
{
    let q1 = n / 256;
    let q2 = q1 / 256;
    let q3 = q2 / 256;
    vstd::arithmetic::div_mod::lemma_fundamental_div_mod(n as int, 256);
    vstd::arithmetic::div_mod::lemma_fundamental_div_mod(q1 as int, 256);
    vstd::arithmetic::div_mod::lemma_fundamental_div_mod(q2 as int, 256);
    assert(q3 < 256);
    assert(q3 % 256 == q3);
    let b = le_u32(n);
    assert(b[0] == n % 256);
    assert(b[1] == q1 % 256);
    assert(b[2] == q2 % 256);
    assert(b[3] == q3);
}

/// Builds the packet of type `type_id` that carries `payload`. As on the wire
/// of the protocol, the length field is the payload's length taken modulo 2^32.
pub fn make_packet(type_id: u8, payload: &[u8]) -> (r: Vec<u8>)
    ensures
        r@ == frame(type_id, payload@),
{
    let n: u64 = (payload.len() as u64) % 0x1_0000_0000;
    let mut r: Vec<u8> = Vec::new();
    r.push(type_id);
    r.push((n % 256) as u8);
    r.push(((n / 256) % 256) as u8);
    r.push(((n / 256 / 256) % 256) as u8);
    r.push(((n / 256 / 256 / 256) % 256) as u8);
    let mut i: usize = 0;
    while i < payload.len()
        invariant
            0 <= i <= payload@.len(),
            n == payload@.len() % 0x1_0000_0000,
            r@ == seq![type_id] + le_u32(n as nat) + payload@.take(i as int),
        decreases payload@.len() - i,
    {
        r.push(payload[i]);
        assert(payload@.take(i + 1) =~= payload@.take(i as int).push(payload@[i as int]));
        i = i + 1;
    }
    assert(payload@.take(payload@.len() as int) =~= payload@);
    r
}

/// The progress of reading one packet from a stream.
pub struct PacketAssembler {
    header_seen: bool,
    type_id: u8,
    expected: u64,
    packet: Vec<u8>,
}

/// What the assembler holds: whether the header was read, the type and the
/// whole length (header included) it announced, and the bytes kept so far.
pub struct AssemblerView {
    pub header_seen: bool,
    pub type_id: u8,
    pub expected: nat,
    pub packet: Seq<u8>,
}

impl View for PacketAssembler {
    type V = AssemblerView;

    closed spec fn view(&self) -> AssemblerView {
        AssemblerView {
            header_seen: self.header_seen,
            type_id: self.type_id,
            expected: self.expected as nat,
            packet: self.packet@,
        }
    }
}

/// The assembler after one more chunk. Before the header was seen a chunk
/// shorter than the header is dropped; the first chunk that holds a header
/// fixes the type and the expected length (payload length plus the five bytes
/// of the header).
pub open spec fn assemble_step(a: AssemblerView, chunk: Seq<u8>) -> AssemblerView {
    if a.header_seen {
        AssemblerView { packet: a.packet + chunk, ..a }
    } else if chunk.len() < 5 {
        a
    } else {
        AssemblerView {
            header_seen: true,
            type_id: chunk[0],
            expected: le_value(chunk.subrange(1, 5)) + 5,
            packet: a.packet + chunk,
        }
    }
}

/// The packet is complete: its bytes are exactly as many as announced.
pub open spec fn assembled(a: AssemblerView) -> bool {
    a.header_seen && a.packet.len() == a.expected
}

impl PacketAssembler {
    /// Nothing read yet.
    pub fn new() -> (r: Self)
        ensures
            r@ == (AssemblerView { header_seen: false, type_id: 0, expected: 0, packet: Seq::empty() }),
    {
        PacketAssembler { header_seen: false, type_id: 0, expected: 0, packet: Vec::new() }
    }

    /// Takes one chunk read from the stream; says whether the packet is now
    /// complete.
    pub fn push_chunk(&mut self, chunk: &[u8]) -> (done: bool)
        ensures
            final(self)@ == assemble_step(old(self)@, chunk@),
            done == assembled(final(self)@),
    {
        if !self.header_seen {
            if chunk.len() < 5 {
                return false;
            }
            let b1 = chunk[1] as u64;
            let b2 = chunk[2] as u64;
            let b3 = chunk[3] as u64;
            let b4 = chunk[4] as u64;
            let len: u64 = b1 + 256 * (b2 + 256 * (b3 + 256 * b4));
            assert(le_value(chunk@.subrange(1, 5)) == len);
            self.type_id = chunk[0];
            self.expected = len + 5;
            self.header_seen = true;
        }
        let ghost s0 = self@;
        let mut i: usize = 0;
        while i < chunk.len()
            invariant
                0 <= i <= chunk@.len(),
                self@ == (AssemblerView { packet: s0.packet + chunk@.take(i as int), ..s0 }),
            decreases chunk@.len() - i,
        {
            self.packet.push(chunk[i]);
            assert(chunk@.take(i + 1) =~= chunk@.take(i as int).push(chunk@[i as int]));
            i = i + 1;
        }
        assert(chunk@.take(chunk@.len() as int) =~= chunk@);
        self.packet.len() as u64 == self.expected
    }

    /// The type of the packet read.
    pub fn type_id(&self) -> (r: u8)
        ensures
            r == self@.type_id,
    {
        self.type_id
    }

    /// The payload of the packet read: what follows the header.
    pub fn payload(&self) -> (r: Vec<u8>)
        ensures
            self@.packet.len() >= 5 ==> r@ == self@.packet.skip(5),
            self@.packet.len() < 5 ==> r@ == Seq::<u8>::empty(),
    {
        let mut r: Vec<u8> = Vec::new();
        let mut i: usize = 5;
        while i < self.packet.len()
            invariant
                5 <= i,
                i <= self.packet@.len() || self.packet@.len() < 5,
                self.packet@.len() >= 5 ==> r@ == self.packet@.subrange(5, i as int),
                self.packet@.len() < 5 ==> r@ == Seq::<u8>::empty(),
            decreases self.packet@.len() - i,
        {
            r.push(self.packet[i]);
            assert(self.packet@.subrange(5, i + 1) =~= self.packet@.subrange(5, i as int).push(
                self.packet@[i as int],
            ));
            i = i + 1;
        }
        assert(self.packet@.len() >= 5 ==> self.packet@.subrange(5, self.packet@.len() as int)
            =~= self.packet@.skip(5));
        r
    }
}

/// Law: a packet that arrives in one chunk, with a payload shorter than 2^32
/// bytes, is complete at once and gives back its type and its payload.
pub proof fn lemma_frame_assembles(type_id: u8, payload: Seq<u8>)
    requires
        payload.len() < 0x1_0000_0000,
    ensures
        ({
            let a = assemble_step(
                AssemblerView { header_seen: false, type_id: 0, expected: 0, packet: Seq::empty() },
                frame(type_id, payload),
            );
            assembled(a) && a.type_id == type_id && a.packet.skip(5) == payload
        }),
{
    let f = frame(type_id, payload);
    assert(payload.len() % 0x1_0000_0000 == payload.len());
    lemma_le_roundtrip(payload.len());
    assert(f.subrange(1, 5) =~= le_u32(payload.len()));
    assert((Seq::<u8>::empty() + f).skip(5) =~= payload);
    assert(Seq::<u8>::empty() + f =~= f);
}

} // verus!
