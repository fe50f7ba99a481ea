//! Bencode building blocks: the byte-level model of integers, byte strings
//! and lists, the leaf encoders and decoders of `bendy`, and verified
//! writers and readers on top of them.
//!
//! Every reader takes a buffer and a position and answers `Some((value, end))`
//! exactly when the bytes at the position begin with the canonical encoding of
//! some value; that value is then unique and `end` is the position just behind
//! its encoding. Bytes behind an encoding are never looked at.
use vstd::prelude::*;
use vstd::utf8::*;
use bendy::decoding::FromBencode;
use bendy::encoding::{AsString, ToBencode};

verus! {

broadcast use vstd::utf8::encode_utf8_valid_utf8, vstd::utf8::encode_utf8_decode_utf8;

/// The byte `e`, which closes integers, lists and dictionaries.
pub open spec fn byte_end() -> u8 {
    101u8
}

/// The byte `i`, which opens an integer.
pub open spec fn byte_int() -> u8 {
    105u8
}

/// The byte `l`, which opens a list.
pub open spec fn byte_list() -> u8 {
    108u8
}

/// The byte `d`, which opens a dictionary.
pub open spec fn byte_dict() -> u8 {
    100u8
}

/// The byte `:`, which separates a byte string's length from its content.
pub open spec fn byte_colon() -> u8 {
    58u8
}

/// ASCII decimal digit.
pub open spec fn is_digit(b: u8) -> bool {
    48 <= b <= 57
}

/// Shortest decimal representation of `n` in ASCII digits.
pub open spec fn decimal(n: nat) -> Seq<u8>
    decreases n,
{
    if n < 10 {
        seq![(48 + n) as u8]
    } else {
        decimal(n / 10).push((48 + n % 10) as u8)
    }
}

/// Canonical bencode integer: `i<decimal>e`.
pub open spec fn enc_int(n: nat) -> Seq<u8> {
    seq![byte_int()] + (decimal(n) + seq![byte_end()])
}

/// Bencode byte string: `<length>:<content>`.
pub open spec fn enc_bytes(b: Seq<u8>) -> Seq<u8> {
    decimal(b.len()) + (seq![byte_colon()] + b)
}

/// Bencode byte string holding the UTF-8 encoding of `s`.
pub open spec fn enc_str(s: Seq<char>) -> Seq<u8> {
    enc_bytes(encode_utf8(s))
}

/// The concatenation of a sequence of byte strings.
pub open spec fn concat(ss: Seq<Seq<u8>>) -> Seq<u8>
    decreases ss.len(),
{
    if ss.len() == 0 {
        Seq::empty()
    } else {
        concat(ss.drop_last()) + ss.last()
    }
}

/// Bencode list of already encoded items: `l<items>e`.
pub open spec fn enc_list(items: Seq<Seq<u8>>) -> Seq<u8> {
    seq![byte_list()] + (concat(items) + seq![byte_end()])
}

/// A byte vector as the protocol sends it: a list of integers.
pub open spec fn enc_u8_list(b: Seq<u8>) -> Seq<u8> {
    enc_list(b.map_values(|x: u8| enc_int(x as nat)))
}

/// `s` begins with `p`.
pub open spec fn starts_with(s: Seq<u8>, p: Seq<u8>) -> bool {
    p.len() <= s.len() && s.subrange(0, p.len() as int) == p
}

pub proof fn lemma_decimal_digits(n: nat)
    ensures
        decimal(n).len() >= 1,
        forall|i: int| 0 <= i < decimal(n).len() ==> is_digit(#[trigger] decimal(n)[i]),
    decreases n,
{
    if n >= 10 {
        lemma_decimal_digits(n / 10);
    }
}

pub proof fn lemma_decimal_injective(a: nat, b: nat)
    requires
        decimal(a) == decimal(b),
    ensures
        a == b,
    decreases a,
{
    lemma_decimal_digits(a);
    lemma_decimal_digits(b);
    if a < 10 && b < 10 {
        assert(decimal(a)[0] == (48 + a) as u8);
        assert(decimal(b)[0] == (48 + b) as u8);
        assert(decimal(a)[0] == decimal(b)[0]);
        assert(a == b);
    } else if a < 10 {
        lemma_decimal_digits(b / 10);
        assert(decimal(b).len() >= 2);
    } else if b < 10 {
        lemma_decimal_digits(a / 10);
        assert(decimal(a).len() >= 2);
    } else {
        assert(decimal(a).drop_last() =~= decimal(a / 10));
        assert(decimal(b).drop_last() =~= decimal(b / 10));
        lemma_decimal_injective(a / 10, b / 10);
        assert(decimal(a).last() == (48 + a % 10) as u8);
        assert(decimal(b).last() == (48 + b % 10) as u8);
        assert(decimal(a).last() == decimal(b).last());
        assert(a % 10 == b % 10);
        assert(a == 10 * (a / 10) + a % 10) by (nonlinear_arith);
        assert(b == 10 * (b / 10) + b % 10) by (nonlinear_arith);
        assert(a == b);
    }
}

/// `s` beginning with `a + b` is `s` beginning with `a`, then `b`.
pub proof fn lemma_starts_with_split(s: Seq<u8>, a: Seq<u8>, b: Seq<u8>)
    ensures
        starts_with(s, a + b) <==> (starts_with(s, a) && starts_with(s.skip(a.len() as int), b)),
{
    let n = a.len() as int;
    if starts_with(s, a + b) {
        assert(s.subrange(0, n) =~= a) by {
            assert forall|i: int| 0 <= i < n implies s.subrange(0, n)[i] == a[i] by {
                assert(s.subrange(0, (a + b).len() as int)[i] == (a + b)[i]);
            }
        }
        assert(s.skip(n).subrange(0, b.len() as int) =~= b) by {
            assert forall|i: int| 0 <= i < b.len() implies s.skip(n).subrange(0, b.len() as int)[i]
                == b[i] by {
                assert(s.subrange(0, (a + b).len() as int)[n + i] == (a + b)[n + i]);
            }
        }
    }
    if starts_with(s, a) && starts_with(s.skip(n), b) {
        assert((a + b).len() <= s.len());
        assert(s.subrange(0, (a + b).len() as int) =~= a + b) by {
            assert forall|i: int| 0 <= i < (a + b).len() implies s.subrange(
                0,
                (a + b).len() as int,
            )[i] == (a + b)[i] by {
                if i < n {
                    assert(s.subrange(0, n)[i] == a[i]);
                } else {
                    assert(s.skip(n).subrange(0, b.len() as int)[i - n] == b[i - n]);
                    assert(s.skip(n)[i - n] == s[i]);
                }
            }
        }
    }
}

/// Positions move by the length of what was read.
pub proof fn lemma_skip_skip(s: Seq<u8>, a: int, b: int)
    requires
        0 <= a,
        0 <= b,
        a + b <= s.len(),
    ensures
        s.skip(a).skip(b) == s.skip(a + b),
{
    assert(s.skip(a).skip(b) =~= s.skip(a + b));
}

/// A byte at a position of a sequence that begins with `p`.
pub proof fn lemma_starts_with_index(s: Seq<u8>, p: Seq<u8>, i: int)
    requires
        starts_with(s, p),
        0 <= i < p.len(),
    ensures
        s[i] == p[i],
{
    assert(s.subrange(0, p.len() as int)[i] == s[i]);
}

/// Two canonical integers at the same place are the same integer.
pub proof fn lemma_enc_int_unique(s: Seq<u8>, a: nat, b: nat)
    requires
        starts_with(s, enc_int(a)),
        starts_with(s, enc_int(b)),
    ensures
        a == b,
{
    lemma_decimal_digits(a);
    lemma_decimal_digits(b);
    let da = decimal(a);
    let db = decimal(b);
    if da.len() < db.len() {
        lemma_starts_with_index(s, enc_int(a), 1 + da.len() as int);
        lemma_starts_with_index(s, enc_int(b), 1 + da.len() as int);
        assert(enc_int(b)[1 + da.len() as int] == db[da.len() as int]);
        assert(false);
    } else if db.len() < da.len() {
        lemma_starts_with_index(s, enc_int(a), 1 + db.len() as int);
        lemma_starts_with_index(s, enc_int(b), 1 + db.len() as int);
        assert(enc_int(a)[1 + db.len() as int] == da[db.len() as int]);
        assert(false);
    } else {
        assert(da =~= db) by {
            assert forall|i: int| 0 <= i < da.len() implies da[i] == db[i] by {
                lemma_starts_with_index(s, enc_int(a), 1 + i);
                lemma_starts_with_index(s, enc_int(b), 1 + i);
            }
        }
        lemma_decimal_injective(a, b);
    }
}

/// Two byte strings at the same place are the same byte string.
pub proof fn lemma_enc_bytes_unique(s: Seq<u8>, a: Seq<u8>, b: Seq<u8>)
    requires
        starts_with(s, enc_bytes(a)),
        starts_with(s, enc_bytes(b)),
    ensures
        a == b,
{
    lemma_decimal_digits(a.len());
    lemma_decimal_digits(b.len());
    let da = decimal(a.len());
    let db = decimal(b.len());
    if da.len() < db.len() {
        lemma_starts_with_index(s, enc_bytes(a), da.len() as int);
        lemma_starts_with_index(s, enc_bytes(b), da.len() as int);
        assert(enc_bytes(b)[da.len() as int] == db[da.len() as int]);
        assert(false);
    } else if db.len() < da.len() {
        lemma_starts_with_index(s, enc_bytes(a), db.len() as int);
        lemma_starts_with_index(s, enc_bytes(b), db.len() as int);
        assert(enc_bytes(a)[db.len() as int] == da[db.len() as int]);
        assert(false);
    } else {
        assert(da =~= db) by {
            assert forall|i: int| 0 <= i < da.len() implies da[i] == db[i] by {
                lemma_starts_with_index(s, enc_bytes(a), i);
                lemma_starts_with_index(s, enc_bytes(b), i);
            }
        }
        lemma_decimal_injective(a.len(), b.len());
        assert(a =~= b) by {
            assert forall|i: int| 0 <= i < a.len() implies a[i] == b[i] by {
                lemma_starts_with_index(s, enc_bytes(a), da.len() + 1 + i);
                lemma_starts_with_index(s, enc_bytes(b), da.len() + 1 + i);
            }
        }
    }
}

/// Two strings at the same place are the same string.
pub proof fn lemma_enc_str_unique(s: Seq<u8>, a: Seq<char>, b: Seq<char>)
    requires
        starts_with(s, enc_str(a)),
        starts_with(s, enc_str(b)),
    ensures
        a == b,
{
    lemma_enc_bytes_unique(s, encode_utf8(a), encode_utf8(b));
    assert(decode_utf8(encode_utf8(a)) == a);
    assert(decode_utf8(encode_utf8(b)) == b);
}

pub proof fn lemma_concat_push(ss: Seq<Seq<u8>>, x: Seq<u8>)
    ensures
        concat(ss.push(x)) == concat(ss) + x,
{
    assert(ss.push(x).drop_last() =~= ss);
}

pub proof fn lemma_seq_assoc(a: Seq<u8>, b: Seq<u8>, c: Seq<u8>)
    ensures
        (a + b) + c == a + (b + c),
{
    assert((a + b) + c =~= a + (b + c));
}

/// Reading `a + b` at `p` is reading `a` at `p`, then `b` behind it.
pub proof fn lemma_step(s: Seq<u8>, p: int, a: Seq<u8>, b: Seq<u8>)
    requires
        0 <= p <= s.len(),
        starts_with(s.skip(p), a + b),
    ensures
        starts_with(s.skip(p), a),
        p + a.len() <= s.len(),
        starts_with(s.skip(p + a.len()), b),
{
    lemma_starts_with_split(s.skip(p), a, b);
    lemma_skip_skip(s, p, a.len() as int);
}

/// Reading `a` at `p`, then `b` behind it, is reading `a + b` at `p`.
pub proof fn lemma_join(s: Seq<u8>, p: int, a: Seq<u8>, b: Seq<u8>)
    requires
        0 <= p,
        p + a.len() <= s.len(),
        starts_with(s.skip(p), a),
        starts_with(s.skip(p + a.len()), b),
    ensures
        starts_with(s.skip(p), a + b),
{
    lemma_skip_skip(s, p, a.len() as int);
    lemma_starts_with_split(s.skip(p), a, b);
}

/// Calls `bendy`'s `ToBencode::to_bencode` on a `u64`. The claim: the result is
/// `i`, the shortest decimal digits of `n`, `e` (`Encoder::emit_int` writes
/// `value.to_string()` between the two letters), and encoding a single integer
/// never fails.
#[verifier::external_body]
fn bendy_encode_u64(n: u64) -> (r: Vec<u8>)
    ensures
        r@ == enc_int(n as nat),
{
    n.to_bencode().unwrap()
}

/// Calls `bendy`'s `FromBencode::from_bencode` for `u64` on `s[pos..]`. The
/// claim: it succeeds exactly when those bytes begin with a canonical integer
/// (`take_int` rejects leading zeros, `-0` and a missing `e`, and `u64::from_str`
/// rejects a sign and values above `u64::MAX`), and then returns that integer;
/// bytes behind it are not examined.
#[verifier::external_body]
fn bendy_decode_u64(s: &[u8], pos: usize) -> (r: Option<u64>)
    requires
        pos <= s@.len(),
    ensures
        r matches Some(n) ==> starts_with(s@.skip(pos as int), enc_int(n as nat)),
        (exists|n: u64| starts_with(s@.skip(pos as int), #[trigger] enc_int(n as nat))) ==> r is Some,
{
    u64::from_bencode(&s[pos..]).ok()
}

/// Calls `bendy`'s `ToBencode::to_bencode` on `AsString(b)`. The claim: the
/// result is the decimal length of `b`, a colon, then `b` (`Token::String` in
/// `Encoder::emit_token`), and encoding a single byte string never fails.
#[verifier::external_body]
fn bendy_encode_byte_string(b: &[u8]) -> (r: Vec<u8>)
    ensures
        r@ == enc_bytes(b@),
{
    AsString(b).to_bencode().unwrap()
}

/// Calls `bendy`'s `FromBencode::from_bencode` for `String` on `s[pos..]`. The
/// claim: it succeeds exactly when those bytes begin with a byte string (canonical
/// length, colon, that many bytes) whose content is valid UTF-8, and then returns
/// the text whose UTF-8 encoding that content is; bytes behind it are not examined.
#[verifier::external_body]
fn bendy_decode_string(s: &[u8], pos: usize) -> (r: Option<String>)
    requires
        pos <= s@.len(),
    ensures
        r matches Some(t) ==> starts_with(s@.skip(pos as int), enc_str(t@)),
        (exists|b: Seq<u8>|
            valid_utf8(b) && starts_with(s@.skip(pos as int), #[trigger] enc_bytes(b))) ==> r is Some,
{
    String::from_bencode(&s[pos..]).ok()
}

/// Number of decimal digits of `n`.
pub fn decimal_len(n: u64) -> (r: u64)
    ensures
        r == decimal(n as nat).len(),
        r <= n + 1,
    decreases n,
{
    if n < 10 {
        1
    } else {
        let k = decimal_len(n / 10);
        assert(decimal(n as nat).len() == decimal((n / 10) as nat).len() + 1);
        k + 1
    }
}

/// Appends the canonical encoding of `n`.
pub fn write_int(out: &mut Vec<u8>, n: u64)
    ensures
        final(out)@ == old(out)@ + enc_int(n as nat),
{
    let mut e = bendy_encode_u64(n);
    out.append(&mut e);
}

/// Appends `b` as a byte string.
pub fn write_bytes(out: &mut Vec<u8>, b: &[u8])
    ensures
        final(out)@ == old(out)@ + enc_bytes(b@),
{
    let mut e = bendy_encode_byte_string(b);
    out.append(&mut e);
}

/// Appends the UTF-8 encoding of `t` as a byte string.
pub fn write_str(out: &mut Vec<u8>, t: &String)
    ensures
        final(out)@ == old(out)@ + enc_str(t@),
{
    let b = t.as_str().as_bytes();
    write_bytes(out, b);
}

/// Appends one byte.
pub fn write_byte(out: &mut Vec<u8>, b: u8)
    ensures
        final(out)@ == old(out)@ + seq![b],
{
    out.push(b);
    assert(final(out)@ =~= old(out)@ + seq![b]);
}

/// Appends `b` as a list of integers.
pub fn write_u8_list(out: &mut Vec<u8>, b: &[u8])
    ensures
        final(out)@ == old(out)@ + enc_u8_list(b@),
{
    let ghost start = out@;
    let ghost items = b@.map_values(|x: u8| enc_int(x as nat));
    write_byte(out, 108u8);
    let mut i: usize = 0;
    while i < b.len()
        invariant
            0 <= i <= b@.len(),
            items == b@.map_values(|x: u8| enc_int(x as nat)),
            out@ == start + seq![byte_list()] + concat(items.take(i as int)),
        decreases b@.len() - i,
    {
        let ghost before = out@;
        write_int(out, b[i] as u64);
        proof {
            assert(items.take(i + 1) =~= items.take(i as int).push(items[i as int]));
            lemma_concat_push(items.take(i as int), items[i as int]);
        }
        i = i + 1;
    }
    write_byte(out, 101u8);
    assert(items.take(b@.len() as int) =~= items);
    assert(out@ =~= start + enc_u8_list(b@));
}

/// Reads the byte at `pos` when there is one.
pub fn peek_byte(s: &[u8], pos: usize) -> (r: Option<u8>)
    requires
        pos <= s@.len(),
    ensures
        pos < s@.len() ==> r == Some(s@[pos as int]),
        pos == s@.len() ==> r is None,
{
    if pos < s.len() {
        Some(s[pos])
    } else {
        None
    }
}

/// Reads the exact bytes `lit` at `pos`.
pub fn read_lit(s: &[u8], pos: usize, lit: &[u8]) -> (r: Option<usize>)
    requires
        pos <= s@.len(),
    ensures
        r matches Some(e) ==> e == pos + lit@.len() && e <= s@.len(),
        r is Some <==> starts_with(s@.skip(pos as int), lit@),
{
    let slen = s.len();
    if lit.len() > slen - pos {
        return None;
    }
    let mut i: usize = 0;
    while i < lit.len()
        invariant
            slen == s@.len(),
            pos + lit@.len() <= slen,
            0 <= i <= lit@.len(),
            forall|j: int| 0 <= j < i ==> s@[pos + j] == lit@[j],
        decreases lit@.len() - i,
    {
        if s[pos + i] != lit[i] {
            assert(s@.skip(pos as int).subrange(0, lit@.len() as int)[i as int] != lit@[i as int]);
            return None;
        }
        i = i + 1;
    }
    assert(s@.skip(pos as int).subrange(0, lit@.len() as int) =~= lit@);
    Some(pos + lit.len())
}

/// Reads a canonical integer no greater than `max` at `pos`.
pub fn read_uint(s: &[u8], pos: usize, max: u64) -> (r: Option<(u64, usize)>)
    requires
        pos <= s@.len(),
    ensures
        r matches Some((n, e)) ==> n <= max && e == pos + enc_int(n as nat).len() && e <= s@.len()
            && starts_with(s@.skip(pos as int), enc_int(n as nat)),
        forall|m: u64|
            m <= max && starts_with(s@.skip(pos as int), #[trigger] enc_int(m as nat)) ==> (r matches Some(
                (n, _),
            ) && n == m),
{
    match bendy_decode_u64(s, pos) {
        None => None,
        Some(n) => {
            proof {
                assert forall|m: u64|
                    m <= max && starts_with(
                        s@.skip(pos as int),
                        #[trigger] enc_int(m as nat),
                    ) implies n == m by {
                    lemma_enc_int_unique(s@.skip(pos as int), n as nat, m as nat);
                }
            }
            if n > max {
                None
            } else {
                let k = decimal_len(n);
                assert(enc_int(n as nat).len() == k + 2);
                assert(s@.skip(pos as int).len() == s@.len() - pos);
                let avail = s.len() - pos;
                assert(k + 2 <= avail);
                Some((n, pos + (k as usize) + 2))
            }
        },
    }
}

/// Reads a string at `pos`.
pub fn read_str(s: &[u8], pos: usize) -> (r: Option<(String, usize)>)
    requires
        pos <= s@.len(),
    ensures
        r matches Some((t, e)) ==> e == pos + enc_str(t@).len() && e <= s@.len()
            && starts_with(s@.skip(pos as int), enc_str(t@)),
        forall|u: Seq<char>|
            starts_with(s@.skip(pos as int), #[trigger] enc_str(u)) ==> (r matches Some((t, _))
                && t@ == u),
{
    proof {
        assert forall|u: Seq<char>|
            starts_with(s@.skip(pos as int), #[trigger] enc_str(u)) implies valid_utf8(
            encode_utf8(u),
        ) && starts_with(s@.skip(pos as int), enc_bytes(encode_utf8(u))) by {}
    }
    match bendy_decode_string(s, pos) {
        None => None,
        Some(t) => {
            proof {
                assert forall|u: Seq<char>|
                    starts_with(s@.skip(pos as int), #[trigger] enc_str(u)) implies t@ == u by {
                    lemma_enc_str_unique(s@.skip(pos as int), t@, u);
                }
            }
            let blen = t.as_str().as_bytes().len();
            let k = decimal_len(blen as u64);
            assert(enc_str(t@).len() == k + 1 + blen);
            assert(s@.skip(pos as int).len() == s@.len() - pos);
            let avail = s.len() - pos;
            assert(k + 1 + blen <= avail);
            Some((t, pos + (k as usize) + 1 + blen))
        },
    }
}

/// A list whose items are encoded by `f`.
pub open spec fn enc_list_of<T>(w: Seq<T>, f: spec_fn(T) -> Seq<u8>) -> Seq<u8> {
    enc_list(w.map_values(f))
}

/// No item encoding is empty or begins with the byte that closes a list.
pub open spec fn item_enc_ok<T>(f: spec_fn(T) -> Seq<u8>) -> bool {
    forall|x: T| #![trigger f(x)] f(x).len() > 0 && f(x)[0] != byte_end()
}

pub proof fn lemma_concat_append(a: Seq<Seq<u8>>, b: Seq<Seq<u8>>)
    ensures
        concat(a + b) == concat(a) + concat(b),
    decreases b.len(),
{
    if b.len() == 0 {
        assert(a + b =~= a);
        assert(concat(a) + concat(b) =~= concat(a));
    } else {
        lemma_concat_append(a, b.drop_last());
        assert((a + b).drop_last() =~= a + b.drop_last());
        assert(concat(a + b) =~= concat(a) + concat(b));
    }
}

/// Where the items of a list stand after its first `k` items.
pub proof fn lemma_list_rest<T>(rest: Seq<u8>, f: spec_fn(T) -> Seq<u8>, w: Seq<T>, k: int)
    requires
        starts_with(rest, enc_list_of(w, f)),
        0 <= k <= w.len(),
    ensures
        1 + concat(w.take(k).map_values(f)).len() <= rest.len(),
        starts_with(
            rest.skip(1 + concat(w.take(k).map_values(f)).len() as int),
            concat(w.skip(k).map_values(f)) + seq![byte_end()],
        ),
{
    let a = w.take(k).map_values(f);
    let b = w.skip(k).map_values(f);
    assert(w.map_values(f) =~= a + b);
    lemma_concat_append(a, b);
    let tail = concat(b) + seq![byte_end()];
    assert(enc_list_of(w, f) =~= (seq![byte_list()] + concat(a)) + tail);
    lemma_starts_with_split(rest, seq![byte_list()] + concat(a), tail);
}

/// What follows in a list after some of its items.
pub proof fn lemma_list_next<T>(r: Seq<u8>, f: spec_fn(T) -> Seq<u8>, ws: Seq<T>)
    requires
        starts_with(r, concat(ws.map_values(f)) + seq![byte_end()]),
        item_enc_ok(f),
    ensures
        r.len() > 0,
        ws.len() == 0 <==> r[0] == byte_end(),
        ws.len() > 0 ==> starts_with(r, f(ws[0])) && starts_with(
            r.skip(f(ws[0]).len() as int),
            concat(ws.drop_first().map_values(f)) + seq![byte_end()],
        ),
{
    if ws.len() == 0 {
        assert(concat(ws.map_values(f)) + seq![byte_end()] =~= seq![byte_end()]);
        lemma_starts_with_index(r, seq![byte_end()], 0);
    } else {
        let items = ws.map_values(f);
        lemma_concat_first(items);
        assert(items.drop_first() =~= ws.drop_first().map_values(f));
        let tail = concat(ws.drop_first().map_values(f)) + seq![byte_end()];
        assert(concat(items) + seq![byte_end()] =~= f(ws[0]) + tail);
        lemma_starts_with_split(r, f(ws[0]), tail);
        lemma_starts_with_index(r, f(ws[0]), 0);
    }
}

/// Growing the part of a list that was read by one item.
pub proof fn lemma_list_grow<T>(
    rest: Seq<u8>,
    f: spec_fn(T) -> Seq<u8>,
    v: Seq<T>,
    x: T,
)
    requires
        starts_with(rest, seq![byte_list()] + concat(v.map_values(f))),
        starts_with(rest.skip(1 + concat(v.map_values(f)).len() as int), f(x)),
    ensures
        starts_with(rest, seq![byte_list()] + concat(v.push(x).map_values(f))),
        concat(v.push(x).map_values(f)).len() == concat(v.map_values(f)).len() + f(x).len(),
{
    assert(v.push(x).map_values(f) =~= v.map_values(f).push(f(x)));
    lemma_concat_push(v.map_values(f), f(x));
    let a = seq![byte_list()] + concat(v.map_values(f));
    assert(seq![byte_list()] + concat(v.push(x).map_values(f)) =~= a + f(x));
    lemma_starts_with_split(rest, a, f(x));
}

/// Closing a list that was read in full.
pub proof fn lemma_list_close<T>(rest: Seq<u8>, f: spec_fn(T) -> Seq<u8>, v: Seq<T>)
    requires
        starts_with(rest, seq![byte_list()] + concat(v.map_values(f))),
        starts_with(rest.skip(1 + concat(v.map_values(f)).len() as int), seq![byte_end()]),
    ensures
        starts_with(rest, enc_list_of(v, f)),
        enc_list_of(v, f).len() == 2 + concat(v.map_values(f)).len(),
{
    let a = seq![byte_list()] + concat(v.map_values(f));
    assert(enc_list_of(v, f) =~= a + seq![byte_end()]);
    lemma_starts_with_split(rest, a, seq![byte_end()]);
}

/// One step of reading a list: either it closes here and was read in full,
/// or its next item is encoded here.
pub proof fn lemma_list_step<T>(
    s: Seq<u8>,
    pos: int,
    cur: int,
    f: spec_fn(T) -> Seq<u8>,
    v: Seq<T>,
    w: Seq<T>,
)
    requires
        0 <= pos < cur <= s.len(),
        item_enc_ok(f),
        starts_with(s.skip(pos), enc_list_of(w, f)),
        v.len() <= w.len(),
        w.take(v.len() as int) == v,
        cur == pos + 1 + concat(v.map_values(f)).len(),
    ensures
        cur < s.len(),
        s[cur] == byte_end() <==> v.len() == w.len(),
        v.len() == w.len() ==> w == v,
        v.len() < w.len() ==> starts_with(s.skip(cur), f(w[v.len() as int])),
        v.len() < w.len() ==> starts_with(
            s.skip(cur + f(w[v.len() as int]).len()),
            concat(w.skip(v.len() + 1 as int).map_values(f)) + seq![byte_end()],
        ),
{
    let k = v.len() as int;
    lemma_list_rest(s.skip(pos), f, w, k);
    assert(w.take(k).map_values(f) =~= v.map_values(f));
    lemma_skip_skip(s, pos, 1 + concat(v.map_values(f)).len() as int);
    let r = s.skip(cur);
    lemma_list_next(r, f, w.skip(k));
    assert(r[0] == s[cur]);
    if k == w.len() {
        assert(w =~= v);
    } else {
        assert(w.skip(k)[0] == w[k]);
        assert(w.skip(k).drop_first() =~= w.skip(k + 1));
        lemma_skip_skip(s, cur, f(w[k]).len() as int);
    }
}

pub open spec fn enc_u8(x: u8) -> Seq<u8> {
    enc_int(x as nat)
}

pub proof fn lemma_enc_u8_ok()
    ensures
        item_enc_ok(|x: u8| enc_u8(x)),
{
}

/// Reads a list of integers, each no greater than 255, at `pos`.
pub fn read_u8_list(s: &[u8], pos: usize) -> (r: Option<(Vec<u8>, usize)>)
    requires
        pos <= s@.len(),
    ensures
        r matches Some((v, e)) ==> e == pos + enc_u8_list(v@).len() && e <= s@.len()
            && starts_with(s@.skip(pos as int), enc_u8_list(v@)),
        forall|w: Seq<u8>|
            starts_with(s@.skip(pos as int), #[trigger] enc_u8_list(w)) ==> (r matches Some((v, _))
                && v@ == w),
{
    let ghost f = |x: u8| enc_u8(x);
    let ghost rest = s@.skip(pos as int);
    proof {
        lemma_enc_u8_ok();
        assert forall|w: Seq<u8>| #[trigger] enc_u8_list(w) == enc_list_of(w, f) by {
            assert(w.map_values(|x: u8| enc_int(x as nat)) =~= w.map_values(f));
        }
    }
    let lit: [u8; 1] = [108u8];
    match read_lit(s, pos, &lit) {
        None => {
            proof {
                assert forall|w: Seq<u8>| starts_with(rest, #[trigger] enc_u8_list(w)) implies false by {
                    lemma_starts_with_index(rest, enc_u8_list(w), 0);
                    assert(lit@ =~= seq![byte_list()]);
                    assert(starts_with(rest, lit@)) by {
                        assert(rest.subrange(0, 1) =~= lit@);
                    }
                }
            }
            return None;
        },
        Some(_) => {},
    }
    assert(lit@ =~= seq![byte_list()]);
    let mut v: Vec<u8> = Vec::new();
    let mut cur: usize = pos + 1;
    let slen = s.len();
    assert(seq![byte_list()] + concat(v@.map_values(f)) =~= seq![byte_list()]);
    loop
        invariant
            pos < cur <= s@.len(),
            slen == s@.len(),
            f == (|x: u8| enc_u8(x)),
            rest == s@.skip(pos as int),
            item_enc_ok(f),
            forall|w: Seq<u8>| #[trigger] enc_u8_list(w) == enc_list_of(w, f),
            starts_with(rest, seq![byte_list()] + concat(v@.map_values(f))),
            cur == pos + 1 + concat(v@.map_values(f)).len(),
            forall|w: Seq<u8>|
                starts_with(rest, #[trigger] enc_u8_list(w)) ==> v@.len() <= w.len() && w.take(
                    v@.len() as int,
                ) == v@,
        decreases s@.len() - cur,
    {
        let b = match peek_byte(s, cur) {
            None => {
                proof {
                    assert forall|w: Seq<u8>| starts_with(rest, #[trigger] enc_u8_list(w)) implies false by {
                        lemma_list_step(s@, pos as int, cur as int, f, v@, w);
                    }
                }
                return None;
            },
            Some(b) => b,
        };
        assert(cur < s@.len());
        if b == 101u8 {
            proof {
                assert forall|w: Seq<u8>| starts_with(rest, #[trigger] enc_u8_list(w)) implies v@ == w by {
                    lemma_list_step(s@, pos as int, cur as int, f, v@, w);
                }
                lemma_skip_skip(s@, pos as int, cur - pos);
                assert(starts_with(s@.skip(cur as int), seq![byte_end()])) by {
                    assert(s@.skip(cur as int).subrange(0, 1) =~= seq![byte_end()]);
                }
                lemma_list_close(rest, f, v@);
            }
            return Some((v, cur + 1));
        }
        match read_uint(s, cur, 255) {
            None => {
                proof {
                    assert forall|w: Seq<u8>| starts_with(rest, #[trigger] enc_u8_list(w)) implies false by {
                        lemma_list_step(s@, pos as int, cur as int, f, v@, w);
                        let m = w[v@.len() as int];
                        assert(f(m) == enc_int(m as nat));
                        assert(starts_with(s@.skip(cur as int), enc_int(m as nat)));
                    }
                }
                return None;
            },
            Some((n, e)) => {
                proof {
                    assert forall|w: Seq<u8>| starts_with(rest, #[trigger] enc_u8_list(w)) implies v@.len()
                        < w.len() && w[v@.len() as int] == n by {
                        lemma_list_step(s@, pos as int, cur as int, f, v@, w);
                        let m = w[v@.len() as int];
                        assert(f(m) == enc_int(m as nat));
                        assert(starts_with(s@.skip(cur as int), enc_int(m as nat)));
                    }
                    lemma_skip_skip(s@, pos as int, cur - pos);
                    lemma_list_grow(rest, f, v@, n as u8);
                }
                let ghost old_v = v@;
                v.push(n as u8);
                proof {
                    assert forall|w: Seq<u8>| starts_with(rest, #[trigger] enc_u8_list(w)) implies v@.len()
                        <= w.len() && w.take(v@.len() as int) == v@ by {
                        assert(w.take(old_v.len() as int) == old_v);
                        assert(w.take(v@.len() as int) =~= old_v.push(w[old_v.len() as int]));
                    }
                }
                cur = e;
            },
        }
    }
}

/// Reads the byte string `key` at `pos`.
pub fn read_key(s: &[u8], pos: usize, key: &[u8]) -> (r: Option<usize>)
    requires
        pos <= s@.len(),
    ensures
        r matches Some(e) ==> e == pos + enc_bytes(key@).len() && e <= s@.len(),
        r is Some <==> starts_with(s@.skip(pos as int), enc_bytes(key@)),
{
    let mut e: Vec<u8> = Vec::new();
    write_bytes(&mut e, key);
    assert(e@ =~= enc_bytes(key@));
    read_lit(s, pos, e.as_slice())
}

/// Reads a canonical integer that fits a `u16` at `pos`.
pub fn read_u16(s: &[u8], pos: usize) -> (r: Option<(u16, usize)>)
    requires
        pos <= s@.len(),
    ensures
        r matches Some((n, e)) ==> e == pos + enc_int(n as nat).len() && e <= s@.len()
            && starts_with(s@.skip(pos as int), enc_int(n as nat)),
        forall|m: u16|
            starts_with(s@.skip(pos as int), #[trigger] enc_int(m as nat)) ==> (r matches Some((n, _))
                && n == m),
{
    proof {
        assert forall|m: u16| starts_with(s@.skip(pos as int), #[trigger] enc_int(m as nat)) implies starts_with(
            s@.skip(pos as int),
            enc_int((m as u64) as nat),
        ) by {}
    }
    match read_uint(s, pos, 65535) {
        None => None,
        Some((n, e)) => Some((n as u16, e)),
    }
}

/// Reads a canonical integer that fits a `u32` at `pos`.
pub fn read_u32(s: &[u8], pos: usize) -> (r: Option<(u32, usize)>)
    requires
        pos <= s@.len(),
    ensures
        r matches Some((n, e)) ==> e == pos + enc_int(n as nat).len() && e <= s@.len()
            && starts_with(s@.skip(pos as int), enc_int(n as nat)),
        forall|m: u32|
            starts_with(s@.skip(pos as int), #[trigger] enc_int(m as nat)) ==> (r matches Some((n, _))
                && n == m),
{
    proof {
        assert forall|m: u32| starts_with(s@.skip(pos as int), #[trigger] enc_int(m as nat)) implies starts_with(
            s@.skip(pos as int),
            enc_int((m as u64) as nat),
        ) by {}
    }
    match read_uint(s, pos, 4294967295) {
        None => None,
        Some((n, e)) => Some((n as u32, e)),
    }
}

/// Reads a canonical integer that fits a `u64` at `pos`.
pub fn read_u64(s: &[u8], pos: usize) -> (r: Option<(u64, usize)>)
    requires
        pos <= s@.len(),
    ensures
        r matches Some((n, e)) ==> e == pos + enc_int(n as nat).len() && e <= s@.len()
            && starts_with(s@.skip(pos as int), enc_int(n as nat)),
        forall|m: u64|
            starts_with(s@.skip(pos as int), #[trigger] enc_int(m as nat)) ==> (r matches Some((n, _))
                && n == m),
{
    read_uint(s, pos, 18446744073709551615)
}

/// `concat` seen from the front.
pub proof fn lemma_concat_first(ss: Seq<Seq<u8>>)
    requires
        ss.len() > 0,
    ensures
        concat(ss) == ss[0] + concat(ss.drop_first()),
    decreases ss.len(),
{
    if ss.len() == 1 {
        assert(ss.drop_last() =~= Seq::<Seq<u8>>::empty());
        assert(ss.drop_first() =~= Seq::<Seq<u8>>::empty());
        assert(concat(ss) =~= ss[0] + concat(ss.drop_first()));
    } else {
        lemma_concat_first(ss.drop_last());
        assert(ss.drop_last().drop_first() =~= ss.drop_first().drop_last());
        assert(ss.drop_first().last() == ss.last());
        assert(concat(ss) =~= ss[0] + concat(ss.drop_first()));
    }
}

/// Law: an encoding followed by anything starts with that encoding. Every
/// decoder of this library ensures that the bytes that start with the
/// encoding of a value decode to that value, so a value decodes back from
/// what it encodes to, whatever follows it.
pub proof fn lemma_encoding_prefix(e: Seq<u8>, rest: Seq<u8>)
    ensures
        starts_with(e + rest, e),
{
    assert((e + rest).subrange(0, e.len() as int) =~= e);
}

} // verus!
